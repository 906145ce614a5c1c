use polyvoice::text::{format_duration, format_number, human_readable_number, u64_to_string};

#[test]
fn plain_numbers() {
    assert_eq!(u64_to_string(0), "0");
    assert_eq!(u64_to_string(7), "7");
    assert_eq!(u64_to_string(105), "105");
    assert_eq!(u64_to_string(18446744073709551615), "18446744073709551615");
}

#[test]
fn thousands_separators() {
    assert_eq!(format_number(0), "0");
    assert_eq!(format_number(999), "999");
    assert_eq!(format_number(1000), "1,000");
    assert_eq!(format_number(1234567), "1,234,567");
    assert_eq!(format_number(1000000007), "1,000,000,007");
}

#[test]
fn durations() {
    assert_eq!(format_duration(0, false), "00:00:00");
    assert_eq!(format_duration(0, true), "00:00:00.00");
    // One hour, one minute, one second and five hundredths.
    assert_eq!(format_duration(366105, true), "01:01:01.05");
    assert_eq!(format_duration(366105, false), "01:01:01");
    // Hours keep all their digits past two.
    assert_eq!(format_duration(100 * 3600 * 100, false), "100:00:00");
}

#[test]
fn human_readable_magnitudes() {
    assert_eq!(human_readable_number(999), "999");
    assert_eq!(human_readable_number(1234), "1.23 thousand");
    // Rounded half up at the second decimal.
    assert_eq!(human_readable_number(1235), "1.24 thousand");
    assert_eq!(human_readable_number(2340000), "2.34 million");
    assert_eq!(human_readable_number(1500000000), "1.50 billion");
    assert_eq!(human_readable_number(987654321098), "987.65 billion");
}
