use polyvoice::samples::trim_silence;

#[test]
fn trims_trailing_silence_and_pads_to_minimum() {
    let samples = vec![100i16, 60, 10, 5];
    let out = trim_silence(samples, 48000);
    // Cut after the last audible sample, then padded to 10 ms (480).
    assert_eq!(out.len(), 480);
    assert_eq!(out[0], 100);
    assert_eq!(out[1], 60);
    assert!(out[2..].iter().all(|&s| s == 0));
}

#[test]
fn long_tail_is_cut_without_padding() {
    let mut samples = vec![200i16; 600];
    samples.extend(vec![3i16; 400]);
    let out = trim_silence(samples, 48000);
    assert_eq!(out.len(), 600);
    assert!(out.iter().all(|&s| s == 200));
}

#[test]
fn fully_quiet_input_is_kept_whole() {
    let samples = vec![10i16; 1000];
    let out = trim_silence(samples.clone(), 48000);
    assert_eq!(out, samples);
}

#[test]
fn empty_input_stays_empty() {
    let out = trim_silence(Vec::new(), 48000);
    assert!(out.is_empty());
}

#[test]
fn negative_samples_count_as_audible() {
    let samples = vec![-100i16, -10, -5];
    let out = trim_silence(samples, 100);
    // Minimum length at a 100 Hz rate is one sample.
    assert_eq!(out, vec![-100]);
}

#[test]
fn threshold_is_exclusive_at_fifty() {
    // Exactly 50 counts as silence, 51 does not.
    let out = trim_silence(vec![51i16, 50, 50], 100);
    assert_eq!(out, vec![51]);
    let kept = trim_silence(vec![50i16, 50], 100);
    assert_eq!(kept, vec![50, 50]);
}
