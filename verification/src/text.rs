//! Decimal rendering of counters and durations for progress reporting.

use vstd::prelude::*;

verus! {

/// The character for a single decimal digit.
pub open spec fn digit_char(d: int) -> char {
    ((48 + d) as u8) as char
}

/// The decimal digit string of `n`, most significant digit first.
pub open spec fn dec_digits(n: nat) -> Seq<char>
    decreases n,
{
    if n < 10 {
        seq![digit_char(n as int)]
    } else {
        dec_digits(n / 10).push(digit_char((n % 10) as int))
    }
}

/// `n` padded with a leading zero to at least two digits.
pub open spec fn pad2(n: nat) -> Seq<char> {
    if n < 10 {
        seq!['0', digit_char(n as int)]
    } else {
        dec_digits(n)
    }
}

/// Exactly three digits of `n < 1000`, zero padded.
pub open spec fn pad3(n: nat) -> Seq<char> {
    seq![digit_char(n as int / 100), digit_char((n as int / 10) % 10), digit_char(n as int % 10)]
}

fn digit_str(d: u8) -> (s: &'static str)
    requires
        d < 10,
    ensures
        s@ == seq![digit_char(d as int)],
{
    let s: &'static str = match d {
        0 => "0",
        1 => "1",
        2 => "2",
        3 => "3",
        4 => "4",
        5 => "5",
        6 => "6",
        7 => "7",
        8 => "8",
        _ => "9",
    };
    proof {
        reveal_strlit("0");
        reveal_strlit("1");
        reveal_strlit("2");
        reveal_strlit("3");
        reveal_strlit("4");
        reveal_strlit("5");
        reveal_strlit("6");
        reveal_strlit("7");
        reveal_strlit("8");
        reveal_strlit("9");
        assert(s@ =~= seq![digit_char(d as int)]);
    }
    s
}

/// The decimal representation of `n`, as `n.to_string()` would give it.
pub fn u64_to_string(n: u64) -> (s: String)
    ensures
        s@ == dec_digits(n as nat),
    decreases n,
{
    if n < 10 {
        let mut s = String::new();
        s.append(digit_str(n as u8));
        proof {
            assert(s@ =~= dec_digits(n as nat));
        }
        s
    } else {
        let mut s = u64_to_string(n / 10);
        s.append(digit_str((n % 10) as u8));
        proof {
            assert(s@ =~= dec_digits(n as nat));
        }
        s
    }
}

/// The digit string of `n` with a comma between every group of three
/// digits, counted from the right.
pub open spec fn grouped_digits(n: nat) -> Seq<char>
    decreases n,
{
    if n < 1000 {
        dec_digits(n)
    } else {
        grouped_digits(n / 1000) + seq![','] + pad3(n % 1000)
    }
}

/// Renders `n` with thousands separators, such as `1,234,567`.
pub fn format_number(n: u64) -> (s: String)
    ensures
        s@ == grouped_digits(n as nat),
    decreases n,
{
    if n < 1000 {
        u64_to_string(n)
    } else {
        let mut s = format_number(n / 1000);
        let rest = n % 1000;
        s.append(",");
        s.append(digit_str((rest / 100) as u8));
        s.append(digit_str((rest / 10 % 10) as u8));
        s.append(digit_str((rest % 10) as u8));
        proof {
            reveal_strlit(",");
            assert(s@ =~= grouped_digits(n as nat));
        }
        s
    }
}

fn two_digit(n: u64) -> (s: String)
    ensures
        s@ == pad2(n as nat),
{
    if n < 10 {
        let mut s = String::new();
        s.append("0");
        s.append(digit_str(n as u8));
        proof {
            reveal_strlit("0");
            assert(s@ =~= pad2(n as nat));
        }
        s
    } else {
        u64_to_string(n)
    }
}

/// What `format_duration` produces for a duration of `h` hundredths of a
/// second: hours, minutes and seconds, each zero padded to two digits,
/// with the hundredths appended when `show_ms` is set.
pub open spec fn duration_text(h: nat, show_ms: bool) -> Seq<char> {
    let base = pad2(h / 360000) + seq![':'] + pad2((h / 100) % 3600 / 60) + seq![':'] + pad2(
        (h / 100) % 60,
    );
    if show_ms {
        base + seq!['.'] + pad2(h % 100)
    } else {
        base
    }
}

/// Renders a duration given in hundredths of a second as
/// `HH:MM:SS`, or `HH:MM:SS.cc` when `show_ms` is set.
pub fn format_duration(total_hundredths: u64, show_ms: bool) -> (s: String)
    ensures
        s@ == duration_text(total_hundredths as nat, show_ms),
{
    let hours = total_hundredths / 360000;
    let minutes = total_hundredths / 100 % 3600 / 60;
    let seconds = total_hundredths / 100 % 60;
    let mut s = two_digit(hours);
    s.append(":");
    let m = two_digit(minutes);
    s.append(m.as_str());
    s.append(":");
    let sec = two_digit(seconds);
    s.append(sec.as_str());
    if show_ms {
        s.append(".");
        let f = two_digit(total_hundredths % 100);
        s.append(f.as_str());
        proof {
            reveal_strlit(":");
            reveal_strlit(".");
            assert(s@ =~= duration_text(total_hundredths as nat, show_ms));
        }
        s
    } else {
        proof {
            reveal_strlit(":");
            assert(s@ =~= duration_text(total_hundredths as nat, show_ms));
        }
        s
    }
}

/// `n` scaled by `unit` into hundredths, rounded half up: the integer
/// nearest to `100 * n / unit`.
pub open spec fn unit_hundredths(n: nat, unit: nat) -> nat
    recommends
        unit > 0,
{
    (n * 100 + unit / 2) / unit
}

/// The text `q.ff` where `q` is the whole part and `ff` the two-digit
/// fraction of `h` hundredths.
pub open spec fn hundredths_text(h: nat) -> Seq<char> {
    dec_digits(h / 100) + seq!['.'] + seq![digit_char(((h / 10) % 10) as int), digit_char(
        (h % 10) as int,
    )]
}

/// What `human_readable_number` produces for `n`.
pub open spec fn human_readable_text(n: nat) -> Seq<char> {
    if n >= 1000000000 {
        hundredths_text(unit_hundredths(n, 1000000000)) + " billion"@
    } else if n >= 1000000 {
        hundredths_text(unit_hundredths(n, 1000000)) + " million"@
    } else if n >= 1000 {
        hundredths_text(unit_hundredths(n, 1000)) + " thousand"@
    } else {
        dec_digits(n)
    }
}

fn scale_to_hundredths(n: u64, unit: u64) -> (h: u64)
    requires
        unit >= 1000,
    ensures
        h as nat == unit_hundredths(n as nat, unit as nat),
{
    let wide: u128 = (n as u128 * 100 + unit as u128 / 2) / (unit as u128);
    proof {
        assert(wide as int <= n as int / 10 + 1) by (nonlinear_arith)
            requires
                unit >= 1000,
                wide as int == (n as int * 100 + unit as int / 2) / (unit as int),
        ;
    }
    wide as u64
}

fn hundredths_string(h: u64) -> (s: String)
    ensures
        s@ == hundredths_text(h as nat),
{
    let mut s = u64_to_string(h / 100);
    s.append(".");
    s.append(digit_str((h / 10 % 10) as u8));
    s.append(digit_str((h % 10) as u8));
    proof {
        reveal_strlit(".");
        assert(s@ =~= hundredths_text(h as nat));
    }
    s
}

/// Renders a count with a coarse magnitude word, such as `1.23 million`;
/// numbers below one thousand keep their plain digits.
pub fn human_readable_number(n: u64) -> (s: String)
    ensures
        s@ == human_readable_text(n as nat),
{
    if n >= 1000000000 {
        let mut s = hundredths_string(scale_to_hundredths(n, 1000000000));
        s.append(" billion");
        proof {
            assert(s@ =~= human_readable_text(n as nat));
        }
        s
    } else if n >= 1000000 {
        let mut s = hundredths_string(scale_to_hundredths(n, 1000000));
        s.append(" million");
        proof {
            assert(s@ =~= human_readable_text(n as nat));
        }
        s
    } else if n >= 1000 {
        let mut s = hundredths_string(scale_to_hundredths(n, 1000));
        s.append(" thousand");
        proof {
            assert(s@ =~= human_readable_text(n as nat));
        }
        s
    } else {
        u64_to_string(n)
    }
}

} // verus!
