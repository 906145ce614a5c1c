use polyvoice::limiter::{Limiter, AMP_ONE};

const ONE: i64 = AMP_ONE as i64;

fn coef_for_ms(ms: f64, sample_rate: f64) -> u64 {
    ((-1.0 / (ms / 1000.0 * sample_rate)).exp() * AMP_ONE as f64) as u64
}

fn db_to_linear(db: f64) -> u64 {
    (10f64.powf(db / 20.0) * AMP_ONE as f64) as u64
}

#[test]
fn transient_is_clamped_and_gain_relaxes() {
    // Threshold 0 dB, release 100 ms, envelope decay 20 ms, 48 kHz.
    let threshold = db_to_linear(0.0);
    assert_eq!(threshold, AMP_ONE);
    let mut l = Limiter::new(threshold, coef_for_ms(100.0, 48000.0), coef_for_ms(20.0, 48000.0));
    // One sample at amplitude 2.0: the attack clamps it to the threshold
    // within that very sample (gain snaps to 0.5).
    let first = l.process_sample(2 * ONE);
    assert_eq!(first, ONE);
    assert_eq!(l.smoothed_gain, AMP_ONE / 2);
    // Silence afterwards: output stays zero and the gain releases back
    // toward unity, monotonically non-decreasing.
    let mut prev_gain = l.smoothed_gain;
    for _ in 0..47999 {
        let out = l.process_sample(0);
        assert_eq!(out, 0);
        assert!(l.smoothed_gain >= prev_gain);
        assert!(l.smoothed_gain <= AMP_ONE);
        prev_gain = l.smoothed_gain;
    }
    assert!(l.smoothed_gain > 60000);
}

#[test]
fn silence_in_is_silence_out_whatever_the_state() {
    let mut l = Limiter::new(AMP_ONE / 2, coef_for_ms(100.0, 48000.0), coef_for_ms(20.0, 48000.0));
    // Drive the limiter into a loud regime first.
    let mut loud: Vec<i64> = (0..256).map(|i| (i % 5 - 2) * ONE).collect();
    l.process(&mut loud);
    // A fully silent buffer comes out fully silent.
    let mut quiet = vec![0i64; 512];
    l.process(&mut quiet);
    assert!(quiet.iter().all(|&s| s == 0));
}

#[test]
fn sustained_overdrive_converges_to_threshold() {
    let threshold = AMP_ONE / 2;
    let mut l = Limiter::new(threshold, coef_for_ms(100.0, 48000.0), coef_for_ms(20.0, 48000.0));
    let amp = 2 * ONE;
    let first = l.process_sample(amp);
    // The fast attack settles within one sample; after that the output
    // sits at the threshold, up to fixed-point quantization.
    assert_eq!(first, threshold as i64);
    for _ in 0..2000 {
        let out = l.process_sample(amp);
        assert!(out <= threshold as i64);
        assert!(out >= threshold as i64 - 2);
    }
}

#[test]
fn output_never_exceeds_threshold() {
    let threshold = db_to_linear(-6.0);
    let mut l = Limiter::new(threshold, coef_for_ms(50.0, 44100.0), coef_for_ms(10.0, 44100.0));
    let pattern: [i64; 8] = [0, ONE, -3 * ONE, ONE / 2, 4 * ONE, -ONE / 4, 0, 2 * ONE];
    for rep in 0..500 {
        let x = pattern[rep % 8];
        let out = l.process_sample(x);
        assert!(out <= threshold as i64);
        assert!(out >= -(threshold as i64));
        // The limiter only ever attenuates.
        assert!(out.abs() <= x.abs());
    }
}

#[test]
fn quiet_signal_passes_at_unity_gain() {
    let mut l = Limiter::new(AMP_ONE, coef_for_ms(100.0, 48000.0), coef_for_ms(20.0, 48000.0));
    let mut buf: Vec<i64> = vec![ONE / 4, -ONE / 8, ONE / 2, 0];
    let orig = buf.clone();
    l.process(&mut buf);
    // Nothing crosses the threshold, the gain never leaves unity.
    assert_eq!(buf, orig);
}
