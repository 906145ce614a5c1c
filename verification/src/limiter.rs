//! A single-channel peak limiter with fast attack and smoothed release.
//!
//! Amplitudes are fixed-point values scaled by [`AMP_ONE`]: the value
//! `AMP_ONE` stands for full scale (1.0). The limiter keeps a fast-rising,
//! slowly decaying peak envelope of the recent input level and a smoothed
//! gain; the gain snaps down immediately when the envelope crosses the
//! threshold and eases back up with the release coefficient.

use vstd::arithmetic::div_mod::{
    lemma_div_is_ordered,
    lemma_div_multiples_vanish,
    lemma_fundamental_div_mod,
    lemma_mod_bound,
};
use vstd::arithmetic::mul::lemma_mul_inequality;
use vstd::prelude::*;

verus! {

/// One full-scale amplitude unit: fixed-point values carry sixteen
/// fractional bits.
pub const AMP_ONE: u64 = 65536;

/// The largest input magnitude the limiter accepts; leaves headroom so
/// that every internal product fits in sixty-four bits.
pub const MAX_AMPLITUDE: i64 = 1099511627776;

pub struct Limiter {
    /// Linear threshold, in `(0, AMP_ONE]`.
    pub threshold: u64,
    /// One-pole release coefficient, below `AMP_ONE`.
    pub release_coef: u64,
    /// One-pole decay coefficient of the peak envelope, below `AMP_ONE`.
    pub lookahead_coef: u64,
    /// Envelope of the recent peak input level.
    pub peak_envelope: u64,
    /// Current gain, in `[0, AMP_ONE]`.
    pub smoothed_gain: u64,
}

impl Limiter {
    /// Well-formedness: configuration in range and state within its bounds.
    pub open spec fn wf(&self) -> bool {
        &&& 1 <= self.threshold <= AMP_ONE
        &&& self.release_coef < AMP_ONE
        &&& self.lookahead_coef < AMP_ONE
        &&& self.smoothed_gain <= AMP_ONE
        &&& self.peak_envelope <= MAX_AMPLITUDE
    }

    /// The magnitude of a sample.
    pub open spec fn abs_amp(x: i64) -> int {
        if x >= 0 {
            x as int
        } else {
            -(x as int)
        }
    }

    /// The peak envelope after its one-pole decay.
    pub open spec fn decayed_peak(self) -> int {
        self.peak_envelope * self.lookahead_coef / (AMP_ONE as int)
    }

    /// The peak envelope after one sample: the decayed envelope, raised to
    /// the sample's magnitude when that is larger.
    pub open spec fn next_peak(self, x: i64) -> int {
        let d = self.decayed_peak();
        if Self::abs_amp(x) > d {
            Self::abs_amp(x)
        } else {
            d
        }
    }

    /// The instantaneous target gain for a peak level: unity at or below
    /// the threshold, else the ratio of threshold to peak. The integer
    /// division floors the ratio, and a peak above the threshold is at
    /// least 1, which plays the role of the division guard.
    pub open spec fn target_of(threshold: int, peak: int) -> int {
        if peak <= threshold {
            AMP_ONE as int
        } else {
            threshold * (AMP_ONE as int) / peak
        }
    }

    /// The smoothed gain after one sample at peak level `p`: an immediate
    /// snap down to the target, or a one-pole easing up toward it.
    pub open spec fn next_gain(self, p: int) -> int {
        let tg = Self::target_of(self.threshold as int, p);
        if tg < self.smoothed_gain {
            tg
        } else {
            (self.release_coef * self.smoothed_gain + (AMP_ONE - self.release_coef) * tg) / (
            AMP_ONE as int)
        }
    }

    /// The limiter state after one input sample.
    pub open spec fn stepped(self, x: i64) -> Limiter {
        Limiter {
            peak_envelope: self.next_peak(x) as u64,
            smoothed_gain: self.next_gain(self.next_peak(x)) as u64,
            ..self
        }
    }

    /// The output for one input sample: the input scaled by the new gain,
    /// truncated toward zero.
    pub open spec fn step_out(self, x: i64) -> int {
        let g = self.next_gain(self.next_peak(x));
        if x >= 0 {
            x * g / (AMP_ONE as int)
        } else {
            -((-x) * g / (AMP_ONE as int))
        }
    }

    /// Builds a limiter from an already validated configuration. The
    /// threshold is the linear form of a level at or below full scale;
    /// both coefficients are one-pole decays strictly below unity.
    pub fn new(threshold: u64, release_coef: u64, lookahead_coef: u64) -> (l: Limiter)
        requires
            1 <= threshold <= AMP_ONE,
            release_coef < AMP_ONE,
            lookahead_coef < AMP_ONE,
        ensures
            l.wf(),
            l.threshold == threshold,
            l.release_coef == release_coef,
            l.lookahead_coef == lookahead_coef,
            l.peak_envelope == 0,
            l.smoothed_gain == AMP_ONE,
    {
        Limiter { threshold, release_coef, lookahead_coef, peak_envelope: 0, smoothed_gain: AMP_ONE }
    }

    /// Processes one sample and returns the limited output. The state
    /// follows the per-sample equations exactly; the output never exceeds
    /// the threshold, never exceeds the input magnitude, and is zero for a
    /// zero input.
    pub fn process_sample(&mut self, x: i64) -> (out: i64)
        requires
            old(self).wf(),
            -MAX_AMPLITUDE <= x <= MAX_AMPLITUDE,
        ensures
            final(self).wf(),
            *final(self) == old(self).stepped(x),
            out as int == old(self).step_out(x),
            -MAX_AMPLITUDE <= out <= MAX_AMPLITUDE,
            x == 0 ==> out == 0,
            x >= 0 ==> 0 <= out <= x,
            x < 0 ==> x <= out <= 0,
            -(final(self).threshold as int) <= out <= final(self).threshold,
    {
        let ghost pre = *self;
        let ax: u64 = if x >= 0 {
            x as u64
        } else {
            (-x) as u64
        };
        proof {
            assert((self.peak_envelope as int) * (self.lookahead_coef as int) < 72057594037927936int) by (nonlinear_arith)
                requires
                    self.peak_envelope <= 1099511627776int,
                    self.lookahead_coef < 65536,
            ;
        }
        let decayed: u64 = self.peak_envelope * self.lookahead_coef / AMP_ONE;
        proof {
            lemma_scale_by_unit_or_less(self.peak_envelope as int, self.lookahead_coef as int);
        }
        let peak: u64 = if ax > decayed {
            ax
        } else {
            decayed
        };
        self.peak_envelope = peak;
        let target: u64 = if peak <= self.threshold {
            AMP_ONE
        } else {
            proof {
                lemma_target_in_range(self.threshold as int, peak as int);
            }
            self.threshold * AMP_ONE / peak
        };
        let gain: u64 = if target < self.smoothed_gain {
            target
        } else {
            proof {
                lemma_ease_between(
                    self.smoothed_gain as int,
                    target as int,
                    self.release_coef as int,
                );
            }
            (self.release_coef * self.smoothed_gain + (AMP_ONE - self.release_coef) * target)
                / AMP_ONE
        };
        self.smoothed_gain = gain;
        proof {
            lemma_scale_by_unit_or_less(ax as int, gain as int);
        }
        let out_mag: u64 = ax * gain / AMP_ONE;
        proof {
            if peak > self.threshold {
                lemma_clamped_product(self.threshold as int, peak as int, ax as int, gain as int);
            }
        }
        if x >= 0 {
            out_mag as i64
        } else {
            -(out_mag as i64)
        }
    }

    /// Processes a whole buffer in place, sample by sample in order.
    /// Every output sample is bounded by the threshold and by its input's
    /// magnitude, and zero inputs stay zero whatever the prior state.
    pub fn process(&mut self, buffer: &mut Vec<i64>)
        requires
            old(self).wf(),
            forall|i: int|
                0 <= i < old(buffer)@.len() ==> -MAX_AMPLITUDE <= #[trigger] (old(buffer)@[i])
                    <= MAX_AMPLITUDE,
        ensures
            final(self).wf(),
            final(buffer)@.len() == old(buffer)@.len(),
            *final(self) == run_limiter(*old(self), old(buffer)@).0,
            final(buffer)@ == run_limiter(*old(self), old(buffer)@).1,
            forall|i: int|
                0 <= i < final(buffer)@.len() ==> -(final(self).threshold as int) <= #[trigger] (
                final(buffer)@[i]) <= final(self).threshold,
            forall|i: int|
                0 <= i < old(buffer)@.len() && old(buffer)@[i] == 0 ==> #[trigger] (
                final(buffer)@[i]) == 0,
    {
        let ghost l0 = *self;
        let ghost input = buffer@;
        let n = buffer.len();
        let mut i: usize = 0;
        proof {
            assert(input.take(0) =~= Seq::<i64>::empty());
            assert(buffer@.subrange(0, 0) =~= run_limiter(l0, input.take(0)).1);
        }
        while i < n
            invariant
                i <= n,
                n == buffer@.len(),
                input.len() == n,
                l0.wf(),
                self.wf(),
                self.threshold == l0.threshold,
                *self == run_limiter(l0, input.take(i as int)).0,
                buffer@.subrange(0, i as int) == run_limiter(l0, input.take(i as int)).1,
                forall|j: int| i <= j < n ==> buffer@[j] == input[j],
                forall|j: int|
                    0 <= j < n ==> -MAX_AMPLITUDE <= #[trigger] input[j] <= MAX_AMPLITUDE,
                forall|j: int|
                    0 <= j < i ==> -(self.threshold as int) <= #[trigger] (buffer@[j])
                        <= self.threshold,
                forall|j: int| 0 <= j < i && input[j] == 0 ==> buffer@[j] == 0,
            decreases n - i,
        {
            let x = buffer[i];
            proof {
                assert(buffer@[i as int] == input[i as int]);
                assert(-MAX_AMPLITUDE <= input[i as int] <= MAX_AMPLITUDE);
            }
            let y = self.process_sample(x);
            buffer.set(i, y);
            proof {
                assert(input.take(i + 1).drop_last() =~= input.take(i as int));
                assert(input.take(i + 1).last() == input[i as int]);
                assert(buffer@.subrange(0, i + 1) =~= run_limiter(l0, input.take(i + 1)).1);
            }
            i = i + 1;
        }
        proof {
            assert(input.take(n as int) =~= input);
            assert(buffer@.subrange(0, n as int) =~= buffer@);
        }
    }
}

/// The state and output sequence after running the limiter over a whole
/// input sequence, in order.
pub open spec fn run_limiter(l: Limiter, xs: Seq<i64>) -> (Limiter, Seq<i64>)
    decreases xs.len(),
{
    if xs.len() == 0 {
        (l, Seq::empty())
    } else {
        let (lp, ys) = run_limiter(l, xs.drop_last());
        (lp.stepped(xs.last()), ys.push(lp.step_out(xs.last()) as i64))
    }
}

/// For a sustained input at a constant amplitude `a` above the threshold,
/// one sample is enough to settle: the peak envelope reaches `a`, the
/// gain snaps to the target ratio, and the output lands at the threshold,
/// short of it by less than one input quantum. The resulting state
/// satisfies the same premises, so every later sample of the same
/// amplitude gives the same output again.
pub proof fn lemma_constant_input_settles(l: Limiter, a: i64)
    requires
        l.wf(),
        0 < a <= MAX_AMPLITUDE,
        a > l.threshold,
        l.peak_envelope <= a,
        l.smoothed_gain >= Limiter::target_of(l.threshold as int, a as int),
    ensures
        l.stepped(a).peak_envelope == a,
        l.stepped(a).smoothed_gain == Limiter::target_of(l.threshold as int, a as int),
        l.step_out(a) <= l.threshold,
        l.step_out(a) * (AMP_ONE as int) > (l.threshold as int) * (AMP_ONE as int) - a - AMP_ONE,
        l.stepped(a).wf(),
        l.stepped(a).peak_envelope <= a,
        l.stepped(a).smoothed_gain >= Limiter::target_of(l.threshold as int, a as int),
{
    let t = l.threshold as int;
    let s = l.smoothed_gain as int;
    lemma_scale_by_unit_or_less(l.peak_envelope as int, l.lookahead_coef as int);
    assert(l.next_peak(a) == a as int);
    let tg = Limiter::target_of(t, a as int);
    lemma_target_in_range(t, a as int);
    if tg < s {
        assert(l.next_gain(a as int) == tg);
    } else {
        assert(tg == s);
        assert((l.release_coef as int) * s + ((AMP_ONE as int) - (l.release_coef as int)) * s == (
        AMP_ONE as int) * s) by (nonlinear_arith);
        lemma_div_multiples_vanish(s, AMP_ONE as int);
        assert(l.next_gain(a as int) == tg);
    }
    lemma_clamped_product(t, a as int, a as int, tg);
    lemma_fundamental_div_mod(t * (AMP_ONE as int), a as int);
    lemma_mod_bound(t * (AMP_ONE as int), a as int);
    assert((a as int) * tg >= t * (AMP_ONE as int) - a) by (nonlinear_arith)
        requires
            t * (AMP_ONE as int) == (a as int) * tg + t * (AMP_ONE as int) % (a as int),
            0 <= t * (AMP_ONE as int) % (a as int) < a,
    ;
    lemma_fundamental_div_mod((a as int) * tg, AMP_ONE as int);
    lemma_mod_bound((a as int) * tg, AMP_ONE as int);
    assert(l.step_out(a) == (a as int) * tg / (AMP_ONE as int));
    assert((AMP_ONE as int) * (l.step_out(a)) > (a as int) * tg - AMP_ONE);
    lemma_div_is_ordered(0, (a as int) * tg, AMP_ONE as int);
}

/// Sustained constant input above the threshold: over a whole run of
/// identical samples at amplitude `a`, starting with the gain settled at
/// or above its target, every output sample sits at the threshold, short
/// of it by less than one input quantum, and the gain stays settled at
/// the target ratio throughout.
pub proof fn lemma_constant_overdrive_run(l: Limiter, a: i64, n: int)
    requires
        l.wf(),
        0 < a <= MAX_AMPLITUDE,
        a > l.threshold,
        l.peak_envelope <= a,
        l.smoothed_gain >= Limiter::target_of(l.threshold as int, a as int),
        0 <= n,
    ensures
        ({
            let r = run_limiter(l, Seq::new(n as nat, |i: int| a));
            &&& r.1.len() == n
            &&& forall|i: int| 0 <= i < n ==> #[trigger] r.1[i] <= l.threshold
            &&& forall|i: int|
                0 <= i < n ==> #[trigger] (r.1[i] * (AMP_ONE as int)) > (l.threshold as int) * (
                AMP_ONE as int) - a - AMP_ONE
            &&& r.0.wf()
            &&& r.0.threshold == l.threshold
            &&& r.0.peak_envelope <= a
            &&& r.0.smoothed_gain >= Limiter::target_of(l.threshold as int, a as int)
        }),
    decreases n,
{
    let xs = Seq::new(n as nat, |i: int| a);
    if n > 0 {
        assert(xs.drop_last() =~= Seq::new((n - 1) as nat, |i: int| a));
        lemma_constant_overdrive_run(l, a, n - 1);
        let prev = run_limiter(l, xs.drop_last());
        let lp = prev.0;
        lemma_constant_input_settles(lp, a);
        assert(xs.last() == a);
        let r = run_limiter(l, xs);
        assert(r.0 == lp.stepped(a));
        assert(r.1 =~= prev.1.push(lp.step_out(a) as i64));
        assert(lp.step_out(a) <= lp.threshold);
        assert forall|i: int| 0 <= i < n implies #[trigger] r.1[i] <= l.threshold by {
            if i < n - 1 {
                assert(r.1[i] == prev.1[i]);
            }
        }
        assert forall|i: int|
            0 <= i < n implies #[trigger] (r.1[i] * (AMP_ONE as int)) > (l.threshold as int) * (
        AMP_ONE as int) - a - AMP_ONE by {
            if i < n - 1 {
                assert(r.1[i] == prev.1[i]);
            }
        }
    }
}

/// While the gain sits at or below the instantaneous target, a sample
/// only eases it upward: the released gain never falls and never
/// overshoots the target. This is the smooth-release half of the gain
/// update.
pub proof fn lemma_release_toward_target(l: Limiter, x: i64)
    requires
        l.wf(),
        -MAX_AMPLITUDE <= x <= MAX_AMPLITUDE,
        l.smoothed_gain <= Limiter::target_of(l.threshold as int, l.next_peak(x)),
    ensures
        l.smoothed_gain <= l.stepped(x).smoothed_gain,
        l.stepped(x).smoothed_gain <= Limiter::target_of(l.threshold as int, l.next_peak(x)),
{
    let t = l.threshold as int;
    let p = l.next_peak(x);
    let tg = Limiter::target_of(t, p);
    lemma_scale_by_unit_or_less(l.peak_envelope as int, l.lookahead_coef as int);
    if p > t {
        lemma_target_in_range(t, p);
    }
    lemma_ease_between(l.smoothed_gain as int, tg, l.release_coef as int);
}

/// During a release the gain gap below the target contracts by the
/// release coefficient, up to one fixed-point quantum: repeated samples
/// that keep the gain at or below its target close the gap
/// geometrically, so the gain converges to the target.
pub proof fn lemma_release_gap_contracts(l: Limiter, x: i64)
    requires
        l.wf(),
        -MAX_AMPLITUDE <= x <= MAX_AMPLITUDE,
        l.smoothed_gain <= Limiter::target_of(l.threshold as int, l.next_peak(x)),
    ensures
        ({
            let tg = Limiter::target_of(l.threshold as int, l.next_peak(x));
            (tg - l.stepped(x).smoothed_gain) * (AMP_ONE as int) <= (l.release_coef as int) * (tg
                - l.smoothed_gain) + (AMP_ONE as int) - 1
        }),
{
    let s = l.smoothed_gain as int;
    let rc = l.release_coef as int;
    let p = l.next_peak(x);
    let t = l.threshold as int;
    let tg = Limiter::target_of(t, p);
    lemma_scale_by_unit_or_less(l.peak_envelope as int, l.lookahead_coef as int);
    if p > t {
        lemma_target_in_range(t, p);
    }
    lemma_ease_between(s, tg, rc);
    let a = rc * s + ((AMP_ONE as int) - rc) * tg;
    let q = a / (AMP_ONE as int);
    lemma_fundamental_div_mod(a, AMP_ONE as int);
    lemma_mod_bound(a, AMP_ONE as int);
    assert(l.stepped(x).smoothed_gain == q);
    assert((AMP_ONE as int) * (tg - q) == rc * (tg - s) + a % (AMP_ONE as int)) by (nonlinear_arith)
        requires
            a == rc * s + ((AMP_ONE as int) - rc) * tg,
            a == (AMP_ONE as int) * q + a % (AMP_ONE as int),
    ;
    assert((tg - q) * (AMP_ONE as int) == (AMP_ONE as int) * (tg - q)) by (nonlinear_arith);
}

/// A run of silence: every output is zero, whatever the prior state,
/// and from a relaxed state (gain at or below its target) the gain only
/// rises while the peak envelope only decays.
pub proof fn lemma_silence_run(l: Limiter, n: int)
    requires
        l.wf(),
        l.smoothed_gain <= Limiter::target_of(l.threshold as int, l.peak_envelope as int),
        0 <= n,
    ensures
        ({
            let r = run_limiter(l, Seq::new(n as nat, |i: int| 0i64));
            &&& r.1.len() == n
            &&& forall|i: int| 0 <= i < n ==> #[trigger] r.1[i] == 0
            &&& r.0.wf()
            &&& r.0.threshold == l.threshold
            &&& r.0.smoothed_gain >= l.smoothed_gain
            &&& r.0.peak_envelope <= l.peak_envelope
            &&& r.0.smoothed_gain <= Limiter::target_of(
                l.threshold as int,
                r.0.peak_envelope as int,
            )
        }),
    decreases n,
{
    let xs = Seq::new(n as nat, |i: int| 0i64);
    if n > 0 {
        assert(xs.drop_last() =~= Seq::new((n - 1) as nat, |i: int| 0i64));
        lemma_silence_run(l, n - 1);
        let prev = run_limiter(l, xs.drop_last());
        let lp = prev.0;
        lemma_zero_input_release(lp);
        assert(xs.last() == 0);
        let r = run_limiter(l, xs);
        assert(r.0 == lp.stepped(0));
        assert(r.1 =~= prev.1.push(lp.step_out(0) as i64));
        assert forall|i: int| 0 <= i < n implies #[trigger] r.1[i] == 0 by {
            if i < n - 1 {
                assert(r.1[i] == prev.1[i]);
            }
        }
    }
}

/// A lower peak level never asks for a smaller gain: the target is
/// antitone in the peak envelope.
pub proof fn lemma_target_antitone(t: int, p1: int, p2: int)
    requires
        1 <= t,
        0 <= p1 <= p2,
    ensures
        Limiter::target_of(t, p1) >= Limiter::target_of(t, p2),
{
    if p2 <= t {
    } else if p1 <= t {
        lemma_target_in_range(t, p2);
    } else {
        vstd::arithmetic::div_mod::lemma_div_is_ordered_by_denominator(
            t * (AMP_ONE as int),
            p1,
            p2,
        );
    }
}

/// On silence the limiter only relaxes: a zero input sample produces a
/// zero output, lets the peak envelope decay, and moves a gain that sits
/// at or below its target monotonically upward, still at or below the new
/// target. Starting from such a state, the gain over a run of zero
/// samples is non-decreasing.
pub proof fn lemma_zero_input_release(l: Limiter)
    requires
        l.wf(),
        l.smoothed_gain <= Limiter::target_of(l.threshold as int, l.peak_envelope as int),
    ensures
        l.step_out(0) == 0,
        l.stepped(0).peak_envelope <= l.peak_envelope,
        l.stepped(0).smoothed_gain >= l.smoothed_gain,
        l.stepped(0).smoothed_gain <= Limiter::target_of(
            l.threshold as int,
            l.stepped(0).peak_envelope as int,
        ),
        l.stepped(0).wf(),
{
    let t = l.threshold as int;
    lemma_scale_by_unit_or_less(l.peak_envelope as int, l.lookahead_coef as int);
    assert(l.next_peak(0) == l.decayed_peak());
    lemma_target_antitone(t, l.next_peak(0), l.peak_envelope as int);
    if l.next_peak(0) > t {
        lemma_target_in_range(t, l.next_peak(0));
    }
    lemma_release_toward_target(l, 0);
    let g = l.next_gain(l.next_peak(0));
    assert(0 * g / (AMP_ONE as int) == 0) by {
        lemma_div_multiples_vanish(0, AMP_ONE as int);
        assert(0 * g == (AMP_ONE as int) * 0) by (nonlinear_arith);
    }
}

proof fn lemma_scale_by_unit_or_less(v: int, c: int)
    requires
        0 <= v,
        0 <= c <= AMP_ONE,
    ensures
        0 <= v * c / (AMP_ONE as int) <= v,
{
    lemma_mul_inequality(c, AMP_ONE as int, v);
    assert(v * c == c * v) by (nonlinear_arith);
    assert(v * (AMP_ONE as int) == (AMP_ONE as int) * v) by (nonlinear_arith);
    lemma_div_is_ordered(v * c, v * (AMP_ONE as int), AMP_ONE as int);
    lemma_div_multiples_vanish(v, AMP_ONE as int);
    lemma_div_is_ordered(0, v * c, AMP_ONE as int);
}

proof fn lemma_target_in_range(t: int, peak: int)
    requires
        1 <= t < peak,
    ensures
        0 <= t * (AMP_ONE as int) / peak < AMP_ONE,
{
    assert(t * (AMP_ONE as int) <= (peak - 1) * (AMP_ONE as int)) by {
        lemma_mul_inequality(t, peak - 1, AMP_ONE as int);
    }
    assert((peak - 1) * (AMP_ONE as int) == peak * (AMP_ONE as int) - (AMP_ONE as int))
        by (nonlinear_arith);
    lemma_div_is_ordered(t * (AMP_ONE as int), peak * (AMP_ONE as int) - (AMP_ONE as int), peak);
    assert(peak * (AMP_ONE as int) - (AMP_ONE as int) == peak * ((AMP_ONE as int) - 1) + (peak - (
    AMP_ONE as int))) by (nonlinear_arith);
    assert((peak * ((AMP_ONE as int) - 1) + (peak - (AMP_ONE as int))) / peak <= (AMP_ONE as int)
        - 1) by {
        if peak - (AMP_ONE as int) < 0 {
            assert(peak * ((AMP_ONE as int) - 1) + (peak - (AMP_ONE as int)) <= peak * ((
            AMP_ONE as int) - 1) + 0);
            lemma_div_is_ordered(
                peak * ((AMP_ONE as int) - 1) + (peak - (AMP_ONE as int)),
                peak * ((AMP_ONE as int) - 1),
                peak,
            );
            lemma_div_multiples_vanish((AMP_ONE as int) - 1, peak);
        } else {
            assert(peak * ((AMP_ONE as int) - 1) + (peak - (AMP_ONE as int)) <= peak * ((
            AMP_ONE as int) - 1) + (peak - 1));
            lemma_div_is_ordered(
                peak * ((AMP_ONE as int) - 1) + (peak - (AMP_ONE as int)),
                peak * ((AMP_ONE as int) - 1) + (peak - 1),
                peak,
            );
            vstd::arithmetic::div_mod::lemma_div_multiples_vanish_fancy(
                (AMP_ONE as int) - 1,
                peak - 1,
                peak,
            );
        }
    }
    lemma_div_is_ordered(0, t * (AMP_ONE as int), peak);
}

proof fn lemma_ease_between(s: int, g: int, rc: int)
    requires
        0 <= s <= g,
        g <= AMP_ONE,
        0 <= rc < AMP_ONE,
    ensures
        s <= (rc * s + ((AMP_ONE as int) - rc) * g) / (AMP_ONE as int) <= g,
{
    assert(rc * s + ((AMP_ONE as int) - rc) * g >= (AMP_ONE as int) * s) by (nonlinear_arith)
        requires
            0 <= s <= g,
            0 <= rc < AMP_ONE,
    ;
    assert(rc * s + ((AMP_ONE as int) - rc) * g <= (AMP_ONE as int) * g) by (nonlinear_arith)
        requires
            0 <= s <= g,
            0 <= rc < AMP_ONE,
    ;
    lemma_div_is_ordered(
        (AMP_ONE as int) * s,
        rc * s + ((AMP_ONE as int) - rc) * g,
        AMP_ONE as int,
    );
    lemma_div_is_ordered(
        rc * s + ((AMP_ONE as int) - rc) * g,
        (AMP_ONE as int) * g,
        AMP_ONE as int,
    );
    lemma_div_multiples_vanish(s, AMP_ONE as int);
    lemma_div_multiples_vanish(g, AMP_ONE as int);
}

proof fn lemma_clamped_product(t: int, peak: int, ax: int, g: int)
    requires
        1 <= t < peak,
        0 <= ax <= peak,
        0 <= g <= t * (AMP_ONE as int) / peak,
    ensures
        ax * g / (AMP_ONE as int) <= t,
{
    let q = t * (AMP_ONE as int) / peak;
    lemma_fundamental_div_mod(t * (AMP_ONE as int), peak);
    lemma_mod_bound(t * (AMP_ONE as int), peak);
    assert(peak * q <= t * (AMP_ONE as int));
    assert(ax * g <= peak * q) by (nonlinear_arith)
        requires
            0 <= ax <= peak,
            0 <= g <= q,
    ;
    lemma_div_is_ordered(ax * g, t * (AMP_ONE as int), AMP_ONE as int);
    lemma_div_multiples_vanish(t, AMP_ONE as int);
    assert(t * (AMP_ONE as int) == (AMP_ONE as int) * t) by (nonlinear_arith);
}

} // verus!
