//! Trailing-silence removal for generated wavetables.

use vstd::prelude::*;

verus! {

/// A sample counts as audible when its magnitude is above the silence
/// threshold of 50.
pub open spec fn audible(s: i16) -> bool {
    s > 50 || s < -50
}

/// One past the index of the last audible sample, or 0 when the whole
/// sequence is quiet.
pub open spec fn loud_end(s: Seq<i16>) -> int
    decreases s.len(),
{
    if s.len() == 0 {
        0
    } else if audible(s.last()) {
        s.len() as int
    } else {
        loud_end(s.drop_last())
    }
}

/// The trimmed sequence: everything after the last audible sample is cut
/// (a fully quiet sequence is kept whole), and a non-empty result shorter
/// than `sample_rate / 100` samples is padded with zeros to that length.
pub open spec fn trimmed(s: Seq<i16>, sample_rate: u32) -> Seq<i16> {
    let cut = if loud_end(s) > 0 {
        loud_end(s)
    } else {
        s.len() as int
    };
    let t = s.subrange(0, cut);
    let min_len = sample_rate as int / 100;
    if 0 < t.len() < min_len {
        t + Seq::new((min_len - t.len()) as nat, |i: int| 0i16)
    } else {
        t
    }
}

/// Cuts trailing silence from `samples` and pads a too-short result up to
/// ten milliseconds at `sample_rate`.
pub fn trim_silence(samples: Vec<i16>, sample_rate: u32) -> (r: Vec<i16>)
    ensures
        r@ == trimmed(samples@, sample_rate),
{
    let ghost orig = samples@;
    let mut samples = samples;
    let mut end_index = samples.len();
    let mut i = samples.len();
    let mut found = false;
    proof {
        assert(orig.subrange(0, samples.len() as int) =~= orig);
    }
    while i > 0
        invariant_except_break
            !found,
        invariant
            i <= samples.len(),
            samples@ == orig,
            !found ==> end_index == samples.len(),
            !found ==> loud_end(orig) == loud_end(orig.subrange(0, i as int)),
            found ==> end_index == loud_end(orig) && 0 < end_index <= samples.len(),
        ensures
            found || i == 0,
        decreases i,
    {
        let s = samples[i - 1];
        if s > 50 || s < -50 {
            end_index = i;
            found = true;
            proof {
                assert(orig.subrange(0, i as int).last() == orig[i - 1]);
                assert(loud_end(orig.subrange(0, i as int)) == i as int);
                assert(loud_end(orig) == i as int);
            }
            break ;
        } else {
            proof {
                assert(orig.subrange(0, i as int).drop_last() =~= orig.subrange(0, i - 1));
            }
            i = i - 1;
        }
    }
    proof {
        if !found {
            assert(orig.subrange(0, 0) =~= Seq::<i16>::empty());
            assert(loud_end(orig) == 0);
            assert(end_index == samples.len());
        }
        assert(orig.subrange(0, samples.len() as int) =~= orig);
    }
    samples.truncate(end_index);
    let ghost t = orig.subrange(
        0,
        if loud_end(orig) > 0 {
            loud_end(orig)
        } else {
            orig.len() as int
        },
    );
    proof {
        assert(samples@ =~= t);
    }
    let min_length_samples = (sample_rate / 100) as usize;
    if samples.len() < min_length_samples && samples.len() > 0 {
        while samples.len() < min_length_samples
            invariant
                t.len() <= samples.len() <= min_length_samples,
                samples@ == t + Seq::new((samples.len() - t.len()) as nat, |j: int| 0i16),
            decreases min_length_samples - samples.len(),
        {
            samples.push(0i16);
            proof {
                assert(samples@ =~= t + Seq::new((samples.len() - t.len()) as nat, |j: int| 0i16));
            }
        }
    }
    proof {
        assert(samples@ =~= trimmed(orig, sample_rate));
    }
    samples
}

} // verus!
