//! The two stateless buffer utilities: gain scaling and linear
//! crossfading. Both are pure functions of their inputs and touch no
//! mixer state.

use vstd::prelude::*;

verus! {

use crate::fixed::MAX_AMP;
use crate::fixed::MAX_LEN;
use crate::fixed::SCALE;
use crate::fixed::floor_div;
use crate::fixed::lemma_div_bound_by;
use crate::mixer::AudioMixer;
use crate::mixer::gained_sample;

/// Every sample of the buffer lies in the fixed-point working range.
pub open spec fn amp_ok(s: Seq<i64>) -> bool {
    forall|i: int| 0 <= i < s.len() ==> -MAX_AMP <= #[trigger] s[i] <= MAX_AMP
}

/// Numerator of the linear fade-out weight at overlap position `p` of a
/// crossfade over `n` samples; the weight itself is this over `n`.
pub open spec fn fade_out_num(n: int, p: int) -> int {
    n - p
}

/// Numerator of the linear fade-in weight at overlap position `p` of a
/// crossfade over `n` samples; the weight itself is this over `n`.
pub open spec fn fade_in_num(n: int, p: int) -> int {
    p
}

/// The value of slot `i` of a crossfade of `a` into `b` over `n`
/// samples: the untouched prefix of `a`, then the faded-out tail of `a`
/// summed with the faded-in head of `b`, then the untouched remainder
/// of `b`.
pub open spec fn crossfade_at(a: Seq<i64>, b: Seq<i64>, n: int, i: int) -> int {
    let pre = a.len() - n;
    if i < pre {
        a[i] as int
    } else if i < a.len() {
        (a[i] * fade_out_num(n, i - pre)) / n + (b[i - pre] * fade_in_num(n, i - pre)) / n
    } else {
        b[i - pre] as int
    }
}

impl AudioMixer {
    /// Builds a new buffer in which every sample carries the given gain;
    /// length-preserving, with no clamping and no normalization.
    #[verifier::loop_isolation(false)]
    pub fn apply_gain(samples: &Vec<i64>, gain: i64) -> (out: Vec<i64>)
        requires
            amp_ok(samples@),
            -MAX_AMP <= gain <= MAX_AMP,
        ensures
            out@.len() == samples@.len(),
            forall|i: int|
                0 <= i < samples@.len() ==> #[trigger] out@[i] as int == gained_sample(
                    samples@[i] as int,
                    gain as int,
                ),
    {
        let mut out: Vec<i64> = Vec::new();
        let mut i: usize = 0;
        while i < samples.len()
            invariant
                i <= samples@.len(),
                out@.len() == i,
                forall|q: int|
                    0 <= q < i as int ==> #[trigger] out@[q] as int == gained_sample(
                        samples@[q] as int,
                        gain as int,
                    ),
            decreases samples@.len() - i,
        {
            let s = samples[i];
            proof {
                assert(-0x4000_0000_0000_0000 <= (s as int) * (gain as int)
                    <= 0x4000_0000_0000_0000) by (nonlinear_arith)
                    requires
                        -MAX_AMP <= s <= MAX_AMP && -MAX_AMP <= gain <= MAX_AMP && MAX_AMP
                            == 0x400000,
                ;
            }
            out.push(floor_div(s * gain, SCALE));
            i = i + 1;
        }
        out
    }

    /// Joins two buffers with a linear crossfade over `fade_samples`
    /// samples: the tail of `buffer_a` fades out while the head of
    /// `buffer_b` fades in, the two ramps summing to unity at every
    /// overlap position. A fade of 0 concatenates the buffers.
    #[verifier::loop_isolation(false)]
    pub fn crossfade(buffer_a: &Vec<i64>, buffer_b: &Vec<i64>, fade_samples: usize) -> (out: Vec<
        i64,
    >)
        requires
            fade_samples <= buffer_a@.len(),
            fade_samples <= buffer_b@.len(),
            buffer_a@.len() + buffer_b@.len() <= MAX_LEN,
            amp_ok(buffer_a@),
            amp_ok(buffer_b@),
        ensures
            out@.len() == buffer_a@.len() + buffer_b@.len() - fade_samples,
            forall|i: int|
                0 <= i < out@.len() ==> #[trigger] out@[i] as int == crossfade_at(
                    buffer_a@,
                    buffer_b@,
                    fade_samples as int,
                    i,
                ),
    {
        let ghost av = buffer_a@;
        let ghost bv = buffer_b@;
        let ghost n = fade_samples as int;
        let alen = buffer_a.len();
        let blen = buffer_b.len();
        let pre = alen - fade_samples;
        let mut out: Vec<i64> = Vec::new();
        let mut i: usize = 0;
        while i < pre
            invariant
                i <= pre,
                out@.len() == i,
                forall|q: int| 0 <= q < i as int ==> #[trigger] out@[q] as int == crossfade_at(av, bv, n, q),
            decreases pre - i,
        {
            out.push(buffer_a[i]);
            i = i + 1;
        }
        let mut p: usize = 0;
        while p < fade_samples
            invariant
                p <= fade_samples,
                out@.len() == pre + p,
                forall|q: int|
                    0 <= q < out@.len() ==> #[trigger] out@[q] as int == crossfade_at(av, bv, n, q),
            decreases fade_samples - p,
        {
            let sa = buffer_a[pre + p];
            let sb = buffer_b[p];
            let wo = (fade_samples - p) as i64;
            let wi = p as i64;
            proof {
                assert(-0x4000_0000_0000_0000 <= (sa as int) * (wo as int)
                    <= 0x4000_0000_0000_0000) by (nonlinear_arith)
                    requires
                        -MAX_AMP <= sa <= MAX_AMP && 0 <= wo <= MAX_LEN && MAX_AMP == 0x400000
                            && MAX_LEN == 0x40000000,
                ;
                assert(-0x4000_0000_0000_0000 <= (sb as int) * (wi as int)
                    <= 0x4000_0000_0000_0000) by (nonlinear_arith)
                    requires
                        -MAX_AMP <= sb <= MAX_AMP && 0 <= wi <= MAX_LEN && MAX_AMP == 0x400000
                            && MAX_LEN == 0x40000000,
                ;
                assert(-(MAX_AMP as int * n) <= (sa as int) * (wo as int) <= MAX_AMP as int * n)
                    by (nonlinear_arith)
                    requires
                        -MAX_AMP <= sa <= MAX_AMP && 0 <= wo <= n,
                ;
                assert(-(MAX_AMP as int * n) <= (sb as int) * (wi as int) <= MAX_AMP as int * n)
                    by (nonlinear_arith)
                    requires
                        -MAX_AMP <= sb <= MAX_AMP && 0 <= wi <= n,
                ;
                lemma_div_bound_by((sa as int) * (wo as int), n, MAX_AMP as int);
                lemma_div_bound_by((sb as int) * (wi as int), n, MAX_AMP as int);
            }
            let fo = floor_div(sa * wo, fade_samples as i64);
            let fi = floor_div(sb * wi, fade_samples as i64);
            out.push(fo + fi);
            proof {
                assert(out@.last() as int == crossfade_at(av, bv, n, pre as int + p as int));
            }
            p = p + 1;
        }
        let mut r: usize = fade_samples;
        while r < blen
            invariant
                fade_samples <= r <= blen,
                out@.len() == pre + r,
                forall|q: int|
                    0 <= q < out@.len() ==> #[trigger] out@[q] as int == crossfade_at(av, bv, n, q),
            decreases blen - r,
        {
            out.push(buffer_b[r]);
            r = r + 1;
        }
        out
    }

    /// [`AudioMixer::crossfade`] with its precondition turned into a
    /// validated failure: an overlap longer than either buffer is
    /// rejected with `None` instead of being undefined.
    pub fn crossfade_checked(buffer_a: &Vec<i64>, buffer_b: &Vec<i64>, fade_samples: usize) -> (r:
        Option<Vec<i64>>)
        requires
            buffer_a@.len() + buffer_b@.len() <= MAX_LEN,
            amp_ok(buffer_a@),
            amp_ok(buffer_b@),
        ensures
            r is Some <==> fade_samples <= buffer_a@.len() && fade_samples <= buffer_b@.len(),
            r matches Some(out) ==> {
                &&& out@.len() == buffer_a@.len() + buffer_b@.len() - fade_samples
                &&& forall|i: int|
                    0 <= i < out@.len() ==> #[trigger] out@[i] as int == crossfade_at(
                        buffer_a@,
                        buffer_b@,
                        fade_samples as int,
                        i,
                    )
            },
    {
        if fade_samples <= buffer_a.len() && fade_samples <= buffer_b.len() {
            Some(Self::crossfade(buffer_a, buffer_b, fade_samples))
        } else {
            None
        }
    }
}

} // verus!
