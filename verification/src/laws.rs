//! The general laws of the engine, each stated over the same spec
//! functions the public contracts use and proved once for all inputs.

use vstd::prelude::*;

verus! {

use vstd::arithmetic::div_mod::lemma_div_multiples_vanish;
use vstd::arithmetic::div_mod::lemma_fundamental_div_mod;
use vstd::arithmetic::mul::lemma_mul_inequality;
use vstd::arithmetic::mul::lemma_mul_is_associative;
use vstd::arithmetic::mul::lemma_mul_is_commutative;
use vstd::arithmetic::mul::lemma_mul_is_distributive_sub;
use vstd::arithmetic::mul::lemma_mul_is_distributive_sub_other_way;
use vstd::arithmetic::mul::lemma_mul_strict_inequality;
use vstd::arithmetic::mul::lemma_mul_unary_negation;
use vstd::math::abs;
use crate::fixed::SCALE;
use crate::fixed::lemma_div_bound_by;
use crate::mixer::MixerModel;
use crate::mixer::gained_sample;
use crate::mixer::mixed_at;
use crate::mixer::peak_of;
use crate::mixer::raw_at;
use crate::mixer::raw_seq;
use crate::mixer::track_contrib;
use crate::mixer::lemma_peak_of_bounds;
use crate::ops::crossfade_at;
use crate::ops::fade_in_num;
use crate::ops::fade_out_num;
use crate::track::TrackModel;

/// A slot sum is zero when no track contributes to it.
proof fn lemma_raw_at_all_zero(tracks: Seq<TrackModel>, channels: int, j: int)
    requires
        forall|k: int| 0 <= k < tracks.len() ==> #[trigger] track_contrib(tracks[k], channels, j)
            == 0,
    ensures
        raw_at(tracks, channels, j) == 0,
    decreases tracks.len(),
{
    if tracks.len() > 0 {
        assert forall|k: int| 0 <= k < tracks.drop_last().len() implies #[trigger] track_contrib(
            tracks.drop_last()[k],
            channels,
            j,
        ) == 0 by {
            assert(tracks.drop_last()[k] == tracks[k]);
        }
        lemma_raw_at_all_zero(tracks.drop_last(), channels, j);
        assert(track_contrib(tracks.last(), channels, j) == 0);
    }
}

/// Tracks that start at or past the requested duration leave the whole
/// output silent: every slot of the mix is zero.
pub proof fn lemma_mix_silent_beyond_duration(m: MixerModel, duration_samples: int)
    requires
        m.wf(),
        0 <= duration_samples,
        forall|k: int| 0 <= k < m.tracks.len() ==> (#[trigger] m.tracks[k]).start_sample
            >= duration_samples,
    ensures
        forall|j: int|
            0 <= j < duration_samples * m.channels ==> #[trigger] mixed_at(m, duration_samples, j)
                == 0,
{
    assert forall|j: int| 0 <= j < duration_samples * m.channels implies #[trigger] mixed_at(
        m,
        duration_samples,
        j,
    ) == 0 by {
        assert forall|k: int| 0 <= k < m.tracks.len() implies #[trigger] track_contrib(
            m.tracks[k],
            m.channels,
            j,
        ) == 0 by {
            lemma_mul_inequality(duration_samples, m.tracks[k].start_sample, m.channels);
        }
        lemma_raw_at_all_zero(m.tracks, m.channels, j);
        let pk = peak_of(raw_seq(m, duration_samples));
        if pk > SCALE {
            assert((0int * SCALE) / pk == 0) by (nonlinear_arith)
                requires
                    pk > 0,
            ;
        }
    }
}

/// A mix of no tracks at all is silence: every slot is zero.
pub proof fn lemma_mix_of_no_tracks_is_zero(m: MixerModel, duration_samples: int)
    requires
        m.tracks.len() == 0,
    ensures
        forall|j: int|
            0 <= j < duration_samples * m.channels ==> #[trigger] mixed_at(m, duration_samples, j)
                == 0,
{
    assert forall|j: int| 0 <= j < duration_samples * m.channels implies #[trigger] mixed_at(
        m,
        duration_samples,
        j,
    ) == 0 by {
        let pk = peak_of(raw_seq(m, duration_samples));
        if pk > SCALE {
            assert((0int * SCALE) / pk == 0) by (nonlinear_arith)
                requires
                    pk > 0,
            ;
        }
    }
}

/// Peak invariant: whether or not normalization ran, no slot of the mix
/// exceeds amplitude 1.0 in magnitude once the raw peak is brought down,
/// and an un-normalized mix is bounded by its own (small) peak.
pub proof fn lemma_mix_peak_bounded(m: MixerModel, duration_samples: int)
    requires
        0 <= duration_samples,
    ensures
        forall|j: int|
            0 <= j < duration_samples * m.channels ==> -SCALE <= #[trigger] mixed_at(
                m,
                duration_samples,
                j,
            ) <= SCALE,
{
    let rawm = raw_seq(m, duration_samples);
    lemma_peak_of_bounds(rawm);
    let pk = peak_of(rawm);
    assert forall|j: int| 0 <= j < duration_samples * m.channels implies -SCALE
        <= #[trigger] mixed_at(m, duration_samples, j) <= SCALE by {
        let raw = raw_at(m.tracks, m.channels, j);
        assert(rawm[j] == raw);
        assert(abs(rawm[j]) <= pk);
        if pk > SCALE {
            assert(-(SCALE as int * pk) <= raw * SCALE <= SCALE as int * pk) by (nonlinear_arith)
                requires
                    -pk <= raw <= pk && 0 < pk && SCALE == 65536,
            ;
            lemma_div_bound_by(raw * SCALE, pk, SCALE as int);
        }
    }
}

/// Below the clipping point nothing is touched: when the raw peak is at
/// most 1.0, the mix is exactly the raw weighted sum in every slot.
pub proof fn lemma_mix_below_peak_untouched(m: MixerModel, duration_samples: int)
    requires
        peak_of(raw_seq(m, duration_samples)) <= SCALE,
    ensures
        forall|j: int|
            0 <= j < duration_samples * m.channels ==> #[trigger] mixed_at(m, duration_samples, j)
                == raw_at(m.tracks, m.channels, j),
{
}

/// Applying gain `g1` and then gain `g2` agrees with applying their
/// fixed-point product in one pass, up to rounding: the two results
/// differ by at most `(|x| + |g2|) / SCALE + 2` in each slot. Stated
/// here for one sample value; `apply_gain` carries it to every slot
/// elementwise.
pub proof fn lemma_apply_gain_linear(x: int, g1: int, g2: int)
    ensures
        abs(gained_sample(gained_sample(x, g1), g2) - gained_sample(x, gained_sample(g1, g2))) * (
        SCALE as int) <= abs(x) + abs(g2) + 2 * (SCALE as int),
{
    let s = SCALE as int;
    let a = gained_sample(x, g1);
    let lhs = gained_sample(a, g2);
    let c = gained_sample(g1, g2);
    let rhs = gained_sample(x, c);
    let r1 = (x * g1) % s;
    let r2 = (a * g2) % s;
    let r3 = (g1 * g2) % s;
    let r4 = (x * c) % s;
    lemma_fundamental_div_mod(x * g1, s);
    lemma_fundamental_div_mod(a * g2, s);
    lemma_fundamental_div_mod(g1 * g2, s);
    lemma_fundamental_div_mod(x * c, s);
    let ax = abs(x) as int;
    let ag2 = abs(g2) as int;
    // s * (s * lhs) == x * (g1 * g2) - r1 * g2 - s * r2
    assert(s * lhs == a * g2 - r2);
    lemma_mul_is_distributive_sub(s, a * g2, r2);
    assert(s * (s * lhs) == s * (a * g2) - s * r2);
    lemma_mul_is_associative(s, a, g2);
    assert(s * a == x * g1 - r1);
    lemma_mul_is_distributive_sub_other_way(g2, x * g1, r1);
    assert(s * (a * g2) == (x * g1) * g2 - r1 * g2);
    lemma_mul_is_associative(x, g1, g2);
    assert(s * (s * lhs) == x * (g1 * g2) - r1 * g2 - s * r2);
    // s * (s * rhs) == x * (g1 * g2) - x * r3 - s * r4
    assert(s * rhs == x * c - r4);
    lemma_mul_is_distributive_sub(s, x * c, r4);
    assert(s * (s * rhs) == s * (x * c) - s * r4);
    lemma_mul_is_associative(s, x, c);
    lemma_mul_is_commutative(s, x);
    lemma_mul_is_associative(x, s, c);
    assert(s * (x * c) == x * (s * c));
    assert(s * c == g1 * g2 - r3);
    lemma_mul_is_distributive_sub(x, g1 * g2, r3);
    assert(x * (s * c) == x * (g1 * g2) - x * r3);
    assert(s * (s * rhs) == x * (g1 * g2) - x * r3 - s * r4);
    // bound the four residue terms
    assert(-(s * ag2) <= r1 * g2 <= s * ag2) by (nonlinear_arith)
        requires
            0 <= r1 <= s && -ag2 <= g2 <= ag2 && 0 <= ag2,
    ;
    assert(-(s * ax) <= x * r3 <= s * ax) by (nonlinear_arith)
        requires
            0 <= r3 <= s && -ax <= x <= ax && 0 <= ax,
    ;
    assert(0 <= s * r2 <= s * s) by (nonlinear_arith)
        requires
            0 <= r2 < s && 0 < s,
    ;
    assert(0 <= s * r4 <= s * s) by (nonlinear_arith)
        requires
            0 <= r4 < s && 0 < s,
    ;
    let d = lhs - rhs;
    let bound = ax + ag2 + 2 * s;
    lemma_mul_is_distributive_sub(s, lhs, rhs);
    assert(s * d == s * lhs - s * rhs);
    lemma_mul_is_distributive_sub(s, s * lhs, s * rhs);
    assert(s * (s * d) == s * (s * lhs) - s * (s * rhs));
    assert(-(s * bound) <= s * (s * d) <= s * bound);
    let ad = abs(d) as int;
    // from |s * (s * d)| <= s * bound and s > 0, cancel one factor of s
    lemma_mul_unary_negation(s, s * d);
    assert(s * (s * ad) == s * (s * d) || s * (s * ad) == -(s * (s * d))) by {
        if ad == d {
        } else {
            assert(ad == -d);
            lemma_mul_unary_negation(s, d);
            assert(s * ad == -(s * d));
            lemma_mul_unary_negation(s, s * d);
        }
    }
    assert(s * (s * ad) <= s * bound);
    assert(s * ad <= bound) by {
        if s * ad > bound {
            lemma_mul_strict_inequality(bound, s * ad, s);
            lemma_mul_is_commutative(bound, s);
            lemma_mul_is_commutative(s * ad, s);
            assert(s * bound < s * (s * ad));
        }
    }
    lemma_mul_is_commutative(s, ad);
}

/// A non-empty buffer attains its peak somewhere.
proof fn lemma_peak_of_achieved(s: Seq<int>)
    requires
        s.len() > 0,
    ensures
        exists|j: int| 0 <= j < s.len() && abs(s[j]) == peak_of(s),
    decreases s.len(),
{
    let dl = s.drop_last();
    if dl.len() == 0 {
        assert(peak_of(dl) == 0);
        assert(abs(s[0]) == peak_of(s));
    } else if abs(s.last()) as int >= peak_of(dl) {
        assert(abs(s[s.len() - 1]) == peak_of(s));
    } else {
        lemma_peak_of_achieved(dl);
        let w = choose|j: int| 0 <= j < dl.len() && abs(dl[j]) == peak_of(dl);
        assert(s[w] == dl[w]);
        assert(abs(s[w]) == peak_of(s));
    }
}

/// When normalization runs, it brings the peak to exactly 1.0: some
/// slot of the mix has magnitude exactly `SCALE`.
pub proof fn lemma_normalized_peak_is_unit(m: MixerModel, duration_samples: int)
    requires
        0 <= duration_samples,
        0 <= m.channels,
        peak_of(raw_seq(m, duration_samples)) > SCALE,
    ensures
        exists|j: int|
            0 <= j < duration_samples * m.channels && abs(#[trigger] mixed_at(m, duration_samples, j))
                == SCALE,
{
    let rawm = raw_seq(m, duration_samples);
    let pk = peak_of(rawm);
    if rawm.len() == 0 {
        assert(pk == 0);
    }
    lemma_peak_of_achieved(rawm);
    let w = choose|j: int| 0 <= j < rawm.len() && abs(rawm[j]) == pk;
    let raw = raw_at(m.tracks, m.channels, w);
    assert(rawm[w] == raw);
    lemma_div_multiples_vanish(SCALE as int, pk);
    if raw == pk {
        assert(raw * SCALE == pk * (SCALE as int)) by (nonlinear_arith)
            requires
                raw == pk,
        ;
        assert(mixed_at(m, duration_samples, w) == SCALE);
    } else {
        assert(raw == -pk);
        lemma_div_multiples_vanish(-(SCALE as int), pk);
        assert(raw * SCALE == pk * (-(SCALE as int))) by (nonlinear_arith)
            requires
                raw == -pk,
        ;
        assert(mixed_at(m, duration_samples, w) == -SCALE);
    }
    assert(abs(mixed_at(m, duration_samples, w)) == SCALE);
}

/// A crossfade over zero samples is plain concatenation.
pub proof fn lemma_crossfade_zero_concatenates(a: Seq<i64>, b: Seq<i64>)
    ensures
        forall|i: int|
            0 <= i < a.len() + b.len() ==> #[trigger] crossfade_at(a, b, 0, i) == (a + b)[i] as int,
{
}

/// Complementarity of the crossfade ramps: at every overlap position the
/// fade-out weight and the fade-in weight (both fractions over `n`) sum
/// to exactly one, that is, their numerators sum to exactly `n`.
pub proof fn lemma_fade_weights_complementary(n: int, p: int)
    requires
        0 <= p < n,
    ensures
        fade_out_num(n, p) + fade_in_num(n, p) == n,
{
}

} // verus!
