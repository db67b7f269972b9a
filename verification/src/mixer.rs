//! The mixer: an ordered collection of tracks plus an output format,
//! and the `mix` operation that folds every track into one interleaved,
//! peak-normalized output buffer.

use vstd::prelude::*;

verus! {

use vstd::arithmetic::div_mod::lemma_div_is_ordered;
use vstd::arithmetic::div_mod::lemma_div_multiples_vanish;
use vstd::math::abs;
use vstd::math::max;
use crate::fixed::HALF_SCALE;
use crate::fixed::MAX_AMP;
use crate::fixed::MAX_CONTRIB;
use crate::fixed::MAX_LEN;
use crate::fixed::MAX_TRACKS;
use crate::fixed::SCALE;
use crate::fixed::floor_div;
use crate::fixed::isqrt;
use crate::fixed::lemma_div_bound_by;
use crate::fixed::lemma_sqrt_val_is_sqrt;
use crate::fixed::sqrt_val;
use crate::track::AudioTrack;
use crate::track::TrackModel;

/// The mathematical image of a mixer: its tracks in insertion order and
/// its output format.
pub struct MixerModel {
    pub tracks: Seq<TrackModel>,
    pub sample_rate: int,
    pub channels: int,
}

impl MixerModel {
    /// Every track is well formed and the track count stays below the
    /// accumulation limit.
    pub open spec fn wf(self) -> bool {
        &&& self.tracks.len() <= MAX_TRACKS
        &&& forall|k: int| 0 <= k < self.tracks.len() ==> (#[trigger] self.tracks[k]).wf()
        &&& 0 <= self.channels
    }
}

/// Equal-power weight of the left channel for a pan position:
/// `sqrt((1 - pan) / 2)` carried out in fixed point.
pub open spec fn left_weight(pan: int) -> int {
    sqrt_val(((SCALE - pan) * SCALE) / 2)
}

/// Equal-power weight of the right channel for a pan position:
/// `sqrt((1 + pan) / 2)` carried out in fixed point.
pub open spec fn right_weight(pan: int) -> int {
    sqrt_val(((SCALE + pan) * SCALE) / 2)
}

/// A sample with a gain applied, in fixed point.
pub open spec fn gained_sample(s: int, g: int) -> int {
    (s * g) / (SCALE as int)
}

/// The value sample `i` of a track adds to the output. In a stereo
/// format the track's buffer is taken as already interleaved: samples at
/// even positions feed the left channel and odd positions the right, each
/// weighted by the equal-power pan law. In any other format the gained
/// sample is added unweighted.
pub open spec fn track_sample_value(t: TrackModel, channels: int, i: int) -> int {
    let g = gained_sample(t.samples[i], t.gain);
    if channels == 2 {
        if i % 2 == 0 {
            (g * left_weight(t.pan)) / (SCALE as int)
        } else {
            (g * right_weight(t.pan)) / (SCALE as int)
        }
    } else {
        g
    }
}

/// What a track adds to output slot `j`: sample `j - start_sample * channels`
/// if that position exists, nothing otherwise.
pub open spec fn track_contrib(t: TrackModel, channels: int, j: int) -> int {
    let base = t.start_sample * channels;
    if base <= j < base + t.samples.len() {
        track_sample_value(t, channels, j - base)
    } else {
        0
    }
}

/// The raw (pre-normalization) value of output slot `j`: the sum of every
/// track's contribution, in insertion order.
pub open spec fn raw_at(tracks: Seq<TrackModel>, channels: int, j: int) -> int
    decreases tracks.len(),
{
    if tracks.len() == 0 {
        0
    } else {
        raw_at(tracks.drop_last(), channels, j) + track_contrib(tracks.last(), channels, j)
    }
}

/// The whole raw output buffer for a given duration in frames.
pub open spec fn raw_seq(m: MixerModel, duration_samples: int) -> Seq<int> {
    Seq::new((duration_samples * m.channels) as nat, |j: int| raw_at(m.tracks, m.channels, j))
}

/// The greatest absolute value in a buffer (0 for an empty buffer).
pub open spec fn peak_of(s: Seq<int>) -> int
    decreases s.len(),
{
    if s.len() == 0 {
        0
    } else {
        max(peak_of(s.drop_last()), abs(s.last()) as int)
    }
}

/// The final value of output slot `j`: the raw sum, scaled down to peak
/// amplitude 1.0 when the raw peak exceeds 1.0 and untouched otherwise.
pub open spec fn mixed_at(m: MixerModel, duration_samples: int, j: int) -> int {
    let raw = raw_at(m.tracks, m.channels, j);
    let pk = peak_of(raw_seq(m, duration_samples));
    if pk <= SCALE {
        raw
    } else {
        (raw * SCALE) / pk
    }
}

/// What the first `upto` samples of a track add to output slot `j`.
pub open spec fn partial_contrib(t: TrackModel, channels: int, upto: int, j: int) -> int {
    let base = t.start_sample * channels;
    if base <= j < base + upto {
        track_sample_value(t, channels, j - base)
    } else {
        0
    }
}

/// Both equal-power pan weights lie between 0 and 1.0 in fixed point.
proof fn lemma_weight_bounds(pan: int)
    requires
        -SCALE <= pan <= SCALE,
    ensures
        0 <= left_weight(pan) <= SCALE,
        0 <= right_weight(pan) <= SCALE,
{
    lemma_weight_in_unit((SCALE - pan) * SCALE);
    lemma_weight_in_unit((SCALE + pan) * SCALE);
    assert(0 <= (SCALE - pan) * (SCALE as int) <= 2 * (SCALE as int) * SCALE) by (nonlinear_arith)
        requires
            0 <= SCALE - pan <= 2 * SCALE && SCALE == 65536,
    ;
    assert(0 <= (SCALE + pan) * (SCALE as int) <= 2 * (SCALE as int) * SCALE) by (nonlinear_arith)
        requires
            0 <= SCALE + pan <= 2 * SCALE && SCALE == 65536,
    ;
}

/// For a doubled radicand `x` in [0, 2 * SCALE * SCALE], the square root
/// of `x / 2` is at most `SCALE`.
proof fn lemma_weight_in_unit(x: int)
    requires
        0 <= x <= 2 * (SCALE as int) * SCALE,
    ensures
        0 <= sqrt_val(x / 2) <= SCALE,
{
    lemma_div_is_ordered(0, x, 2);
    lemma_div_is_ordered(x, 2 * (SCALE as int) * SCALE, 2);
    assert(2 * (SCALE as int) * SCALE == 2 * ((SCALE as int) * SCALE)) by (nonlinear_arith);
    lemma_div_multiples_vanish((SCALE as int) * SCALE, 2);
    let r = sqrt_val(x / 2);
    lemma_sqrt_val_is_sqrt(x / 2);
    if r > SCALE {
        assert((SCALE as int) + 1 <= r ==> ((SCALE as int) + 1) * ((SCALE as int) + 1) <= r * r)
            by (nonlinear_arith)
            requires
                0 <= r,
        ;
    }
}

/// The value any one sample adds to its output slot is bounded by
/// [`MAX_CONTRIB`].
proof fn lemma_sample_value_bound(t: TrackModel, channels: int, i: int)
    requires
        t.wf(),
        0 <= i < t.samples.len(),
    ensures
        -MAX_CONTRIB <= track_sample_value(t, channels, i) <= MAX_CONTRIB,
{
    let g = gained_sample(t.samples[i], t.gain);
    assert(-((MAX_CONTRIB as int) * SCALE) <= t.samples[i] * t.gain <= (MAX_CONTRIB as int)
        * SCALE) by (nonlinear_arith)
        requires
            -MAX_AMP <= t.samples[i] <= MAX_AMP && -MAX_AMP <= t.gain <= MAX_AMP && MAX_AMP
                == 0x400000 && MAX_CONTRIB == 0x10000000 && SCALE == 65536,
    ;
    lemma_div_bound_by(t.samples[i] * t.gain, SCALE as int, MAX_CONTRIB as int);
    if channels == 2 {
        lemma_weight_bounds(t.pan);
        let w = if i % 2 == 0 {
            left_weight(t.pan)
        } else {
            right_weight(t.pan)
        };
        assert(-((MAX_CONTRIB as int) * SCALE) <= g * w <= (MAX_CONTRIB as int) * SCALE)
            by (nonlinear_arith)
            requires
                -MAX_CONTRIB <= g <= MAX_CONTRIB && 0 <= w <= SCALE && MAX_CONTRIB == 0x10000000
                    && SCALE == 65536,
        ;
        lemma_div_bound_by(g * w, SCALE as int, MAX_CONTRIB as int);
    }
}

/// Extending the mixed prefix of the track list by one track adds that
/// track's contribution to every slot.
proof fn lemma_raw_at_take_step(tracks: Seq<TrackModel>, channels: int, k: int, j: int)
    requires
        0 <= k < tracks.len(),
    ensures
        raw_at(tracks.take(k + 1), channels, j) == raw_at(tracks.take(k), channels, j)
            + track_contrib(tracks[k], channels, j),
{
    assert(tracks.take(k + 1).drop_last() =~= tracks.take(k));
    assert(tracks.take(k + 1).last() == tracks[k]);
}

/// The peak of a prefix grows to take in one more sample.
proof fn lemma_peak_take_step(s: Seq<int>, j: int)
    requires
        0 <= j < s.len(),
    ensures
        peak_of(s.take(j + 1)) == max(peak_of(s.take(j)), abs(s[j]) as int),
{
    assert(s.take(j + 1).drop_last() =~= s.take(j));
    assert(s.take(j + 1).last() == s[j]);
}

/// The peak of a buffer is non-negative and bounds every sample's
/// magnitude.
pub proof fn lemma_peak_of_bounds(s: Seq<int>)
    ensures
        0 <= peak_of(s),
        forall|j: int| 0 <= j < s.len() ==> abs(s[j]) <= peak_of(s),
    decreases s.len(),
{
    if s.len() > 0 {
        lemma_peak_of_bounds(s.drop_last());
        assert forall|j: int| 0 <= j < s.len() implies abs(s[j]) <= peak_of(s) by {
            if j < s.len() - 1 {
                assert(s.drop_last()[j] == s[j]);
            }
        }
    }
}

/// The equal-power pan weights of a pan position, left then right.
fn pan_weights(pan: i64) -> (w: (i64, i64))
    requires
        -SCALE <= pan <= SCALE,
    ensures
        w.0 == left_weight(pan as int),
        w.1 == right_weight(pan as int),
        0 <= w.0 <= SCALE,
        0 <= w.1 <= SCALE,
{
    proof {
        lemma_weight_bounds(pan as int);
        assert((SCALE - pan) * (SCALE as int) == 2 * ((SCALE - pan) * (HALF_SCALE as int)))
            by (nonlinear_arith)
            requires
                SCALE == 65536 && HALF_SCALE == 32768,
        ;
        assert((SCALE + pan) * (SCALE as int) == 2 * ((SCALE + pan) * (HALF_SCALE as int)))
            by (nonlinear_arith)
            requires
                SCALE == 65536 && HALF_SCALE == 32768,
        ;
        lemma_div_multiples_vanish((SCALE - pan) * (HALF_SCALE as int), 2);
        lemma_div_multiples_vanish((SCALE + pan) * (HALF_SCALE as int), 2);
        assert(0 <= (SCALE - pan) * (HALF_SCALE as int) <= 0x1_0000_0000) by (nonlinear_arith)
            requires
                0 <= SCALE - pan <= 131072 && HALF_SCALE == 32768,
        ;
        assert(0 <= (SCALE + pan) * (HALF_SCALE as int) <= 0x1_0000_0000) by (nonlinear_arith)
            requires
                0 <= SCALE + pan <= 131072 && HALF_SCALE == 32768,
        ;
    }
    let radl = (SCALE - pan) * HALF_SCALE;
    let radr = (SCALE + pan) * HALF_SCALE;
    let wl = isqrt(radl as u64) as i64;
    let wr = isqrt(radr as u64) as i64;
    (wl, wr)
}

/// Adds one track's contribution to every slot of the output buffer.
/// `b` bounds the magnitude the buffer held on entry; it grows by at
/// most [`MAX_CONTRIB`].
#[verifier::loop_isolation(false)]
fn accumulate_track(output: &mut Vec<i64>, track: &AudioTrack, channels: usize, Ghost(b): Ghost<int>)
    requires
        track@.wf(),
        0 <= b,
        b + MAX_CONTRIB <= 0x4000_0000_0000,
        forall|j: int| 0 <= j < old(output)@.len() ==> -b <= #[trigger] old(output)@[j] as int <= b,
    ensures
        final(output)@.len() == old(output)@.len(),
        forall|j: int|
            0 <= j < final(output)@.len() ==> #[trigger] final(output)@[j] as int
                == old(output)@[j] as int + track_contrib(track@, channels as int, j),
        forall|j: int|
            0 <= j < final(output)@.len() ==> -(b + MAX_CONTRIB)
                <= #[trigger] final(output)@[j] as int <= b + MAX_CONTRIB,
{
    let ghost tm = track@;
    let ghost orig = output@;
    let ghost ch = channels as int;
    proof {
        crate::track::lemma_track_view(track);
    }
    let len = output.len();
    proof {
        assert forall|j: int| 0 <= j < len implies -MAX_CONTRIB <= #[trigger] track_contrib(tm, ch, j)
            <= MAX_CONTRIB by {
            let base = tm.start_sample * ch;
            if base <= j < base + tm.samples.len() {
                lemma_sample_value_bound(tm, ch, j - base);
            }
        }
    }
    let base = match track.start_sample.checked_mul(channels) {
        Some(base) => base,
        None => {
            proof {
                assert forall|j: int| 0 <= j < len implies #[trigger] track_contrib(tm, ch, j)
                    == 0 by {
                    assert(tm.start_sample * ch > usize::MAX);
                }
            }
            return ;
        },
    };
    if base >= len {
        proof {
            assert forall|j: int| 0 <= j < len implies #[trigger] track_contrib(tm, ch, j) == 0 by {
                assert(tm.start_sample * ch == base);
            }
        }
        return ;
    }
    let avail = len - base;
    let count = track.samples.len();
    let limit = if count < avail {
        count
    } else {
        avail
    };
    let (lg, rg) = pan_weights(track.pan);
    let mut i: usize = 0;
    while i < limit
        invariant
            output@.len() == len,
            i <= limit,
            forall|j: int|
                0 <= j < len ==> #[trigger] output@[j] as int == orig[j] + partial_contrib(
                    tm,
                    ch,
                    i as int,
                    j,
                ),
        decreases limit - i,
    {
        let s = track.samples[i];
        proof {
            assert(tm.samples[i as int] == track.samples@[i as int] as int);
            assert(-MAX_AMP <= s <= MAX_AMP);
            assert(-0x4000_0000_0000_0000 <= (s as int) * (track.gain as int)
                <= 0x4000_0000_0000_0000) by (nonlinear_arith)
                requires
                    -MAX_AMP <= s <= MAX_AMP && -MAX_AMP <= track.gain <= MAX_AMP && MAX_AMP
                        == 0x400000,
            ;
        }
        let g = floor_div(s * track.gain, SCALE);
        proof {
            assert(-((MAX_CONTRIB as int) * SCALE) <= (s as int) * (track.gain as int) <= (
            MAX_CONTRIB as int) * SCALE) by (nonlinear_arith)
                requires
                    -MAX_AMP <= s <= MAX_AMP && -MAX_AMP <= track.gain <= MAX_AMP && MAX_AMP
                        == 0x400000 && MAX_CONTRIB == 0x10000000 && SCALE == 65536,
            ;
            lemma_div_bound_by((s as int) * (track.gain as int), SCALE as int, MAX_CONTRIB as int);
        }
        let v: i64 = if channels == 2 {
            let w = if i % 2 == 0 {
                lg
            } else {
                rg
            };
            proof {
                assert(-((MAX_CONTRIB as int) * SCALE) <= (g as int) * (w as int) <= (
                MAX_CONTRIB as int) * SCALE) by (nonlinear_arith)
                    requires
                        -MAX_CONTRIB <= g <= MAX_CONTRIB && 0 <= w <= SCALE && MAX_CONTRIB
                            == 0x10000000 && SCALE == 65536,
                ;
                lemma_div_bound_by((g as int) * (w as int), SCALE as int, MAX_CONTRIB as int);
            }
            floor_div(g * w, SCALE)
        } else {
            g
        };
        proof {
            assert(v as int == track_sample_value(tm, ch, i as int));
            lemma_sample_value_bound(tm, ch, i as int);
        }
        let slot = base + i;
        proof {
            assert(partial_contrib(tm, ch, i as int, slot as int) == 0);
            assert(output@[slot as int] as int == orig[slot as int]);
        }
        let cur = output[slot];
        let ghost before = output@;
        output[slot] = cur + v;
        proof {
            assert forall|j: int| 0 <= j < len implies #[trigger] output@[j] as int == orig[j]
                + partial_contrib(tm, ch, i as int + 1, j) by {
                if j == slot as int {
                    assert(partial_contrib(tm, ch, i as int + 1, j) == track_sample_value(
                        tm,
                        ch,
                        i as int,
                    ));
                } else {
                    assert(output@[j] == before[j]);
                    assert(partial_contrib(tm, ch, i as int + 1, j) == partial_contrib(
                        tm,
                        ch,
                        i as int,
                        j,
                    ));
                }
            }
        }
        i = i + 1;
    }
    proof {
        assert forall|j: int| 0 <= j < len implies #[trigger] partial_contrib(tm, ch, limit as int, j)
            == track_contrib(tm, ch, j) by {
            assert(tm.start_sample * ch == base);
        }
        assert forall|j: int| 0 <= j < len implies -(b + MAX_CONTRIB) <= #[trigger] output@[j] as int
            <= b + MAX_CONTRIB by {
            assert(output@[j] as int == orig[j] + track_contrib(tm, ch, j));
        }
    }
}

/// Combines tracks into a single interleaved output buffer. The format
/// (sample rate and channel count) is fixed at construction; tracks
/// accumulate in insertion order.
pub struct AudioMixer {
    pub(crate) tracks: Vec<AudioTrack>,
    pub(crate) sample_rate: u32,
    pub(crate) channels: u32,
}

impl View for AudioMixer {
    type V = MixerModel;

    closed spec fn view(&self) -> MixerModel {
        MixerModel {
            tracks: self.tracks@.map_values(|t: AudioTrack| t@),
            sample_rate: self.sample_rate as int,
            channels: self.channels as int,
        }
    }
}

impl AudioMixer {
    /// A fresh mixer with the given output format and no tracks.
    pub fn new(sample_rate: u32, channels: u32) -> (m: Self)
        ensures
            m@.tracks.len() == 0,
            m@.sample_rate == sample_rate,
            m@.channels == channels,
            m@.wf(),
    {
        AudioMixer { tracks: Vec::new(), sample_rate, channels }
    }

    /// Appends a track, taking ownership of it; the format and the
    /// tracks already added are untouched.
    pub fn add_track(&mut self, track: AudioTrack)
        requires
            old(self)@.wf(),
            track@.wf(),
            old(self)@.tracks.len() < MAX_TRACKS,
        ensures
            final(self)@.tracks == old(self)@.tracks.push(track@),
            final(self)@.sample_rate == old(self)@.sample_rate,
            final(self)@.channels == old(self)@.channels,
            final(self)@.wf(),
    {
        let ghost pre = self.tracks@;
        let ghost tv = track@;
        self.tracks.push(track);
        proof {
            assert(self@.tracks =~= pre.map_values(|t: AudioTrack| t@).push(tv));
        }
    }

    /// Mixes every track into a zero-initialized interleaved buffer of
    /// `duration_samples` frames (`duration_samples * channels` scalar
    /// slots), in insertion order, then scans the buffer for its peak
    /// magnitude and scales the whole buffer down once if that peak
    /// exceeds 1.0; a peak at or below 1.0 leaves the sums untouched.
    #[verifier::loop_isolation(false)]
    pub fn mix(&self, duration_samples: usize) -> (out: Vec<i64>)
        requires
            self@.wf(),
            duration_samples * self@.channels <= MAX_LEN,
        ensures
            out@.len() == duration_samples * self@.channels,
            forall|j: int|
                0 <= j < out@.len() ==> #[trigger] out@[j] as int == mixed_at(
                    self@,
                    duration_samples as int,
                    j,
                ),
    {
        let ghost m = self@;
        let channels = self.channels as usize;
        let output_len = duration_samples * channels;
        let mut output: Vec<i64> = Vec::new();
        while output.len() < output_len
            invariant
                output@.len() <= output_len,
                forall|j: int| 0 <= j < output@.len() ==> #[trigger] output@[j] == 0i64,
            decreases output_len - output@.len(),
        {
            output.push(0i64);
        }
        let n = self.tracks.len();
        let mut k: usize = 0;
        while k < n
            invariant
                k <= n,
                output@.len() == output_len,
                forall|j: int|
                    0 <= j < output_len ==> #[trigger] output@[j] as int == raw_at(
                        m.tracks.take(k as int),
                        m.channels,
                        j,
                    ),
                forall|j: int|
                    0 <= j < output_len ==> -((k as int) * MAX_CONTRIB)
                        <= #[trigger] output@[j] as int <= (k as int) * MAX_CONTRIB,
            decreases n - k,
        {
            let ghost pre = output@;
            let t = &self.tracks[k];
            proof {
                assert(t@ == m.tracks[k as int]);
                assert(m.tracks[k as int].wf());
                assert((k as int) * MAX_CONTRIB + MAX_CONTRIB <= 0x4000_0000_0000)
                    by (nonlinear_arith)
                    requires
                        0 <= k as int <= 16384 && MAX_CONTRIB == 0x10000000,
                ;
                assert(0 <= (k as int) * MAX_CONTRIB) by (nonlinear_arith)
                    requires
                        0 <= k as int && MAX_CONTRIB == 0x10000000,
                ;
            }
            accumulate_track(&mut output, t, channels, Ghost((k as int) * MAX_CONTRIB));
            proof {
                assert forall|j: int| 0 <= j < output_len implies #[trigger] output@[j] as int
                    == raw_at(m.tracks.take(k as int + 1), m.channels, j) by {
                    lemma_raw_at_take_step(m.tracks, m.channels, k as int, j);
                    assert(output@[j] as int == pre[j] as int + track_contrib(
                        t@,
                        channels as int,
                        j,
                    ));
                }
            }
            k = k + 1;
        }
        proof {
            assert(m.tracks.take(n as int) =~= m.tracks);
            assert((n as int) * MAX_CONTRIB <= 0x4000_0000_0000) by (nonlinear_arith)
                requires
                    0 <= n as int <= 16384 && MAX_CONTRIB == 0x10000000,
            ;
        }
        let ghost rawm = raw_seq(m, duration_samples as int);
        let ghost nb = (n as int) * MAX_CONTRIB;
        proof {
            assert(rawm.len() == output_len);
            assert(forall|j: int|
                0 <= j < output_len ==> #[trigger] rawm[j] == output@[j] as int);
            assert(forall|j: int| 0 <= j < output_len ==> -nb <= #[trigger] rawm[j] <= nb);
        }
        let mut peak: i64 = 0;
        let mut j: usize = 0;
        while j < output_len
            invariant
                j <= output_len,
                0 <= peak,
                peak as int == peak_of(rawm.take(j as int)),
            decreases output_len - j,
        {
            let v = output[j];
            let a = if v >= 0 {
                v
            } else {
                -v
            };
            proof {
                lemma_peak_take_step(rawm, j as int);
                assert(a as int == abs(rawm[j as int]) as int);
            }
            if a > peak {
                peak = a;
            }
            j = j + 1;
        }
        proof {
            assert(rawm.take(output_len as int) =~= rawm);
            assert(peak as int == peak_of(rawm));
        }
        if peak > SCALE {
            let mut j2: usize = 0;
            while j2 < output_len
                invariant
                    j2 <= output_len,
                    output@.len() == output_len,
                    forall|jj: int|
                        0 <= jj < j2 as int ==> #[trigger] output@[jj] as int == (rawm[jj] * SCALE)
                            / (peak as int),
                    forall|jj: int|
                        j2 as int <= jj < output_len ==> #[trigger] output@[jj] as int == rawm[jj],
                decreases output_len - j2,
            {
                let v = output[j2];
                proof {
                    assert(-0x4000_0000_0000_0000 <= (v as int) * (SCALE as int)
                        <= 0x4000_0000_0000_0000) by (nonlinear_arith)
                        requires
                            -nb <= v as int <= nb && 0 <= nb <= 0x4000_0000_0000 && SCALE == 65536,
                    ;
                }
                let nv = floor_div(v * SCALE, peak);
                output[j2] = nv;
                j2 = j2 + 1;
            }
        }
        output
    }

    /// The number of tracks added so far.
    pub fn track_count(&self) -> (n: usize)
        ensures
            n == self@.tracks.len(),
    {
        self.tracks.len()
    }

    /// Empties the track list; the output format is kept.
    pub fn clear(&mut self)
        ensures
            final(self)@.tracks.len() == 0,
            final(self)@.sample_rate == old(self)@.sample_rate,
            final(self)@.channels == old(self)@.channels,
            final(self)@.wf(),
    {
        self.tracks.clear();
        proof {
            assert(self@.tracks =~= Seq::<TrackModel>::empty());
        }
    }
}

} // verus!
