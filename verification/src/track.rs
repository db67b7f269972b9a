//! A single audio track: an immutable sample buffer together with the
//! parameters that govern how it is mixed into an output buffer.

use vstd::prelude::*;

verus! {

use crate::fixed::MAX_AMP;
use crate::fixed::SCALE;

/// The mathematical image of a track: its samples as unbounded integers
/// (still in Q16.16 fixed point) plus its mixing parameters.
pub struct TrackModel {
    pub samples: Seq<int>,
    pub gain: int,
    pub pan: int,
    pub start_sample: int,
}

impl TrackModel {
    /// Every sample and the gain lie in the fixed-point working range,
    /// the pan position lies in [-1.0, 1.0], and the start offset is a
    /// frame count.
    pub open spec fn wf(self) -> bool {
        &&& forall|i: int|
            0 <= i < self.samples.len() ==> -MAX_AMP <= #[trigger] self.samples[i] <= MAX_AMP
        &&& -MAX_AMP <= self.gain <= MAX_AMP
        &&& -SCALE <= self.pan <= SCALE
        &&& 0 <= self.start_sample
    }
}

/// An immutable value holding a Q16.16 sample buffer, a linear gain, a
/// stereo pan position in [-1.0, 1.0] and a start offset in frames. No
/// field changes after construction.
pub struct AudioTrack {
    pub(crate) samples: Vec<i64>,
    pub(crate) gain: i64,
    pub(crate) pan: i64,
    pub(crate) start_sample: usize,
}

impl View for AudioTrack {
    type V = TrackModel;

    closed spec fn view(&self) -> TrackModel {
        TrackModel {
            samples: self.samples@.map_values(|s: i64| s as int),
            gain: self.gain as int,
            pan: self.pan as int,
            start_sample: self.start_sample as int,
        }
    }
}

/// How a track's fields appear in its model.
pub(crate) proof fn lemma_track_view(t: &AudioTrack)
    ensures
        t@.samples.len() == t.samples@.len(),
        forall|i: int| 0 <= i < t.samples@.len() ==> #[trigger] t@.samples[i] == t.samples@[i] as int,
        t@.gain == t.gain as int,
        t@.pan == t.pan as int,
        t@.start_sample == t.start_sample as int,
{
}

impl AudioTrack {
    /// Builds a track from its sample buffer and mixing parameters,
    /// taking ownership of the buffer. The bounds asked of the inputs
    /// are the fixed-point working range; within it no value is
    /// reinterpreted or clamped.
    pub fn new(samples: Vec<i64>, gain: i64, pan: i64, start_sample: usize) -> (t: Self)
        requires
            forall|i: int|
                0 <= i < samples@.len() ==> -MAX_AMP <= #[trigger] samples@[i] <= MAX_AMP,
            -MAX_AMP <= gain <= MAX_AMP,
            -SCALE <= pan <= SCALE,
        ensures
            t@.samples.len() == samples@.len(),
            forall|i: int| 0 <= i < samples@.len() ==> #[trigger] t@.samples[i] == samples@[i],
            t@.gain == gain,
            t@.pan == pan,
            t@.start_sample == start_sample,
            t@.wf(),
    {
        let t = AudioTrack { samples, gain, pan, start_sample };
        proof {
            assert forall|i: int| 0 <= i < t@.samples.len() implies
                -MAX_AMP <= #[trigger] t@.samples[i] <= MAX_AMP by {
                assert(t@.samples[i] == t.samples@[i] as int);
            }
        }
        t
    }
}

} // verus!
