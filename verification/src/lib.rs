//! An in-memory multi-track audio mixing engine over fixed-point samples.
//!
//! Sample values, gains and pan positions are Q16.16 fixed-point numbers:
//! an `i64` holding `SCALE` (65536) represents an amplitude of 1.0. A
//! [`track::AudioTrack`] couples a sample buffer with a gain, a stereo pan
//! position and a start offset; an [`mixer::AudioMixer`] accumulates any
//! number of tracks into one interleaved output buffer and normalizes the
//! result so that its peak magnitude never exceeds 1.0. Two stateless
//! buffer utilities (gain scaling and linear crossfading) and a container
//! chunk-collecting [`muxer::Muxer`] round out the crate.

pub mod fixed;
pub mod laws;
pub mod mixer;
pub mod muxer;
pub mod ops;
pub mod track;
