//! End-to-end checks of the mixer over concrete fixed-point buffers.
//! An `i64` of 65536 (the crate's `SCALE`) is the amplitude 1.0.

use audio_mixer::fixed::SCALE;
use audio_mixer::mixer::AudioMixer;
use audio_mixer::track::AudioTrack;

#[test]
fn mono_mix_applies_half_gain() {
    // One mono track of three full-scale samples at gain 0.5.
    let track = AudioTrack::new(vec![SCALE, SCALE, SCALE], SCALE / 2, 0, 0);
    let mut mixer = AudioMixer::new(44100, 1);
    mixer.add_track(track);
    let out = mixer.mix(3);
    assert_eq!(out, vec![SCALE / 2, SCALE / 2, SCALE / 2]);
}

#[test]
fn stereo_center_pan_uses_equal_power_weights() {
    // One interleaved stereo pair at full gain, centered: both channels
    // carry sqrt(0.5), which is 46340 in Q16.16.
    let track = AudioTrack::new(vec![SCALE, SCALE], SCALE, 0, 0);
    let mut mixer = AudioMixer::new(44100, 2);
    mixer.add_track(track);
    let out = mixer.mix(1);
    assert_eq!(out, vec![46340, 46340]);
}

#[test]
fn stereo_full_left_pan_silences_right() {
    let track = AudioTrack::new(vec![SCALE, SCALE], SCALE, -SCALE, 0);
    let mut mixer = AudioMixer::new(48000, 2);
    mixer.add_track(track);
    let out = mixer.mix(1);
    assert_eq!(out, vec![SCALE, 0]);
}

#[test]
fn overlapping_tracks_normalize_to_unit_peak() {
    // Two full-gain tracks drive slot 0 to 2.0; normalization brings the
    // peak to exactly 1.0 and keeps the 2:1 ratio between the slots.
    let t1 = AudioTrack::new(vec![SCALE, SCALE], SCALE, 0, 0);
    let t2 = AudioTrack::new(vec![SCALE], SCALE, 0, 0);
    let mut mixer = AudioMixer::new(44100, 1);
    mixer.add_track(t1);
    mixer.add_track(t2);
    let out = mixer.mix(2);
    assert_eq!(out, vec![SCALE, SCALE / 2]);
    assert_eq!(out.iter().map(|s| s.abs()).max(), Some(SCALE));
}

#[test]
fn mix_with_no_tracks_is_zero_filled() {
    let mixer = AudioMixer::new(44100, 2);
    let out = mixer.mix(3);
    assert_eq!(out, vec![0; 6]);
}

#[test]
fn mix_of_zero_duration_is_empty() {
    let mut mixer = AudioMixer::new(44100, 1);
    mixer.add_track(AudioTrack::new(vec![SCALE], SCALE, 0, 0));
    let out = mixer.mix(0);
    assert!(out.is_empty());
}

#[test]
fn track_entirely_beyond_duration_is_silent() {
    let track = AudioTrack::new(vec![SCALE, SCALE, SCALE], SCALE, 0, 5);
    let mut mixer = AudioMixer::new(44100, 1);
    mixer.add_track(track);
    let out = mixer.mix(3);
    assert_eq!(out, vec![0, 0, 0]);
}

#[test]
fn stereo_track_beyond_duration_is_silent() {
    let track = AudioTrack::new(vec![SCALE, SCALE], SCALE, 0, 4);
    let mut mixer = AudioMixer::new(44100, 2);
    mixer.add_track(track);
    let out = mixer.mix(2);
    assert_eq!(out, vec![0; 4]);
}

#[test]
fn track_start_offset_places_samples() {
    let track = AudioTrack::new(vec![SCALE], SCALE, 0, 1);
    let mut mixer = AudioMixer::new(44100, 1);
    mixer.add_track(track);
    let out = mixer.mix(3);
    assert_eq!(out, vec![0, SCALE, 0]);
}

#[test]
fn track_truncated_at_buffer_end() {
    // Three samples, but only the first two fit the requested duration.
    let track = AudioTrack::new(vec![SCALE, SCALE / 2, SCALE / 4], SCALE, 0, 0);
    let mut mixer = AudioMixer::new(44100, 1);
    mixer.add_track(track);
    let out = mixer.mix(2);
    assert_eq!(out, vec![SCALE, SCALE / 2]);
}

#[test]
fn clear_empties_the_track_list() {
    let mut mixer = AudioMixer::new(44100, 1);
    mixer.add_track(AudioTrack::new(vec![SCALE], SCALE, 0, 0));
    assert_eq!(mixer.track_count(), 1);
    mixer.clear();
    assert_eq!(mixer.track_count(), 0);
    let out = mixer.mix(2);
    assert_eq!(out, vec![0, 0]);
}

#[test]
fn negative_gain_inverts_samples() {
    let track = AudioTrack::new(vec![SCALE / 2], -SCALE, 0, 0);
    let mut mixer = AudioMixer::new(44100, 1);
    mixer.add_track(track);
    let out = mixer.mix(1);
    assert_eq!(out, vec![-SCALE / 2]);
}

#[test]
fn negative_peak_normalizes_too() {
    // A raw peak of -2.0 is also brought down to magnitude 1.0.
    let t1 = AudioTrack::new(vec![-SCALE], SCALE, 0, 0);
    let t2 = AudioTrack::new(vec![-SCALE], SCALE, 0, 0);
    let mut mixer = AudioMixer::new(44100, 1);
    mixer.add_track(t1);
    mixer.add_track(t2);
    let out = mixer.mix(1);
    assert_eq!(out, vec![-SCALE]);
}
