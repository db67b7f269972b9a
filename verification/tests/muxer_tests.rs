//! Checks of the placeholder container muxer: it accepts configuration
//! and chunks and emits an empty payload until real muxing exists.

use audio_mixer::muxer::Muxer;

#[test]
fn finalize_of_fresh_muxer_is_empty() {
    let mut mx = Muxer::new();
    assert!(mx.finalize().is_empty());
}

#[test]
fn finalize_after_chunks_is_still_empty() {
    let mut mx = Muxer::new();
    mx.configure_video(1920, 1080, "avc1.42E01E");
    mx.configure_audio(48000, 2, "mp4a.40.2");
    mx.add_video_chunk(vec![0, 1, 2, 3], 0, true);
    mx.add_video_chunk(vec![4, 5], 33_000, false);
    mx.add_audio_chunk(vec![9, 9, 9], 0);
    assert!(mx.finalize().is_empty());
}

#[test]
fn reset_allows_reuse() {
    let mut mx = Muxer::new();
    mx.add_video_chunk(vec![1], 0, true);
    mx.add_audio_chunk(vec![2], 0);
    mx.reset();
    mx.add_video_chunk(vec![3], 0, true);
    assert!(mx.finalize().is_empty());
}

#[test]
fn default_matches_new() {
    let mut mx = Muxer::default();
    assert!(mx.finalize().is_empty());
}
