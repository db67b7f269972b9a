//! Checks of the stateless buffer utilities and the fixed-point
//! arithmetic helpers.

use audio_mixer::fixed::{floor_div, isqrt, SCALE};
use audio_mixer::mixer::AudioMixer;

#[test]
fn apply_gain_scales_every_sample() {
    let buf = vec![SCALE, -SCALE / 2, 0, SCALE / 4];
    let out = AudioMixer::apply_gain(&buf, SCALE / 2);
    assert_eq!(out, vec![SCALE / 2, -SCALE / 4, 0, SCALE / 8]);
}

#[test]
fn apply_gain_of_zero_silences() {
    let buf = vec![SCALE, -SCALE, SCALE / 3];
    let out = AudioMixer::apply_gain(&buf, 0);
    assert_eq!(out, vec![0, 0, 0]);
}

#[test]
fn apply_gain_composes_like_gain_product() {
    // Applying 0.5 twice equals applying 0.25 once on these inputs.
    let buf = vec![SCALE, SCALE / 2, -SCALE];
    let twice = AudioMixer::apply_gain(&AudioMixer::apply_gain(&buf, SCALE / 2), SCALE / 2);
    let product = floor_div((SCALE / 2) * (SCALE / 2), SCALE);
    let once = AudioMixer::apply_gain(&buf, product);
    assert_eq!(twice, once);
}

#[test]
fn crossfade_of_zero_concatenates() {
    let a = vec![1, 2, 3];
    let b = vec![4, 5];
    let out = AudioMixer::crossfade(&a, &b, 0);
    assert_eq!(out, vec![1, 2, 3, 4, 5]);
}

#[test]
fn crossfade_output_length() {
    let a = vec![SCALE; 5];
    let b = vec![SCALE; 4];
    for n in 0..5 {
        let out = AudioMixer::crossfade(&a, &b, n);
        assert_eq!(out.len(), 5 + 4 - n);
    }
}

#[test]
fn crossfade_overlap_sums_complementary_ramps() {
    // Over a full-scale overlap the fade-out and fade-in ramps sum to
    // unity at every position, so the overlap stays at full scale.
    let a = vec![SCALE, SCALE];
    let b = vec![SCALE, SCALE];
    let out = AudioMixer::crossfade(&a, &b, 2);
    assert_eq!(out, vec![SCALE, SCALE]);
}

#[test]
fn crossfade_fades_a_tail_out() {
    let a = vec![SCALE, SCALE, SCALE, SCALE];
    let b = vec![0, 0];
    let out = AudioMixer::crossfade(&a, &b, 2);
    // Prefix untouched; overlap weights 2/2 and 1/2 against silence.
    assert_eq!(out, vec![SCALE, SCALE, SCALE, SCALE / 2]);
}

#[test]
fn crossfade_fades_b_head_in() {
    let a = vec![0, 0];
    let b = vec![SCALE, SCALE, SCALE];
    let out = AudioMixer::crossfade(&a, &b, 2);
    // Overlap weights 0/2 and 1/2; the remainder of b is copied.
    assert_eq!(out, vec![0, SCALE / 2, SCALE]);
}

#[test]
fn crossfade_checked_rejects_long_overlap() {
    let a = vec![SCALE, SCALE];
    let b = vec![SCALE];
    assert!(AudioMixer::crossfade_checked(&a, &b, 2).is_none());
    assert!(AudioMixer::crossfade_checked(&b, &a, 2).is_none());
    let ok = AudioMixer::crossfade_checked(&a, &b, 1).unwrap();
    assert_eq!(ok, AudioMixer::crossfade(&a, &b, 1));
}

#[test]
fn floor_div_rounds_toward_negative_infinity() {
    assert_eq!(floor_div(3, 2), 1);
    assert_eq!(floor_div(-3, 2), -2);
    assert_eq!(floor_div(-4, 2), -2);
    assert_eq!(floor_div(0, 7), 0);
    assert_eq!(floor_div(-1, SCALE), -1);
}

#[test]
fn isqrt_exact_and_flooring() {
    assert_eq!(isqrt(0), 0);
    assert_eq!(isqrt(1), 1);
    assert_eq!(isqrt(2), 1);
    assert_eq!(isqrt(4), 2);
    assert_eq!(isqrt(2147483648), 46340);
    assert_eq!(isqrt(4294967296), 65536);
}
