use conjure_presets::bitcrush::{quantization_levels, SampleHold};
use conjure_presets::noise::{NoiseSource, LCG_SEED};

#[test]
fn levels_are_powers_of_two() {
    assert_eq!(quantization_levels(0), 1);
    assert_eq!(quantization_levels(1), 2);
    assert_eq!(quantization_levels(8), 256);
    assert_eq!(quantization_levels(16), 65536);
    assert_eq!(quantization_levels(30), 1 << 30);
    assert_eq!(quantization_levels(31), i32::MIN);
}

#[test]
fn hold_every_third_frame() {
    let mut h = SampleHold::new(0i32);
    let mut block = vec![1, 2, 3, 4, 5, 6, 7, 11, 12, 13, 14, 15, 16, 17];
    h.process(&mut block, 2, 7, 3);
    assert_eq!(block, vec![1, 1, 1, 4, 4, 4, 7, 11, 11, 11, 14, 14, 14, 17]);
}

#[test]
fn downsample_one_passes_everything() {
    let mut h = SampleHold::new(0.0f32);
    let mut block = vec![0.25f32, -0.5, 0.75];
    h.process(&mut block, 1, 3, 1);
    assert_eq!(block, vec![0.25, -0.5, 0.75]);
}

#[test]
fn held_sample_of_last_block_never_leaks() {
    let mut h = SampleHold::new(0i32);
    let mut first = vec![1, 2, 3, 4];
    h.process(&mut first, 1, 4, 16);
    assert_eq!(first, vec![1, 1, 1, 1]);
    let mut second = vec![9, 8, 7, 6];
    h.process(&mut second, 1, 4, 16);
    assert_eq!(second, vec![9, 9, 9, 9]);
}

#[test]
fn first_noise_state() {
    let mut n = NoiseSource::new();
    assert_eq!(n.state(), LCG_SEED);
    assert_eq!(n.next_state(), 87628868);
    assert_eq!(n.state(), 87628868);
}

#[test]
fn noise_frames_share_one_state_across_channels() {
    let mut n = NoiseSource::new();
    let mut out = vec![0u32; 6];
    n.fill_block(&mut out, 2, 3);
    assert_eq!(out[0], out[3]);
    assert_eq!(out[1], out[4]);
    assert_eq!(out[2], out[5]);
    assert_eq!(out[0], 87628868);
    assert_ne!(out[0], out[1]);
}

#[test]
fn noise_stream_continues_across_blocks() {
    let mut whole = NoiseSource::new();
    let mut one = vec![0u32; 6];
    whole.fill_block(&mut one, 1, 6);
    let mut split = NoiseSource::new();
    let mut first = vec![0u32; 2];
    let mut second = vec![0u32; 4];
    split.fill_block(&mut first, 1, 2);
    split.fill_block(&mut second, 1, 4);
    assert_eq!(first, one[0..2].to_vec());
    assert_eq!(second, one[2..6].to_vec());
    assert_eq!(whole.state(), split.state());
}

#[test]
fn noise_state_matches_formula() {
    let mut n = NoiseSource::new();
    let mut s: u64 = LCG_SEED as u64;
    for _ in 0..100 {
        s = (s * 1664525 + 1013904223) % 4294967296;
        assert_eq!(n.next_state() as u64, s);
    }
}
