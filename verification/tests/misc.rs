use conjure_presets::channels::ChannelBuffers;
use conjure_presets::gate::{GatePhase, HoldCounter};
use conjure_presets::layout::{copy_block, sample_index, MAX_CH, MAX_FR};
use conjure_presets::phaser::{active_stages, MAX_STAGES};

#[test]
fn hold_then_release() {
    let mut g = HoldCounter::new();
    assert_eq!(g.step(false, 3), GatePhase::Release);
    assert_eq!(g.step(true, 3), GatePhase::Open);
    assert_eq!(g.remaining(), 3);
    assert_eq!(g.step(false, 3), GatePhase::Hold);
    assert_eq!(g.step(false, 3), GatePhase::Hold);
    assert_eq!(g.step(false, 3), GatePhase::Hold);
    assert_eq!(g.step(false, 3), GatePhase::Release);
    assert_eq!(g.step(false, 3), GatePhase::Release);
    assert_eq!(g.remaining(), 0);
}

#[test]
fn level_above_restarts_hold() {
    let mut g = HoldCounter::new();
    g.step(true, 2);
    assert_eq!(g.step(false, 2), GatePhase::Hold);
    assert_eq!(g.step(true, 2), GatePhase::Open);
    assert_eq!(g.step(false, 2), GatePhase::Hold);
    assert_eq!(g.step(false, 2), GatePhase::Hold);
    assert_eq!(g.step(false, 2), GatePhase::Release);
}

#[test]
fn zero_hold_releases_at_once() {
    let mut g = HoldCounter::new();
    g.step(true, 0);
    assert_eq!(g.step(false, 0), GatePhase::Release);
}

#[test]
fn negative_hold_releases_at_once() {
    let mut g = HoldCounter::new();
    g.step(true, -5);
    assert_eq!(g.remaining(), -5);
    assert_eq!(g.step(false, -5), GatePhase::Release);
    assert_eq!(g.remaining(), -5);
}

#[test]
fn stages_are_capped() {
    assert_eq!(active_stages(0), 0);
    assert_eq!(active_stages(4), 4);
    assert_eq!(active_stages(MAX_STAGES), 6);
    assert_eq!(active_stages(7), 6);
}

#[test]
fn planar_positions() {
    assert_eq!(MAX_CH * MAX_FR, 8192);
    assert_eq!(sample_index(0, 5, 2, 10), 5);
    assert_eq!(sample_index(1, 3, 2, 10), 13);
    assert_eq!(sample_index(1, 4095, 2, 4096), 8191);
}

#[test]
fn copy_block_copies_prefix() {
    let input = vec![1.0f32, -2.0, 3.5, 4.0];
    let mut out = vec![0.0f32; 5];
    copy_block(&input, &mut out, 3);
    assert_eq!(out, vec![1.0, -2.0, 3.5, 0.0, 0.0]);
}

#[test]
fn channel_buffers_set_and_get() {
    let mut b = ChannelBuffers::new(3, 0i32);
    assert_eq!(b.len(), 3);
    b.set(1, 2, 7);
    assert_eq!(b.get(1, 2), 7);
    assert_eq!(b.get(0, 2), 0);
}
