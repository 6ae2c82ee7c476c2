use conjure_presets::delay_bank::DelayBank;

#[test]
fn write_is_read_back_after_delay_frames() {
    let mut bank = DelayBank::new(8, 0.0f32);
    bank.write(0, 0.5);
    bank.advance();
    for k in 1..5 {
        bank.write(0, k as f32);
        bank.advance();
    }
    // 0.5 was written five frames ago.
    assert_eq!(bank.tap(0, 5), 0.5);
    assert_eq!(bank.tap(0, 1), 4.0);
    assert_eq!(bank.tap(0, 4), 1.0);
}

#[test]
fn delay_of_whole_line_wraps_around() {
    let mut bank = DelayBank::new(3, 0i32);
    for k in 1..=7 {
        bank.write(0, k);
        bank.advance();
    }
    assert_eq!(bank.write_pos(), 1);
    assert_eq!(bank.tap(0, 1), 7);
    assert_eq!(bank.tap(0, 2), 6);
    assert_eq!(bank.tap(0, 3), 5);
    // A delay of zero reads the write position, which holds the oldest sample.
    assert_eq!(bank.tap(0, 0), 5);
}

#[test]
fn channels_are_independent() {
    let mut bank = DelayBank::new(4, 0i32);
    bank.write(0, 10);
    bank.write(1, 20);
    bank.advance();
    bank.write(0, 11);
    bank.advance();
    assert_eq!(bank.tap(0, 2), 10);
    assert_eq!(bank.tap(1, 2), 20);
    assert_eq!(bank.tap(1, 1), 0);
}

#[test]
fn clamp_delay_keeps_below_capacity() {
    let bank = DelayBank::new(48000, 0.0f32);
    assert_eq!(bank.capacity(), 48000);
    assert_eq!(bank.clamp_delay(12000), 12000);
    assert_eq!(bank.clamp_delay(47999), 47999);
    assert_eq!(bank.clamp_delay(48000), 47999);
    assert_eq!(bank.clamp_delay(100000), 47999);
}

#[test]
fn interpolation_taps_wrap() {
    let bank = DelayBank::new(1024, 0.0f32);
    assert_eq!(bank.taps(10), (10, 11));
    assert_eq!(bank.taps(1023), (1023, 0));
    assert_eq!(bank.taps(1030), (6, 7));
}

#[test]
fn read_sees_written_position() {
    let mut bank = DelayBank::new(4, 0u8);
    bank.advance();
    bank.advance();
    bank.write(1, 9);
    assert_eq!(bank.read(1, 2), 9);
    assert_eq!(bank.read(0, 2), 0);
}

#[test]
fn run_block_echoes_after_delay() {
    let mut bank = DelayBank::new(16, 0i32);
    let input = vec![1, 2, 3, 4, 5, 6];
    let mut out = vec![0i32; 6];
    // Store the input, output the sample read three frames back.
    bank.run_block(&input, &mut out, 1, 6, 3, |x: (i32, i32), d: (i32, i32)| ((x.0, x.1), (d.0, d.1)));
    assert_eq!(out, vec![0, 0, 0, 1, 2, 3]);
    assert_eq!(bank.write_pos(), 6);
    // The echo carries on into the next block.
    let mut out2 = vec![0i32; 3];
    bank.run_block(&vec![0, 0, 0], &mut out2, 1, 3, 3, |x: (i32, i32), d: (i32, i32)| ((x.0, x.1), (d.0, d.1)));
    assert_eq!(out2, vec![4, 5, 6]);
}

#[test]
fn run_block_feedback_and_mix() {
    // Echo preset shape with integer arithmetic: store input + delayed,
    // output input + 10 * delayed.
    let mut bank = DelayBank::new(8, 0i32);
    let input = vec![1, 0, 0, 0, 0, 0, 100, 0, 0, 0, 0, 0];
    let mut out = vec![0i32; 12];
    bank.run_block(&input, &mut out, 2, 6, 2, |x: (i32, i32), d: (i32, i32)| {
        ((x.0 + d.0, x.1 + d.1), (x.0 + 10 * d.0, x.1 + 10 * d.1))
    });
    assert_eq!(out, vec![1, 0, 10, 0, 10, 0, 100, 0, 1000, 0, 1000, 0]);
}

#[test]
fn run_block_cross_feeds_lines() {
    // Ping-pong shape: input feeds line 0, line 0 feeds line 1, line 1 feeds
    // back into line 0; the output is what each line reads.
    let mut bank = DelayBank::new(8, 0i32);
    let input = vec![7, 0, 0, 0, 0, 0, 0, 0];
    let mut out = vec![0i32; 8];
    bank.run_block(&input, &mut out, 2, 4, 1, |x: (i32, i32), d: (i32, i32)| {
        ((x.0 + x.1 + d.1, d.0), (d.0, d.1))
    });
    assert_eq!(out, vec![0, 7, 0, 7, 0, 0, 7, 0]);
}

#[test]
fn run_block_mono_leaves_second_line() {
    let mut bank = DelayBank::new(4, 0i32);
    bank.write(1, 42);
    let mut out = vec![0i32; 2];
    bank.run_block(&vec![5, 6], &mut out, 1, 2, 1, |x: (i32, i32), d: (i32, i32)| ((x.0, -1), (d.0, d.1)));
    assert_eq!(out, vec![0, 5]);
    assert_eq!(bank.read(1, 0), 42);
    assert_eq!(bank.read(1, 1), 0);
}
