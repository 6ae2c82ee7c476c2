use conjure_presets::slicer::{chunk_len, ReverseSlicer, MAX_CHUNK};

#[test]
fn previous_chunk_plays_backwards_mono() {
    let mut s = ReverseSlicer::new(0.0f32);
    let mut out = vec![9.0f32; 4];
    s.process(&vec![1.0, 2.0, 3.0, 4.0], &mut out, 1, 4, 4);
    // Nothing recorded yet: silence plays.
    assert_eq!(out, vec![0.0, 0.0, 0.0, 0.0]);
    assert_eq!(s.write_pos(), 0);
    s.process(&vec![5.0, 6.0, 7.0, 8.0], &mut out, 1, 4, 4);
    assert_eq!(out, vec![4.0, 3.0, 2.0, 1.0]);
    s.process(&vec![0.0, 0.0, 0.0, 0.0], &mut out, 1, 4, 4);
    assert_eq!(out, vec![8.0, 7.0, 6.0, 5.0]);
}

#[test]
fn chunks_across_block_boundaries_stereo() {
    let mut s = ReverseSlicer::new(0i32);
    // Chunks of 3 frames, blocks of 2 frames, planar stereo.
    let mut out = vec![0i32; 4];
    s.process(&vec![1, 2, 11, 12], &mut out, 2, 2, 3);
    assert_eq!(out, vec![0, 0, 0, 0]);
    assert_eq!(s.write_pos(), 2);
    s.process(&vec![3, 4, 13, 14], &mut out, 2, 2, 3);
    // Frame 3 closes the first chunk; frame 4 starts the next one and plays
    // the last frame of the first chunk.
    assert_eq!(out, vec![0, 3, 0, 13]);
    s.process(&vec![5, 6, 15, 16], &mut out, 2, 2, 3);
    assert_eq!(out, vec![2, 1, 12, 11]);
}

#[test]
fn chunk_len_is_capped() {
    assert_eq!(chunk_len(4800), 4800);
    assert_eq!(chunk_len(MAX_CHUNK), MAX_CHUNK);
    assert_eq!(chunk_len(24000), 19200);
    assert_eq!(chunk_len(0), 1);
}

#[test]
fn shorter_chunk_closes_current_chunk() {
    let mut s = ReverseSlicer::new(0i32);
    let mut out = vec![0i32; 5];
    // Chunks of 8 frames: five frames recorded, position 5.
    s.process(&vec![1, 2, 3, 4, 5], &mut out, 1, 5, 8);
    assert_eq!(s.write_pos(), 5);
    // The chunk length drops to 3: the chunk closes, and its first three
    // frames play backwards while the next chunk records.
    let mut out2 = vec![0i32; 4];
    s.process(&vec![10, 20, 30, 40], &mut out2, 1, 4, 3);
    assert_eq!(out2, vec![3, 2, 1, 30]);
    assert_eq!(s.write_pos(), 1);
}

#[test]
fn zero_chunk_plays_previous_frame() {
    let mut s = ReverseSlicer::new(0i32);
    let mut out = vec![0i32; 3];
    s.process(&vec![1, 2, 3], &mut out, 1, 3, 0);
    assert_eq!(out, vec![0, 1, 2]);
}

#[test]
fn empty_block_changes_nothing() {
    let mut s = ReverseSlicer::new(0u8);
    let mut out: Vec<u8> = Vec::new();
    s.process(&Vec::new(), &mut out, 2, 0, 0);
    assert_eq!(s.write_pos(), 0);
}
