use vstd::prelude::*;

verus! {

/// Largest number of channels a preset handles.
pub const MAX_CH: usize = 2;

/// Largest number of frames in one block.
pub const MAX_FR: usize = 4096;

/// Position of frame `i` of channel `c` in a planar block of `frames` frames
/// per channel: all of channel 0 first, then all of channel 1.
pub open spec fn planar(c: int, i: int, frames: int) -> int {
    c * frames + i
}

/// The samples of frame `i` of a planar block, one per channel.
pub open spec fn frame_at<T>(block: Seq<T>, channels: int, frames: int, i: int) -> Seq<T> {
    Seq::new(channels as nat, |c: int| block[planar(c, i, frames)])
}

/// A planar block read as a sequence of frames.
pub open spec fn frames_of<T>(block: Seq<T>, channels: int, frames: int) -> Seq<Seq<T>> {
    Seq::new(frames as nat, |i: int| frame_at(block, channels, frames, i))
}

/// Reading a planar block as frames puts sample `c * frames + i` at channel
/// `c` of frame `i`: one frame per frame index, one sample per channel.
pub proof fn lemma_frames_of_layout<T>(block: Seq<T>, channels: int, frames: int)
    requires
        0 <= channels,
        0 <= frames,
    ensures
        frames_of(block, channels, frames).len() == frames,
        forall|i: int| 0 <= i < frames ==> (#[trigger] frames_of(block, channels, frames)[i]).len() == channels,
        forall|c: int, i: int|
            0 <= c < channels && 0 <= i < frames ==> #[trigger] frames_of(block, channels, frames)[i][c]
                == block[c * frames + i],
{
}

/// Planar positions of a block lie inside it, and different (channel, frame)
/// pairs have different positions.
pub proof fn lemma_planar(c: int, i: int, channels: int, frames: int)
    requires
        0 <= c < channels,
        0 <= i < frames,
    ensures
        0 <= planar(c, i, frames) < channels * frames,
        c == 0 ==> planar(c, i, frames) == i,
        c == 1 ==> planar(c, i, frames) == frames + i,
{
    vstd::arithmetic::mul::lemma_mul_inequality(c + 1, channels, frames);
    vstd::arithmetic::mul::lemma_mul_nonnegative(c, frames);
    vstd::arithmetic::mul::lemma_mul_is_distributive_add_other_way(frames, c, 1);
}

/// Different (channel, frame) pairs of a block have different planar
/// positions.
pub proof fn lemma_planar_distinct(c1: int, i1: int, c2: int, i2: int, frames: int)
    requires
        0 <= c1,
        0 <= c2,
        0 <= i1 < frames,
        0 <= i2 < frames,
        c1 != c2 || i1 != i2,
    ensures
        planar(c1, i1, frames) != planar(c2, i2, frames),
{
    if c1 == c2 {
    } else if c1 < c2 {
        vstd::arithmetic::mul::lemma_mul_inequality(c1 + 1, c2, frames);
        vstd::arithmetic::mul::lemma_mul_is_distributive_add_other_way(frames, c1, 1);
    } else {
        vstd::arithmetic::mul::lemma_mul_inequality(c2 + 1, c1, frames);
        vstd::arithmetic::mul::lemma_mul_is_distributive_add_other_way(frames, c2, 1);
    }
}

/// Position of frame `i` of channel `c` in a planar block.
pub fn sample_index(c: usize, i: usize, channels: usize, frames: usize) -> (r: usize)
    requires
        c < channels,
        i < frames,
        channels * frames <= usize::MAX,
    ensures
        r == planar(c as int, i as int, frames as int),
        r < channels * frames,
{
    proof {
        lemma_planar(c as int, i as int, channels as int, frames as int);
    }
    c * frames + i
}

/// Copies the first `n` samples of `input` to `output` unchanged.
pub fn copy_block<T: Copy>(input: &[T], output: &mut [T], n: usize)
    requires
        n <= input@.len(),
        n <= old(output)@.len(),
    ensures
        final(output)@.len() == old(output)@.len(),
        final(output)@.subrange(0, n as int) == input@.subrange(0, n as int),
        final(output)@.subrange(n as int, final(output)@.len() as int) == old(output)@.subrange(
            n as int,
            old(output)@.len() as int,
        ),
{
    let mut i: usize = 0;
    while i < n
        invariant
            i <= n,
            n <= input@.len(),
            n <= old(output)@.len(),
            output@.len() == old(output)@.len(),
            forall|k: int| 0 <= k < i ==> #[trigger] output@[k] == input@[k],
            forall|k: int| n <= k < output@.len() ==> #[trigger] output@[k] == old(output)@[k],
        decreases n - i,
    {
        let v = input[i];
        output[i] = v;
        i = i + 1;
    }
    assert(output@.subrange(0, n as int) =~= input@.subrange(0, n as int));
    assert(output@.subrange(n as int, output@.len() as int) =~= old(output)@.subrange(
        n as int,
        old(output)@.len() as int,
    ));
}

} // verus!
