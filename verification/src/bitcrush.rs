use vstd::prelude::*;
use vstd::arithmetic::power2::pow2;
use crate::layout::{lemma_planar, planar};

verus! {

/// Number of amplitude levels for a bit depth: `1 << bit_depth` in `i32`,
/// which is `2^bit_depth` up to 30 bits and `i32::MIN` at 31 bits.
pub fn quantization_levels(bit_depth: i32) -> (r: i32)
    requires
        0 <= bit_depth < 32,
    ensures
        bit_depth < 31 ==> r == pow2(bit_depth as nat),
        bit_depth == 31 ==> r == i32::MIN,
{
    let shift = bit_depth as u32;
    let wide: u32 = 1u32 << shift;
    proof {
        vstd::bits::lemma_u32_pow2_no_overflow(shift as nat);
        vstd::bits::lemma_u32_shl_is_mul(1, shift);
        if bit_depth < 31 {
            vstd::arithmetic::power2::lemma_pow2_strictly_increases(shift as nat, 31);
            vstd::arithmetic::power2::lemma2_to64();
        } else {
            vstd::arithmetic::power2::lemma2_to64();
        }
    }
    if bit_depth == 31 {
        i32::MIN
    } else {
        wide as i32
    }
}

/// The frame whose sample is held at frame `i` when every `downsample`-th
/// frame of a block is taken: the last multiple of `downsample` not after `i`.
pub open spec fn held_frame(i: int, downsample: int) -> int {
    i - i % downsample
}

/// Every `downsample`-th frame is held: the held frame is a multiple of
/// `downsample`, not after `i`, and less than `downsample` frames before it.
pub proof fn lemma_held_frame(i: int, downsample: int)
    requires
        0 <= i,
        0 < downsample,
    ensures
        held_frame(i, downsample) % downsample == 0,
        i - downsample < held_frame(i, downsample) <= i,
        0 <= held_frame(i, downsample),
{
    vstd::arithmetic::div_mod::lemma_fundamental_div_mod(i, downsample);
    vstd::arithmetic::div_mod::lemma_mod_multiples_basic(i / downsample, downsample);
    vstd::arithmetic::div_mod::lemma_mod_pos_bound(i, downsample);
    assert(held_frame(i, downsample) == downsample * (i / downsample));
    vstd::arithmetic::mul::lemma_mul_is_commutative(downsample, i / downsample);
}

proof fn lemma_held_frame_step(i: int, d: int)
    requires
        0 < i,
        0 < d,
        i % d != 0,
    ensures
        held_frame(i, d) == held_frame(i - 1, d),
{
    vstd::arithmetic::div_mod::lemma_mod_subtraction(i as nat, 1, d as nat);
    vstd::arithmetic::div_mod::lemma_small_mod(1, d as nat);
}

/// Sample-and-hold for the (at most two) channels of a preset: the stepped,
/// lower-rate sound of the bitcrusher.
pub struct SampleHold<T> {
    held: Vec<T>,
}

impl<T: Copy> View for SampleHold<T> {
    type V = Seq<T>;

    /// The held sample of each channel.
    closed spec fn view(&self) -> Seq<T> {
        self.held@
    }
}

impl<T: Copy> SampleHold<T> {
    /// Both channels hold `silence`.
    pub fn new(silence: T) -> (r: Self)
        ensures
            r@ == seq![silence, silence],
    {
        let mut held: Vec<T> = Vec::new();
        held.push(silence);
        held.push(silence);
        let r = SampleHold { held };
        assert(r@ =~= seq![silence, silence]);
        r
    }

    /// Processes a planar block of already quantized samples in place: at
    /// every frame whose index is a multiple of `downsample` each channel takes
    /// its sample from the block, and every frame outputs the sample its
    /// channel holds.
    pub fn process(&mut self, block: &mut [T], channels: usize, frames: usize, downsample: usize)
        requires
            old(self)@.len() == 2,
            channels <= 2,
            old(block)@.len() == channels * frames,
            frames > 0 && channels > 0 ==> downsample > 0,
        ensures
            final(self)@.len() == 2,
            final(block)@.len() == old(block)@.len(),
            forall|c: int, i: int|
                0 <= c < channels && 0 <= i < frames ==> #[trigger] final(block)@[planar(
                    c,
                    i,
                    frames as int,
                )] == old(block)@[planar(c, held_frame(i, downsample as int), frames as int)],
            forall|c: int|
                0 <= c < 2 ==> #[trigger] final(self)@[c] == if c < channels && frames > 0 {
                    old(block)@[planar(c, held_frame(frames - 1, downsample as int), frames as int)]
                } else {
                    old(self)@[c]
                },
    {
        let _total = block.len();
        let ghost old_held = self@;
        let ghost input = block@;
        let mut i: usize = 0;
        while i < frames
            invariant
                self@.len() == 2,
                i <= frames,
                channels <= 2,
                frames > 0 && channels > 0 ==> downsample > 0,
                input.len() == channels * frames,
                block@.len() == channels * frames,
                _total == block@.len(),
                forall|c: int, j: int|
                    0 <= c < channels && 0 <= j < i ==> #[trigger] block@[planar(c, j, frames as int)]
                        == input[planar(c, held_frame(j, downsample as int), frames as int)],
                forall|c: int, j: int|
                    0 <= c < channels && i <= j < frames ==> #[trigger] block@[planar(
                        c,
                        j,
                        frames as int,
                    )] == input[planar(c, j, frames as int)],
                forall|c: int|
                    0 <= c < 2 ==> #[trigger] self@[c] == if c < channels && i > 0 {
                        input[planar(c, held_frame(i - 1, downsample as int), frames as int)]
                    } else {
                        old_held[c]
                    },
            decreases frames - i,
        {
            let take = channels > 0 && i % downsample == 0;
            proof {
                let d = downsample as int;
                if channels > 0 {
                    vstd::arithmetic::div_mod::lemma_small_mod(0, d as nat);
                    if !take {
                        lemma_held_frame_step(i as int, d);
                    } else {
                        assert(held_frame(i as int, d) == i);
                    }
                }
                if channels > 0 {
                    lemma_planar(0, i as int, channels as int, frames as int);
                }
                if channels > 1 {
                    lemma_planar(1, i as int, channels as int, frames as int);
                }
            }
            if channels > 0 {
                if take {
                    let v = block[i];
                    self.held.set(0, v);
                }
                let h = self.held[0];
                block[i] = h;
            }
            if channels > 1 {
                let k = frames + i;
                if take {
                    let v = block[k];
                    self.held.set(1, v);
                }
                let h = self.held[1];
                block[k] = h;
            }
            proof {
                assert forall|c: int| 0 <= c < channels implies #[trigger] self@[c] == input[planar(
                    c,
                    held_frame(i as int, downsample as int),
                    frames as int,
                )] by {}
                assert forall|c: int, j: int|
                    0 <= c < channels && 0 <= j < i + 1 implies #[trigger] block@[planar(
                        c,
                        j,
                        frames as int,
                    )] == input[planar(c, held_frame(j, downsample as int), frames as int)] by {
                    lemma_planar(c, j, channels as int, frames as int);
                }
                assert forall|c: int, j: int|
                    0 <= c < channels && i + 1 <= j < frames implies #[trigger] block@[planar(
                        c,
                        j,
                        frames as int,
                    )] == input[planar(c, j, frames as int)] by {
                    lemma_planar(c, j, channels as int, frames as int);
                }
            }
            i = i + 1;
        }
    }
}

} // verus!
