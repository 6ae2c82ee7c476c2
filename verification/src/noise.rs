use vstd::prelude::*;
use crate::layout::{lemma_planar, lemma_planar_distinct, planar};

verus! {

/// Multiplier of the noise generator's linear congruential sequence.
pub const LCG_MUL: u32 = 1664525;

/// Increment of the noise generator's linear congruential sequence.
pub const LCG_ADD: u32 = 1013904223;

/// State the noise generator starts from.
pub const LCG_SEED: u32 = 12345;

/// The state after `s`: `(s * 1664525 + 1013904223) mod 2^32`.
pub open spec fn lcg_next(s: u32) -> u32 {
    ((s as nat * LCG_MUL as nat + LCG_ADD as nat) % 0x1_0000_0000) as u32
}

/// The state `n` steps after `s`.
pub open spec fn lcg_iter(s: u32, n: nat) -> u32
    decreases n,
{
    if n == 0 {
        s
    } else {
        lcg_next(lcg_iter(s, (n - 1) as nat))
    }
}

/// Each state is followed by `(s * 1664525 + 1013904223) mod 2^32`.
pub proof fn lemma_lcg_next_formula(s: u32)
    ensures
        lcg_next(s) as int == (s as int * 1664525 + 1013904223) % 0x1_0000_0000,
{
}

/// The state after `s`, computed in 64-bit words and cut to 32 bits, can be
/// undone: adding `2^32 - 1013904223` and multiplying by 4276115653 (the
/// inverse of 1664525 modulo `2^32`), cut to 32 bits, gives `s` back.
proof fn lemma_lcg_undo(s: u32)
    ensures
        lcg_next(s) as int == ((s as u64 * 1664525u64 + 1013904223u64) as u32) as int,
        (((((s as u64 * 1664525u64 + 1013904223u64) as u32) as u64 + 3281063073u64)
            * 4276115653u64) as u32) == s,
{
    assert(((s as u64 * 1664525u64 + 1013904223u64) as u32) as int == (s as int * 1664525
        + 1013904223) % 0x1_0000_0000) by (bit_vector);
    assert((((((s as u64 * 1664525u64 + 1013904223u64) as u32) as u64 + 3281063073u64)
        * 4276115653u64) as u32) == s) by (bit_vector);
}

/// No two states have the same successor: the sequence never settles on a
/// value it cannot leave, so the noise keeps changing from block to block.
pub proof fn lemma_lcg_next_injective(s1: u32, s2: u32)
    ensures
        lcg_next(s1) == lcg_next(s2) ==> s1 == s2,
{
    lemma_lcg_undo(s1);
    lemma_lcg_undo(s2);
}

/// The state zero steps on is the start, and each further step moves to the
/// successor of the state before.
pub proof fn lemma_lcg_iter_step(s: u32, n: nat)
    ensures
        lcg_iter(s, 0) == s,
        lcg_iter(s, n + 1) as int == (lcg_iter(s, n) as int * 1664525 + 1013904223) % 0x1_0000_0000,
{
    assert((n + 1 - 1) as nat == n);
}

/// The sequence continues across blocks: `n` steps and then `m` more steps
/// reach the state that `n + m` steps reach.
pub proof fn lemma_lcg_iter_add(s: u32, n: nat, m: nat)
    ensures
        lcg_iter(lcg_iter(s, n), m) == lcg_iter(s, n + m),
    decreases m,
{
    if m > 0 {
        lemma_lcg_iter_add(s, n, (m - 1) as nat);
        assert((n + m - 1) as nat == n + (m - 1) as nat);
    }
}

/// Source of the white-noise preset's random states: a linear congruential
/// sequence that carries on from one block to the next.
pub struct NoiseSource {
    state: u32,
}

impl View for NoiseSource {
    type V = u32;

    /// The current state.
    closed spec fn view(&self) -> u32 {
        self.state
    }
}

impl NoiseSource {
    /// A source at the seed state.
    pub fn new() -> (r: Self)
        ensures
            r@ == LCG_SEED,
    {
        NoiseSource { state: LCG_SEED }
    }

    /// The current state.
    pub fn state(&self) -> (r: u32)
        ensures
            r == self@,
    {
        self.state
    }

    /// Moves to the next state and returns it.
    pub fn next_state(&mut self) -> (r: u32)
        ensures
            r == lcg_next(old(self)@),
            r as int == (old(self)@ as int * 1664525 + 1013904223) % 0x1_0000_0000,
            final(self)@ == r,
    {
        let product = self.state.wrapping_mul(LCG_MUL);
        let r = product.wrapping_add(LCG_ADD);
        proof {
            let m: int = 0x1_0000_0000;
            let x = self.state as int * LCG_MUL as int;
            vstd::arithmetic::div_mod::lemma_add_mod_noop(x, LCG_ADD as int, m);
            vstd::arithmetic::div_mod::lemma_small_mod(LCG_ADD as nat, m as nat);
            if product as int + LCG_ADD as int >= m {
                vstd::arithmetic::div_mod::lemma_mod_sub_multiples_vanish(
                    product as int + LCG_ADD as int,
                    m,
                );
                vstd::arithmetic::div_mod::lemma_small_mod(
                    (product as int + LCG_ADD as int - m) as nat,
                    m as nat,
                );
            } else {
                vstd::arithmetic::div_mod::lemma_small_mod(
                    (product as int + LCG_ADD as int) as nat,
                    m as nat,
                );
            }
        }
        self.state = r;
        r
    }

    /// Fills a planar block with one new state per frame, the same state in
    /// every channel of a frame: frame `i` gets the state `i + 1` steps on.
    pub fn fill_block(&mut self, output: &mut [u32], channels: usize, frames: usize)
        requires
            old(output)@.len() == channels * frames,
        ensures
            final(self)@ == lcg_iter(old(self)@, frames as nat),
            final(output)@.len() == old(output)@.len(),
            forall|c: int, i: int|
                0 <= c < channels && 0 <= i < frames ==> #[trigger] final(output)@[planar(
                    c,
                    i,
                    frames as int,
                )] == lcg_iter(old(self)@, (i + 1) as nat),
            forall|c: int| 0 <= c < channels && 0 < frames ==> #[trigger] final(output)@[planar(c, 0, frames as int)] as int
                == (old(self)@ as int * 1664525 + 1013904223) % 0x1_0000_0000,
            forall|c: int, i: int|
                0 <= c < channels && 0 <= i && i + 1 < frames ==> #[trigger] final(output)@[planar(
                    c,
                    i + 1,
                    frames as int,
                )] as int == (final(output)@[planar(c, i, frames as int)] as int * 1664525
                    + 1013904223) % 0x1_0000_0000,
    {
        let ghost s0 = self@;
        let mut i: usize = 0;
        while i < frames
            invariant
                i <= frames,
                output@.len() == channels * frames,
                self@ == lcg_iter(s0, i as nat),
                forall|c: int, j: int|
                    0 <= c < channels && 0 <= j < i ==> #[trigger] output@[planar(c, j, frames as int)]
                        == lcg_iter(s0, (j + 1) as nat),
            decreases frames - i,
        {
            let v = self.next_state();
            fill_frame(output, channels, frames, i, v);
            i = i + 1;
        }
        proof {
            assert forall|c: int, i: int|
                0 <= c < channels && 0 <= i && i + 1 < frames implies #[trigger] output@[planar(
                    c,
                    i + 1,
                    frames as int,
                )] as int == (output@[planar(c, i, frames as int)] as int * 1664525 + 1013904223)
                    % 0x1_0000_0000 by {
                lemma_lcg_iter_step(s0, (i + 1) as nat);
                assert((i + 1 + 1) as nat == (i + 1) as nat + 1);
            }
            assert forall|c: int| 0 <= c < channels && 0 < frames implies #[trigger] output@[planar(c, 0, frames as int)] as int
                == (s0 as int * 1664525 + 1013904223) % 0x1_0000_0000 by {
                lemma_lcg_iter_step(s0, 0);
            }
        }
    }
}

/// Writes `v` into every channel of frame `i` of a planar block.
fn fill_frame(output: &mut [u32], channels: usize, frames: usize, i: usize, v: u32)
    requires
        old(output)@.len() == channels * frames,
        i < frames,
    ensures
        final(output)@.len() == old(output)@.len(),
        forall|c: int| 0 <= c < channels ==> #[trigger] final(output)@[planar(c, i as int, frames as int)] == v,
        forall|c: int, j: int|
            0 <= c < channels && 0 <= j < frames && j != i ==> #[trigger] final(output)@[planar(
                c,
                j,
                frames as int,
            )] == old(output)@[planar(c, j, frames as int)],
{
    let _total = output.len();
    let mut c: usize = 0;
    while c < channels
        invariant
            i < frames,
            c <= channels,
            output@.len() == channels * frames,
            _total == output@.len(),
            forall|c2: int| 0 <= c2 < c ==> #[trigger] output@[planar(c2, i as int, frames as int)] == v,
            forall|c2: int, j: int|
                0 <= c2 < channels && 0 <= j < frames && j != i ==> #[trigger] output@[planar(
                    c2,
                    j,
                    frames as int,
                )] == old(output)@[planar(c2, j, frames as int)],
        decreases channels - c,
    {
        proof {
            lemma_planar(c as int, i as int, channels as int, frames as int);
        }
        let k = c * frames + i;
        let ghost before = output@;
        output[k] = v;
        proof {
            assert forall|c2: int, j: int|
                0 <= c2 < channels && 0 <= j < frames && j != i implies #[trigger] output@[planar(
                    c2,
                    j,
                    frames as int,
                )] == old(output)@[planar(c2, j, frames as int)] by {
                lemma_planar(c2, j, channels as int, frames as int);
                lemma_planar_distinct(c2, j, c as int, i as int, frames as int);
                assert(output@[planar(c2, j, frames as int)] == before[planar(c2, j, frames as int)]);
            }
            assert forall|c2: int| 0 <= c2 < c + 1 implies #[trigger] output@[planar(
                c2,
                i as int,
                frames as int,
            )] == v by {
                if c2 != c {
                    lemma_planar(c2, i as int, channels as int, frames as int);
                    lemma_planar_distinct(c2, i as int, c as int, i as int, frames as int);
                    assert(output@[planar(c2, i as int, frames as int)] == before[planar(c2, i as int, frames as int)]);
                }
            }
        }
        c = c + 1;
    }
}

} // verus!
