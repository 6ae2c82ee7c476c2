use vstd::prelude::*;
use vstd::arithmetic::div_mod::{
    lemma_add_mod_noop,
    lemma_mod_add_multiples_vanish,
    lemma_mod_equivalence,
    lemma_small_mod,
};

verus! {

/// Stepping a position that is already reduced modulo `m` by one and reducing
/// again is the same as reducing the stepped unreduced position.
pub proof fn lemma_mod_succ(x: int, m: int)
    requires
        0 <= x,
        0 < m,
    ensures
        ((x % m) + 1) % m == (x + 1) % m,
{
    lemma_add_mod_noop(x, 1, m);
    if m > 1 {
        lemma_small_mod(1, m as nat);
    } else {
        assert(((x % m) + 1) % m == 0);
        assert((x + 1) % m == 0);
    }
}

/// Two positions less than `m` apart, but not equal, fall on different
/// residues modulo `m`.
pub proof fn lemma_mod_distinct(a: int, b: int, m: int)
    requires
        0 < m,
        a < b < a + m,
    ensures
        a % m != b % m,
{
    lemma_mod_equivalence(b, a, m);
    lemma_small_mod((b - a) as nat, m as nat);
}

/// Going back `d` steps (with `1 <= d <= m`) from a reduced position is the
/// same as reducing the unreduced position `d` steps back.
pub proof fn lemma_mod_back(x: int, d: int, m: int)
    requires
        0 < m,
        1 <= d <= m,
    ensures
        ((x % m) + m - d) % m == (x - d) % m,
{
    lemma_add_mod_noop(x, m - d, m);
    lemma_small_mod((m - d) as nat, m as nat);
    lemma_mod_add_multiples_vanish(x - d, m);
    assert(x + (m - d) == m + (x - d));
}

} // verus!
