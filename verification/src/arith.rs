//! Small arithmetic facts shared by the ring buffers.

use vstd::prelude::*;

verus! {

/// Adding two in-range offsets wraps at most once.
pub proof fn lemma_wrap(h: int, j: int, n: int)
    requires
        0 <= h < n,
        0 <= j <= n,
    ensures
        (h + j) % n == if h + j < n { h + j } else { h + j - n },
{
    if h + j < n {
        vstd::arithmetic::div_mod::lemma_small_mod((h + j) as nat, n as nat);
    } else {
        vstd::arithmetic::div_mod::lemma_mod_add_multiples_vanish(h + j - n, n);
        vstd::arithmetic::div_mod::lemma_small_mod((h + j - n) as nat, n as nat);
    }
}

} // verus!
