//! Uniform draws from `[0, 1)`, held as numerators of fractions over 2^32.

use vstd::prelude::*;

verus! {

/// `floor(u / 2^32 * n)`: the draw `u` scaled to `0 .. n`.
pub open spec fn scaled(u: int, n: int) -> int {
    (u * n) / 0x1_0000_0000
}

/// A draw scaled to `0 .. n` stays below `n`.
pub proof fn lemma_scaled_bounds(u: int, n: int)
    requires
        0 <= u < 0x1_0000_0000,
        0 <= n,
    ensures
        0 <= scaled(u, n),
        n > 0 ==> scaled(u, n) < n,
        n == 0 ==> scaled(u, n) == 0,
{
    assert(0 <= u * n && (n > 0 ==> u * n < 0x1_0000_0000 * n)) by (nonlinear_arith)
        requires
            0 <= u < 0x1_0000_0000,
            0 <= n,
    ;
    assert(n == 0 ==> u * n == 0) by (nonlinear_arith);
}

/// Scales the draw `u` to `0 .. n`.
pub fn scale(u: u32, n: usize) -> (k: usize)
    ensures
        k == scaled(u as int, n as int),
        n > 0 ==> k < n,
        n == 0 ==> k == 0,
{
    proof {
        lemma_scaled_bounds(u as int, n as int);
        assert(u * n <= 0xFFFF_FFFF * 0xFFFF_FFFF_FFFF_FFFF) by (nonlinear_arith)
            requires
                0 <= u <= 0xFFFF_FFFF,
                0 <= n <= 0xFFFF_FFFF_FFFF_FFFF,
        ;
    }
    let product: u128 = (u as u128) * (n as u128);
    (product / 0x1_0000_0000u128) as usize
}

} // verus!
