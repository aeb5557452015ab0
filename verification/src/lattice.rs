//! Integer arithmetic of the background grid.
//!
//! A cell has side `r / sqrt(2)`, which is irrational. Cell indices are
//! therefore characterised by squared inequalities over the integers: `k` is the
//! cell of `x` when `k * r <= x * sqrt(2) < (k + 1) * r`, that is when
//! `k^2 r^2 <= 2 x^2 < (k + 1)^2 r^2`.

use vstd::prelude::*;

verus! {

/// The largest coordinate for which cell indices are computed.
pub const MAX_COORD: usize = 16_777_216;

/// `s` is the integer square root of `n`.
pub open spec fn is_isqrt(n: int, s: int) -> bool {
    0 <= s && s * s <= n && n < (s + 1) * (s + 1)
}

/// `k` is the index, along one axis, of the cell that holds coordinate `x`
/// when cells have side `r / sqrt(2)`.
pub open spec fn is_cell_of(x: int, r: int, k: int) -> bool {
    0 <= k && k * k * r * r <= 2 * x * x && 2 * x * x < (k + 1) * (k + 1) * r * r
}

/// The index of the cell that holds coordinate `x`.
pub open spec fn cell_index(x: int, r: int) -> int {
    choose|k: int| is_cell_of(x, r, k)
}

/// Squaring keeps the order of non-negative integers.
pub proof fn lemma_square_le(a: int, b: int)
    requires
        0 <= a <= b,
    ensures
        a * a <= b * b,
{
    assert(a * a <= b * b) by (nonlinear_arith)
        requires
            0 <= a <= b,
    ;
}

/// A non-negative integer whose square is smaller is smaller.
pub proof fn lemma_square_lt_rev(a: int, b: int)
    requires
        0 <= a,
        0 <= b,
        a * a < b * b,
    ensures
        a < b,
{
    if a >= b {
        lemma_square_le(b, a);
    }
}

/// The integer square root by bisection.
pub fn isqrt(n: u64) -> (s: u64)
    ensures
        is_isqrt(n as int, s as int),
        s <= 0xFFFF_FFFF,
{
    let mut lo: u64 = 0;
    let mut hi: u64 = 0x1_0000_0000;
    while hi - lo > 1
        invariant
            lo < hi <= 0x1_0000_0000,
            lo * lo <= n,
            n < hi * hi,
        decreases hi - lo,
    {
        let mid: u64 = lo + (hi - lo) / 2;
        assert(mid * mid <= 0xFFFF_FFFF * 0xFFFF_FFFF) by (nonlinear_arith)
            requires
                0 <= mid <= 0xFFFF_FFFF,
        ;
        if mid * mid <= n {
            lo = mid;
        } else {
            hi = mid;
        }
    }
    lo
}

/// The cell index along one axis of coordinate `x`, for a radius `r`.
pub fn cell_of(x: usize, r: u32) -> (k: usize)
    requires
        x <= MAX_COORD,
        r > 0,
    ensures
        is_cell_of(x as int, r as int, k as int),
        k == cell_index(x as int, r as int),
        k <= 2 * x,
{
    assert(2 * x * x <= 2 * 16_777_216 * 16_777_216) by (nonlinear_arith)
        requires
            0 <= x <= 16_777_216,
    ;
    let x64: u64 = x as u64;
    let s: u64 = isqrt(2 * x64 * x64);
    let k: u64 = s / (r as u64);
    proof {
        let xi = x as int;
        let ri = r as int;
        let si = s as int;
        let ki = k as int;
        assert(ki * ri <= si && si + 1 <= (ki + 1) * ri) by (nonlinear_arith)
            requires
                ki == si / ri,
                ri > 0,
                si >= 0,
        ;
        assert(0 <= ki * ri) by (nonlinear_arith)
            requires
                0 <= ki,
                0 <= ri,
        ;
        lemma_square_le(ki * ri, si);
        lemma_square_le(si + 1, (ki + 1) * ri);
        lemma_square_of_product(ki, ri);
        lemma_square_of_product(ki + 1, ri);
        if si > 2 * xi {
            lemma_square_le(2 * xi + 1, si);
            assert((2 * xi + 1) * (2 * xi + 1) > 2 * xi * xi) by (nonlinear_arith)
                requires
                    xi >= 0,
            ;
        }
        assert(ki <= si) by (nonlinear_arith)
            requires
                ki * ri <= si,
                ri >= 1,
                ki >= 0,
        ;
        lemma_cell_index(xi, ri, ki);
    }
    k as usize
}

/// The square of a product, written as the contracts of this module write it.
pub proof fn lemma_square_of_product(k: int, r: int)
    ensures
        (k * r) * (k * r) == k * k * r * r,
{
    assert((k * r) * (k * r) == k * k * r * r) by (nonlinear_arith);
}

/// A coordinate lies in one cell only.
pub proof fn lemma_cell_unique(x: int, r: int, k1: int, k2: int)
    requires
        is_cell_of(x, r, k1),
        is_cell_of(x, r, k2),
    ensures
        k1 == k2,
{
    if k1 < k2 {
        lemma_cell_order(r, k1 + 1, k2);
    } else if k2 < k1 {
        lemma_cell_order(r, k2 + 1, k1);
    }
}

/// The lower edges of the cells, squared, grow with the index.
pub proof fn lemma_cell_order(r: int, a: int, b: int)
    requires
        0 <= a <= b,
    ensures
        a * a * r * r <= b * b * r * r,
{
    lemma_square_le(a, b);
    assert(a * a * r * r <= b * b * r * r) by (nonlinear_arith)
        requires
            a * a <= b * b,
    ;
}

/// Every non-negative coordinate lies in a cell.
pub proof fn lemma_cell_exists(x: int, r: int)
    requires
        0 <= x,
        0 < r,
    ensures
        is_cell_of(x, r, cell_index(x, r)),
{
    lemma_cell_search(x, r, 0);
}

proof fn lemma_cell_search(x: int, r: int, k: int)
    requires
        0 <= x,
        0 < r,
        0 <= k <= 2 * x,
        k * k * r * r <= 2 * x * x,
    ensures
        exists|j: int| is_cell_of(x, r, j),
    decreases 2 * x - k,
{
    if 2 * x * x < (k + 1) * (k + 1) * r * r {
        assert(is_cell_of(x, r, k));
    } else {
        if k + 1 > 2 * x {
            assert((k + 1) * (k + 1) * r * r > 2 * x * x) by (nonlinear_arith)
                requires
                    k + 1 > 2 * x,
                    x >= 0,
                    r >= 1,
            ;
        }
        lemma_cell_search(x, r, k + 1);
    }
}

/// A witness fixes the cell index.
pub proof fn lemma_cell_index(x: int, r: int, k: int)
    requires
        is_cell_of(x, r, k),
    ensures
        cell_index(x, r) == k,
{
    lemma_cell_unique(x, r, k, cell_index(x, r));
}

/// Cell indices grow with the coordinate.
pub proof fn lemma_cell_monotone(x1: int, x2: int, r: int, k1: int, k2: int)
    requires
        0 <= x1 <= x2,
        is_cell_of(x1, r, k1),
        is_cell_of(x2, r, k2),
    ensures
        k1 <= k2,
{
    if k2 < k1 {
        lemma_cell_order(r, k2 + 1, k1);
        assert(2 * x1 * x1 <= 2 * x2 * x2) by (nonlinear_arith)
            requires
                0 <= x1 <= x2,
        ;
    }
}

/// Of two non-negative integers, the one with the larger square is the larger.
pub proof fn lemma_square_le_rev(a: int, b: int)
    requires
        0 <= a,
        0 <= b,
        a * a <= b * b,
    ensures
        a <= b,
{
    if a > b {
        assert(a * a > b * b) by (nonlinear_arith)
            requires
                0 <= b < a,
        ;
    }
}

/// Two coordinates of one cell are less than a cell's side apart:
/// `|x1 - x2| * sqrt(2) < r`.
pub proof fn lemma_same_cell(x1: int, x2: int, r: int, k: int)
    requires
        0 <= x1,
        0 <= x2,
        0 < r,
        is_cell_of(x1, r, k),
        is_cell_of(x2, r, k),
    ensures
        2 * (x1 - x2) * (x1 - x2) < r * r,
{
    if x1 >= x2 {
        lemma_same_cell_ordered(x2, x1 - x2, r, k);
    } else {
        lemma_same_cell_ordered(x1, x2 - x1, r, k);
        assert(2 * (x1 - x2) * (x1 - x2) == 2 * (x2 - x1) * (x2 - x1)) by (nonlinear_arith);
    }
}

proof fn lemma_same_cell_ordered(x: int, d: int, r: int, k: int)
    requires
        0 <= x,
        0 <= d,
        0 < r,
        is_cell_of(x, r, k),
        is_cell_of(x + d, r, k),
    ensures
        2 * d * d < r * r,
{
    if 2 * d * d >= r * r {
        let a = 2 * x * x;
        let b = 2 * d * d;
        let lo = k * k * r * r;
        assert(a * b >= lo * (r * r)) by (nonlinear_arith)
            requires
                a >= lo,
                b >= r * r,
                lo >= 0,
                r * r >= 0,
        ;
        assert((4 * x * d) * (4 * x * d) == 4 * (a * b)) by (nonlinear_arith)
            requires
                a == 2 * x * x,
                b == 2 * d * d,
        ;
        assert((2 * k * r * r) * (2 * k * r * r) == 4 * (lo * (r * r))) by (nonlinear_arith)
            requires
                lo == k * k * r * r,
        ;
        assert(0 <= 2 * k * r * r) by (nonlinear_arith)
            requires
                0 <= k,
        ;
        assert(0 <= 4 * x * d) by (nonlinear_arith)
            requires
                0 <= x,
                0 <= d,
        ;
        lemma_square_le_rev(2 * k * r * r, 4 * x * d);
        assert(2 * (x + d) * (x + d) == a + 4 * x * d + b) by (nonlinear_arith)
            requires
                a == 2 * x * x,
                b == 2 * d * d,
        ;
        assert((k + 1) * (k + 1) * r * r == lo + 2 * k * r * r + r * r) by (nonlinear_arith)
            requires
                lo == k * k * r * r,
        ;
    }
}

/// Two coordinates at most `r` apart lie at most two cells apart.
pub proof fn lemma_near_cells(x1: int, x2: int, r: int, k1: int, k2: int)
    requires
        0 <= x1,
        0 <= x2,
        0 < r,
        (x1 - x2) * (x1 - x2) <= r * r,
        is_cell_of(x1, r, k1),
        is_cell_of(x2, r, k2),
    ensures
        k1 - 2 <= k2 <= k1 + 2,
{
    if x1 >= x2 {
        lemma_near_cells_ordered(x2, x1 - x2, r, k2, k1);
        lemma_cell_monotone(x2, x1, r, k2, k1);
    } else {
        assert((x2 - x1) * (x2 - x1) == (x1 - x2) * (x1 - x2)) by (nonlinear_arith);
        lemma_near_cells_ordered(x1, x2 - x1, r, k1, k2);
        lemma_cell_monotone(x1, x2, r, k1, k2);
    }
}

proof fn lemma_near_cells_ordered(x: int, d: int, r: int, k: int, j: int)
    requires
        0 <= x,
        0 <= d,
        0 < r,
        d * d <= r * r,
        is_cell_of(x, r, k),
        is_cell_of(x + d, r, j),
    ensures
        j <= k + 2,
{
    if j >= k + 3 {
        let a = 2 * x * x;
        let b = 2 * d * d;
        let m = k + 1;
        let hi = m * m * r * r;
        let rr = r * r;
        assert(rr >= 1) by (nonlinear_arith)
            requires
                rr == r * r,
                r >= 1,
        ;
        assert(hi >= 1) by (nonlinear_arith)
            requires
                hi == m * m * r * r,
                m >= 1,
                r >= 1,
        ;
        assert(0 <= b <= 2 * rr) by (nonlinear_arith)
            requires
                b == 2 * d * d,
                d * d <= rr,
        ;
        assert(0 <= a) by (nonlinear_arith)
            requires
                a == 2 * x * x,
        ;
        // a < hi and b <= 2 rr, so a * b < 2 hi rr, and (4 x d)^2 = 4 a b < 9 hi rr.
        assert(a * b <= (hi - 1) * (2 * rr)) by (nonlinear_arith)
            requires
                0 <= a <= hi - 1,
                0 <= b <= 2 * rr,
        ;
        assert((4 * x * d) * (4 * x * d) == 4 * (a * b)) by (nonlinear_arith)
            requires
                a == 2 * x * x,
                b == 2 * d * d,
        ;
        assert((3 * m * rr) * (3 * m * rr) == 9 * (hi * rr)) by (nonlinear_arith)
            requires
                hi == m * m * r * r,
                rr == r * r,
        ;
        assert(4 * ((hi - 1) * (2 * rr)) < 9 * (hi * rr)) by (nonlinear_arith)
            requires
                hi >= 1,
                rr >= 1,
        ;
        assert(0 <= 3 * m * rr) by (nonlinear_arith)
            requires
                m >= 1,
                rr >= 1,
        ;
        assert(0 <= 4 * x * d) by (nonlinear_arith)
            requires
                0 <= x,
                0 <= d,
        ;
        lemma_square_lt_rev(4 * x * d, 3 * m * rr);
        assert(2 * (x + d) * (x + d) == a + 4 * x * d + b) by (nonlinear_arith)
            requires
                a == 2 * x * x,
                b == 2 * d * d,
        ;
        // 2 (x + d)^2 < hi + 3 m rr + 2 rr = (m + 1)(m + 2) rr <= (k + 3)^2 rr.
        assert(hi + 3 * m * rr + 2 * rr <= (k + 3) * (k + 3) * r * r) by (nonlinear_arith)
            requires
                hi == m * m * r * r,
                rr == r * r,
                m == k + 1,
                rr >= 1,
                k >= 0,
        ;
        lemma_cell_order(r, k + 3, j);
    }
}

} // verus!
