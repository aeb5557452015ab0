//! Points of the domain, their squared distance, and how a thrown candidate
//! is brought back into the domain.

use crate::lattice::{cell_index, is_cell_of, lemma_near_cells, lemma_same_cell, MAX_COORD};
use vstd::prelude::*;

verus! {

/// A point of the domain: its column and its row.
#[derive(Clone, Copy, Debug, PartialEq, Eq, Structural)]
pub struct Point(pub usize, pub usize);

/// What a location of the domain holds.
#[allow(non_camel_case_types)]
#[derive(Clone, Copy, Debug, PartialEq, Eq, Structural)]
pub enum Cell {
    /// No point was accepted at this location.
    EMPTY,
    /// A point was accepted here and has left the frontier.
    DEAD,
    /// A point was accepted here and is still in the frontier.
    ACTIVE,
}

/// A throw relative to the point it is thrown from, in whole units.
#[derive(Clone, Copy, Debug, PartialEq, Eq, Structural)]
pub struct Offset {
    pub dx: i64,
    pub dy: i64,
}

/// The square of the Euclidean distance between two points.
pub open spec fn dist2(a: Point, b: Point) -> int {
    (a.0 - b.0) * (a.0 - b.0) + (a.1 - b.1) * (a.1 - b.1)
}

/// `v` brought into `0 ..= n - 1`.
pub open spec fn clamp(v: int, n: int) -> int {
    if v < 0 {
        0
    } else if v >= n {
        n - 1
    } else {
        v
    }
}

/// The candidate thrown from `origin` by `offset` in a domain of the given
/// size: the shifted point, each coordinate clamped into the domain.
pub open spec fn candidate(origin: Point, offset: Offset, width: int, height: int) -> Point {
    Point(
        clamp(origin.0 + offset.dx, width) as usize,
        clamp(origin.1 + offset.dy, height) as usize,
    )
}

/// The index of the grid cell of `p` in a grid of `cols` columns stored row
/// by row, for a radius `r`.
pub open spec fn slot_of(p: Point, r: int, cols: int) -> int {
    cell_index(p.1 as int, r) * cols + cell_index(p.0 as int, r)
}

/// The index of the location `p` in a status map of `width` columns stored
/// row by row.
pub open spec fn location_of(p: Point, width: int) -> int {
    p.1 * width + p.0
}

/// The number of grid cells along an axis of `extent` units: one more than
/// `ceil(extent * sqrt(2) / r)`.
pub open spec fn grid_extent(extent: int, r: int) -> int {
    cell_index(extent, r) + 2
}

/// The squared distance of two points whose coordinates are at most
/// `MAX_COORD`.
pub fn distance_squared(a: Point, b: Point) -> (d: u64)
    requires
        a.0 <= MAX_COORD,
        a.1 <= MAX_COORD,
        b.0 <= MAX_COORD,
        b.1 <= MAX_COORD,
    ensures
        d == dist2(a, b),
{
    let dx: u64 = if a.0 >= b.0 {
        (a.0 - b.0) as u64
    } else {
        (b.0 - a.0) as u64
    };
    let dy: u64 = if a.1 >= b.1 {
        (a.1 - b.1) as u64
    } else {
        (b.1 - a.1) as u64
    };
    assert(dx * dx <= 16_777_216 * 16_777_216 && dx * dx == (a.0 - b.0) * (a.0 - b.0))
        by (nonlinear_arith)
        requires
            0 <= dx <= 16_777_216,
            dx == a.0 - b.0 || dx == b.0 - a.0,
    ;
    assert(dy * dy <= 16_777_216 * 16_777_216 && dy * dy == (a.1 - b.1) * (a.1 - b.1))
        by (nonlinear_arith)
        requires
            0 <= dy <= 16_777_216,
            dy == a.1 - b.1 || dy == b.1 - a.1,
    ;
    dx * dx + dy * dy
}

/// One coordinate moved by `d` and clamped into `0 ..= n - 1`.
pub fn shift(x: usize, d: i64, n: u32) -> (y: usize)
    requires
        n > 0,
    ensures
        y == clamp(x + d, n as int),
        y < n,
{
    let moved: i128 = x as i128 + d as i128;
    if moved < 0 {
        0
    } else if moved >= n as i128 {
        (n - 1) as usize
    } else {
        moved as usize
    }
}

/// The squared distance is symmetric.
pub proof fn lemma_dist2_symmetric(a: Point, b: Point)
    ensures
        dist2(a, b) == dist2(b, a),
{
    assert((a.0 - b.0) * (a.0 - b.0) == (b.0 - a.0) * (b.0 - a.0)) by (nonlinear_arith);
    assert((a.1 - b.1) * (a.1 - b.1) == (b.1 - a.1) * (b.1 - a.1)) by (nonlinear_arith);
}

/// Two points of one grid cell are less than `r` apart.
pub proof fn lemma_same_cell_within_radius(a: Point, b: Point, r: int, kx: int, ky: int)
    requires
        0 < r,
        is_cell_of(a.0 as int, r, kx),
        is_cell_of(b.0 as int, r, kx),
        is_cell_of(a.1 as int, r, ky),
        is_cell_of(b.1 as int, r, ky),
    ensures
        dist2(a, b) < r * r,
{
    lemma_same_cell(a.0 as int, b.0 as int, r, kx);
    lemma_same_cell(a.1 as int, b.1 as int, r, ky);
    let dx = a.0 - b.0;
    let dy = a.1 - b.1;
    assert(2 * (dx * dx) == 2 * dx * dx) by (nonlinear_arith);
    assert(2 * (dy * dy) == 2 * dy * dy) by (nonlinear_arith);
}

/// Two points at most `r` apart lie at most two cells apart along each axis.
pub proof fn lemma_within_radius_near_cells(
    a: Point,
    b: Point,
    r: int,
    ax: int,
    ay: int,
    bx: int,
    by: int,
)
    requires
        0 < r,
        dist2(a, b) <= r * r,
        is_cell_of(a.0 as int, r, ax),
        is_cell_of(a.1 as int, r, ay),
        is_cell_of(b.0 as int, r, bx),
        is_cell_of(b.1 as int, r, by),
    ensures
        ax - 2 <= bx <= ax + 2,
        ay - 2 <= by <= ay + 2,
{
    let dx = a.0 - b.0;
    let dy = a.1 - b.1;
    assert(dx * dx >= 0 && dy * dy >= 0) by (nonlinear_arith);
    lemma_near_cells(a.0 as int, b.0 as int, r, ax, bx);
    lemma_near_cells(a.1 as int, b.1 as int, r, ay, by);
}

/// Two cells of a grid stored row by row share an index only if they are
/// one cell.
pub proof fn lemma_slot_injective(x1: int, y1: int, x2: int, y2: int, cols: int)
    requires
        0 <= x1 < cols,
        0 <= x2 < cols,
        0 <= y1,
        0 <= y2,
        y1 * cols + x1 == y2 * cols + x2,
    ensures
        x1 == x2,
        y1 == y2,
{
    if y1 < y2 {
        assert(y1 * cols + cols <= y2 * cols) by (nonlinear_arith)
            requires
                y1 + 1 <= y2,
                0 < cols,
        ;
    } else if y2 < y1 {
        assert(y2 * cols + cols <= y1 * cols) by (nonlinear_arith)
            requires
                y2 + 1 <= y1,
                0 < cols,
        ;
    }
}

/// A cell inside a grid has its index inside the grid's storage.
pub proof fn lemma_slot_bounds(gx: int, gy: int, cols: int, rows: int)
    requires
        0 <= gx < cols,
        0 <= gy < rows,
    ensures
        0 <= gy * cols + gx < cols * rows,
{
    assert(0 <= gy * cols && gy * cols + cols <= cols * rows) by (nonlinear_arith)
        requires
            0 <= gy,
            gy + 1 <= rows,
            0 < cols,
    ;
}

} // verus!
