//! Geometry of the rectangular board: coordinates, bounds, 8-adjacency, and
//! the flat `row * width + col` linear indexing with its arithmetic lemmas.

use vstd::prelude::*;

verus! {

/// A zero-based (row, column) pair.
#[derive(Debug, Clone, Copy, PartialEq, Eq, Structural)]
pub struct Coordinate(pub u16, pub u16);

/// Whether (r, c) lies on a board of `h` rows and `w` columns.
pub open spec fn in_bounds(r: int, c: int, w: int, h: int) -> bool {
    0 <= r < h && 0 <= c < w
}

/// 8-connected adjacency: the two coordinates differ by at most one in each
/// component and are not the same cell.
pub open spec fn near(r1: int, c1: int, r2: int, c2: int) -> bool {
    &&& -1 <= r1 - r2 <= 1
    &&& -1 <= c1 - c2 <= 1
    &&& !(r1 == r2 && c1 == c2)
}

/// The flat index of (r, c) on a board `w` columns wide.
pub open spec fn lin(r: int, c: int, w: int) -> int {
    r * w + c
}

/// An in-bounds coordinate has a flat index inside the cell array.
pub proof fn lemma_lin_bounds(w: int, h: int, r: int, c: int)
    by (nonlinear_arith)
    requires
        in_bounds(r, c, w, h),
    ensures
        0 <= lin(r, c, w) < w * h,
{
}

/// Flat indexing is injective on in-bounds coordinates.
pub proof fn lemma_lin_injective(w: int, r1: int, c1: int, r2: int, c2: int)
    by (nonlinear_arith)
    requires
        0 <= c1 < w,
        0 <= c2 < w,
        r1 >= 0,
        r2 >= 0,
        lin(r1, c1, w) == lin(r2, c2, w),
    ensures
        r1 == r2 && c1 == c2,
{
}

/// A board of 16-bit dimensions has at most 65535 * 65535 cells, which fits
/// comfortably in a `u32` and in `usize`.
pub proof fn lemma_board_size_bound(w: int, h: int)
    by (nonlinear_arith)
    requires
        0 <= w <= 65535,
        0 <= h <= 65535,
    ensures
        0 <= w * h <= 4294836225,
{
}

/// A flat index decomposes into its unique row and column.
pub proof fn lemma_lin_decompose(p: int, w: int, h: int)
    requires
        w >= 1,
        0 <= p < w * h,
    ensures
        in_bounds(p / w, p % w, w, h),
        lin(p / w, p % w, w) == p,
{
    vstd::arithmetic::div_mod::lemma_fundamental_div_mod(p, w);
    vstd::arithmetic::div_mod::lemma_mod_bound(p, w);
    assert(p == w * (p / w) + p % w);
    assert(0 <= p % w < w);
    assert(p / w >= 0) by (nonlinear_arith)
        requires
            w >= 1,
            p >= 0,
            p == w * (p / w) + p % w,
            0 <= p % w < w,
    ;
    assert(p / w < h) by (nonlinear_arith)
        requires
            w >= 1,
            p < w * h,
            p == w * (p / w) + p % w,
            0 <= p % w < w,
            p / w >= 0,
    ;
    assert((p / w) * w == w * (p / w)) by (nonlinear_arith);
}

} // verus!
