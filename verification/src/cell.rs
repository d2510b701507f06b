//! Cell state: a tagged variant over concealed-safe, concealed-mine and
//! revealed cells, plus counting lemmas over flat cell sequences.

use vstd::prelude::*;
use crate::grid::{in_bounds, lin, lemma_lin_bounds, lemma_lin_injective};

verus! {

/// Number of mines among a cell's up to 8 grid-adjacent cells.
#[derive(Debug, Clone, Copy, PartialEq, Eq, Structural)]
pub struct NeighbourMines(pub u8);

/// Player-applied annotation on an unexplored cell.
#[derive(Debug, Clone, Copy, PartialEq, Eq, Structural)]
pub enum Mark {
    NoMark,
    MarkNote,
    MarkFlag,
}

/// Mark and precomputed neighbour count of a concealed safe cell.
#[derive(Debug, Clone, Copy, PartialEq, Eq, Structural)]
pub struct CellInfo(pub Mark, pub NeighbourMines);

/// One board cell: revealed with its count, concealed-safe with mark and
/// count, or concealed-mine with a mark only.
#[derive(Debug, Clone, Copy, PartialEq, Eq, Structural)]
pub enum BoardCell {
    Explored(NeighbourMines),
    NoMine(CellInfo),
    Mine(Mark),
}

/// A concealed mine currently marked with a flag: the only cells the
/// flagged-mine counter tracks.
pub open spec fn flagged_mine(cell: BoardCell) -> bool {
    cell matches BoardCell::Mine(m) && m is MarkFlag
}

/// The cell at coordinate (r, c) of a flat cell sequence `w` columns wide.
pub open spec fn cell_at(cells: Seq<BoardCell>, w: int, r: int, c: int) -> BoardCell {
    cells[lin(r, c, w)]
}

/// How many cells among the first `n` satisfy `p`.
pub open spec fn count_upto(cells: Seq<BoardCell>, p: spec_fn(BoardCell) -> bool, n: int) -> int
    decreases n,
{
    if n <= 0 {
        0
    } else {
        count_upto(cells, p, n - 1) + if p(cells[n - 1]) {
            1int
        } else {
            0int
        }
    }
}

/// The count over a prefix lies between 0 and the prefix length.
pub proof fn lemma_count_bounds(cells: Seq<BoardCell>, p: spec_fn(BoardCell) -> bool, n: int)
    ensures
        0 <= count_upto(cells, p, n),
        n >= 0 ==> count_upto(cells, p, n) <= n,
    decreases n,
{
    if n > 0 {
        lemma_count_bounds(cells, p, n - 1);
    }
}

/// Replacing one cell shifts the count by the difference of the indicator at
/// that index.
pub proof fn lemma_count_update(
    cells: Seq<BoardCell>,
    p: spec_fn(BoardCell) -> bool,
    n: int,
    i: int,
    v: BoardCell,
)
    requires
        0 <= i < n,
        n <= cells.len(),
    ensures
        count_upto(cells.update(i, v), p, n) == count_upto(cells, p, n) - (if p(cells[i]) {
            1int
        } else {
            0int
        }) + (if p(v) {
            1int
        } else {
            0int
        }),
    decreases n,
{
    if i == n - 1 {
        assert(forall|k: int| 0 <= k < n - 1 ==> cells.update(i, v)[k] == cells[k]);
        lemma_count_same(cells, cells.update(i, v), p, n - 1);
    } else {
        lemma_count_update(cells, p, n - 1, i, v);
    }
}

/// Two sequences that agree pointwise under `p` on a prefix have the same
/// count there.
pub proof fn lemma_count_same(
    cells1: Seq<BoardCell>,
    cells2: Seq<BoardCell>,
    p: spec_fn(BoardCell) -> bool,
    n: int,
)
    requires
        forall|k: int| 0 <= k < n ==> p(cells1[k]) == p(cells2[k]),
    ensures
        count_upto(cells1, p, n) == count_upto(cells2, p, n),
    decreases n,
{
    if n > 0 {
        lemma_count_same(cells1, cells2, p, n - 1);
    }
}

/// A prefix on which `p` holds nowhere counts zero.
pub proof fn lemma_count_zero(cells: Seq<BoardCell>, p: spec_fn(BoardCell) -> bool, n: int)
    requires
        forall|k: int| 0 <= k < n ==> !p(cells[k]),
    ensures
        count_upto(cells, p, n) == 0,
    decreases n,
{
    if n > 0 {
        lemma_count_zero(cells, p, n - 1);
    }
}

/// A prefix holding one cell that satisfies `p` counts at least one.
pub proof fn lemma_count_at_least_one(
    cells: Seq<BoardCell>,
    p: spec_fn(BoardCell) -> bool,
    n: int,
    i: int,
)
    requires
        0 <= i < n,
        p(cells[i]),
    ensures
        count_upto(cells, p, n) >= 1,
    decreases n,
{
    lemma_count_bounds(cells, p, n - 1);
    if i < n - 1 {
        lemma_count_at_least_one(cells, p, n - 1, i);
    }
}

/// Replacing the cell at an in-bounds coordinate changes `cell_at` exactly
/// there and nowhere else.
pub proof fn lemma_cells_update(
    cells: Seq<BoardCell>,
    w: int,
    h: int,
    r: int,
    c: int,
    v: BoardCell,
)
    requires
        cells.len() == w * h,
        in_bounds(r, c, w, h),
    ensures
        forall|a: int, b: int|
            in_bounds(a, b, w, h) ==> #[trigger] cell_at(cells.update(lin(r, c, w), v), w, a, b)
                == (if a == r && b == c {
                v
            } else {
                cell_at(cells, w, a, b)
            }),
{
    lemma_lin_bounds(w, h, r, c);
    assert forall|a: int, b: int| in_bounds(a, b, w, h) implies #[trigger] cell_at(
        cells.update(lin(r, c, w), v),
        w,
        a,
        b,
    ) == (if a == r && b == c {
        v
    } else {
        cell_at(cells, w, a, b)
    }) by {
        lemma_lin_bounds(w, h, a, b);
        if lin(a, b, w) == lin(r, c, w) {
            lemma_lin_injective(w, a, b, r, c);
        }
    }
}

} // verus!
