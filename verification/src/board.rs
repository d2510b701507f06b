//! The board engine: cell state, mine placement, command execution, the
//! flood-fill reveal and win/loss detection.

use vstd::prelude::*;
use crate::cell::{
    BoardCell, CellInfo, Mark, NeighbourMines, cell_at, count_upto, flagged_mine,
    lemma_cells_update, lemma_count_at_least_one, lemma_count_bounds, lemma_count_update,
    lemma_count_zero,
};
use crate::command::BoardCommand;
use crate::config::GameConfiguration;
use crate::grid::{
    Coordinate, in_bounds, lemma_board_size_bound, lemma_lin_bounds, lemma_lin_decompose, lin,
    near,
};
use crate::rng::shuffle_positions;

verus! {

/// Outcome of applying one command, driving the caller's loop-continuation
/// decision.
#[derive(Debug, Clone, Copy, PartialEq, Eq, Structural)]
pub enum GameResolve {
    Quit,
    Continue,
    MineHit,
    AllMinesDiscovered,
}

/// The predicate a mine cell satisfies.
pub open spec fn is_mine_fn() -> spec_fn(BoardCell) -> bool {
    |cell: BoardCell| cell is Mine
}

/// The predicate a flagged mine satisfies.
pub open spec fn is_flagged_fn() -> spec_fn(BoardCell) -> bool {
    |cell: BoardCell| flagged_mine(cell)
}

/// The predicate a revealed cell satisfies.
pub open spec fn is_explored_fn() -> spec_fn(BoardCell) -> bool {
    |cell: BoardCell| cell is Explored
}

/// Number of mine cells on the whole board.
pub open spec fn mine_total(cells: Seq<BoardCell>) -> int {
    count_upto(cells, is_mine_fn(), cells.len() as int)
}

/// Number of concealed mines currently marked with a flag.
pub open spec fn flagged_total(cells: Seq<BoardCell>) -> int {
    count_upto(cells, is_flagged_fn(), cells.len() as int)
}

/// Number of revealed cells.
pub open spec fn explored_total(cells: Seq<BoardCell>) -> int {
    count_upto(cells, is_explored_fn(), cells.len() as int)
}

/// 1 when (r, c) is an in-bounds mine cell, else 0.
pub open spec fn mine_at(cells: Seq<BoardCell>, w: int, h: int, r: int, c: int) -> int {
    if in_bounds(r, c, w, h) && cell_at(cells, w, r, c) is Mine {
        1
    } else {
        0
    }
}

/// Number of mines among the up to 8 grid-adjacent cells of (r, c).
pub open spec fn adjacent_mines(cells: Seq<BoardCell>, w: int, h: int, r: int, c: int) -> int {
    mine_at(cells, w, h, r - 1, c - 1) + mine_at(cells, w, h, r - 1, c) + mine_at(
        cells,
        w,
        h,
        r - 1,
        c + 1,
    ) + mine_at(cells, w, h, r, c - 1) + mine_at(cells, w, h, r, c + 1) + mine_at(
        cells,
        w,
        h,
        r + 1,
        c - 1,
    ) + mine_at(cells, w, h, r + 1, c) + mine_at(cells, w, h, r + 1, c + 1)
}

/// The neighbour count stored in a cell; -1 for a mine, which stores none.
pub open spec fn stored_count(cell: BoardCell) -> int {
    match cell {
        BoardCell::NoMine(CellInfo(_, NeighbourMines(n))) => n as int,
        BoardCell::Explored(NeighbourMines(n)) => n as int,
        BoardCell::Mine(_) => -1,
    }
}

/// The count stored at (r, c) matches the mines actually adjacent to it.
pub open spec fn cell_count_ok(cells: Seq<BoardCell>, w: int, h: int, r: int, c: int) -> bool {
    cell_at(cells, w, r, c) is Mine || stored_count(cell_at(cells, w, r, c)) == adjacent_mines(
        cells,
        w,
        h,
        r,
        c,
    )
}

/// Every in-bounds cell stores its true adjacent-mine count.
pub open spec fn counts_consistent(cells: Seq<BoardCell>, w: int, h: int) -> bool {
    forall|r: int, c: int| in_bounds(r, c, w, h) ==> #[trigger] cell_count_ok(cells, w, h, r, c)
}

/// An in-bounds concealed-safe cell.
pub open spec fn safe_at(cells: Seq<BoardCell>, w: int, h: int, r: int, c: int) -> bool {
    in_bounds(r, c, w, h) && cell_at(cells, w, r, c) is NoMine
}

/// No grid-adjacent cell of (r, c) is still concealed-safe.
pub open spec fn no_safe_neighbour(cells: Seq<BoardCell>, w: int, h: int, r: int, c: int) -> bool {
    &&& !safe_at(cells, w, h, r - 1, c - 1)
    &&& !safe_at(cells, w, h, r - 1, c)
    &&& !safe_at(cells, w, h, r - 1, c + 1)
    &&& !safe_at(cells, w, h, r, c - 1)
    &&& !safe_at(cells, w, h, r, c + 1)
    &&& !safe_at(cells, w, h, r + 1, c - 1)
    &&& !safe_at(cells, w, h, r + 1, c)
    &&& !safe_at(cells, w, h, r + 1, c + 1)
}

/// The flood-fill closure property: a revealed cell never has a
/// concealed-safe neighbour left, because exploring it enqueued every
/// neighbour unconditionally.
pub open spec fn explored_sealed(cells: Seq<BoardCell>, w: int, h: int) -> bool {
    forall|r: int, c: int|
        in_bounds(r, c, w, h) && cell_at(cells, w, r, c) is Explored ==> #[trigger] no_safe_neighbour(
            cells,
            w,
            h,
            r,
            c,
        )
}

/// A cell after its mark is cleared.
pub open spec fn cleared_cell(cell: BoardCell) -> BoardCell {
    match cell {
        BoardCell::NoMine(CellInfo(_, n)) => BoardCell::NoMine(CellInfo(Mark::NoMark, n)),
        BoardCell::Mine(_) => BoardCell::Mine(Mark::NoMark),
        BoardCell::Explored(n) => BoardCell::Explored(n),
    }
}

/// A cell after a flag is set on it.
pub open spec fn flag_set_cell(cell: BoardCell) -> BoardCell {
    match cell {
        BoardCell::NoMine(CellInfo(_, n)) => BoardCell::NoMine(CellInfo(Mark::MarkFlag, n)),
        BoardCell::Mine(_) => BoardCell::Mine(Mark::MarkFlag),
        BoardCell::Explored(n) => BoardCell::Explored(n),
    }
}

/// A cell after a note is set on it.
pub open spec fn note_set_cell(cell: BoardCell) -> BoardCell {
    match cell {
        BoardCell::NoMine(CellInfo(_, n)) => BoardCell::NoMine(CellInfo(Mark::MarkNote, n)),
        BoardCell::Mine(_) => BoardCell::Mine(Mark::MarkNote),
        BoardCell::Explored(n) => BoardCell::Explored(n),
    }
}

/// How clearing a mark moves the flagged-mine counter: down one exactly when
/// it strips a flag off a mine.
pub open spec fn unflag_delta(cell: BoardCell) -> int {
    if flagged_mine(cell) {
        -1
    } else {
        0
    }
}

/// How setting a flag moves the flagged-mine counter: up one exactly when it
/// lands on a mine not already flagged.
pub open spec fn flag_delta(cell: BoardCell) -> int {
    if cell is Mine && !flagged_mine(cell) {
        1
    } else {
        0
    }
}

/// How one explore call may change the cell array: every cell is either
/// untouched or was concealed-safe and is now revealed with the same
/// neighbour count.
pub open spec fn reveal_transition(
    before: Seq<BoardCell>,
    after: Seq<BoardCell>,
    w: int,
    h: int,
) -> bool {
    forall|a: int, b: int|
        in_bounds(a, b, w, h) ==> #[trigger] cell_at(after, w, a, b) == cell_at(before, w, a, b)
            || (cell_at(before, w, a, b) matches BoardCell::NoMine(CellInfo(_, n)) && cell_at(
            after,
            w,
            a,
            b,
        ) == BoardCell::Explored(n))
}

/// Whether the work-list holds the coordinate (r, c).
pub open spec fn in_queue(q: Seq<Coordinate>, r: int, c: int) -> bool {
    exists|m: int| 0 <= m < q.len() && q[m].0 as int == r && q[m].1 as int == c
}

/// Whether the entries from index `lo` on hold the coordinate (r, c):
/// membership in the newly appended segment of a work-list.
pub open spec fn in_segment(q: Seq<Coordinate>, lo: int, r: int, c: int) -> bool {
    exists|m: int| lo <= m < q.len() && q[m].0 as int == r && q[m].1 as int == c
}

/// Membership in a segment is membership in the whole list.
proof fn lemma_in_segment_in_queue(q: Seq<Coordinate>, lo: int, r: int, c: int)
    requires
        0 <= lo,
        in_segment(q, lo, r, c),
    ensures
        in_queue(q, r, c),
{
    let m = choose|m: int| lo <= m < q.len() && q[m].0 as int == r && q[m].1 as int == c;
    assert(0 <= m < q.len() && q[m].0 as int == r && q[m].1 as int == c);
}

/// One direction of the flood-fill loop invariant: a concealed-safe cell at
/// (r, c) is on the work-list.
pub open spec fn neighbour_ok(
    cells: Seq<BoardCell>,
    q: Seq<Coordinate>,
    w: int,
    h: int,
    r: int,
    c: int,
) -> bool {
    safe_at(cells, w, h, r, c) ==> in_queue(q, r, c)
}

/// Every grid-adjacent cell of (r, c) is either not concealed-safe or still
/// on the work-list: the sealedness invariant, relaxed by the queue.
pub open spec fn sealed_or_queued(
    cells: Seq<BoardCell>,
    q: Seq<Coordinate>,
    w: int,
    h: int,
    r: int,
    c: int,
) -> bool {
    &&& neighbour_ok(cells, q, w, h, r - 1, c - 1)
    &&& neighbour_ok(cells, q, w, h, r - 1, c)
    &&& neighbour_ok(cells, q, w, h, r - 1, c + 1)
    &&& neighbour_ok(cells, q, w, h, r, c - 1)
    &&& neighbour_ok(cells, q, w, h, r, c + 1)
    &&& neighbour_ok(cells, q, w, h, r + 1, c - 1)
    &&& neighbour_ok(cells, q, w, h, r + 1, c)
    &&& neighbour_ok(cells, q, w, h, r + 1, c + 1)
}

/// A walk across the board: it starts at (r0, c0), ends at (r, c), moves
/// only between 8-adjacent in-bounds cells, and every cell before the last
/// is concealed-safe.
pub open spec fn path_connects(
    cells: Seq<BoardCell>,
    w: int,
    h: int,
    p: Seq<(int, int)>,
    r0: int,
    c0: int,
    r: int,
    c: int,
) -> bool {
    &&& p.len() >= 1
    &&& p[0] == (r0, c0)
    &&& p[p.len() - 1] == (r, c)
    &&& forall|i: int| 0 <= i < p.len() ==> in_bounds((#[trigger] p[i]).0, p[i].1, w, h)
    &&& forall|i: int|
        0 <= i < p.len() - 1 ==> near((#[trigger] p[i]).0, p[i].1, p[i + 1].0, p[i + 1].1)
    &&& forall|i: int|
        0 <= i < p.len() - 1 ==> cell_at(cells, w, (#[trigger] p[i]).0, p[i].1) is NoMine
}

/// (r, c) can be reached from (r0, c0) by a walk through concealed-safe
/// cells: the region one explore call may reveal.
pub open spec fn reachable_from(
    cells: Seq<BoardCell>,
    w: int,
    h: int,
    r0: int,
    c0: int,
    r: int,
    c: int,
) -> bool {
    exists|p: Seq<(int, int)>| path_connects(cells, w, h, p, r0, c0, r, c)
}

/// The one-cell walk: a cell reaches itself.
proof fn lemma_path_self(cells: Seq<BoardCell>, w: int, h: int, r0: int, c0: int)
    requires
        in_bounds(r0, c0, w, h),
    ensures
        reachable_from(cells, w, h, r0, c0, r0, c0),
{
    let p: Seq<(int, int)> = seq![(r0, c0)];
    assert(path_connects(cells, w, h, p, r0, c0, r0, c0));
}

/// A walk extends by one step from its concealed-safe endpoint to any
/// in-bounds neighbour of it.
proof fn lemma_path_extend(
    cells: Seq<BoardCell>,
    w: int,
    h: int,
    r0: int,
    c0: int,
    cr: int,
    cc: int,
    x: int,
    y: int,
)
    requires
        reachable_from(cells, w, h, r0, c0, cr, cc),
        cell_at(cells, w, cr, cc) is NoMine,
        in_bounds(x, y, w, h),
        near(cr, cc, x, y),
    ensures
        reachable_from(cells, w, h, r0, c0, x, y),
{
    let p = choose|p: Seq<(int, int)>| path_connects(cells, w, h, p, r0, c0, cr, cc);
    let p2 = p.push((x, y));
    assert(p2[p2.len() - 1] == (x, y));
    assert(p2[0] == p[0]);
    assert forall|i: int| 0 <= i < p2.len() implies in_bounds((#[trigger] p2[i]).0, p2[i].1, w, h) by {
        if i < p.len() {
            assert(p2[i] == p[i]);
        }
    }
    assert forall|i: int|
        0 <= i < p2.len() - 1 implies near((#[trigger] p2[i]).0, p2[i].1, p2[i + 1].0, p2[i + 1].1) by {
        if i < p.len() - 1 {
            assert(p2[i] == p[i]);
            assert(p2[i + 1] == p[i + 1]);
        } else {
            assert(p2[i] == p[p.len() - 1]);
        }
    }
    assert forall|i: int|
        0 <= i < p2.len() - 1 implies cell_at(cells, w, (#[trigger] p2[i]).0, p2[i].1) is NoMine by {
        if i < p.len() - 1 {
            assert(p2[i] == p[i]);
        } else {
            assert(p2[i] == p[p.len() - 1]);
        }
    }
    assert(path_connects(cells, w, h, p2, r0, c0, x, y));
}

/// A coordinate on a work-list stays on it when the list only grows at the
/// end.
proof fn lemma_in_queue_grow(q1: Seq<Coordinate>, q2: Seq<Coordinate>)
    requires
        q1.len() <= q2.len(),
        q2.subrange(0, q1.len() as int) == q1,
    ensures
        forall|r: int, c: int| #[trigger] in_queue(q1, r, c) ==> in_queue(q2, r, c),
{
    assert forall|r: int, c: int| #[trigger] in_queue(q1, r, c) implies in_queue(q2, r, c) by {
        let m = choose|m: int| 0 <= m < q1.len() && q1[m].0 as int == r && q1[m].1 as int == c;
        assert(q2.subrange(0, q1.len() as int)[m] == q2[m]);
    }
}

/// A coordinate on the work-list either survives popping the last entry or
/// was that entry.
proof fn lemma_in_queue_pop(q: Seq<Coordinate>, r: int, c: int)
    requires
        q.len() > 0,
        in_queue(q, r, c),
    ensures
        in_queue(q.subrange(0, q.len() - 1), r, c) || (q[q.len() - 1].0 as int == r && q[q.len()
            - 1].1 as int == c),
{
    let m = choose|m: int| 0 <= m < q.len() && q[m].0 as int == r && q[m].1 as int == c;
    if m < q.len() - 1 {
        assert(q.subrange(0, q.len() - 1)[m] == q[m]);
        assert(in_queue(q.subrange(0, q.len() - 1), r, c));
    }
}

/// One direction survives popping an entry that is not concealed-safe.
proof fn lemma_dir_pop(cells: Seq<BoardCell>, q: Seq<Coordinate>, w: int, h: int, x: int, y: int)
    requires
        q.len() > 0,
        !safe_at(cells, w, h, q[q.len() - 1].0 as int, q[q.len() - 1].1 as int),
        neighbour_ok(cells, q, w, h, x, y),
    ensures
        neighbour_ok(cells, q.subrange(0, q.len() - 1), w, h, x, y),
{
    if safe_at(cells, w, h, x, y) {
        lemma_in_queue_pop(q, x, y);
    }
}

/// Popping an entry that is not concealed-safe keeps every revealed cell
/// sealed-or-queued.
proof fn lemma_sealed_pop(cells: Seq<BoardCell>, q: Seq<Coordinate>, w: int, h: int)
    requires
        q.len() > 0,
        !safe_at(cells, w, h, q[q.len() - 1].0 as int, q[q.len() - 1].1 as int),
        forall|a: int, b: int|
            in_bounds(a, b, w, h) && #[trigger] cell_at(cells, w, a, b) is Explored
                ==> sealed_or_queued(cells, q, w, h, a, b),
    ensures
        forall|a: int, b: int|
            in_bounds(a, b, w, h) && #[trigger] cell_at(cells, w, a, b) is Explored
                ==> sealed_or_queued(cells, q.subrange(0, q.len() - 1), w, h, a, b),
{
    assert forall|a: int, b: int|
        in_bounds(a, b, w, h) && #[trigger] cell_at(cells, w, a, b) is Explored implies sealed_or_queued(
        cells,
        q.subrange(0, q.len() - 1),
        w,
        h,
        a,
        b,
    ) by {
        assert(sealed_or_queued(cells, q, w, h, a, b));
        lemma_dir_pop(cells, q, w, h, a - 1, b - 1);
        lemma_dir_pop(cells, q, w, h, a - 1, b);
        lemma_dir_pop(cells, q, w, h, a - 1, b + 1);
        lemma_dir_pop(cells, q, w, h, a, b - 1);
        lemma_dir_pop(cells, q, w, h, a, b + 1);
        lemma_dir_pop(cells, q, w, h, a + 1, b - 1);
        lemma_dir_pop(cells, q, w, h, a + 1, b);
        lemma_dir_pop(cells, q, w, h, a + 1, b + 1);
    }
}

/// One direction survives one flood-fill step: the popped entry was revealed
/// (so it is no longer concealed-safe), the rest of the list was kept, and
/// more entries may have been pushed.
proof fn lemma_dir_step(
    cells_pre: Seq<BoardCell>,
    cells2: Seq<BoardCell>,
    q_full: Seq<Coordinate>,
    q_grown: Seq<Coordinate>,
    w: int,
    h: int,
    x: int,
    y: int,
    cr: int,
    cc: int,
)
    requires
        q_full.len() > 0,
        q_full[q_full.len() - 1].0 as int == cr,
        q_full[q_full.len() - 1].1 as int == cc,
        q_grown.len() >= q_full.len() - 1,
        q_grown.subrange(0, q_full.len() - 1) == q_full.subrange(0, q_full.len() - 1),
        forall|a: int, b: int| #[trigger] safe_at(cells2, w, h, a, b) ==> safe_at(cells_pre, w, h, a, b),
        !safe_at(cells2, w, h, cr, cc),
        neighbour_ok(cells_pre, q_full, w, h, x, y),
    ensures
        neighbour_ok(cells2, q_grown, w, h, x, y),
{
    if safe_at(cells2, w, h, x, y) {
        assert(safe_at(cells_pre, w, h, x, y));
        assert(in_queue(q_full, x, y));
        lemma_in_queue_pop(q_full, x, y);
        assert(!(x == cr && y == cc));
        lemma_in_queue_grow(q_full.subrange(0, q_full.len() - 1), q_grown);
    }
}

/// A cell sealed-or-queued before one flood-fill step stays so after it.
proof fn lemma_sealed_step(
    cells_pre: Seq<BoardCell>,
    cells2: Seq<BoardCell>,
    q_full: Seq<Coordinate>,
    q_grown: Seq<Coordinate>,
    w: int,
    h: int,
    a: int,
    b: int,
    cr: int,
    cc: int,
)
    requires
        q_full.len() > 0,
        q_full[q_full.len() - 1].0 as int == cr,
        q_full[q_full.len() - 1].1 as int == cc,
        q_grown.len() >= q_full.len() - 1,
        q_grown.subrange(0, q_full.len() - 1) == q_full.subrange(0, q_full.len() - 1),
        forall|x: int, y: int| #[trigger] safe_at(cells2, w, h, x, y) ==> safe_at(cells_pre, w, h, x, y),
        !safe_at(cells2, w, h, cr, cc),
        sealed_or_queued(cells_pre, q_full, w, h, a, b),
    ensures
        sealed_or_queued(cells2, q_grown, w, h, a, b),
{
    lemma_dir_step(cells_pre, cells2, q_full, q_grown, w, h, a - 1, b - 1, cr, cc);
    lemma_dir_step(cells_pre, cells2, q_full, q_grown, w, h, a - 1, b, cr, cc);
    lemma_dir_step(cells_pre, cells2, q_full, q_grown, w, h, a - 1, b + 1, cr, cc);
    lemma_dir_step(cells_pre, cells2, q_full, q_grown, w, h, a, b - 1, cr, cc);
    lemma_dir_step(cells_pre, cells2, q_full, q_grown, w, h, a, b + 1, cr, cc);
    lemma_dir_step(cells_pre, cells2, q_full, q_grown, w, h, a + 1, b - 1, cr, cc);
    lemma_dir_step(cells_pre, cells2, q_full, q_grown, w, h, a + 1, b, cr, cc);
    lemma_dir_step(cells_pre, cells2, q_full, q_grown, w, h, a + 1, b + 1, cr, cc);
}

/// Revealing a concealed-safe cell in place: the stored count moves into the
/// revealed cell, mines and flags are untouched, the revealed tally rises by
/// one, and no cell becomes concealed-safe.
proof fn lemma_reveal_update(
    cells: Seq<BoardCell>,
    w: int,
    h: int,
    r: int,
    c: int,
    nm: NeighbourMines,
)
    requires
        cells.len() == w * h,
        in_bounds(r, c, w, h),
        cell_at(cells, w, r, c) is NoMine,
        stored_count(cell_at(cells, w, r, c)) == nm.0 as int,
    ensures
        forall|a: int, b: int|
            in_bounds(a, b, w, h) ==> #[trigger] cell_at(
                cells.update(lin(r, c, w), BoardCell::Explored(nm)),
                w,
                a,
                b,
            ) == (if a == r && b == c {
                BoardCell::Explored(nm)
            } else {
                cell_at(cells, w, a, b)
            }),
        counts_consistent(cells, w, h) ==> counts_consistent(
            cells.update(lin(r, c, w), BoardCell::Explored(nm)),
            w,
            h,
        ),
        flagged_total(cells.update(lin(r, c, w), BoardCell::Explored(nm))) == flagged_total(cells),
        explored_total(cells.update(lin(r, c, w), BoardCell::Explored(nm))) == explored_total(
            cells,
        ) + 1,
        forall|a: int, b: int|
            #[trigger] safe_at(cells.update(lin(r, c, w), BoardCell::Explored(nm)), w, h, a, b)
                ==> safe_at(cells, w, h, a, b),
{
    lemma_cells_update(cells, w, h, r, c, BoardCell::Explored(nm));
    let cells2 = cells.update(lin(r, c, w), BoardCell::Explored(nm));
    assert forall|a: int, b: int| #[trigger] mine_at(cells2, w, h, a, b) == mine_at(
        cells,
        w,
        h,
        a,
        b,
    ) by {
        if in_bounds(a, b, w, h) {
            assert(cell_at(cells2, w, a, b) is Mine <==> cell_at(cells, w, a, b) is Mine);
        }
    }
    if counts_consistent(cells, w, h) {
        assert forall|a: int, b: int| in_bounds(a, b, w, h) implies #[trigger] cell_count_ok(
            cells2,
            w,
            h,
            a,
            b,
        ) by {
            assert(cell_count_ok(cells, w, h, a, b));
            assert(adjacent_mines(cells2, w, h, a, b) == adjacent_mines(cells, w, h, a, b));
        }
    }
    lemma_lin_bounds(w, h, r, c);
    lemma_count_update(cells, is_flagged_fn(), cells.len() as int, lin(r, c, w), BoardCell::Explored(nm));
    lemma_count_update(cells, is_explored_fn(), cells.len() as int, lin(r, c, w), BoardCell::Explored(nm));
}

/// A cell carrying no player mark.
pub open spec fn unmarked(cell: BoardCell) -> bool {
    match cell {
        BoardCell::NoMine(CellInfo(m, _)) => m is NoMark,
        BoardCell::Mine(m) => m is NoMark,
        BoardCell::Explored(_) => true,
    }
}

/// A concealed-safe cell with its neighbour count one higher; any other cell
/// unchanged.
pub open spec fn bumped_cell(cell: BoardCell) -> BoardCell {
    match cell {
        BoardCell::NoMine(CellInfo(m, NeighbourMines(n))) => BoardCell::NoMine(
            CellInfo(m, NeighbourMines((n + 1) as u8)),
        ),
        other => other,
    }
}

/// The final resolution of a command that neither quit nor hit a mine: the
/// win check upgrades it once every mine is flagged.
pub open spec fn win_resolution(counter: u32, total_mines: u32) -> GameResolve {
    if counter == total_mines {
        GameResolve::AllMinesDiscovered
    } else {
        GameResolve::Continue
    }
}

/// Turning a non-mine cell at (r, c) into an unmarked mine: every
/// adjacent-mine count within reach of (r, c) rises by one, the mine tally
/// rises by one, and flags and revealed cells are untouched.
proof fn lemma_place_mine(cells: Seq<BoardCell>, w: int, h: int, r: int, c: int)
    requires
        cells.len() == w * h,
        in_bounds(r, c, w, h),
        !(cell_at(cells, w, r, c) is Mine),
        !(cell_at(cells, w, r, c) is Explored),
    ensures
        forall|a: int, b: int|
            in_bounds(a, b, w, h) ==> #[trigger] cell_at(
                cells.update(lin(r, c, w), BoardCell::Mine(Mark::NoMark)),
                w,
                a,
                b,
            ) == (if a == r && b == c {
                BoardCell::Mine(Mark::NoMark)
            } else {
                cell_at(cells, w, a, b)
            }),
        forall|a: int, b: int|
            in_bounds(a, b, w, h) ==> #[trigger] adjacent_mines(
                cells.update(lin(r, c, w), BoardCell::Mine(Mark::NoMark)),
                w,
                h,
                a,
                b,
            ) == adjacent_mines(cells, w, h, a, b) + (if near(r, c, a, b) {
                1int
            } else {
                0int
            }),
        mine_total(cells.update(lin(r, c, w), BoardCell::Mine(Mark::NoMark))) == mine_total(cells)
            + 1,
        flagged_total(cells.update(lin(r, c, w), BoardCell::Mine(Mark::NoMark))) == flagged_total(
            cells,
        ),
        explored_total(cells.update(lin(r, c, w), BoardCell::Mine(Mark::NoMark)))
            == explored_total(cells),
{
    lemma_cells_update(cells, w, h, r, c, BoardCell::Mine(Mark::NoMark));
    let cells2 = cells.update(lin(r, c, w), BoardCell::Mine(Mark::NoMark));
    assert forall|a: int, b: int| #[trigger] mine_at(cells2, w, h, a, b) == mine_at(
        cells,
        w,
        h,
        a,
        b,
    ) + (if a == r && b == c {
        1int
    } else {
        0int
    }) by {
        if in_bounds(a, b, w, h) {
            assert(cell_at(cells2, w, a, b) == (if a == r && b == c {
                BoardCell::Mine(Mark::NoMark)
            } else {
                cell_at(cells, w, a, b)
            }));
        }
    }
    lemma_lin_bounds(w, h, r, c);
    lemma_count_update(cells, is_mine_fn(), cells.len() as int, lin(r, c, w), BoardCell::Mine(Mark::NoMark));
    lemma_count_update(cells, is_flagged_fn(), cells.len() as int, lin(r, c, w), BoardCell::Mine(Mark::NoMark));
    lemma_count_update(cells, is_explored_fn(), cells.len() as int, lin(r, c, w), BoardCell::Mine(Mark::NoMark));
}

/// The board owning configuration, the flat cell array, and the running
/// count of flagged mines.
pub struct GameBoard {
    pub game_configuration: GameConfiguration,
    pub mines_discovered: u32,
    pub cells: Vec<BoardCell>,
}

/// Replacing one cell with one of the same variant and stored count keeps
/// the count-consistency and sealedness invariants, and every adjacent-mine
/// count.
proof fn lemma_mark_update(cells: Seq<BoardCell>, w: int, h: int, r: int, c: int, v: BoardCell)
    requires
        cells.len() == w * h,
        in_bounds(r, c, w, h),
        v is Mine <==> cell_at(cells, w, r, c) is Mine,
        v is NoMine <==> cell_at(cells, w, r, c) is NoMine,
        stored_count(v) == stored_count(cell_at(cells, w, r, c)),
    ensures
        counts_consistent(cells, w, h) ==> counts_consistent(cells.update(lin(r, c, w), v), w, h),
        explored_sealed(cells, w, h) ==> explored_sealed(cells.update(lin(r, c, w), v), w, h),
{
    lemma_cells_update(cells, w, h, r, c, v);
    let cells2 = cells.update(lin(r, c, w), v);
    assert forall|a: int, b: int| #[trigger] mine_at(cells2, w, h, a, b) == mine_at(
        cells,
        w,
        h,
        a,
        b,
    ) by {
        if in_bounds(a, b, w, h) {
            assert(cell_at(cells2, w, a, b) is Mine <==> cell_at(cells, w, a, b) is Mine);
        }
    }
    assert forall|a: int, b: int| #[trigger] safe_at(cells2, w, h, a, b) == safe_at(
        cells,
        w,
        h,
        a,
        b,
    ) by {
        if in_bounds(a, b, w, h) {
            assert(cell_at(cells2, w, a, b) is NoMine <==> cell_at(cells, w, a, b) is NoMine);
        }
    }
    if counts_consistent(cells, w, h) {
        assert forall|a: int, b: int| in_bounds(a, b, w, h) implies #[trigger] cell_count_ok(
            cells2,
            w,
            h,
            a,
            b,
        ) by {
            assert(cell_count_ok(cells, w, h, a, b));
            assert(adjacent_mines(cells2, w, h, a, b) == adjacent_mines(cells, w, h, a, b));
        }
    }
    if explored_sealed(cells, w, h) {
        assert forall|a: int, b: int|
            in_bounds(a, b, w, h) && cell_at(cells2, w, a, b) is Explored implies #[trigger] no_safe_neighbour(
            cells2,
            w,
            h,
            a,
            b,
        ) by {
            assert(cell_at(cells, w, a, b) is Explored);
            assert(no_safe_neighbour(cells, w, h, a, b));
        }
    }
}

/// A fully concealed-safe board with all counts zero satisfies every board
/// invariant and holds no mines, flags or revealed cells.
proof fn lemma_fresh_board(cells: Seq<BoardCell>, w: int, h: int)
    requires
        cells.len() == w * h,
        forall|k: int|
            0 <= k < cells.len() ==> cells[k] == BoardCell::NoMine(
                CellInfo(Mark::NoMark, NeighbourMines(0)),
            ),
    ensures
        counts_consistent(cells, w, h),
        explored_sealed(cells, w, h),
        flagged_total(cells) == 0,
        mine_total(cells) == 0,
        explored_total(cells) == 0,
{
    assert forall|a: int, b: int| #[trigger] mine_at(cells, w, h, a, b) == 0 by {
        if in_bounds(a, b, w, h) {
            lemma_lin_bounds(w, h, a, b);
        }
    }
    assert forall|a: int, b: int| in_bounds(a, b, w, h) implies #[trigger] cell_count_ok(
        cells,
        w,
        h,
        a,
        b,
    ) by {
        lemma_lin_bounds(w, h, a, b);
    }
    assert forall|a: int, b: int|
        in_bounds(a, b, w, h) && cell_at(cells, w, a, b) is Explored implies #[trigger] no_safe_neighbour(
        cells,
        w,
        h,
        a,
        b,
    ) by {
        lemma_lin_bounds(w, h, a, b);
    }
    lemma_count_zero(cells, is_flagged_fn(), cells.len() as int);
    lemma_count_zero(cells, is_mine_fn(), cells.len() as int);
    lemma_count_zero(cells, is_explored_fn(), cells.len() as int);
}

impl GameBoard {
    /// Board width, as the mathematical integer contracts speak of.
    pub open spec fn wide(self) -> int {
        self.game_configuration.width as int
    }

    /// Board height, as the mathematical integer contracts speak of.
    pub open spec fn high(self) -> int {
        self.game_configuration.height as int
    }

    /// Well-formedness: the cell array has exactly width * height cells, the
    /// flagged-mine counter equals the number of flagged mines, every cell
    /// stores its true adjacent-mine count, and no revealed cell has a
    /// concealed-safe neighbour.
    pub open spec fn wf(self) -> bool {
        &&& self.cells@.len() == self.wide() * self.high()
        &&& self.mines_discovered as int == flagged_total(self.cells@)
        &&& counts_consistent(self.cells@, self.wide(), self.high())
        &&& explored_sealed(self.cells@, self.wide(), self.high())
    }

    /// Whether a coordinate lies on this board.
    pub open spec fn coord_in_bounds(self, coordinate: Coordinate) -> bool {
        in_bounds(coordinate.0 as int, coordinate.1 as int, self.wide(), self.high())
    }

    /// A fresh board: width * height concealed-safe cells, no marks, all
    /// counts zero, flagged-mine counter zero.
    pub fn new(game_configuration: GameConfiguration) -> (r: GameBoard)
        ensures
            r.wf(),
            r.game_configuration == game_configuration,
            r.mines_discovered == 0,
            r.cells@.len() == r.wide() * r.high(),
            forall|k: int|
                0 <= k < r.cells@.len() ==> r.cells@[k] == BoardCell::NoMine(
                    CellInfo(Mark::NoMark, NeighbourMines(0)),
                ),
    {
        let w = game_configuration.w();
        let h = game_configuration.h();
        proof {
            lemma_board_size_bound(w as int, h as int);
        }
        let total: usize = (w as usize) * (h as usize);
        let mut cells: Vec<BoardCell> = Vec::new();
        let mut i: usize = 0;
        while i < total
            invariant
                i <= total,
                cells@.len() == i,
                forall|k: int|
                    0 <= k < i ==> cells@[k] == BoardCell::NoMine(
                        CellInfo(Mark::NoMark, NeighbourMines(0)),
                    ),
            decreases total - i,
        {
            cells.push(BoardCell::NoMine(CellInfo(Mark::NoMark, NeighbourMines(0))));
            i = i + 1;
        }
        let r = GameBoard { game_configuration, mines_discovered: 0, cells };
        proof {
            lemma_fresh_board(r.cells@, r.wide(), r.high());
        }
        r
    }

    /// The flat index of a coordinate: row * width + column.
    pub fn compute_linear_index(&self, coordinate: Coordinate) -> (idx: usize)
        requires
            self.coord_in_bounds(coordinate),
        ensures
            idx == lin(coordinate.0 as int, coordinate.1 as int, self.wide()),
            idx < self.wide() * self.high(),
    {
        proof {
            lemma_lin_bounds(self.wide(), self.high(), coordinate.0 as int, coordinate.1 as int);
            lemma_board_size_bound(self.wide(), self.high());
        }
        (coordinate.0 as usize) * (self.game_configuration.width as usize) + (coordinate.1 as usize)
    }

    /// Board width and height, in that order.
    pub fn get_dimensions(&self) -> (r: (u16, u16))
        ensures
            r.0 == self.game_configuration.width,
            r.1 == self.game_configuration.height,
    {
        (self.game_configuration.width, self.game_configuration.height)
    }

    /// Read access to the cell at a coordinate, for rendering.
    pub fn get_cell_at(&self, coordinate: Coordinate) -> (r: &BoardCell)
        requires
            self.wf(),
            self.coord_in_bounds(coordinate),
        ensures
            *r == cell_at(self.cells@, self.wide(), coordinate.0 as int, coordinate.1 as int),
    {
        let idx = self.compute_linear_index(coordinate);
        &self.cells[idx]
    }

    /// Clear the mark of the cell at `coordinate`: a concealed cell keeps its
    /// kind and count but loses its mark; stripping a flag off a mine lowers
    /// the flagged-mine counter; a revealed cell is untouched.
    pub fn clear_mark(&mut self, coordinate: Coordinate) -> (r: GameResolve)
        requires
            old(self).wf(),
            old(self).coord_in_bounds(coordinate),
        ensures
            final(self).wf(),
            final(self).game_configuration == old(self).game_configuration,
            final(self).cells@ == old(self).cells@.update(
                lin(coordinate.0 as int, coordinate.1 as int, old(self).wide()),
                cleared_cell(
                    cell_at(
                        old(self).cells@,
                        old(self).wide(),
                        coordinate.0 as int,
                        coordinate.1 as int,
                    ),
                ),
            ),
            final(self).mines_discovered as int == old(self).mines_discovered + unflag_delta(
                cell_at(
                    old(self).cells@,
                    old(self).wide(),
                    coordinate.0 as int,
                    coordinate.1 as int,
                ),
            ),
            r == GameResolve::Continue,
    {
        let ghost w = old(self).wide();
        let ghost h = old(self).high();
        let ghost r0 = coordinate.0 as int;
        let ghost c0 = coordinate.1 as int;
        let idx = self.compute_linear_index(coordinate);
        let ghost target = cell_at(old(self).cells@, w, r0, c0);
        match self.cells[idx] {
            BoardCell::NoMine(CellInfo(_, n)) => {
                self.cells.set(idx, BoardCell::NoMine(CellInfo(Mark::NoMark, n)));
                proof {
                    lemma_count_update(
                        old(self).cells@,
                        is_flagged_fn(),
                        old(self).cells@.len() as int,
                        idx as int,
                        cleared_cell(target),
                    );
                    lemma_mark_update(old(self).cells@, w, h, r0, c0, cleared_cell(target));
                }
            },
            BoardCell::Mine(m) => {
                match m {
                    Mark::MarkFlag => {
                        proof {
                            lemma_count_at_least_one(
                                old(self).cells@,
                                is_flagged_fn(),
                                old(self).cells@.len() as int,
                                idx as int,
                            );
                        }
                        self.mines_discovered = self.mines_discovered - 1;
                    },
                    _ => {},
                }
                self.cells.set(idx, BoardCell::Mine(Mark::NoMark));
                proof {
                    lemma_count_update(
                        old(self).cells@,
                        is_flagged_fn(),
                        old(self).cells@.len() as int,
                        idx as int,
                        cleared_cell(target),
                    );
                    lemma_mark_update(old(self).cells@, w, h, r0, c0, cleared_cell(target));
                }
            },
            BoardCell::Explored(_) => {
                proof {
                    assert(final(self).cells@ =~= old(self).cells@.update(
                        lin(r0, c0, w),
                        cleared_cell(target),
                    ));
                    lemma_count_update(
                        old(self).cells@,
                        is_flagged_fn(),
                        old(self).cells@.len() as int,
                        idx as int,
                        cleared_cell(target),
                    );
                    lemma_mark_update(old(self).cells@, w, h, r0, c0, cleared_cell(target));
                }
            },
        }
        GameResolve::Continue
    }

    /// Set a flag on the cell at `coordinate`: a concealed cell keeps its
    /// kind and count and carries a flag; flagging a mine not already flagged
    /// raises the flagged-mine counter; a revealed cell is untouched.
    pub fn set_mark_flag(&mut self, coordinate: Coordinate) -> (r: GameResolve)
        requires
            old(self).wf(),
            old(self).coord_in_bounds(coordinate),
        ensures
            final(self).wf(),
            final(self).game_configuration == old(self).game_configuration,
            final(self).cells@ == old(self).cells@.update(
                lin(coordinate.0 as int, coordinate.1 as int, old(self).wide()),
                flag_set_cell(
                    cell_at(
                        old(self).cells@,
                        old(self).wide(),
                        coordinate.0 as int,
                        coordinate.1 as int,
                    ),
                ),
            ),
            final(self).mines_discovered as int == old(self).mines_discovered + flag_delta(
                cell_at(
                    old(self).cells@,
                    old(self).wide(),
                    coordinate.0 as int,
                    coordinate.1 as int,
                ),
            ),
            r == GameResolve::Continue,
    {
        let ghost w = old(self).wide();
        let ghost h = old(self).high();
        let ghost r0 = coordinate.0 as int;
        let ghost c0 = coordinate.1 as int;
        let idx = self.compute_linear_index(coordinate);
        let ghost target = cell_at(old(self).cells@, w, r0, c0);
        match self.cells[idx] {
            BoardCell::NoMine(CellInfo(_, n)) => {
                self.cells.set(idx, BoardCell::NoMine(CellInfo(Mark::MarkFlag, n)));
                proof {
                    lemma_count_update(
                        old(self).cells@,
                        is_flagged_fn(),
                        old(self).cells@.len() as int,
                        idx as int,
                        flag_set_cell(target),
                    );
                    lemma_mark_update(old(self).cells@, w, h, r0, c0, flag_set_cell(target));
                }
            },
            BoardCell::Mine(m) => {
                match m {
                    Mark::NoMark | Mark::MarkNote => {
                        proof {
                            lemma_count_bounds(
                                old(self).cells@,
                                is_flagged_fn(),
                                old(self).cells@.len() as int,
                            );
                            lemma_board_size_bound(w, h);
                        }
                        self.mines_discovered = self.mines_discovered + 1;
                    },
                    _ => {},
                }
                self.cells.set(idx, BoardCell::Mine(Mark::MarkFlag));
                proof {
                    lemma_count_update(
                        old(self).cells@,
                        is_flagged_fn(),
                        old(self).cells@.len() as int,
                        idx as int,
                        flag_set_cell(target),
                    );
                    lemma_mark_update(old(self).cells@, w, h, r0, c0, flag_set_cell(target));
                }
            },
            BoardCell::Explored(_) => {
                proof {
                    assert(final(self).cells@ =~= old(self).cells@.update(
                        lin(r0, c0, w),
                        flag_set_cell(target),
                    ));
                    lemma_count_update(
                        old(self).cells@,
                        is_flagged_fn(),
                        old(self).cells@.len() as int,
                        idx as int,
                        flag_set_cell(target),
                    );
                    lemma_mark_update(old(self).cells@, w, h, r0, c0, flag_set_cell(target));
                }
            },
        }
        GameResolve::Continue
    }

    /// Set a note on the cell at `coordinate`: a concealed cell keeps its
    /// kind and count and carries a note; noting over a flagged mine lowers
    /// the flagged-mine counter; a revealed cell is untouched.
    pub fn set_mark_note(&mut self, coordinate: Coordinate) -> (r: GameResolve)
        requires
            old(self).wf(),
            old(self).coord_in_bounds(coordinate),
        ensures
            final(self).wf(),
            final(self).game_configuration == old(self).game_configuration,
            final(self).cells@ == old(self).cells@.update(
                lin(coordinate.0 as int, coordinate.1 as int, old(self).wide()),
                note_set_cell(
                    cell_at(
                        old(self).cells@,
                        old(self).wide(),
                        coordinate.0 as int,
                        coordinate.1 as int,
                    ),
                ),
            ),
            final(self).mines_discovered as int == old(self).mines_discovered + unflag_delta(
                cell_at(
                    old(self).cells@,
                    old(self).wide(),
                    coordinate.0 as int,
                    coordinate.1 as int,
                ),
            ),
            r == GameResolve::Continue,
    {
        let ghost w = old(self).wide();
        let ghost h = old(self).high();
        let ghost r0 = coordinate.0 as int;
        let ghost c0 = coordinate.1 as int;
        let idx = self.compute_linear_index(coordinate);
        let ghost target = cell_at(old(self).cells@, w, r0, c0);
        match self.cells[idx] {
            BoardCell::NoMine(CellInfo(_, n)) => {
                self.cells.set(idx, BoardCell::NoMine(CellInfo(Mark::MarkNote, n)));
                proof {
                    lemma_count_update(
                        old(self).cells@,
                        is_flagged_fn(),
                        old(self).cells@.len() as int,
                        idx as int,
                        note_set_cell(target),
                    );
                    lemma_mark_update(old(self).cells@, w, h, r0, c0, note_set_cell(target));
                }
            },
            BoardCell::Mine(m) => {
                match m {
                    Mark::MarkFlag => {
                        proof {
                            lemma_count_at_least_one(
                                old(self).cells@,
                                is_flagged_fn(),
                                old(self).cells@.len() as int,
                                idx as int,
                            );
                        }
                        self.mines_discovered = self.mines_discovered - 1;
                    },
                    _ => {},
                }
                self.cells.set(idx, BoardCell::Mine(Mark::MarkNote));
                proof {
                    lemma_count_update(
                        old(self).cells@,
                        is_flagged_fn(),
                        old(self).cells@.len() as int,
                        idx as int,
                        note_set_cell(target),
                    );
                    lemma_mark_update(old(self).cells@, w, h, r0, c0, note_set_cell(target));
                }
            },
            BoardCell::Explored(_) => {
                proof {
                    assert(final(self).cells@ =~= old(self).cells@.update(
                        lin(r0, c0, w),
                        note_set_cell(target),
                    ));
                    lemma_count_update(
                        old(self).cells@,
                        is_flagged_fn(),
                        old(self).cells@.len() as int,
                        idx as int,
                        note_set_cell(target),
                    );
                    lemma_mark_update(old(self).cells@, w, h, r0, c0, note_set_cell(target));
                }
            },
        }
        GameResolve::Continue
    }

    /// Push every valid 8-adjacent neighbour of `center` onto the work-list:
    /// the list keeps its old entries in place, and the appended segment
    /// holds exactly the in-bounds 8-adjacent neighbours of `center`, each
    /// exactly once.
    pub fn add_neighbours(&self, queue: &mut Vec<Coordinate>, center: Coordinate)
        requires
            self.coord_in_bounds(center),
        ensures
            old(queue)@.len() <= final(queue)@.len(),
            final(queue)@.subrange(0, old(queue)@.len() as int) == old(queue)@,
            forall|m: int|
                old(queue)@.len() <= m < final(queue)@.len() ==> in_bounds(
                    #[trigger] final(queue)@[m].0 as int,
                    final(queue)@[m].1 as int,
                    self.wide(),
                    self.high(),
                ) && near(
                    center.0 as int,
                    center.1 as int,
                    final(queue)@[m].0 as int,
                    final(queue)@[m].1 as int,
                ),
            forall|r: int, c: int|
                in_bounds(r, c, self.wide(), self.high()) && near(
                    center.0 as int,
                    center.1 as int,
                    r,
                    c,
                ) ==> #[trigger] in_segment(final(queue)@, old(queue)@.len() as int, r, c),
            forall|m1: int, m2: int|
                old(queue)@.len() <= m1 < m2 < final(queue)@.len() ==> final(queue)@[m1]
                    != final(queue)@[m2],
            forall|r: int, c: int|
                in_bounds(r, c, self.wide(), self.high()) && near(
                    center.0 as int,
                    center.1 as int,
                    r,
                    c,
                ) ==> #[trigger] in_queue(final(queue)@, r, c),
    {
        let w = self.game_configuration.w();
        let h = self.game_configuration.h();
        let r0 = center.0;
        let c0 = center.1;
        let ghost w_s = self.wide();
        let ghost h_s = self.high();
        let ghost base = old(queue)@;
        let mut di: i32 = -1;
        while di <= 1
            invariant
                -1 <= di <= 2,
                w_s == w as int,
                h_s == h as int,
                (r0 as int) < h_s,
                (c0 as int) < w_s,
                base.len() <= queue@.len(),
                queue@.subrange(0, base.len() as int) == base,
                forall|m: int|
                    base.len() <= m < queue@.len() ==> in_bounds(
                        #[trigger] queue@[m].0 as int,
                        queue@[m].1 as int,
                        w_s,
                        h_s,
                    ) && near(r0 as int, c0 as int, queue@[m].0 as int, queue@[m].1 as int)
                        && queue@[m].0 as int - (r0 as int) < di,
                forall|m1: int, m2: int|
                    base.len() <= m1 < m2 < queue@.len() ==> queue@[m1] != queue@[m2],
                forall|r: int, c: int|
                    in_bounds(r, c, w_s, h_s) && near(r0 as int, c0 as int, r, c) && r - (
                    r0 as int) < di ==> #[trigger] in_segment(queue@, base.len() as int, r, c),
            decreases 2 - di,
        {
            let mut dj: i32 = -1;
            while dj <= 1
                invariant
                    -1 <= di <= 1,
                    -1 <= dj <= 2,
                    w_s == w as int,
                    h_s == h as int,
                    (r0 as int) < h_s,
                    (c0 as int) < w_s,
                    base.len() <= queue@.len(),
                    queue@.subrange(0, base.len() as int) == base,
                    forall|m: int|
                        base.len() <= m < queue@.len() ==> in_bounds(
                            #[trigger] queue@[m].0 as int,
                            queue@[m].1 as int,
                            w_s,
                            h_s,
                        ) && near(r0 as int, c0 as int, queue@[m].0 as int, queue@[m].1 as int)
                            && (queue@[m].0 as int - (r0 as int) < di || (queue@[m].0 as int - (
                        r0 as int) == di && queue@[m].1 as int - (c0 as int) < dj)),
                    forall|m1: int, m2: int|
                        base.len() <= m1 < m2 < queue@.len() ==> queue@[m1] != queue@[m2],
                    forall|r: int, c: int|
                        in_bounds(r, c, w_s, h_s) && near(r0 as int, c0 as int, r, c) && (r - (
                        r0 as int) < di || (r - (r0 as int) == di && c - (c0 as int) < dj))
                            ==> #[trigger] in_segment(queue@, base.len() as int, r, c),
                decreases 2 - dj,
            {
                let x: i32 = r0 as i32 + di;
                let y: i32 = c0 as i32 + dj;
                let ghost q_pre = queue@;
                if !(x == r0 as i32 && y == c0 as i32 || x < 0 || y < 0 || x >= h as i32 || y
                    >= w as i32) {
                    queue.push(Coordinate(x as u16, y as u16));
                    proof {
                        assert(queue@.subrange(0, base.len() as int) =~= q_pre.subrange(
                            0,
                            base.len() as int,
                        ));
                        assert(queue@[queue@.len() - 1].0 as int == x as int);
                        assert(queue@.len() - 1 >= base.len());
                        assert(in_segment(queue@, base.len() as int, x as int, y as int));
                        // the pushed entry differs from every earlier appended
                        // entry: those carry a strictly earlier offset
                        assert forall|m1: int, m2: int|
                            base.len() <= m1 < m2 < queue@.len() implies queue@[m1]
                            != queue@[m2] by {
                            if m2 == queue@.len() - 1 {
                                assert(queue@[m1] == q_pre[m1]);
                                assert(q_pre[m1].0 as int - (r0 as int) < di || (q_pre[m1].0 as int
                                    - (r0 as int) == di && q_pre[m1].1 as int - (c0 as int) < dj));
                            } else {
                                assert(queue@[m1] == q_pre[m1]);
                                assert(queue@[m2] == q_pre[m2]);
                            }
                        }
                        assert forall|r: int, c: int|
                            in_bounds(r, c, w_s, h_s) && near(r0 as int, c0 as int, r, c) && (r - (
                            r0 as int) < di || (r - (r0 as int) == di && c - (c0 as int) <= dj))
                                implies #[trigger] in_segment(queue@, base.len() as int, r, c) by {
                            if r - (r0 as int) < di || (r - (r0 as int) == di && c - (c0 as int)
                                < dj) {
                                assert(in_segment(q_pre, base.len() as int, r, c));
                                let m = choose|m: int|
                                    base.len() <= m < q_pre.len() && q_pre[m].0 as int == r
                                        && q_pre[m].1 as int == c;
                                assert(queue@[m] == q_pre[m]);
                                assert(in_segment(queue@, base.len() as int, r, c));
                            } else {
                                assert(r == x as int && c == y as int);
                            }
                        }
                    }
                } else {
                    proof {
                        assert forall|r: int, c: int|
                            in_bounds(r, c, w_s, h_s) && near(r0 as int, c0 as int, r, c) && (r - (
                            r0 as int) < di || (r - (r0 as int) == di && c - (c0 as int) <= dj))
                                implies #[trigger] in_segment(queue@, base.len() as int, r, c) by {
                            if r - (r0 as int) < di || (r - (r0 as int) == di && c - (c0 as int)
                                < dj) {
                                assert(in_segment(queue@, base.len() as int, r, c));
                            } else {
                                assert(r == x as int && c == y as int);
                                assert(false);
                            }
                        }
                    }
                }
                dj = dj + 1;
            }
            di = di + 1;
        }
        proof {
            assert forall|r: int, c: int|
                in_bounds(r, c, w_s, h_s) && near(
                    r0 as int,
                    c0 as int,
                    r,
                    c,
                ) implies #[trigger] in_queue(queue@, r, c) by {
                assert(in_segment(queue@, base.len() as int, r, c));
                lemma_in_segment_in_queue(queue@, base.len() as int, r, c);
            }
        }
    }

    /// The flood-fill reveal: starting from a concealed-safe cell, reveal it
    /// and cascade through connected concealed-safe cells, leaving mines,
    /// marks, the flagged-mine counter and already-revealed cells untouched.
    /// Every change is one concealed-safe cell turning into a revealed cell
    /// carrying the same neighbour count.
    ///
    /// Termination on every board, even a fully open one, is proved by the
    /// loop's `decreases` clause: each iteration either reveals one more
    /// cell or shortens the work-list, and revealed cells are skipped on
    /// dequeue, so the work-list empties. The postconditions below pin the
    /// final board exactly — only reachable concealed-safe cells change
    /// (here), and every one of them is revealed
    /// (`laws::lemma_cascade_is_complete`) — so the visitation order, stack
    /// or queue, cannot affect the outcome
    /// (`laws::lemma_cascade_outcome_is_unique`).
    pub fn explore_cells(&mut self, coordinate: Coordinate)
        requires
            old(self).wf(),
            old(self).coord_in_bounds(coordinate),
            cell_at(
                old(self).cells@,
                old(self).wide(),
                coordinate.0 as int,
                coordinate.1 as int,
            ) is NoMine,
        ensures
            final(self).wf(),
            final(self).game_configuration == old(self).game_configuration,
            final(self).mines_discovered == old(self).mines_discovered,
            final(self).cells@.len() == old(self).cells@.len(),
            cell_at(
                final(self).cells@,
                old(self).wide(),
                coordinate.0 as int,
                coordinate.1 as int,
            ) is Explored,
            reveal_transition(
                old(self).cells@,
                final(self).cells@,
                old(self).wide(),
                old(self).high(),
            ),
            forall|a: int, b: int|
                in_bounds(a, b, old(self).wide(), old(self).high()) && cell_at(
                    final(self).cells@,
                    old(self).wide(),
                    a,
                    b,
                ) != cell_at(old(self).cells@, old(self).wide(), a, b) ==> reachable_from(
                    old(self).cells@,
                    old(self).wide(),
                    old(self).high(),
                    coordinate.0 as int,
                    coordinate.1 as int,
                    a,
                    b,
                ),
    {
        let ghost w = old(self).wide();
        let ghost h = old(self).high();
        let ghost r0 = coordinate.0 as int;
        let ghost c0 = coordinate.1 as int;
        let mut queue: Vec<Coordinate> = Vec::new();
        queue.push(coordinate);
        proof {
            assert(queue@[0] == coordinate);
            assert(in_queue(queue@, r0, c0));
            lemma_path_self(old(self).cells@, w, h, r0, c0);
            assert forall|a: int, b: int|
                in_bounds(a, b, w, h) && #[trigger] cell_at(self.cells@, w, a, b)
                    is Explored implies sealed_or_queued(self.cells@, queue@, w, h, a, b) by {
                assert(no_safe_neighbour(self.cells@, w, h, a, b));
            }
        }
        while queue.len() != 0
            invariant
                w == old(self).wide(),
                h == old(self).high(),
                r0 == coordinate.0 as int,
                c0 == coordinate.1 as int,
                self.game_configuration == old(self).game_configuration,
                self.mines_discovered == old(self).mines_discovered,
                self.cells@.len() == w * h,
                self.mines_discovered as int == flagged_total(self.cells@),
                counts_consistent(self.cells@, w, h),
                in_bounds(r0, c0, w, h),
                cell_at(old(self).cells@, w, r0, c0) is NoMine,
                forall|m: int|
                    0 <= m < queue@.len() ==> in_bounds(
                        #[trigger] queue@[m].0 as int,
                        queue@[m].1 as int,
                        w,
                        h,
                    ),
                reveal_transition(old(self).cells@, self.cells@, w, h),
                cell_at(self.cells@, w, r0, c0) is Explored || in_queue(queue@, r0, c0),
                forall|a: int, b: int|
                    in_bounds(a, b, w, h) && #[trigger] cell_at(self.cells@, w, a, b) is Explored
                        ==> sealed_or_queued(self.cells@, queue@, w, h, a, b),
                forall|m: int|
                    0 <= m < queue@.len() ==> reachable_from(
                        old(self).cells@,
                        w,
                        h,
                        r0,
                        c0,
                        #[trigger] queue@[m].0 as int,
                        queue@[m].1 as int,
                    ),
                forall|a: int, b: int|
                    in_bounds(a, b, w, h) && #[trigger] cell_at(self.cells@, w, a, b) != cell_at(
                        old(self).cells@,
                        w,
                        a,
                        b,
                    ) ==> reachable_from(old(self).cells@, w, h, r0, c0, a, b),
            decreases self.cells@.len() - explored_total(self.cells@), queue@.len(),
        {
            proof {
                lemma_count_bounds(self.cells@, is_explored_fn(), self.cells@.len() as int);
            }
            let ghost q_full = queue@;
            let coord = queue.pop().unwrap();
            let ghost q_popped = queue@;
            proof {
                assert(q_full[q_full.len() - 1] == coord);
                assert(in_bounds(coord.0 as int, coord.1 as int, w, h));
            }
            let idx = self.compute_linear_index(coord);
            let ghost cr = coord.0 as int;
            let ghost cc = coord.1 as int;
            match self.cells[idx] {
                BoardCell::Explored(_) => {
                    proof {
                        lemma_sealed_pop(self.cells@, q_full, w, h);
                        if !(cell_at(self.cells@, w, r0, c0) is Explored) {
                            lemma_in_queue_pop(q_full, r0, c0);
                        }
                    }
                },
                BoardCell::Mine(_) => {
                    proof {
                        lemma_sealed_pop(self.cells@, q_full, w, h);
                        if !(cell_at(self.cells@, w, r0, c0) is Explored) {
                            lemma_in_queue_pop(q_full, r0, c0);
                            assert(!(cr == r0 && cc == c0));
                        }
                    }
                },
                BoardCell::NoMine(CellInfo(_, nm)) => {
                    let ghost cells_pre = self.cells@;
                    self.add_neighbours(&mut queue, coord);
                    let ghost q_grown = queue@;
                    proof {
                        lemma_in_queue_grow(q_popped, q_grown);
                    }
                    self.cells.set(idx, BoardCell::Explored(nm));
                    proof {
                        lemma_reveal_update(cells_pre, w, h, cr, cc, nm);
                        let cells2 = self.cells@;
                        lemma_count_bounds(cells2, is_explored_fn(), cells2.len() as int);
                        // the popped cell is reachable, and was concealed-safe
                        // at the start of the call
                        assert(q_full[q_full.len() - 1].0 as int == cr);
                        assert(reachable_from(old(self).cells@, w, h, r0, c0, cr, cc));
                        assert(cell_at(cells_pre, w, cr, cc) is NoMine);
                        assert(cell_at(old(self).cells@, w, cr, cc) is NoMine);
                        assert forall|m: int| 0 <= m < q_grown.len() implies reachable_from(
                            old(self).cells@,
                            w,
                            h,
                            r0,
                            c0,
                            #[trigger] q_grown[m].0 as int,
                            q_grown[m].1 as int,
                        ) by {
                            if m < q_popped.len() {
                                assert(q_grown.subrange(0, q_popped.len() as int)[m]
                                    == q_grown[m]);
                                assert(q_popped[m] == q_grown[m]);
                                assert(q_full[m] == q_popped[m]);
                            } else {
                                lemma_path_extend(
                                    old(self).cells@,
                                    w,
                                    h,
                                    r0,
                                    c0,
                                    cr,
                                    cc,
                                    q_grown[m].0 as int,
                                    q_grown[m].1 as int,
                                );
                            }
                        }
                        assert forall|a: int, b: int|
                            in_bounds(a, b, w, h) && #[trigger] cell_at(cells2, w, a, b)
                                != cell_at(old(self).cells@, w, a, b) implies reachable_from(
                            old(self).cells@,
                            w,
                            h,
                            r0,
                            c0,
                            a,
                            b,
                        ) by {
                            if !(a == cr && b == cc) {
                                assert(cell_at(cells2, w, a, b) == cell_at(cells_pre, w, a, b));
                            }
                        }
                        assert forall|m: int| 0 <= m < q_grown.len() implies in_bounds(
                            #[trigger] q_grown[m].0 as int,
                            q_grown[m].1 as int,
                            w,
                            h,
                        ) by {
                            if m < q_popped.len() {
                                assert(q_grown.subrange(0, q_popped.len() as int)[m]
                                    == q_grown[m]);
                                assert(q_popped[m] == q_grown[m]);
                            }
                        }
                        // start cell: either it was this one, or its witness survives
                        if !(cell_at(cells_pre, w, r0, c0) is Explored) && !(cr == r0 && cc
                            == c0) {
                            lemma_in_queue_pop(q_full, r0, c0);
                        }
                        // every revealed cell is sealed or queued again
                        assert forall|a: int, b: int|
                            in_bounds(a, b, w, h) && #[trigger] cell_at(cells2, w, a, b)
                                is Explored implies sealed_or_queued(cells2, q_grown, w, h, a, b) by {
                            if a == cr && b == cc {
                                // freshly revealed: all its neighbours were just pushed
                            } else {
                                assert(cell_at(cells_pre, w, a, b) is Explored);
                                assert(sealed_or_queued(cells_pre, q_full, w, h, a, b));
                                lemma_sealed_step(cells_pre, cells2, q_full, q_grown, w, h, a, b, cr, cc);
                            }
                        }
                    }
                },
            }
        }
        proof {
            assert(cell_at(self.cells@, w, r0, c0) is Explored);
            assert forall|a: int, b: int|
                in_bounds(a, b, w, h) && cell_at(self.cells@, w, a, b) is Explored implies #[trigger] no_safe_neighbour(
                self.cells@,
                w,
                h,
                a,
                b,
            ) by {
                assert(sealed_or_queued(self.cells@, queue@, w, h, a, b));
            }
        }
    }

    /// Explore the cell at `coordinate`: a concealed-safe cell starts the
    /// flood-fill reveal and the game goes on; a concealed mine ends the game
    /// at once with no board change; a revealed cell is a no-op.
    pub fn explore(&mut self, coordinate: Coordinate) -> (r: GameResolve)
        requires
            old(self).wf(),
            old(self).coord_in_bounds(coordinate),
        ensures
            final(self).wf(),
            final(self).game_configuration == old(self).game_configuration,
            final(self).mines_discovered == old(self).mines_discovered,
            match cell_at(
                old(self).cells@,
                old(self).wide(),
                coordinate.0 as int,
                coordinate.1 as int,
            ) {
                BoardCell::Mine(_) => final(self).cells@ == old(self).cells@ && r
                    == GameResolve::MineHit,
                BoardCell::Explored(_) => final(self).cells@ == old(self).cells@ && r
                    == GameResolve::Continue,
                BoardCell::NoMine(_) => {
                    &&& r == GameResolve::Continue
                    &&& final(self).cells@.len() == old(self).cells@.len()
                    &&& cell_at(
                        final(self).cells@,
                        old(self).wide(),
                        coordinate.0 as int,
                        coordinate.1 as int,
                    ) is Explored
                    &&& reveal_transition(
                        old(self).cells@,
                        final(self).cells@,
                        old(self).wide(),
                        old(self).high(),
                    )
                    &&& forall|a: int, b: int|
                        in_bounds(a, b, old(self).wide(), old(self).high()) && cell_at(
                            final(self).cells@,
                            old(self).wide(),
                            a,
                            b,
                        ) != cell_at(old(self).cells@, old(self).wide(), a, b) ==> reachable_from(
                            old(self).cells@,
                            old(self).wide(),
                            old(self).high(),
                            coordinate.0 as int,
                            coordinate.1 as int,
                            a,
                            b,
                        )
                },
            },
    {
        let idx = self.compute_linear_index(coordinate);
        match self.cells[idx] {
            BoardCell::NoMine(_) => {
                self.explore_cells(coordinate);
                GameResolve::Continue
            },
            BoardCell::Mine(_) => GameResolve::MineHit,
            BoardCell::Explored(_) => GameResolve::Continue,
        }
    }

    /// Raise the stored neighbour count of the cell at (x, y) by one when
    /// that cell is on the board and concealed-safe; otherwise do nothing.
    fn bump_cell(&mut self, x: i32, y: i32)
        requires
            old(self).cells@.len() == old(self).wide() * old(self).high(),
            in_bounds(x as int, y as int, old(self).wide(), old(self).high()) && cell_at(
                old(self).cells@,
                old(self).wide(),
                x as int,
                y as int,
            ) is NoMine ==> stored_count(
                cell_at(old(self).cells@, old(self).wide(), x as int, y as int),
            ) < 255,
        ensures
            final(self).game_configuration == old(self).game_configuration,
            final(self).mines_discovered == old(self).mines_discovered,
            final(self).cells@.len() == old(self).cells@.len(),
            forall|a: int, b: int|
                in_bounds(a, b, old(self).wide(), old(self).high()) ==> #[trigger] cell_at(
                    final(self).cells@,
                    old(self).wide(),
                    a,
                    b,
                ) == (if a == x as int && b == y as int {
                    bumped_cell(cell_at(old(self).cells@, old(self).wide(), a, b))
                } else {
                    cell_at(old(self).cells@, old(self).wide(), a, b)
                }),
            forall|a: int, b: int| #[trigger] adjacent_mines(
                final(self).cells@,
                old(self).wide(),
                old(self).high(),
                a,
                b,
            ) == adjacent_mines(old(self).cells@, old(self).wide(), old(self).high(), a, b),
            mine_total(final(self).cells@) == mine_total(old(self).cells@),
            flagged_total(final(self).cells@) == flagged_total(old(self).cells@),
            explored_total(final(self).cells@) == explored_total(old(self).cells@),
    {
        let ghost w_s = old(self).wide();
        let ghost h_s = old(self).high();
        let w = self.game_configuration.w();
        let h = self.game_configuration.h();
        if x >= 0 && y >= 0 && x < h as i32 && y < w as i32 {
            let coordinate = Coordinate(x as u16, y as u16);
            let idx = self.compute_linear_index(coordinate);
            match self.cells[idx] {
                BoardCell::NoMine(CellInfo(m, NeighbourMines(n))) => {
                    self.cells.set(idx, BoardCell::NoMine(CellInfo(m, NeighbourMines(n + 1))));
                    proof {
                        lemma_cells_update(
                            old(self).cells@,
                            w_s,
                            h_s,
                            x as int,
                            y as int,
                            bumped_cell(cell_at(old(self).cells@, w_s, x as int, y as int)),
                        );
                        lemma_lin_bounds(w_s, h_s, x as int, y as int);
                        lemma_count_update(
                            old(self).cells@,
                            is_mine_fn(),
                            old(self).cells@.len() as int,
                            lin(x as int, y as int, w_s),
                            bumped_cell(cell_at(old(self).cells@, w_s, x as int, y as int)),
                        );
                        lemma_count_update(
                            old(self).cells@,
                            is_flagged_fn(),
                            old(self).cells@.len() as int,
                            lin(x as int, y as int, w_s),
                            bumped_cell(cell_at(old(self).cells@, w_s, x as int, y as int)),
                        );
                        lemma_count_update(
                            old(self).cells@,
                            is_explored_fn(),
                            old(self).cells@.len() as int,
                            lin(x as int, y as int, w_s),
                            bumped_cell(cell_at(old(self).cells@, w_s, x as int, y as int)),
                        );
                        assert forall|a: int, b: int| #[trigger] mine_at(
                            final(self).cells@,
                            w_s,
                            h_s,
                            a,
                            b,
                        ) == mine_at(old(self).cells@, w_s, h_s, a, b) by {
                            if in_bounds(a, b, w_s, h_s) {
                                assert(cell_at(final(self).cells@, w_s, a, b) is Mine <==> cell_at(
                                    old(self).cells@,
                                    w_s,
                                    a,
                                    b,
                                ) is Mine);
                            }
                        }
                    }
                },
                _ => {},
            }
        }
    }

    /// Raise the stored neighbour count of every concealed-safe cell
    /// adjacent to `center` by one, leaving everything else unchanged.
    fn bump_neighbours(&mut self, center: Coordinate)
        requires
            old(self).cells@.len() == old(self).wide() * old(self).high(),
            old(self).coord_in_bounds(center),
            forall|a: int, b: int|
                in_bounds(a, b, old(self).wide(), old(self).high()) && near(
                    center.0 as int,
                    center.1 as int,
                    a,
                    b,
                ) && #[trigger] cell_at(old(self).cells@, old(self).wide(), a, b) is NoMine
                    ==> stored_count(cell_at(old(self).cells@, old(self).wide(), a, b)) < 255,
        ensures
            final(self).game_configuration == old(self).game_configuration,
            final(self).mines_discovered == old(self).mines_discovered,
            final(self).cells@.len() == old(self).cells@.len(),
            forall|a: int, b: int|
                in_bounds(a, b, old(self).wide(), old(self).high()) ==> #[trigger] cell_at(
                    final(self).cells@,
                    old(self).wide(),
                    a,
                    b,
                ) == (if near(center.0 as int, center.1 as int, a, b) {
                    bumped_cell(cell_at(old(self).cells@, old(self).wide(), a, b))
                } else {
                    cell_at(old(self).cells@, old(self).wide(), a, b)
                }),
            forall|a: int, b: int| #[trigger] adjacent_mines(
                final(self).cells@,
                old(self).wide(),
                old(self).high(),
                a,
                b,
            ) == adjacent_mines(old(self).cells@, old(self).wide(), old(self).high(), a, b),
            mine_total(final(self).cells@) == mine_total(old(self).cells@),
            flagged_total(final(self).cells@) == flagged_total(old(self).cells@),
            explored_total(final(self).cells@) == explored_total(old(self).cells@),
    {
        let r0 = center.0;
        let c0 = center.1;
        self.bump_cell(r0 as i32 - 1, c0 as i32 - 1);
        self.bump_cell(r0 as i32 - 1, c0 as i32);
        self.bump_cell(r0 as i32 - 1, c0 as i32 + 1);
        self.bump_cell(r0 as i32, c0 as i32 - 1);
        self.bump_cell(r0 as i32, c0 as i32 + 1);
        self.bump_cell(r0 as i32 + 1, c0 as i32 - 1);
        self.bump_cell(r0 as i32 + 1, c0 as i32);
        self.bump_cell(r0 as i32 + 1, c0 as i32 + 1);
    }

    /// Mine placement on a fresh board: choose `total_mines` distinct cell
    /// positions uniformly at random by shuffling the full position range,
    /// turn each into an unmarked concealed mine, and raise the neighbour
    /// count of each adjacent concealed-safe cell once per adjacent mine.
    /// Afterwards exactly `total_mines` cells are mines, every stored count
    /// matches the mines actually adjacent, nothing is revealed or marked,
    /// and the flagged-mine counter is still zero.
    pub fn generate_world(&mut self)
        requires
            old(self).wf(),
            old(self).mines_discovered == 0,
            forall|k: int|
                0 <= k < old(self).cells@.len() ==> old(self).cells@[k] == BoardCell::NoMine(
                    CellInfo(Mark::NoMark, NeighbourMines(0)),
                ),
            old(self).game_configuration.total_mines as int <= old(self).wide() * old(self).high(),
        ensures
            final(self).wf(),
            final(self).game_configuration == old(self).game_configuration,
            final(self).mines_discovered == 0,
            mine_total(final(self).cells@) == old(self).game_configuration.total_mines,
            forall|a: int, b: int|
                in_bounds(a, b, old(self).wide(), old(self).high()) ==> !(#[trigger] cell_at(
                    final(self).cells@,
                    old(self).wide(),
                    a,
                    b,
                ) is Explored),
            forall|a: int, b: int|
                in_bounds(a, b, old(self).wide(), old(self).high()) ==> unmarked(
                    #[trigger] cell_at(final(self).cells@, old(self).wide(), a, b),
                ),
    {
        let ghost w_s = old(self).wide();
        let ghost h_s = old(self).high();
        let w = self.game_configuration.w();
        let h = self.game_configuration.h();
        proof {
            lemma_board_size_bound(w_s, h_s);
        }
        let n: u32 = (w as u32) * (h as u32);
        let mut positions: Vec<u32> = Vec::new();
        let mut i: u32 = 0;
        while i < n
            invariant
                i <= n,
                positions@.len() == i,
                forall|t: int| 0 <= t < i ==> positions@[t] == t,
            decreases n - i,
        {
            positions.push(i);
            i = i + 1;
        }
        let ghost before = positions@;
        proof {
            assert(before.no_duplicates());
        }
        shuffle_positions(&mut positions);
        proof {
            before.to_multiset_ensures();
            positions@.to_multiset_ensures();
            before.lemma_multiset_has_no_duplicates();
            assert forall|x: u32| positions@.to_multiset().contains(x) implies positions@
                .to_multiset().count(x) == 1 by {
                assert(before.to_multiset().count(x) > 0);
            }
            positions@.lemma_multiset_has_no_duplicates_conv();
            assert forall|t: int| 0 <= t < positions@.len() implies #[trigger] positions@[t]
                < n by {
                assert(positions@.contains(positions@[t]));
                assert(positions@.to_multiset().count(positions@[t]) > 0);
                assert(before.to_multiset().count(positions@[t]) > 0);
                assert(before.contains(positions@[t]));
                let s = choose|s: int| 0 <= s < before.len() && before[s] == positions@[t];
                assert(before[s] == s as u32);
            }
        }
        self.place_mines(&positions);
    }

    /// Turn the cell at each of the first `total_mines` positions of a fresh
    /// board into an unmarked concealed mine, raising the neighbour count of
    /// each adjacent concealed-safe cell once per adjacent mine. Afterwards
    /// the mine cells are exactly the cells named by that prefix, so the
    /// whole board is a function of the configuration and the position
    /// sequence alone.
    pub fn place_mines(&mut self, positions: &Vec<u32>)
        requires
            old(self).mines_discovered == 0,
            old(self).cells@.len() == old(self).wide() * old(self).high(),
            forall|k: int|
                0 <= k < old(self).cells@.len() ==> old(self).cells@[k] == BoardCell::NoMine(
                    CellInfo(Mark::NoMark, NeighbourMines(0)),
                ),
            positions@.len() == old(self).wide() * old(self).high(),
            positions@.no_duplicates(),
            forall|t: int|
                0 <= t < positions@.len() ==> (#[trigger] positions@[t]) < old(self).wide() * old(
                    self,
                ).high(),
            old(self).game_configuration.total_mines as int <= positions@.len(),
        ensures
            final(self).wf(),
            final(self).game_configuration == old(self).game_configuration,
            final(self).mines_discovered == 0,
            mine_total(final(self).cells@) == old(self).game_configuration.total_mines,
            forall|a: int, b: int|
                in_bounds(a, b, old(self).wide(), old(self).high()) ==> ((#[trigger] cell_at(
                    final(self).cells@,
                    old(self).wide(),
                    a,
                    b,
                )) is Mine <==> exists|t: int|
                    0 <= t < old(self).game_configuration.total_mines && positions@[t] as int
                        == lin(a, b, old(self).wide())),
            forall|a: int, b: int|
                in_bounds(a, b, old(self).wide(), old(self).high()) ==> !(#[trigger] cell_at(
                    final(self).cells@,
                    old(self).wide(),
                    a,
                    b,
                ) is Explored),
            forall|a: int, b: int|
                in_bounds(a, b, old(self).wide(), old(self).high()) ==> unmarked(
                    #[trigger] cell_at(final(self).cells@, old(self).wide(), a, b),
                ),
    {
        let ghost w_s = old(self).wide();
        let ghost h_s = old(self).high();
        let w = self.game_configuration.w();
        let h = self.game_configuration.h();
        proof {
            lemma_board_size_bound(w_s, h_s);
        }
        let n: u32 = (w as u32) * (h as u32);
        proof {
            lemma_fresh_board(old(self).cells@, w_s, h_s);
            assert forall|a: int, b: int| in_bounds(a, b, w_s, h_s) implies #[trigger] cell_at(
                self.cells@,
                w_s,
                a,
                b,
            ) == BoardCell::NoMine(CellInfo(Mark::NoMark, NeighbourMines(0))) by {
                lemma_lin_bounds(w_s, h_s, a, b);
            }
        }
        let total = self.game_configuration.mines();
        let mut k: u32 = 0;
        while k < total
            invariant
                w_s == old(self).wide(),
                h_s == old(self).high(),
                self.game_configuration == old(self).game_configuration,
                self.mines_discovered == 0,
                self.cells@.len() == w_s * h_s,
                flagged_total(self.cells@) == 0,
                counts_consistent(self.cells@, w_s, h_s),
                mine_total(self.cells@) == k,
                total == old(self).game_configuration.total_mines,
                k <= total,
                total as int <= n as int,
                n as int == w_s * h_s,
                w as int == w_s,
                h as int == h_s,
                positions@.len() == n,
                positions@.no_duplicates(),
                forall|t: int| 0 <= t < positions@.len() ==> #[trigger] positions@[t] < n,
                forall|a: int, b: int|
                    in_bounds(a, b, w_s, h_s) ==> !(#[trigger] cell_at(self.cells@, w_s, a, b)
                        is Explored),
                forall|a: int, b: int|
                    in_bounds(a, b, w_s, h_s) ==> unmarked(
                        #[trigger] cell_at(self.cells@, w_s, a, b),
                    ),
                forall|a: int, b: int|
                    in_bounds(a, b, w_s, h_s) ==> ((#[trigger] cell_at(self.cells@, w_s, a, b))
                        is Mine <==> exists|t: int|
                        0 <= t < k && positions@[t] as int == lin(a, b, w_s)),
            decreases total - k,
        {
            proof {
                assert(n > 0);
                assert(w_s >= 1 && h_s >= 1) by (nonlinear_arith)
                    requires
                        w_s * h_s > 0,
                        w_s >= 0,
                        h_s >= 0,
                ;
            }
            let p: u32 = positions[k as usize];
            proof {
                lemma_lin_decompose(p as int, w_s, h_s);
            }
            let pr: u16 = (p / (w as u32)) as u16;
            let pc: u16 = (p % (w as u32)) as u16;
            let ghost cells0 = self.cells@;
            proof {
                assert(pr as int == p as int / w_s && pc as int == p as int % w_s);
                assert(in_bounds(pr as int, pc as int, w_s, h_s));
                assert(lin(pr as int, pc as int, w_s) == p as int);
                // distinctness: this position is not already a mine
                if cell_at(cells0, w_s, pr as int, pc as int) is Mine {
                    let t = choose|t: int|
                        0 <= t < k && positions@[t] as int == lin(pr as int, pc as int, w_s);
                    assert(positions@[t] == positions@[k as int]);
                    assert(false);
                }
                lemma_place_mine(cells0, w_s, h_s, pr as int, pc as int);
            }
            let coordinate = Coordinate(pr, pc);
            let idx = self.compute_linear_index(coordinate);
            self.cells.set(idx, BoardCell::Mine(Mark::NoMark));
            let ghost cells1 = self.cells@;
            proof {
                // every count is at most the eight neighbours it can see
                assert forall|a: int, b: int|
                    in_bounds(a, b, w_s, h_s) && near(pr as int, pc as int, a, b) && #[trigger] cell_at(
                    cells1,
                    w_s,
                    a,
                    b,
                ) is NoMine implies stored_count(cell_at(cells1, w_s, a, b)) < 255 by {
                    assert(cell_count_ok(cells0, w_s, h_s, a, b));
                    assert(cell_at(cells1, w_s, a, b) == cell_at(cells0, w_s, a, b));
                    assert(0 <= adjacent_mines(cells0, w_s, h_s, a, b) <= 8);
                }
            }
            self.bump_neighbours(coordinate);
            let ghost cells2 = self.cells@;
            proof {
                assert forall|a: int, b: int| in_bounds(a, b, w_s, h_s) implies #[trigger] cell_count_ok(
                    cells2,
                    w_s,
                    h_s,
                    a,
                    b,
                ) by {
                    assert(cell_count_ok(cells0, w_s, h_s, a, b));
                    assert(adjacent_mines(cells2, w_s, h_s, a, b) == adjacent_mines(
                        cells1,
                        w_s,
                        h_s,
                        a,
                        b,
                    ));
                }
                // mine membership after placing position k
                assert forall|a: int, b: int| in_bounds(a, b, w_s, h_s) implies ((#[trigger] cell_at(
                    cells2,
                    w_s,
                    a,
                    b,
                )) is Mine <==> exists|t: int|
                    0 <= t < k + 1 && positions@[t] as int == lin(a, b, w_s)) by {
                    if cell_at(cells2, w_s, a, b) is Mine {
                        if a == pr as int && b == pc as int {
                            assert(positions@[k as int] as int == lin(a, b, w_s));
                        } else {
                            assert(cell_at(cells0, w_s, a, b) is Mine);
                            let t = choose|t: int|
                                0 <= t < k && positions@[t] as int == lin(a, b, w_s);
                            assert(0 <= t < k + 1 && positions@[t] as int == lin(a, b, w_s));
                        }
                    } else {
                        if exists|t: int| 0 <= t < k + 1 && positions@[t] as int == lin(a, b, w_s) {
                            let t = choose|t: int|
                                0 <= t < k + 1 && positions@[t] as int == lin(a, b, w_s);
                            if t == k as int {
                                crate::grid::lemma_lin_injective(
                                    w_s,
                                    a,
                                    b,
                                    pr as int,
                                    pc as int,
                                );
                                assert(false);
                            } else {
                                assert(cell_at(cells0, w_s, a, b) is Mine);
                                assert(false);
                            }
                        }
                    }
                }
            }
            k = k + 1;
        }
        proof {
            assert forall|a: int, b: int|
                in_bounds(a, b, w_s, h_s) && cell_at(self.cells@, w_s, a, b)
                    is Explored implies #[trigger] no_safe_neighbour(
                self.cells@,
                w_s,
                h_s,
                a,
                b,
            ) by {
                assert(!(cell_at(self.cells@, w_s, a, b) is Explored));
            }
        }
    }

    /// The single mutation entry point: dispatch one command, then apply the
    /// win check — a resolution still in play is upgraded to a win exactly
    /// when the flagged-mine counter has reached the configured total, while
    /// `Quit` and a mine hit pass through untouched.
    pub fn manipulate_cell(&mut self, command: BoardCommand) -> (r: GameResolve)
        requires
            old(self).wf(),
            match command {
                BoardCommand::Pass | BoardCommand::Quit => true,
                BoardCommand::ClearMark(co) | BoardCommand::SetMarkFlag(co)
                | BoardCommand::SetMarkNote(co) | BoardCommand::Explore(co) => old(
                    self,
                ).coord_in_bounds(co),
            },
        ensures
            final(self).wf(),
            final(self).game_configuration == old(self).game_configuration,
            command is Quit ==> final(self).cells@ == old(self).cells@
                && final(self).mines_discovered == old(self).mines_discovered && r
                == GameResolve::Quit,
            command is Pass ==> final(self).cells@ == old(self).cells@
                && final(self).mines_discovered == old(self).mines_discovered && r
                == win_resolution(
                old(self).mines_discovered,
                old(self).game_configuration.total_mines,
            ),
            (command matches BoardCommand::ClearMark(co) ==> final(self).cells@ == old(
                self,
            ).cells@.update(
                lin(co.0 as int, co.1 as int, old(self).wide()),
                cleared_cell(cell_at(old(self).cells@, old(self).wide(), co.0 as int, co.1 as int)),
            ) && final(self).mines_discovered as int == old(self).mines_discovered + unflag_delta(
                cell_at(old(self).cells@, old(self).wide(), co.0 as int, co.1 as int),
            ) && r == win_resolution(
                final(self).mines_discovered,
                old(self).game_configuration.total_mines,
            )),
            (command matches BoardCommand::SetMarkFlag(co) ==> final(self).cells@ == old(
                self,
            ).cells@.update(
                lin(co.0 as int, co.1 as int, old(self).wide()),
                flag_set_cell(
                    cell_at(old(self).cells@, old(self).wide(), co.0 as int, co.1 as int),
                ),
            ) && final(self).mines_discovered as int == old(self).mines_discovered + flag_delta(
                cell_at(old(self).cells@, old(self).wide(), co.0 as int, co.1 as int),
            ) && r == win_resolution(
                final(self).mines_discovered,
                old(self).game_configuration.total_mines,
            )),
            (command matches BoardCommand::SetMarkNote(co) ==> final(self).cells@ == old(
                self,
            ).cells@.update(
                lin(co.0 as int, co.1 as int, old(self).wide()),
                note_set_cell(
                    cell_at(old(self).cells@, old(self).wide(), co.0 as int, co.1 as int),
                ),
            ) && final(self).mines_discovered as int == old(self).mines_discovered + unflag_delta(
                cell_at(old(self).cells@, old(self).wide(), co.0 as int, co.1 as int),
            ) && r == win_resolution(
                final(self).mines_discovered,
                old(self).game_configuration.total_mines,
            )),
            (command matches BoardCommand::Explore(co) ==> final(self).mines_discovered == old(
                self,
            ).mines_discovered && (match cell_at(
                old(self).cells@,
                old(self).wide(),
                co.0 as int,
                co.1 as int,
            ) {
                BoardCell::Mine(_) => final(self).cells@ == old(self).cells@ && r
                    == GameResolve::MineHit,
                BoardCell::Explored(_) => final(self).cells@ == old(self).cells@ && r
                    == win_resolution(
                    old(self).mines_discovered,
                    old(self).game_configuration.total_mines,
                ),
                BoardCell::NoMine(_) => {
                    &&& cell_at(
                        final(self).cells@,
                        old(self).wide(),
                        co.0 as int,
                        co.1 as int,
                    ) is Explored
                    &&& reveal_transition(
                        old(self).cells@,
                        final(self).cells@,
                        old(self).wide(),
                        old(self).high(),
                    )
                    &&& forall|a: int, b: int|
                        in_bounds(a, b, old(self).wide(), old(self).high()) && cell_at(
                            final(self).cells@,
                            old(self).wide(),
                            a,
                            b,
                        ) != cell_at(old(self).cells@, old(self).wide(), a, b) ==> reachable_from(
                            old(self).cells@,
                            old(self).wide(),
                            old(self).high(),
                            co.0 as int,
                            co.1 as int,
                            a,
                            b,
                        )
                    &&& r == win_resolution(
                        old(self).mines_discovered,
                        old(self).game_configuration.total_mines,
                    )
                },
            })),
    {
        let command_result = match command {
            BoardCommand::Quit => GameResolve::Quit,
            BoardCommand::Pass => GameResolve::Continue,
            BoardCommand::ClearMark(coordinate) => self.clear_mark(coordinate),
            BoardCommand::SetMarkFlag(coordinate) => self.set_mark_flag(coordinate),
            BoardCommand::SetMarkNote(coordinate) => self.set_mark_note(coordinate),
            BoardCommand::Explore(coordinate) => self.explore(coordinate),
        };
        match command_result {
            GameResolve::Continue | GameResolve::AllMinesDiscovered => {
                if self.mines_discovered == self.game_configuration.mines() {
                    GameResolve::AllMinesDiscovered
                } else {
                    GameResolve::Continue
                }
            },
            other => other,
        }
    }
}

} // verus!
