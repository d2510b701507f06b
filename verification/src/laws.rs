//! Laws of the board engine stated on their own, over the same spec
//! functions the operation contracts use.

use vstd::prelude::*;
use crate::board::{
    GameBoard, GameResolve, adjacent_mines, cell_count_ok, cleared_cell, explored_sealed,
    flag_delta, flag_set_cell, flagged_total, no_safe_neighbour, path_connects, reachable_from,
    reveal_transition, safe_at, unflag_delta, win_resolution,
};
use crate::cell::{BoardCell, CellInfo, NeighbourMines, cell_at};
use crate::grid::{in_bounds, lemma_lin_bounds, lemma_lin_decompose, lin, near};

verus! {

/// Clearing the mark of an already-unmarked concealed-safe cell is a no-op:
/// the board is unchanged and the flagged-mine counter does not move.
pub proof fn lemma_clear_mark_unmarked_noop(
    cells: Seq<BoardCell>,
    w: int,
    h: int,
    r: int,
    c: int,
)
    requires
        cells.len() == w * h,
        in_bounds(r, c, w, h),
        cell_at(cells, w, r, c) matches BoardCell::NoMine(CellInfo(m, _)) && m is NoMark,
    ensures
        cells.update(lin(r, c, w), cleared_cell(cell_at(cells, w, r, c))) == cells,
        unflag_delta(cell_at(cells, w, r, c)) == 0,
{
    lemma_lin_bounds(w, h, r, c);
    assert(cells.update(lin(r, c, w), cleared_cell(cell_at(cells, w, r, c))) =~= cells);
}

/// Setting a flag on a cell already flagged changes nothing, and in
/// particular moves the flagged-mine counter no second time: flagging is
/// idempotent.
pub proof fn lemma_set_flag_idempotent(cell: BoardCell)
    ensures
        flag_set_cell(flag_set_cell(cell)) == flag_set_cell(cell),
        flag_delta(flag_set_cell(cell)) == 0,
{
}

/// On a well-formed board the flagged-mine counter equals the number of
/// concealed mines currently carrying a flag. Every operation's contract
/// ends in a well-formed board, so this holds after any sequence of
/// commands.
pub proof fn lemma_flag_counter_matches(board: GameBoard)
    requires
        board.wf(),
    ensures
        board.mines_discovered as int == flagged_total(board.cells@),
{
}

/// On a well-formed board every concealed-safe and every revealed cell
/// stores exactly the number of mines among its up to 8 adjacent cells.
/// Generation establishes well-formedness and every operation keeps it, so
/// the displayed counts are always the true ones.
pub proof fn lemma_stored_counts_are_true(board: GameBoard, r: int, c: int)
    requires
        board.wf(),
        in_bounds(r, c, board.wide(), board.high()),
        cell_at(board.cells@, board.wide(), r, c) matches BoardCell::NoMine(
            CellInfo(_, NeighbourMines(_)),
        ) || cell_at(board.cells@, board.wide(), r, c) is Explored,
    ensures
        match cell_at(board.cells@, board.wide(), r, c) {
            BoardCell::NoMine(CellInfo(_, NeighbourMines(n))) => n as int == adjacent_mines(
                board.cells@,
                board.wide(),
                board.high(),
                r,
                c,
            ),
            BoardCell::Explored(NeighbourMines(n)) => n as int == adjacent_mines(
                board.cells@,
                board.wide(),
                board.high(),
                r,
                c,
            ),
            BoardCell::Mine(_) => true,
        },
{
    assert(cell_count_ok(board.cells@, board.wide(), board.high(), r, c));
}

/// On a well-formed board a revealed cell never has a concealed-safe
/// neighbour left: the unconditional cascade ran to completion, so exploring
/// near an already-revealed region can cascade no further through it.
pub proof fn lemma_revealed_region_is_closed(board: GameBoard, r: int, c: int)
    requires
        board.wf(),
        in_bounds(r, c, board.wide(), board.high()),
        cell_at(board.cells@, board.wide(), r, c) is Explored,
    ensures
        no_safe_neighbour(board.cells@, board.wide(), board.high(), r, c),
{
}

/// Walking a concealed-safe path out of a revealed cell: with the board
/// sealed and every change a concealed-safe reveal, every cell on the path
/// ends revealed.
proof fn lemma_path_explored(
    before: Seq<BoardCell>,
    after: Seq<BoardCell>,
    w: int,
    h: int,
    p: Seq<(int, int)>,
    r0: int,
    c0: int,
    r: int,
    c: int,
)
    requires
        path_connects(before, w, h, p, r0, c0, r, c),
        cell_at(before, w, r, c) is NoMine,
        cell_at(after, w, r0, c0) is Explored,
        explored_sealed(after, w, h),
        reveal_transition(before, after, w, h),
    ensures
        cell_at(after, w, r, c) is Explored,
    decreases p.len(),
{
    if p.len() == 1 {
        assert(p[0] == (r0, c0) && p[0] == (r, c));
    } else {
        let p1 = p.drop_last();
        let pr = p[p.len() - 2].0;
        let pc = p[p.len() - 2].1;
        assert(path_connects(before, w, h, p1, r0, c0, pr, pc)) by {
            assert(p1[0] == p[0]);
            assert(p1[p1.len() - 1] == p[p.len() - 2]);
            assert forall|i: int| 0 <= i < p1.len() implies in_bounds(
                (#[trigger] p1[i]).0,
                p1[i].1,
                w,
                h,
            ) by {
                assert(p1[i] == p[i]);
            }
            assert forall|i: int|
                0 <= i < p1.len() - 1 implies near(
                (#[trigger] p1[i]).0,
                p1[i].1,
                p1[i + 1].0,
                p1[i + 1].1,
            ) by {
                assert(p1[i] == p[i]);
                assert(p1[i + 1] == p[i + 1]);
            }
            assert forall|i: int|
                0 <= i < p1.len() - 1 implies cell_at(before, w, (#[trigger] p1[i]).0, p1[i].1)
                is NoMine by {
                assert(p1[i] == p[i]);
            }
        }
        assert(cell_at(before, w, pr, pc) is NoMine);
        lemma_path_explored(before, after, w, h, p1, r0, c0, pr, pc);
        assert(no_safe_neighbour(after, w, h, pr, pc));
        assert(near(pr, pc, r, c));
        assert(in_bounds(r, c, w, h));
        assert(!safe_at(after, w, h, r, c));
        assert(cell_at(after, w, r, c) is Explored);
    }
}

/// Completeness of the unconditional cascade: once an explore call ends —
/// its start cell revealed, only concealed-safe cells turned revealed, and
/// no revealed cell left with a concealed-safe neighbour — every cell that
/// was connected to the start through concealed-safe cells is revealed.
/// Together with the call's reachability bound, the revealed region is
/// exactly the connected concealed-safe region of the start.
pub proof fn lemma_cascade_is_complete(
    before: Seq<BoardCell>,
    after: Seq<BoardCell>,
    w: int,
    h: int,
    r0: int,
    c0: int,
    r: int,
    c: int,
)
    requires
        cell_at(after, w, r0, c0) is Explored,
        explored_sealed(after, w, h),
        reveal_transition(before, after, w, h),
        reachable_from(before, w, h, r0, c0, r, c),
        cell_at(before, w, r, c) is NoMine,
    ensures
        cell_at(after, w, r, c) is Explored,
{
    let p = choose|p: Seq<(int, int)>| path_connects(before, w, h, p, r0, c0, r, c);
    lemma_path_explored(before, after, w, h, p, r0, c0, r, c);
}

/// The flood-fill outcome is unique: any two boards satisfying an explore
/// call's postconditions — start cell revealed, every change a
/// concealed-safe reveal of a reachable cell, no revealed cell left with a
/// concealed-safe neighbour — are the same board. The order in which the
/// work-list is visited (stack or queue) therefore cannot affect the final
/// state.
pub proof fn lemma_cascade_outcome_is_unique(
    before: Seq<BoardCell>,
    after1: Seq<BoardCell>,
    after2: Seq<BoardCell>,
    w: int,
    h: int,
    r0: int,
    c0: int,
)
    requires
        before.len() == w * h,
        after1.len() == w * h,
        after2.len() == w * h,
        in_bounds(r0, c0, w, h),
        cell_at(before, w, r0, c0) is NoMine,
        cell_at(after1, w, r0, c0) is Explored,
        cell_at(after2, w, r0, c0) is Explored,
        explored_sealed(after1, w, h),
        explored_sealed(after2, w, h),
        reveal_transition(before, after1, w, h),
        reveal_transition(before, after2, w, h),
        forall|a: int, b: int|
            in_bounds(a, b, w, h) && #[trigger] cell_at(after1, w, a, b) != cell_at(before, w, a, b)
                ==> reachable_from(before, w, h, r0, c0, a, b),
        forall|a: int, b: int|
            in_bounds(a, b, w, h) && #[trigger] cell_at(after2, w, a, b) != cell_at(before, w, a, b)
                ==> reachable_from(before, w, h, r0, c0, a, b),
    ensures
        after1 == after2,
{
    assert forall|a: int, b: int| in_bounds(a, b, w, h) implies #[trigger] cell_at(after1, w, a, b)
        == cell_at(after2, w, a, b) by {
        if cell_at(before, w, a, b) is NoMine && reachable_from(before, w, h, r0, c0, a, b) {
            lemma_cascade_is_complete(before, after1, w, h, r0, c0, a, b);
            lemma_cascade_is_complete(before, after2, w, h, r0, c0, a, b);
        }
    }
    assert forall|k: int| 0 <= k < after1.len() implies after1[k] == after2[k] by {
        if w >= 1 {
            lemma_lin_decompose(k, w, h);
            assert(cell_at(after1, w, k / w, k % w) == cell_at(after2, w, k / w, k % w));
        } else {
            assert(w * h <= 0) by (nonlinear_arith)
                requires
                    w <= 0,
                    h >= 0,
            ;
        }
    }
    assert(after1 =~= after2);
}

/// The win check upgrades a still-in-play resolution exactly when the
/// flagged-mine counter has reached the configured mine total, and
/// otherwise the game continues.
pub proof fn lemma_win_exactly_when_counter_full(counter: u32, total_mines: u32)
    ensures
        win_resolution(counter, total_mines) == GameResolve::AllMinesDiscovered <==> counter
            == total_mines,
        win_resolution(counter, total_mines) == GameResolve::Continue <==> counter != total_mines,
{
}

} // verus!
