use minesweeper::board::{GameBoard, GameResolve};
use minesweeper::cell::{BoardCell, CellInfo, Mark, NeighbourMines};
use minesweeper::command::BoardCommand;
use minesweeper::config::GameConfiguration;
use minesweeper::grid::Coordinate;

fn mine_positions(board: &GameBoard) -> Vec<usize> {
    let mut found: Vec<usize> = Vec::new();
    for (i, cell) in board.cells.iter().enumerate() {
        if let BoardCell::Mine(_) = cell {
            found.push(i);
        }
    }
    found
}

fn count_flagged_mines(board: &GameBoard) -> u32 {
    let mut count: u32 = 0;
    for cell in board.cells.iter() {
        if let BoardCell::Mine(Mark::MarkFlag) = cell {
            count += 1;
        }
    }
    count
}

fn neighbour_mines_by_scan(board: &GameBoard, row: i64, col: i64) -> u8 {
    let w = board.game_configuration.w() as i64;
    let h = board.game_configuration.h() as i64;
    let mut count: u8 = 0;
    for dr in -1i64..=1 {
        for dc in -1i64..=1 {
            if dr == 0 && dc == 0 {
                continue;
            }
            let r = row + dr;
            let c = col + dc;
            if r < 0 || c < 0 || r >= h || c >= w {
                continue;
            }
            if let BoardCell::Mine(_) = board.cells[(r * w + c) as usize] {
                count += 1;
            }
        }
    }
    count
}

/// A deterministic 3x3 board with a single mine in the centre and correct
/// neighbour counts, built directly.
fn three_by_three_with_centre_mine() -> GameBoard {
    let config = GameConfiguration::new(3, 3, 1);
    let mut board = GameBoard::new(config);
    for i in 0..9 {
        if i == 4 {
            board.cells[i] = BoardCell::Mine(Mark::NoMark);
        } else {
            board.cells[i] = BoardCell::NoMine(CellInfo(Mark::NoMark, NeighbourMines(1)));
        }
    }
    board
}

#[test]
fn generation_places_exactly_the_configured_mines() {
    let config = GameConfiguration::new(8, 8, 10);
    let mut board = GameBoard::new(config);
    board.generate_world();
    assert_eq!(10, mine_positions(&board).len());
    assert_eq!(0, board.mines_discovered);
    assert_eq!(64, board.cells.len());
}

#[test]
fn generation_stores_true_neighbour_counts() {
    let config = GameConfiguration::new(9, 9, 20);
    let mut board = GameBoard::new(config);
    board.generate_world();
    for row in 0..9i64 {
        for col in 0..9i64 {
            match board.cells[(row * 9 + col) as usize] {
                BoardCell::NoMine(CellInfo(mark, NeighbourMines(n))) => {
                    assert_eq!(Mark::NoMark, mark);
                    assert_eq!(neighbour_mines_by_scan(&board, row, col), n);
                }
                BoardCell::Mine(mark) => assert_eq!(Mark::NoMark, mark),
                BoardCell::Explored(_) => panic!("no cell may be revealed after generation"),
            }
        }
    }
}

#[test]
fn generation_with_full_board_of_mines() {
    let config = GameConfiguration::new(4, 4, 16);
    let mut board = GameBoard::new(config);
    board.generate_world();
    assert_eq!(16, mine_positions(&board).len());
}

#[test]
fn place_mines_is_a_function_of_the_positions() {
    let config = GameConfiguration::new(3, 3, 1);
    let mut board = GameBoard::new(config);
    let positions: Vec<u32> = vec![4, 0, 1, 2, 3, 5, 6, 7, 8];
    board.place_mines(&positions);
    assert_eq!(three_by_three_with_centre_mine().cells, board.cells);
    assert_eq!(0, board.mines_discovered);
}

#[test]
fn zero_mines_wins_on_first_command() {
    let config = GameConfiguration::new(4, 4, 0);
    let mut board = GameBoard::new(config);
    board.generate_world();
    // counter 0 equals total 0, so the very first still-in-play resolution
    // is upgraded to the win
    assert_eq!(
        GameResolve::AllMinesDiscovered,
        board.manipulate_cell(BoardCommand::Pass)
    );
}

#[test]
fn flag_counter_increments_once_per_mine() {
    let mut board = three_by_three_with_centre_mine();
    let mine = Coordinate(1, 1);
    assert_eq!(
        GameResolve::AllMinesDiscovered,
        board.manipulate_cell(BoardCommand::SetMarkFlag(mine))
    );
    assert_eq!(1, board.mines_discovered);
    // flagging the same mine again is idempotent on the counter
    assert_eq!(
        GameResolve::AllMinesDiscovered,
        board.manipulate_cell(BoardCommand::SetMarkFlag(mine))
    );
    assert_eq!(1, board.mines_discovered);
}

#[test]
fn flag_on_safe_cell_does_not_move_the_counter() {
    let mut board = three_by_three_with_centre_mine();
    assert_eq!(
        GameResolve::Continue,
        board.manipulate_cell(BoardCommand::SetMarkFlag(Coordinate(0, 0)))
    );
    assert_eq!(0, board.mines_discovered);
    match board.cells[0] {
        BoardCell::NoMine(CellInfo(mark, _)) => assert_eq!(Mark::MarkFlag, mark),
        _ => panic!("cell kind must not change when it is marked"),
    }
}

#[test]
fn clear_mark_on_unmarked_safe_cell_is_a_noop() {
    let mut board = three_by_three_with_centre_mine();
    let cells_before = board.cells.clone();
    assert_eq!(
        GameResolve::Continue,
        board.manipulate_cell(BoardCommand::ClearMark(Coordinate(0, 1)))
    );
    assert_eq!(cells_before, board.cells);
    assert_eq!(0, board.mines_discovered);
}

#[test]
fn note_over_flagged_mine_decrements_the_counter() {
    let mut board = three_by_three_with_centre_mine();
    let mine = Coordinate(1, 1);
    board.manipulate_cell(BoardCommand::SetMarkFlag(mine));
    assert_eq!(1, board.mines_discovered);
    assert_eq!(
        GameResolve::Continue,
        board.manipulate_cell(BoardCommand::SetMarkNote(mine))
    );
    assert_eq!(0, board.mines_discovered);
    board.manipulate_cell(BoardCommand::SetMarkFlag(mine));
    assert_eq!(1, board.mines_discovered);
    assert_eq!(
        GameResolve::Continue,
        board.manipulate_cell(BoardCommand::ClearMark(mine))
    );
    assert_eq!(0, board.mines_discovered);
}

#[test]
fn flag_counter_matches_recount_through_command_sequences() {
    let config = GameConfiguration::new(6, 6, 8);
    let mut board = GameBoard::new(config);
    board.generate_world();
    let commands = [
        BoardCommand::SetMarkFlag(Coordinate(0, 0)),
        BoardCommand::SetMarkFlag(Coordinate(2, 3)),
        BoardCommand::SetMarkNote(Coordinate(0, 0)),
        BoardCommand::SetMarkFlag(Coordinate(5, 5)),
        BoardCommand::ClearMark(Coordinate(2, 3)),
        BoardCommand::SetMarkFlag(Coordinate(1, 4)),
        BoardCommand::SetMarkFlag(Coordinate(1, 4)),
        BoardCommand::SetMarkNote(Coordinate(3, 3)),
        BoardCommand::ClearMark(Coordinate(5, 5)),
    ];
    for command in commands {
        board.manipulate_cell(command);
        assert_eq!(count_flagged_mines(&board), board.mines_discovered);
    }
}

#[test]
fn win_fires_exactly_when_every_mine_is_flagged() {
    let config = GameConfiguration::new(5, 5, 3);
    let mut board = GameBoard::new(config);
    board.generate_world();
    let mines = mine_positions(&board);
    assert_eq!(3, mines.len());
    for (done, index) in mines.iter().enumerate() {
        let coordinate = Coordinate((index / 5) as u16, (index % 5) as u16);
        let resolve = board.manipulate_cell(BoardCommand::SetMarkFlag(coordinate));
        if done == mines.len() - 1 {
            assert_eq!(GameResolve::AllMinesDiscovered, resolve);
        } else {
            assert_eq!(GameResolve::Continue, resolve);
        }
    }
}

#[test]
fn quit_takes_precedence_over_the_win_upgrade() {
    let mut board = three_by_three_with_centre_mine();
    board.manipulate_cell(BoardCommand::SetMarkFlag(Coordinate(1, 1)));
    assert_eq!(1, board.mines_discovered);
    assert_eq!(board.mines_discovered, board.game_configuration.mines());
    // every mine is flagged, yet quitting is still reported as a quit
    assert_eq!(GameResolve::Quit, board.manipulate_cell(BoardCommand::Quit));
}

#[test]
fn exploring_a_mine_reports_the_hit_and_changes_nothing() {
    let mut board = three_by_three_with_centre_mine();
    let cells_before = board.cells.clone();
    assert_eq!(
        GameResolve::MineHit,
        board.manipulate_cell(BoardCommand::Explore(Coordinate(1, 1)))
    );
    assert_eq!(cells_before, board.cells);
    assert_eq!(0, board.mines_discovered);
}

#[test]
fn exploring_cascades_through_every_connected_safe_cell() {
    let mut board = three_by_three_with_centre_mine();
    assert_eq!(
        GameResolve::Continue,
        board.manipulate_cell(BoardCommand::Explore(Coordinate(0, 0)))
    );
    // the cascade is unconditional: every safe cell is revealed even though
    // each carries a nonzero neighbour count; the mine stays concealed
    for i in 0..9 {
        if i == 4 {
            assert_eq!(BoardCell::Mine(Mark::NoMark), board.cells[i]);
        } else {
            assert_eq!(BoardCell::Explored(NeighbourMines(1)), board.cells[i]);
        }
    }
}

#[test]
fn exploring_an_empty_board_reveals_everything() {
    let config = GameConfiguration::new(4, 4, 0);
    let mut board = GameBoard::new(config);
    board.generate_world();
    board.manipulate_cell(BoardCommand::Explore(Coordinate(2, 2)));
    for cell in board.cells.iter() {
        assert_eq!(BoardCell::Explored(NeighbourMines(0)), *cell);
    }
}

#[test]
fn exploring_a_revealed_cell_twice_leaves_the_board_as_after_once() {
    let mut board = three_by_three_with_centre_mine();
    board.manipulate_cell(BoardCommand::Explore(Coordinate(0, 0)));
    let cells_after_once = board.cells.clone();
    assert_eq!(
        GameResolve::Continue,
        board.manipulate_cell(BoardCommand::Explore(Coordinate(0, 0)))
    );
    assert_eq!(cells_after_once, board.cells);
    assert_eq!(
        GameResolve::Continue,
        board.manipulate_cell(BoardCommand::Explore(Coordinate(2, 2)))
    );
    assert_eq!(cells_after_once, board.cells);
}

#[test]
fn fresh_board_is_fully_concealed_and_unmarked() {
    let config = GameConfiguration::new(3, 2, 4);
    let board = GameBoard::new(config);
    assert_eq!(6, board.cells.len());
    assert_eq!(0, board.mines_discovered);
    for cell in board.cells.iter() {
        assert_eq!(
            BoardCell::NoMine(CellInfo(Mark::NoMark, NeighbourMines(0))),
            *cell
        );
    }
}

#[test]
fn dimensions_index_and_cell_lookup() {
    let config = GameConfiguration::new(4, 3, 0);
    let board = GameBoard::new(config);
    assert_eq!((4, 3), board.get_dimensions());
    assert_eq!(9, board.compute_linear_index(Coordinate(2, 1)));
    assert_eq!(
        BoardCell::NoMine(CellInfo(Mark::NoMark, NeighbourMines(0))),
        *board.get_cell_at(Coordinate(2, 3))
    );
}
