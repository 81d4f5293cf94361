use ultimate_ttt::tic_utils::{check_board_state, TicState};
use ultimate_ttt::ttt_board::TTTBoard;
use ultimate_ttt::ttt_game_state::{BoardLoc, TTTGameState};

fn loc(outer_row: usize, outer_col: usize, inner_row: usize, inner_col: usize) -> BoardLoc {
    BoardLoc::new(outer_row, outer_col, inner_row, inner_col)
}

#[test]
fn detector_reports_row_column_and_diagonal_wins() {
    let n = TicState::N;
    let x = TicState::X;
    let o = TicState::O;
    assert_eq!(check_board_state(&[[x, x, x], [n, n, n], [n, n, n]]), x);
    assert_eq!(check_board_state(&[[n, n, n], [n, n, n], [o, o, o]]), o);
    assert_eq!(check_board_state(&[[x, n, n], [x, n, n], [x, n, n]]), x);
    assert_eq!(check_board_state(&[[n, n, o], [n, n, o], [n, n, o]]), o);
    assert_eq!(check_board_state(&[[x, n, n], [n, x, n], [n, n, x]]), x);
    assert_eq!(check_board_state(&[[n, n, o], [n, o, n], [o, n, n]]), o);
}

#[test]
fn detector_reports_open_and_tied_grids() {
    let n = TicState::N;
    let x = TicState::X;
    let o = TicState::O;
    assert_eq!(check_board_state(&[[n, n, n], [n, n, n], [n, n, n]]), n);
    assert_eq!(check_board_state(&[[x, o, n], [n, n, n], [n, n, n]]), n);
    // Full, winnerless grid resolves to tied.
    assert_eq!(check_board_state(&[[x, x, o], [o, o, x], [x, x, o]]), TicState::T);
}

#[test]
fn detector_checks_x_before_o() {
    let n = TicState::N;
    let x = TicState::X;
    let o = TicState::O;
    // Cannot arise from legal play, but the tie-break is deterministic.
    assert_eq!(check_board_state(&[[x, x, x], [o, o, o], [n, n, n]]), x);
}

#[test]
fn detector_is_symmetric_under_mark_swap() {
    let n = TicState::N;
    let x = TicState::X;
    let o = TicState::O;
    let grids = [
        [[x, x, x], [o, o, n], [n, n, n]],
        [[x, o, n], [n, x, n], [o, n, x]],
        [[x, o, x], [o, x, o], [o, x, o]],
        [[n, n, n], [n, n, n], [n, n, n]],
    ];
    let swap = |s: TicState| match s {
        TicState::X => TicState::O,
        TicState::O => TicState::X,
        other => other,
    };
    for grid in grids.iter() {
        let mut swapped = *grid;
        for r in 0..3 {
            for c in 0..3 {
                swapped[r][c] = swap(grid[r][c]);
            }
        }
        assert_eq!(check_board_state(&swapped), swap(check_board_state(grid)));
    }
}

#[test]
fn grid_with_empty_cell_is_never_tied() {
    let n = TicState::N;
    let x = TicState::X;
    let o = TicState::O;
    // One empty cell, no winner: must stay open, never tied.
    assert_eq!(check_board_state(&[[x, x, o], [o, o, x], [x, x, n]]), n);
}

#[test]
fn sub_board_tracks_its_resolution() {
    let mut b = TTTBoard::new();
    assert_eq!(b.board_state, TicState::N);
    assert_eq!(b.make_move(0, 0, TicState::X), TicState::N);
    assert_eq!(b.make_move(1, 1, TicState::X), TicState::N);
    let r = b.make_move(2, 2, TicState::X);
    assert_eq!(r, TicState::X);
    assert_eq!(b.board_state, TicState::X);
}

#[test]
fn new_game_allows_any_first_move() {
    let g = TTTGameState::new();
    assert_eq!(g.current_player, TicState::X);
    assert_eq!(g.board_state, TicState::N);
    assert!(g.can_move_anywhere());
    for outer_row in 0..3 {
        for inner_col in 0..3 {
            assert!(g.is_legal_move(loc(outer_row, 2, 1, inner_col)));
        }
    }
    assert_eq!(g.get_legal_moves().len(), 81);
}

#[test]
fn second_move_must_target_the_first_moves_inner_cell() {
    // End-to-end: outer (0,0) inner (1,1), then outer (1,1) inner (0,0).
    let g0 = TTTGameState::new();
    let g1 = g0.make_move(loc(0, 0, 1, 1));
    assert_eq!(g1.last_row, 1);
    assert_eq!(g1.last_col, 1);
    assert_eq!(g1.current_player, TicState::O);
    assert!(!g1.can_move_anywhere());
    assert!(g1.is_legal_move(loc(1, 1, 0, 0)));
    // A move outside the required sub-board is refused.
    assert!(!g1.is_legal_move(loc(0, 0, 0, 0)));
    assert!(!g1.is_legal_move(loc(2, 2, 0, 0)));
    // Re-playing the occupied cell is refused even in the right sub-board.
    let g2 = g1.make_move(loc(1, 1, 0, 0));
    assert!(!g2.is_legal_move(loc(0, 0, 1, 1)));
}

#[test]
fn make_move_leaves_the_original_state_untouched() {
    let g0 = TTTGameState::new();
    let g1 = g0.make_move(loc(0, 0, 1, 1));
    let before: Vec<bool> = all_locs().iter().map(|&l| g1.is_legal_move(l)).collect();
    let _g2 = g1.make_move(loc(1, 1, 2, 2));
    let after: Vec<bool> = all_locs().iter().map(|&l| g1.is_legal_move(l)).collect();
    assert_eq!(before, after);
    assert_eq!(g1.current_player, TicState::O);
    assert_eq!(g1.last_row, 1);
    assert_eq!(g1.last_col, 1);
}

fn all_locs() -> Vec<BoardLoc> {
    let mut locs = Vec::new();
    for outer_row in 0..3 {
        for outer_col in 0..3 {
            for inner_row in 0..3 {
                for inner_col in 0..3 {
                    locs.push(loc(outer_row, outer_col, inner_row, inner_col));
                }
            }
        }
    }
    locs
}

#[test]
fn legal_moves_agree_with_legality_check() {
    let mut g = TTTGameState::new();
    for mv in [loc(0, 0, 1, 1), loc(1, 1, 0, 2), loc(0, 2, 1, 0), loc(1, 0, 2, 2)] {
        assert!(g.is_legal_move(mv));
        g = g.make_move(mv);
    }
    let moves = g.get_legal_moves();
    for l in all_locs() {
        assert_eq!(moves.contains(&l), g.is_legal_move(l));
    }
    // The enumeration is strictly ordered: outer rows, outer cols, inner
    // rows, inner cols.
    let key = |l: &BoardLoc| 27 * l.outer_row + 9 * l.outer_col + 3 * l.inner_row + l.inner_col;
    for w in moves.windows(2) {
        assert!(key(&w[0]) < key(&w[1]));
    }
}

#[test]
fn winning_a_sub_board_frees_the_next_player() {
    // Fill sub-board (0,0) with X on its top row; O is bounced elsewhere in
    // between and X is sent back by O playing inner (0,0).
    let mut g = TTTGameState::new();
    let sequence = [
        loc(0, 0, 0, 1), // X
        loc(0, 1, 0, 0), // O, sends X back to (0,0)
        loc(0, 0, 0, 2), // X
        loc(0, 2, 0, 0), // O, sends X back to (0,0)
        loc(0, 0, 0, 0), // X completes the row: sub-board (0,0) is won
    ];
    for mv in sequence {
        assert!(g.is_legal_move(mv));
        g = g.make_move(mv);
    }
    assert_eq!(g.board[0][0].board_state, TicState::X);
    assert_eq!(g.board_state, TicState::N);
    // last move points at (0,0), which is resolved: play anywhere.
    assert_eq!((g.last_row, g.last_col), (0, 0));
    assert!(g.can_move_anywhere());
    assert!(g.is_legal_move(loc(2, 2, 1, 1)));
    assert!(g.is_legal_move(loc(1, 0, 0, 0)));
    // ...but not inside a resolved sub-board.
    assert!(!g.is_legal_move(loc(0, 0, 1, 1)));
}

#[test]
fn winning_a_line_of_sub_boards_wins_the_game() {
    let n = TicState::N;
    let x = TicState::X;
    let o = TicState::O;
    let won_x = sub([[x, x, x], [n, n, n], [n, n, n]]);
    let won_o = sub([[o, o, o], [n, n, n], [n, n, n]]);
    let tied = sub([[x, x, o], [o, o, x], [x, x, o]]);
    let nearly = sub([[x, n, n], [n, x, n], [o, o, n]]);
    let g = TTTGameState {
        board: [[won_x, tied, won_o], [tied, won_x, won_o], [tied, tied, nearly]],
        current_player: TicState::X,
        board_state: TicState::N,
        last_row: 2,
        last_col: 2,
    };
    assert_eq!(g.get_legal_moves().len(), 5);
    let g2 = g.make_move(loc(2, 2, 2, 2));
    assert_eq!(g2.board[2][2].board_state, TicState::X);
    assert_eq!(g2.board_state, TicState::X);
}

fn sub(grid: [[TicState; 3]; 3]) -> TTTBoard {
    TTTBoard { board: grid, board_state: check_board_state(&grid) }
}

#[test]
fn sub_board_rows_render_marks_and_verdicts() {
    let mut b = TTTBoard::new();
    assert_eq!(b.get_row_as_string(0), " N N N ");
    b.make_move(0, 0, TicState::X);
    b.make_move(0, 1, TicState::O);
    assert_eq!(b.get_row_as_string(0), " X O N ");
    b.make_move(1, 0, TicState::X);
    b.make_move(1, 1, TicState::X);
    b.make_move(1, 2, TicState::X);
    // A resolved board renders its verdict in the middle row only.
    assert_eq!(b.get_row_as_string(0), "       ");
    assert_eq!(b.get_row_as_string(1), "   X   ");
    assert_eq!(b.get_row_as_string(2), "       ");
}
