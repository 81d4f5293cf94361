use ultimate_ttt::mcts::MCTS;
use ultimate_ttt::tic_utils::{check_board_state, TicState};
use ultimate_ttt::ttt_board::TTTBoard;
use ultimate_ttt::ttt_game_state::{BoardLoc, TTTGameState};

fn loc(outer_row: usize, outer_col: usize, inner_row: usize, inner_col: usize) -> BoardLoc {
    BoardLoc::new(outer_row, outer_col, inner_row, inner_col)
}

fn sub(grid: [[TicState; 3]; 3]) -> TTTBoard {
    TTTBoard { board: grid, board_state: check_board_state(&grid) }
}

#[test]
fn zero_budget_returns_no_move() {
    // A budget of zero performs no simulation, so even an open root yields
    // no move.
    let mut mcts = MCTS::new(TTTGameState::new());
    assert_eq!(mcts.find_move_sim(0), None);
}

#[test]
fn fresh_arena_has_no_best_move() {
    let mcts = MCTS::new(TTTGameState::new());
    assert_eq!(mcts.get_best_move(), None);
}

#[test]
fn search_on_a_resolved_game_returns_no_move() {
    let n = TicState::N;
    let x = TicState::X;
    let won_x = sub([[x, x, x], [n, n, n], [n, n, n]]);
    let open = sub([[n; 3]; 3]);
    let g = TTTGameState {
        board: [[won_x, open, open], [open, won_x, open], [open, open, won_x]],
        current_player: TicState::O,
        board_state: TicState::X,
        last_row: 9,
        last_col: 9,
    };
    let mut mcts = MCTS::new(g);
    assert_eq!(mcts.find_move_sim(50), None);
}

#[test]
fn search_returns_a_legal_move_on_an_open_game() {
    let g = TTTGameState::new();
    let mut mcts = MCTS::new(g);
    let mv = mcts.find_move_sim(64);
    let mv = mv.expect("an open game must yield a move");
    assert!(g.is_legal_move(mv));
}

#[test]
fn search_plays_a_full_game_to_resolution() {
    let mut g = TTTGameState::new();
    let mut moves_played = 0;
    while g.board_state == TicState::N && moves_played < 81 {
        let mut mcts = MCTS::new(g);
        match mcts.find_move_sim(40) {
            Some(mv) => {
                assert!(g.is_legal_move(mv));
                g = g.make_move(mv);
                moves_played += 1;
            }
            None => break,
        }
    }
    assert!(g.board_state != TicState::N || g.get_legal_moves().is_empty());
}

#[test]
fn search_finds_the_immediately_winning_move() {
    // Near-terminal position, X to move, constrained to sub-board (2,2):
    // X wins the game at once with inner (2,2) (completing both the
    // sub-board's diagonal and the meta diagonal); any other move lets O
    // play (2,2) of that sub-board and win the meta column instead.
    let n = TicState::N;
    let x = TicState::X;
    let o = TicState::O;
    let won_x = sub([[x, x, x], [n, n, n], [n, n, n]]);
    let won_o = sub([[o, o, o], [n, n, n], [n, n, n]]);
    let tied = sub([[x, x, o], [o, o, x], [x, x, o]]);
    let nearly = sub([[x, n, n], [n, x, n], [o, o, n]]);
    let g = TTTGameState {
        board: [[won_x, tied, won_o], [tied, won_x, won_o], [tied, tied, nearly]],
        current_player: TicState::X,
        board_state: TicState::N,
        last_row: 2,
        last_col: 2,
    };
    assert_eq!(g.get_legal_moves().len(), 5);
    let winning = loc(2, 2, 2, 2);
    assert_eq!(g.make_move(winning).board_state, TicState::X);

    // Statistical check: with a healthy budget the search should find the
    // only winning move.
    let mut mcts = MCTS::new(g);
    let mv = mcts.find_move_sim(1000).expect("open position must yield a move");
    assert_eq!(mv, winning);
}
