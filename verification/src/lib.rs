//! An Ultimate Tic-Tac-Toe engine: a 3x3 grid of 3x3 sub-boards, where the
//! inner cell just played dictates which sub-board the opponent must play
//! in next, together with a Monte Carlo tree search agent that picks a move
//! for a given simulation budget.
//!
//! The win/tie detector, the sub-board and game-state rules, and the search
//! engine (selection, expansion, rollout, backpropagation) carry proved
//! contracts; the UCT selection formula is computed in fixed-point integer
//! arithmetic.  Only the draw of a random number is taken on trust.

pub mod tic_utils;
pub mod ttt_board;
pub mod ttt_game_state;
pub mod mcts;
