use vstd::prelude::*;

use crate::tic_utils::{check_board_state, spec_board_state, spec_state9, cell_at, TicState};
use crate::ttt_board::TTTBoard;

verus! {

broadcast use vstd::array::group_array_axioms;

/// A coordinate naming a single playable cell: which sub-board (outer row
/// and column) and which cell inside it (inner row and column).  The type
/// itself carries no validity invariant; validity is a property checked
/// against a specific game state.
#[derive(Debug, Clone, Copy, PartialEq, Eq, Structural)]
pub struct BoardLoc {
    pub outer_row: usize,
    pub outer_col: usize,
    pub inner_row: usize,
    pub inner_col: usize,
}

/// All four coordinates are on the board.
pub open spec fn loc_in_range(loc: BoardLoc) -> bool {
    loc.outer_row < 3 && loc.outer_col < 3 && loc.inner_row < 3 && loc.inner_col < 3
}

/// The position of `loc` in the fixed enumeration order of
/// `get_legal_moves` (outer rows, outer columns, inner rows, inner columns,
/// in that nesting).
pub open spec fn loc_key(loc: BoardLoc) -> int {
    27 * loc.outer_row + 9 * loc.outer_col + 3 * loc.inner_row + loc.inner_col
}

impl BoardLoc {
    pub fn new(outer_row: usize, outer_col: usize, inner_row: usize, inner_col: usize) -> (r:
        Self)
        ensures
            r.outer_row == outer_row,
            r.outer_col == outer_col,
            r.inner_row == inner_row,
            r.inner_col == inner_col,
    {
        BoardLoc { outer_row, outer_col, inner_row, inner_col }
    }
}

/// Equal enumeration positions name the same cell.
pub proof fn lemma_loc_key_injective(l1: BoardLoc, l2: BoardLoc)
    requires
        loc_in_range(l1),
        loc_in_range(l2),
        loc_key(l1) == loc_key(l2),
    ensures
        l1 == l2,
{
    assert(l1.outer_row == l2.outer_row);
    assert(l1.outer_col == l2.outer_col);
    assert(l1.inner_row == l2.inner_row);
    assert(l1.inner_col == l2.inner_col);
}

/// The full 9-sub-board position: the 3x3 array of sub-boards, whose turn
/// it is, the overall resolution, and the inner coordinates of the last
/// move, which name the sub-board the next move must land in.  The sentinel
/// pair (9, 9) means "first move, unconstrained".
#[derive(Debug, Clone, Copy)]
pub struct TTTGameState {
    pub board: [[TTTBoard; 3]; 3],
    pub current_player: TicState,
    pub board_state: TicState,
    pub last_row: usize,
    pub last_col: usize,
}

/// The sub-board of `s` at outer row `r`, outer column `c`.
pub open spec fn sub_at(s: TTTGameState, r: int, c: int) -> TTTBoard {
    s.board[r][c]
}

/// The overall resolution a well-formed state must cache: the detector
/// applied to the 3x3 meta-grid of sub-board resolutions, so the game is
/// won when a player holds a line of sub-boards and tied only when every
/// sub-board is resolved with no winner.
pub open spec fn spec_overall(s: TTTGameState) -> TicState {
    spec_state9(
        sub_at(s, 0, 0).board_state, sub_at(s, 0, 1).board_state, sub_at(s, 0, 2).board_state,
        sub_at(s, 1, 0).board_state, sub_at(s, 1, 1).board_state, sub_at(s, 1, 2).board_state,
        sub_at(s, 2, 0).board_state, sub_at(s, 2, 1).board_state, sub_at(s, 2, 2).board_state,
    )
}

/// A sub-board with `player` written into its (empty) cell at (`i`, `j`)
/// and its resolution re-derived by the detector.
pub open spec fn spec_place_mark(b: TTTBoard, i: int, j: int, player: TicState) -> TTTBoard {
    let new_grid = vstd::array::spec_array_update(
        b.board,
        i,
        vstd::array::spec_array_update(b.board[i], j, player),
    );
    TTTBoard { board: new_grid, board_state: spec_board_state(new_grid) }
}

/// The successor state of a legal move, as a value: the targeted cell
/// marked for the current player, that sub-board's resolution re-derived,
/// the last-move coordinates set to the move's inner coordinates, the
/// overall resolution re-derived from the meta-grid, and the turn passed
/// to the other player.
pub open spec fn spec_make_move(s: TTTGameState, loc: BoardLoc) -> TTTGameState {
    let o_r = loc.outer_row as int;
    let o_c = loc.outer_col as int;
    let new_sub = spec_place_mark(
        s.board[o_r][o_c],
        loc.inner_row as int,
        loc.inner_col as int,
        s.current_player,
    );
    let new_board = vstd::array::spec_array_update(
        s.board,
        o_r,
        vstd::array::spec_array_update(s.board[o_r], o_c, new_sub),
    );
    let t = TTTGameState {
        board: new_board,
        current_player: spec_other(s.current_player),
        board_state: TicState::N,
        last_row: loc.inner_row,
        last_col: loc.inner_col,
    };
    TTTGameState { board_state: spec_overall(t), ..t }
}

/// The active-sub-board constraint is void: either no move has been made
/// yet, or the sub-board the last move points at is already resolved.
pub open spec fn spec_can_move_anywhere(s: TTTGameState) -> bool {
    ||| (s.last_row == 9 && s.last_col == 9)
    ||| (s.last_row < 3 && s.last_col < 3 && sub_at(
        s,
        s.last_row as int,
        s.last_col as int,
    ).board_state != TicState::N)
}

/// A move is legal iff its coordinates are in range, the targeted cell is
/// empty, the targeted sub-board either matches the required active
/// sub-board or the constraint is void, and the targeted sub-board is not
/// already resolved.
pub open spec fn spec_is_legal(s: TTTGameState, loc: BoardLoc) -> bool {
    &&& loc_in_range(loc)
    &&& cell_at(
        sub_at(s, loc.outer_row as int, loc.outer_col as int).board,
        loc.inner_row as int,
        loc.inner_col as int,
    ) == TicState::N
    &&& ((loc.outer_row == s.last_row && loc.outer_col == s.last_col)
        || spec_can_move_anywhere(s))
    &&& sub_at(s, loc.outer_row as int, loc.outer_col as int).board_state == TicState::N
}

/// The mark of the other player.
pub open spec fn spec_other(p: TicState) -> TicState {
    match p {
        TicState::X => TicState::O,
        TicState::O => TicState::X,
        _ => TicState::N,
    }
}

impl TTTGameState {
    /// Every sub-board is well formed, the player to move is X or O, the
    /// last-move coordinates are on the board or the unconstrained
    /// sentinel, and the cached overall resolution is re-derived from the
    /// sub-board resolutions.
    pub open spec fn wf(self) -> bool {
        &&& forall|r: int, c: int|
            0 <= r < 3 && 0 <= c < 3 ==> (#[trigger] sub_at(self, r, c)).wf()
        &&& (self.current_player == TicState::X || self.current_player == TicState::O)
        &&& ((self.last_row < 3 && self.last_col < 3) || (self.last_row == 9 && self.last_col
            == 9))
        &&& self.board_state == spec_overall(self)
    }

    /// The empty starting position: X to move, unconstrained.
    pub fn new() -> (r: Self)
        ensures
            r.wf(),
            r.current_player == TicState::X,
            r.board_state == TicState::N,
            r.last_row == 9,
            r.last_col == 9,
            forall|i: int, j: int|
                0 <= i < 3 && 0 <= j < 3 ==> (#[trigger] sub_at(r, i, j)).board_state
                    == TicState::N,
            forall|loc: BoardLoc| loc_in_range(loc) ==> #[trigger] spec_is_legal(r, loc),
    {
        let empty = TTTBoard::new();
        let board = [[empty; 3]; 3];
        let r = TTTGameState {
            board,
            current_player: TicState::X,
            board_state: TicState::N,
            last_row: 9,
            last_col: 9,
        };
        assert forall|i: int, j: int| 0 <= i < 3 && 0 <= j < 3 implies (#[trigger] sub_at(
            r,
            i,
            j,
        )) == empty by {
        }
        r
    }

    /// Legality of a single move against this state.
    pub fn is_legal_move(&self, loc: BoardLoc) -> (r: bool)
        requires
            self.wf(),
            loc_in_range(loc),
        ensures
            r == spec_is_legal(*self, loc),
    {
        let is_open_square = self.board[loc.outer_row][loc.outer_col].board[loc.inner_row][loc.inner_col]
            == TicState::N;
        if !is_open_square {
            return false;
        }
        let move_in_next_board = loc.outer_row == self.last_row && loc.outer_col == self.last_col;
        if !move_in_next_board && !self.can_move_anywhere() {
            return false;
        }
        let board_clicked_won = self.board[loc.outer_row][loc.outer_col].board_state
            != TicState::N;
        !board_clicked_won
    }

    /// Whether the active-sub-board constraint is void ("play anywhere").
    pub fn can_move_anywhere(&self) -> (r: bool)
        requires
            self.wf(),
        ensures
            r == spec_can_move_anywhere(*self),
    {
        let is_first_move = self.last_row == 9 && self.last_col == 9;
        if is_first_move {
            return true;
        }
        let board_won = self.board[self.last_row][self.last_col].board_state != TicState::N;
        board_won
    }

    /// Applies a legal move, returning the successor state and leaving the
    /// receiver untouched: the targeted cell is marked for the current
    /// player, the last-move coordinates become the move's inner
    /// coordinates, every other cell and sub-board is unchanged, each
    /// resolution cache is re-derived, and the turn passes to the other
    /// player.
    pub fn make_move(&self, loc: BoardLoc) -> (n: TTTGameState)
        requires
            self.wf(),
            spec_is_legal(*self, loc),
        ensures
            n.wf(),
            n.last_row == loc.inner_row,
            n.last_col == loc.inner_col,
            n.current_player == spec_other(self.current_player),
            n.board_state == spec_overall(n),
            cell_at(
                sub_at(n, loc.outer_row as int, loc.outer_col as int).board,
                loc.inner_row as int,
                loc.inner_col as int,
            ) == self.current_player,
            forall|a: int, b: int|
                0 <= a < 3 && 0 <= b < 3 && !(a == loc.outer_row && b == loc.outer_col)
                    ==> #[trigger] sub_at(n, a, b) == sub_at(*self, a, b),
            forall|i: int, j: int|
                0 <= i < 3 && 0 <= j < 3 && !(i == loc.inner_row && j == loc.inner_col)
                    ==> #[trigger] cell_at(
                    sub_at(n, loc.outer_row as int, loc.outer_col as int).board,
                    i,
                    j,
                ) == cell_at(sub_at(*self, loc.outer_row as int, loc.outer_col as int).board, i, j),
            n == spec_make_move(*self, loc),
    {
        let mut new_state = *self;
        new_state.last_row = loc.inner_row;
        new_state.last_col = loc.inner_col;

        // Make the move on the selected sub-board.
        let mut board_on = new_state.board[loc.outer_row][loc.outer_col];
        board_on.make_move(loc.inner_row, loc.inner_col, new_state.current_player);
        let mut outer_row_arr = new_state.board[loc.outer_row];
        outer_row_arr[loc.outer_col] = board_on;
        new_state.board[loc.outer_row] = outer_row_arr;

        // Re-derive the overall resolution from the meta-grid of sub-board
        // resolutions.
        let mut meta_row0: [TicState; 3] = [TicState::N; 3];
        meta_row0[0] = new_state.board[0][0].board_state;
        meta_row0[1] = new_state.board[0][1].board_state;
        meta_row0[2] = new_state.board[0][2].board_state;
        let mut meta_row1: [TicState; 3] = [TicState::N; 3];
        meta_row1[0] = new_state.board[1][0].board_state;
        meta_row1[1] = new_state.board[1][1].board_state;
        meta_row1[2] = new_state.board[1][2].board_state;
        let mut meta_row2: [TicState; 3] = [TicState::N; 3];
        meta_row2[0] = new_state.board[2][0].board_state;
        meta_row2[1] = new_state.board[2][1].board_state;
        meta_row2[2] = new_state.board[2][2].board_state;
        let mut meta: [[TicState; 3]; 3] = [meta_row0; 3];
        meta[1] = meta_row1;
        meta[2] = meta_row2;
        new_state.board_state = check_board_state(&meta);

        // Switch players.
        new_state.current_player = match new_state.current_player {
            TicState::X => TicState::O,
            TicState::O => TicState::X,
            _ => TicState::N,
        };
        proof {
            let sm = spec_make_move(*self, loc);
            let o_r = loc.outer_row as int;
            let o_c = loc.outer_col as int;
            assert forall|a: int| 0 <= a < 3 implies new_state.board[o_r][o_c].board[a]
                == sm.board[o_r][o_c].board[a] by {
                assert forall|b: int| 0 <= b < 3 implies new_state.board[o_r][o_c].board[a][b]
                    == sm.board[o_r][o_c].board[a][b] by {}
                assert(new_state.board[o_r][o_c].board[a] =~= sm.board[o_r][o_c].board[a]);
            }
            assert(new_state.board[o_r][o_c].board =~= sm.board[o_r][o_c].board);
            assert(new_state.board[o_r][o_c] == sm.board[o_r][o_c]);
            assert forall|i: int| 0 <= i < 3 implies new_state.board[i] == sm.board[i] by {
                assert forall|j: int| 0 <= j < 3 implies new_state.board[i][j] == sm.board[i][j]
                    by {}
                assert(new_state.board[i] =~= sm.board[i]);
            }
            assert(new_state.board =~= sm.board);
            assert(new_state == sm);
        }
        new_state
    }

    /// The ordered sequence of all legal moves, scanning outer rows, outer
    /// columns, inner rows, inner columns in that fixed nested order: it
    /// holds every legal move, only legal moves, and each exactly once, in
    /// strictly increasing enumeration order.
    pub fn get_legal_moves(&self) -> (r: Vec<BoardLoc>)
        requires
            self.wf(),
        ensures
            forall|k: int| 0 <= k < r@.len() ==> spec_is_legal(*self, #[trigger] r@[k]),
            forall|loc: BoardLoc| #[trigger] spec_is_legal(*self, loc) ==> r@.contains(loc),
            forall|k1: int, k2: int|
                0 <= k1 < k2 < r@.len() ==> loc_key(r@[k1]) < loc_key(r@[k2]),
    {
        let mut legal_moves: Vec<BoardLoc> = Vec::new();
        for outer_row in 0..3usize
            invariant
                self.wf(),
                forall|k: int|
                    0 <= k < legal_moves@.len() ==> spec_is_legal(
                        *self,
                        #[trigger] legal_moves@[k],
                    ),
                forall|k: int|
                    0 <= k < legal_moves@.len() ==> #[trigger] loc_key(legal_moves@[k]) < 27
                        * outer_row,
                forall|k1: int, k2: int|
                    0 <= k1 < k2 < legal_moves@.len() ==> loc_key(legal_moves@[k1]) < loc_key(
                        legal_moves@[k2],
                    ),
                forall|loc: BoardLoc|
                    #[trigger] spec_is_legal(*self, loc) && loc_key(loc) < 27 * outer_row
                        ==> legal_moves@.contains(loc),
        {
            for outer_col in 0..3usize
                invariant
                    outer_row < 3,
                    self.wf(),
                    forall|k: int|
                        0 <= k < legal_moves@.len() ==> spec_is_legal(
                            *self,
                            #[trigger] legal_moves@[k],
                        ),
                    forall|k: int|
                        0 <= k < legal_moves@.len() ==> #[trigger] loc_key(legal_moves@[k]) < 27
                            * outer_row + 9 * outer_col,
                    forall|k1: int, k2: int|
                        0 <= k1 < k2 < legal_moves@.len() ==> loc_key(legal_moves@[k1]) < loc_key(
                            legal_moves@[k2],
                        ),
                    forall|loc: BoardLoc|
                        #[trigger] spec_is_legal(*self, loc) && loc_key(loc) < 27 * outer_row + 9
                            * outer_col ==> legal_moves@.contains(loc),
            {
                for inner_row in 0..3usize
                    invariant
                        outer_row < 3,
                        outer_col < 3,
                        self.wf(),
                        forall|k: int|
                            0 <= k < legal_moves@.len() ==> spec_is_legal(
                                *self,
                                #[trigger] legal_moves@[k],
                            ),
                        forall|k: int|
                            0 <= k < legal_moves@.len() ==> #[trigger] loc_key(legal_moves@[k])
                                < 27 * outer_row + 9 * outer_col + 3 * inner_row,
                        forall|k1: int, k2: int|
                            0 <= k1 < k2 < legal_moves@.len() ==> loc_key(legal_moves@[k1])
                                < loc_key(legal_moves@[k2]),
                        forall|loc: BoardLoc|
                            #[trigger] spec_is_legal(*self, loc) && loc_key(loc) < 27 * outer_row
                                + 9 * outer_col + 3 * inner_row ==> legal_moves@.contains(loc),
                {
                    for inner_col in 0..3usize
                        invariant
                            outer_row < 3,
                            outer_col < 3,
                            inner_row < 3,
                            self.wf(),
                            forall|k: int|
                                0 <= k < legal_moves@.len() ==> spec_is_legal(
                                    *self,
                                    #[trigger] legal_moves@[k],
                                ),
                            forall|k: int|
                                0 <= k < legal_moves@.len() ==> #[trigger] loc_key(
                                    legal_moves@[k],
                                ) < 27 * outer_row + 9 * outer_col + 3 * inner_row + inner_col,
                            forall|k1: int, k2: int|
                                0 <= k1 < k2 < legal_moves@.len() ==> loc_key(legal_moves@[k1])
                                    < loc_key(legal_moves@[k2]),
                            forall|loc: BoardLoc|
                                #[trigger] spec_is_legal(*self, loc) && loc_key(loc) < 27
                                    * outer_row + 9 * outer_col + 3 * inner_row + inner_col
                                    ==> legal_moves@.contains(loc),
                    {
                        let loc = BoardLoc::new(outer_row, outer_col, inner_row, inner_col);
                        let ghost prior = legal_moves@;
                        if self.is_legal_move(loc) {
                            legal_moves.push(loc);
                        }
                        proof {
                            assert forall|loc2: BoardLoc|
                                #[trigger] spec_is_legal(*self, loc2) && loc_key(loc2) < 27
                                    * outer_row + 9 * outer_col + 3 * inner_row + inner_col
                                    + 1 implies legal_moves@.contains(loc2) by {
                                if loc_key(loc2) < loc_key(loc) {
                                    assert(prior.contains(loc2));
                                    let i = choose|i: int|
                                        0 <= i < prior.len() && prior[i] == loc2;
                                    assert(legal_moves@[i] == loc2);
                                } else {
                                    lemma_loc_key_injective(loc2, loc);
                                    assert(legal_moves@[legal_moves@.len() - 1] == loc);
                                }
                            }
                        }
                    }
                }
            }
        }
        legal_moves
    }
}

/// An open (unresolved) sub-board always has an empty cell.
pub proof fn lemma_open_board_has_empty_cell(b: TTTBoard)
    requires
        b.wf(),
        b.board_state == TicState::N,
    ensures
        exists|i: int, j: int|
            0 <= i < 3 && 0 <= j < 3 && #[trigger] cell_at(b.board, i, j) == TicState::N,
{
    assert(!crate::tic_utils::spec_grid_full(b.board));
    assert(exists|i: int, j: int|
        0 <= i < 3 && 0 <= j < 3 && #[trigger] cell_at(b.board, i, j) == TicState::N);
}

/// A well-formed state that is still open always offers a legal move:
/// either the constraint is void and any open sub-board's empty cell will
/// do, or the required sub-board is itself open and has an empty cell.
pub proof fn lemma_open_state_has_legal_move(s: TTTGameState)
    requires
        s.wf(),
        s.board_state == TicState::N,
    ensures
        exists|loc: BoardLoc| #[trigger] spec_is_legal(s, loc),
{
    if spec_can_move_anywhere(s) {
        assert(exists|a: int, b: int|
            0 <= a < 3 && 0 <= b < 3 && (#[trigger] sub_at(s, a, b)).board_state == TicState::N);
        let (a, b) = choose|a: int, b: int|
            0 <= a < 3 && 0 <= b < 3 && (#[trigger] sub_at(s, a, b)).board_state == TicState::N;
        lemma_open_board_has_empty_cell(sub_at(s, a, b));
        let (i, j) = choose|i: int, j: int|
            0 <= i < 3 && 0 <= j < 3 && #[trigger] cell_at(sub_at(s, a, b).board, i, j)
                == TicState::N;
        let loc = BoardLoc {
            outer_row: a as usize,
            outer_col: b as usize,
            inner_row: i as usize,
            inner_col: j as usize,
        };
        assert(spec_is_legal(s, loc));
    } else {
        let a = s.last_row as int;
        let b = s.last_col as int;
        assert(sub_at(s, a, b).board_state == TicState::N);
        lemma_open_board_has_empty_cell(sub_at(s, a, b));
        let (i, j) = choose|i: int, j: int|
            0 <= i < 3 && 0 <= j < 3 && #[trigger] cell_at(sub_at(s, a, b).board, i, j)
                == TicState::N;
        let loc = BoardLoc {
            outer_row: s.last_row,
            outer_col: s.last_col,
            inner_row: i as usize,
            inner_col: j as usize,
        };
        assert(spec_is_legal(s, loc));
    }
}

} // verus!
