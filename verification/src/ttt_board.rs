use vstd::prelude::*;

use crate::tic_utils::{check_board_state, spec_board_state, cell_at, TicState};

verus! {

broadcast use vstd::array::group_array_axioms;

/// A single playable 3x3 grid together with its cached resolution.
///
/// The cache is re-derived by the detector after every mutation, so it is
/// never stale; `wf` states exactly that, and that no single cell ever
/// holds the tie marker.
#[derive(Debug, Clone, Copy)]
pub struct TTTBoard {
    pub board: [[TicState; 3]; 3],
    pub board_state: TicState,
}

impl TTTBoard {
    /// The cached resolution equals the detector's verdict on the grid, and
    /// every cell holds a player mark or is empty (never the tie marker).
    pub open spec fn wf(self) -> bool {
        &&& self.board_state == spec_board_state(self.board)
        &&& forall|r: int, c: int|
            0 <= r < 3 && 0 <= c < 3 ==> #[trigger] cell_at(self.board, r, c) != TicState::T
    }

    /// An empty, open sub-board.
    pub fn new() -> (r: Self)
        ensures
            r.wf(),
            r.board_state == TicState::N,
            forall|i: int, j: int|
                0 <= i < 3 && 0 <= j < 3 ==> #[trigger] cell_at(r.board, i, j) == TicState::N,
    {
        let board = [[TicState::N; 3]; 3];
        TTTBoard { board, board_state: TicState::N }
    }

    /// Writes `player` into the empty cell at (`row`, `col`), re-derives the
    /// cached resolution, and returns it.  The caller guarantees the cell is
    /// empty and in range; the game-state layer only ever calls this on
    /// legal targets.
    pub fn make_move(&mut self, row: usize, col: usize, player: TicState) -> (r: TicState)
        requires
            old(self).wf(),
            row < 3,
            col < 3,
            player == TicState::X || player == TicState::O,
            cell_at(old(self).board, row as int, col as int) == TicState::N,
        ensures
            final(self).wf(),
            cell_at(final(self).board, row as int, col as int) == player,
            forall|i: int, j: int|
                0 <= i < 3 && 0 <= j < 3 && !(i == row && j == col) ==> #[trigger] cell_at(
                    final(self).board,
                    i,
                    j,
                ) == cell_at(old(self).board, i, j),
            r == final(self).board_state,
    {
        let mut grid_row = self.board[row];
        grid_row[col] = player;
        self.board[row] = grid_row;
        self.board_state = check_board_state(&self.board);
        self.board_state
    }

    /// The display text of one grid row: an open board shows its three
    /// cell marks; a resolved board shows its verdict centred in the
    /// middle row and blanks elsewhere.
    pub open spec fn spec_row_chars(self, row: int) -> Seq<char> {
        if self.board_state != TicState::N {
            if row == 1 {
                seq![' ', ' ', ' ', spec_mark_char(self.board_state), ' ', ' ', ' ']
            } else {
                seq![' ', ' ', ' ', ' ', ' ', ' ', ' ']
            }
        } else {
            seq![
                ' ',
                spec_mark_char(cell_at(self.board, row, 0)),
                ' ',
                spec_mark_char(cell_at(self.board, row, 1)),
                ' ',
                spec_mark_char(cell_at(self.board, row, 2)),
                ' ',
            ]
        }
    }

    /// A display-only string for one grid row, used by the presentation
    /// layer.
    pub fn get_row_as_string(&self, row: usize) -> (r: String)
        requires
            row < 3,
        ensures
            r@ == self.spec_row_chars(row as int),
    {
        let mut row_str = String::new();
        if !(self.board_state == TicState::N) {
            if row == 1 {
                push_char(&mut row_str, ' ');
                push_char(&mut row_str, ' ');
                push_char(&mut row_str, ' ');
                push_char(&mut row_str, mark_char(self.board_state));
                push_char(&mut row_str, ' ');
                push_char(&mut row_str, ' ');
                push_char(&mut row_str, ' ');
            } else {
                let mut i: usize = 0;
                while i < 7
                    invariant
                        i <= 7,
                        row_str@ =~= Seq::new(i as nat, |j: int| ' '),
                    decreases 7 - i,
                {
                    push_char(&mut row_str, ' ');
                    i = i + 1;
                }
            }
            proof {
                assert(row_str@ =~= self.spec_row_chars(row as int));
            }
            return row_str;
        }
        push_char(&mut row_str, ' ');
        push_char(&mut row_str, mark_char(self.board[row][0]));
        push_char(&mut row_str, ' ');
        push_char(&mut row_str, mark_char(self.board[row][1]));
        push_char(&mut row_str, ' ');
        push_char(&mut row_str, mark_char(self.board[row][2]));
        push_char(&mut row_str, ' ');
        proof {
            assert(row_str@ =~= self.spec_row_chars(row as int));
        }
        row_str
    }
}

/// The single display character of a mark or verdict.
pub open spec fn spec_mark_char(s: TicState) -> char {
    match s {
        TicState::X => 'X',
        TicState::O => 'O',
        TicState::N => 'N',
        TicState::T => '-',
    }
}

fn mark_char(s: TicState) -> (c: char)
    ensures
        c == spec_mark_char(s),
{
    match s {
        TicState::X => 'X',
        TicState::O => 'O',
        TicState::N => 'N',
        TicState::T => '-',
    }
}

/// Relies on String::push: appends exactly the given character.
#[verifier::external_body]
fn push_char(s: &mut String, c: char)
    ensures
        final(s)@ == old(s)@.push(c),
{
    s.push(c);
}

} // verus!
