use vstd::prelude::*;

verus! {

broadcast use vstd::array::group_array_axioms;

/// A mark or resolution value for tic-tac-toe grids.
///
/// `X` and `O` are the two players, `N` means "empty" for a single cell and
/// "still open" for a whole grid, and `T` marks a tied (full, winnerless)
/// grid.  `T` is only ever a resolution value, never a single-cell value,
/// but the two uses share this one type because the detector's output feeds
/// back into the meta-grid of sub-board resolutions.
#[derive(Debug, Clone, Copy, PartialEq, Eq, Structural)]
pub enum TicState {
    X,
    O,
    N,
    T,
}

/// The cell of a 3x3 grid at row `r`, column `c`.
pub open spec fn cell_at(board: [[TicState; 3]; 3], r: int, c: int) -> TicState {
    board[r][c]
}

/// Player `p` holds a full row, column, or diagonal of the nine values
/// `c00..c22` (given row-major: `cRC` is row `R`, column `C`).
pub open spec fn spec_win9(
    p: TicState,
    c00: TicState, c01: TicState, c02: TicState,
    c10: TicState, c11: TicState, c12: TicState,
    c20: TicState, c21: TicState, c22: TicState,
) -> bool {
    ||| (c00 == p && c01 == p && c02 == p)
    ||| (c10 == p && c11 == p && c12 == p)
    ||| (c20 == p && c21 == p && c22 == p)
    ||| (c00 == p && c10 == p && c20 == p)
    ||| (c01 == p && c11 == p && c21 == p)
    ||| (c02 == p && c12 == p && c22 == p)
    ||| (c00 == p && c11 == p && c22 == p)
    ||| (c02 == p && c11 == p && c20 == p)
}

/// None of the nine values is the empty mark.
pub open spec fn spec_full9(
    c00: TicState, c01: TicState, c02: TicState,
    c10: TicState, c11: TicState, c12: TicState,
    c20: TicState, c21: TicState, c22: TicState,
) -> bool {
    c00 != TicState::N && c01 != TicState::N && c02 != TicState::N
        && c10 != TicState::N && c11 != TicState::N && c12 != TicState::N
        && c20 != TicState::N && c21 != TicState::N && c22 != TicState::N
}

/// The resolution of nine values: `X` if X holds a line (checked first, a
/// deterministic tie-break that cannot arise from legal play), then `O`,
/// then `T` when every value is filled, otherwise `N` (still open).
pub open spec fn spec_state9(
    c00: TicState, c01: TicState, c02: TicState,
    c10: TicState, c11: TicState, c12: TicState,
    c20: TicState, c21: TicState, c22: TicState,
) -> TicState {
    if spec_win9(TicState::X, c00, c01, c02, c10, c11, c12, c20, c21, c22) {
        TicState::X
    } else if spec_win9(TicState::O, c00, c01, c02, c10, c11, c12, c20, c21, c22) {
        TicState::O
    } else if spec_full9(c00, c01, c02, c10, c11, c12, c20, c21, c22) {
        TicState::T
    } else {
        TicState::N
    }
}

/// Player `state` holds a full row, column, or diagonal of `board`.
pub open spec fn spec_win_for_player(board: [[TicState; 3]; 3], state: TicState) -> bool {
    spec_win9(
        state,
        cell_at(board, 0, 0), cell_at(board, 0, 1), cell_at(board, 0, 2),
        cell_at(board, 1, 0), cell_at(board, 1, 1), cell_at(board, 1, 2),
        cell_at(board, 2, 0), cell_at(board, 2, 1), cell_at(board, 2, 2),
    )
}

/// Every cell of `board` is filled.
pub open spec fn spec_grid_full(board: [[TicState; 3]; 3]) -> bool {
    spec_full9(
        cell_at(board, 0, 0), cell_at(board, 0, 1), cell_at(board, 0, 2),
        cell_at(board, 1, 0), cell_at(board, 1, 1), cell_at(board, 1, 2),
        cell_at(board, 2, 0), cell_at(board, 2, 1), cell_at(board, 2, 2),
    )
}

/// The resolution of a 3x3 grid.
pub open spec fn spec_board_state(board: [[TicState; 3]; 3]) -> TicState {
    spec_state9(
        cell_at(board, 0, 0), cell_at(board, 0, 1), cell_at(board, 0, 2),
        cell_at(board, 1, 0), cell_at(board, 1, 1), cell_at(board, 1, 2),
        cell_at(board, 2, 0), cell_at(board, 2, 1), cell_at(board, 2, 2),
    )
}

fn check_win_for_player(board: &[[TicState; 3]; 3], state: TicState) -> (r: bool)
    ensures
        r == spec_win_for_player(*board, state),
{
    let win_in_lines = (board[0][0] == state && board[0][1] == state && board[0][2] == state)
        || (board[1][0] == state && board[1][1] == state && board[1][2] == state)
        || (board[2][0] == state && board[2][1] == state && board[2][2] == state)
        || (board[0][0] == state && board[1][0] == state && board[2][0] == state)
        || (board[0][1] == state && board[1][1] == state && board[2][1] == state)
        || (board[0][2] == state && board[1][2] == state && board[2][2] == state);
    let win_in_top_left_diagonal =
        board[0][0] == state && board[1][1] == state && board[2][2] == state;
    let win_in_top_right_diagonal =
        board[0][2] == state && board[1][1] == state && board[2][0] == state;
    win_in_lines || win_in_top_left_diagonal || win_in_top_right_diagonal
}

/// The win/tie detector: `X` or `O` when that player holds a line (X checked
/// first), `T` when the grid is full with no winner, otherwise `N`.
pub fn check_board_state(board: &[[TicState; 3]; 3]) -> (r: TicState)
    ensures
        r == spec_board_state(*board),
{
    if check_win_for_player(board, TicState::X) {
        return TicState::X;
    }
    if check_win_for_player(board, TicState::O) {
        return TicState::O;
    }
    let full = board[0][0] != TicState::N && board[0][1] != TicState::N
        && board[0][2] != TicState::N && board[1][0] != TicState::N
        && board[1][1] != TicState::N && board[1][2] != TicState::N
        && board[2][0] != TicState::N && board[2][1] != TicState::N
        && board[2][2] != TicState::N;
    if full {
        return TicState::T;
    }
    TicState::N
}

/// The X/O-swapped counterpart of a single value: the two player marks
/// exchange, `N` and `T` stay as they are.
pub open spec fn spec_swap_mark(s: TicState) -> TicState {
    match s {
        TicState::X => TicState::O,
        TicState::O => TicState::X,
        _ => s,
    }
}

/// The detector is symmetric in the two players: on a grid with every X and
/// O exchanged it reports the exchanged winner, and leaves `T` and `N`
/// verdicts as they were.  The one exclusion is a grid on which both players
/// hold a line at once: no legal play reaches one, and there the X-first
/// tie-break is deliberately asymmetric.
pub proof fn lemma_detector_symmetric(a: [[TicState; 3]; 3], b: [[TicState; 3]; 3])
    requires
        forall|r: int, c: int|
            0 <= r < 3 && 0 <= c < 3 ==> #[trigger] cell_at(b, r, c) == spec_swap_mark(
                cell_at(a, r, c),
            ),
        !(spec_win_for_player(a, TicState::X) && spec_win_for_player(a, TicState::O)),
    ensures
        spec_board_state(b) == spec_swap_mark(spec_board_state(a)),
{
    assert(cell_at(b, 0, 0) == spec_swap_mark(cell_at(a, 0, 0)));
    assert(cell_at(b, 0, 1) == spec_swap_mark(cell_at(a, 0, 1)));
    assert(cell_at(b, 0, 2) == spec_swap_mark(cell_at(a, 0, 2)));
    assert(cell_at(b, 1, 0) == spec_swap_mark(cell_at(a, 1, 0)));
    assert(cell_at(b, 1, 1) == spec_swap_mark(cell_at(a, 1, 1)));
    assert(cell_at(b, 1, 2) == spec_swap_mark(cell_at(a, 1, 2)));
    assert(cell_at(b, 2, 0) == spec_swap_mark(cell_at(a, 2, 0)));
    assert(cell_at(b, 2, 1) == spec_swap_mark(cell_at(a, 2, 1)));
    assert(cell_at(b, 2, 2) == spec_swap_mark(cell_at(a, 2, 2)));
    assert(spec_win_for_player(b, TicState::X) == spec_win_for_player(a, TicState::O));
    assert(spec_win_for_player(b, TicState::O) == spec_win_for_player(a, TicState::X));
    assert(spec_grid_full(b) == spec_grid_full(a));
}

/// A fully occupied grid on which neither player holds a line resolves to
/// `T`.
pub proof fn lemma_full_without_winner_is_tied(board: [[TicState; 3]; 3])
    requires
        spec_grid_full(board),
        !spec_win_for_player(board, TicState::X),
        !spec_win_for_player(board, TicState::O),
    ensures
        spec_board_state(board) == TicState::T,
{
}

/// A grid with an empty cell never resolves to `T`.
pub proof fn lemma_open_cell_never_tied(board: [[TicState; 3]; 3], r: int, c: int)
    requires
        0 <= r < 3,
        0 <= c < 3,
        cell_at(board, r, c) == TicState::N,
    ensures
        spec_board_state(board) != TicState::T,
{
}

} // verus!
