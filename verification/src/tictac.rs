//! A tic-tac-toe rules engine: board analysis and move validation.

use vstd::prelude::*;

verus! {

/// One of the two players.
#[derive(Debug, Clone, Copy, PartialEq, Eq, Structural)]
pub enum Player {
    X,
    O,
}

/// A 3-by-3 board of optionally taken cells, and whose turn it is.
#[derive(Debug, Clone, PartialEq, Eq)]
pub struct TicTacField {
    pub board: [[Option<Player>; 3]; 3],
    pub current_player: Player,
}

impl Default for TicTacField {
    /// An empty board, with the first player to move.
    fn default() -> (r: Self)
        ensures
            forall|i: int, j: int| 0 <= i < 3 && 0 <= j < 3 ==> cell(r.board, i, j) is None,
            r.current_player == Player::X,
    {
        TicTacField { board: [[None, None, None], [None, None, None], [None, None, None]], current_player: Player::X }
    }
}

/// The outcome that a board shows.
#[derive(Debug, Clone, Copy, PartialEq, Eq, Structural, Default)]
pub enum GameState {
    WinX,
    WinY,
    WinBoth,
    #[default]
    GameOn,
}

/// Why a move is rejected.
#[derive(Debug, Clone, Copy, PartialEq, Eq, Structural)]
pub enum Error {
    InvalidMove,
    GameOver,
}

/// The cell at row `i`, column `j`.
pub open spec fn cell(b: [[Option<Player>; 3]; 3], i: int, j: int) -> Option<Player>
    recommends
        0 <= i < 3,
        0 <= j < 3,
{
    b@[i]@[j]
}

/// Whether `p` holds all of row `i`.
pub open spec fn row_won(b: [[Option<Player>; 3]; 3], p: Player, i: int) -> bool
    recommends
        0 <= i < 3,
{
    cell(b, i, 0) == Some(p) && cell(b, i, 1) == Some(p) && cell(b, i, 2) == Some(p)
}

/// Whether `p` holds all of column `j`.
pub open spec fn col_won(b: [[Option<Player>; 3]; 3], p: Player, j: int) -> bool
    recommends
        0 <= j < 3,
{
    cell(b, 0, j) == Some(p) && cell(b, 1, j) == Some(p) && cell(b, 2, j) == Some(p)
}

/// Whether `p` holds one of the two diagonals.
pub open spec fn diag_won(b: [[Option<Player>; 3]; 3], p: Player) -> bool {
    (cell(b, 0, 0) == Some(p) && cell(b, 1, 1) == Some(p) && cell(b, 2, 2) == Some(p)) || (cell(
        b,
        0,
        2,
    ) == Some(p) && cell(b, 1, 1) == Some(p) && cell(b, 2, 0) == Some(p))
}

/// Whether `p` holds a full row, column or diagonal.
pub open spec fn wins(b: [[Option<Player>; 3]; 3], p: Player) -> bool {
    row_won(b, p, 0) || row_won(b, p, 1) || row_won(b, p, 2) || col_won(b, p, 0) || col_won(
        b,
        p,
        1,
    ) || col_won(b, p, 2) || diag_won(b, p)
}

/// The outcome a board shows: a win for whoever holds a line, a win
/// for both where both hold one, and an open game otherwise.
pub open spec fn spec_game_state(b: [[Option<Player>; 3]; 3]) -> GameState {
    if wins(b, Player::X) && wins(b, Player::O) {
        GameState::WinBoth
    } else if wins(b, Player::X) {
        GameState::WinX
    } else if wins(b, Player::O) {
        GameState::WinY
    } else {
        GameState::GameOn
    }
}

/// The player whose turn follows `p`.
pub open spec fn spec_other_player(p: Player) -> Player {
    match p {
        Player::X => Player::O,
        Player::O => Player::X,
    }
}

/// Whether one cell holds a mark of `p`.
fn cell_is(c: Option<Player>, p: Player) -> (r: bool)
    ensures
        r == (c == Some(p)),
{
    match c {
        Some(q) => q == p,
        None => false,
    }
}

/// Whether `p` holds row `i` of the board.
fn row_is(field: &TicTacField, i: usize, p: Player) -> (r: bool)
    requires
        i < 3,
    ensures
        r == row_won(field.board, p, i as int),
{
    cell_is(field.board[i][0], p) && cell_is(field.board[i][1], p) && cell_is(
        field.board[i][2],
        p,
    )
}

/// Whether `p` holds column `j` of the board.
fn col_is(field: &TicTacField, j: usize, p: Player) -> (r: bool)
    requires
        j < 3,
    ensures
        r == col_won(field.board, p, j as int),
{
    cell_is(field.board[0][j], p) && cell_is(field.board[1][j], p) && cell_is(
        field.board[2][j],
        p,
    )
}

/// Whether `p` holds a diagonal of the board.
fn diag_is(field: &TicTacField, p: Player) -> (r: bool)
    ensures
        r == diag_won(field.board, p),
{
    (cell_is(field.board[0][0], p) && cell_is(field.board[1][1], p) && cell_is(
        field.board[2][2],
        p,
    )) || (cell_is(field.board[0][2], p) && cell_is(field.board[1][1], p) && cell_is(
        field.board[2][0],
        p,
    ))
}

/// Whether `p` holds any full line of the board.
fn player_wins(field: &TicTacField, p: Player) -> (r: bool)
    ensures
        r == wins(field.board, p),
{
    let rows = row_is(field, 0, p) || row_is(field, 1, p) || row_is(field, 2, p);
    let cols = col_is(field, 0, p) || col_is(field, 1, p) || col_is(field, 2, p);
    rows || cols || diag_is(field, p)
}

/// The outcome the board shows.
pub fn analyze(field: &TicTacField) -> (r: GameState)
    ensures
        r == spec_game_state(field.board),
{
    let win_x = player_wins(field, Player::X);
    let win_y = player_wins(field, Player::O);
    if win_x && win_y {
        GameState::WinBoth
    } else if win_x {
        GameState::WinX
    } else if win_y {
        GameState::WinY
    } else {
        GameState::GameOn
    }
}

/// Places `player`'s mark at `(x, y)`. The move is rejected as invalid
/// when the cell lies outside the board, is already taken, or it is
/// not `player`'s turn; it is rejected as game over when the board
/// already shows a win.
pub fn make_move(field: &TicTacField, x: u32, y: u32, player: Player) -> (r: Result<
    TicTacField,
    Error,
>)
    ensures
        (x > 2 || y > 2) ==> r == Err::<TicTacField, Error>(Error::InvalidMove),
        (x <= 2 && y <= 2 && cell(field.board, x as int, y as int) is Some) ==> r == Err::<
            TicTacField,
            Error,
        >(Error::InvalidMove),
        (x <= 2 && y <= 2 && cell(field.board, x as int, y as int) is None
            && field.current_player != player) ==> r == Err::<TicTacField, Error>(
            Error::InvalidMove,
        ),
        (x <= 2 && y <= 2 && cell(field.board, x as int, y as int) is None
            && field.current_player == player && spec_game_state(field.board)
            != GameState::GameOn) ==> r == Err::<TicTacField, Error>(Error::GameOver),
        (x <= 2 && y <= 2 && cell(field.board, x as int, y as int) is None
            && field.current_player == player && spec_game_state(field.board)
            == GameState::GameOn) ==> (r matches Ok(f) && f.current_player == spec_other_player(
            player,
        ) && cell(f.board, x as int, y as int) == Some(player) && (forall|i: int, j: int|
            0 <= i < 3 && 0 <= j < 3 && !(i == x && j == y) ==> cell(f.board, i, j) == cell(
                field.board,
                i,
                j,
            ))),
{
    if x > 2 || y > 2 {
        return Err(Error::InvalidMove);
    }
    if field.board[x as usize][y as usize].is_some() {
        return Err(Error::InvalidMove);
    }
    let same_turn = match (field.current_player, player) {
        (Player::X, Player::X) => true,
        (Player::O, Player::O) => true,
        _ => false,
    };
    if !same_turn {
        return Err(Error::InvalidMove);
    }
    let state = analyze(field);
    let game_on = match state {
        GameState::GameOn => true,
        _ => false,
    };
    if !game_on {
        return Err(Error::GameOver);
    }
    let mut new_board = field.board;
    let mut row = new_board[x as usize];
    row[y as usize] = Some(player);
    new_board[x as usize] = row;
    let next = match player {
        Player::X => Player::O,
        Player::O => Player::X,
    };
    let result = TicTacField { board: new_board, current_player: next };
    proof {
        assert forall|i: int, j: int|
            0 <= i < 3 && 0 <= j < 3 && !(i == x && j == y) implies cell(result.board, i, j)
            == cell(field.board, i, j) by {
            if i == x {
                assert(result.board@[i] == row);
                assert(row@[j] == field.board@[i]@[j]);
            } else {
                assert(result.board@[i] == field.board@[i]);
            }
        }
    }
    Ok(result)
}

} // verus!
