use biguint::tictac::{analyze, make_move, Error, GameState, Player, TicTacField};

#[test]
fn test_analyze() {
    let mut field = TicTacField::default();
    field.board[0][0] = Some(Player::X);
    field.board[0][1] = Some(Player::X);
    field.board[0][2] = Some(Player::X);
    field.board[1][2] = Some(Player::O);
    field.board[2][2] = Some(Player::O);
    assert_eq!(analyze(&field), GameState::WinX);

    field = TicTacField::default();
    field.board[0][0] = Some(Player::X);
    field.board[0][1] = Some(Player::X);
    field.board[2][0] = Some(Player::X);
    field.board[2][1] = Some(Player::X);
    field.board[1][0] = Some(Player::O);
    field.board[1][1] = Some(Player::O);
    field.board[1][2] = Some(Player::O);
    assert_eq!(analyze(&field), GameState::WinY);

    field = TicTacField::default();
    field.board[0][0] = Some(Player::X);
    field.board[1][1] = Some(Player::X);
    field.board[2][2] = Some(Player::X);
    field.board[0][1] = Some(Player::O);
    field.board[1][2] = Some(Player::O);
    assert_eq!(analyze(&field), GameState::WinX);

    field = TicTacField::default();
    field.board[0][0] = Some(Player::X);
    field.board[0][1] = Some(Player::X);
    field.board[0][2] = Some(Player::X);
    field.board[1][0] = Some(Player::O);
    field.board[1][1] = Some(Player::O);
    field.board[1][2] = Some(Player::O);
    assert_eq!(analyze(&field), GameState::WinBoth);

    field = TicTacField::default();
    assert_eq!(analyze(&field), GameState::GameOn);
}

#[test]
fn test_make_move() {
    let mut field = TicTacField::default();
    field.board[0][0] = Some(Player::X);
    field.board[0][1] = Some(Player::X);
    field.board[0][2] = Some(Player::X);
    field.board[1][0] = Some(Player::O);
    field.board[1][2] = Some(Player::O);
    field.current_player = Player::O;
    assert_eq!(make_move(&field, 1, 1, Player::O), Err(Error::GameOver));

    field = TicTacField::default();
    field.board[0][0] = Some(Player::X);
    field.board[0][1] = Some(Player::X);
    field.board[1][0] = Some(Player::O);
    field.board[1][2] = Some(Player::O);
    assert_eq!(
        make_move(&field, 1, 1, Player::X),
        Ok(TicTacField {
            board: [
                [Some(Player::X), Some(Player::X), None],
                [Some(Player::O), Some(Player::X), Some(Player::O)],
                [None, None, None]
            ],
            current_player: Player::O
        })
    );
    assert_eq!(make_move(&field, 0, 1, Player::X), Err(Error::InvalidMove));
    assert_eq!(make_move(&field, 1, 1, Player::O), Err(Error::InvalidMove));
    assert_eq!(make_move(&field, 0, 3, Player::X), Err(Error::InvalidMove));
}
