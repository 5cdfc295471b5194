use reversi_solver::board::{Board, Cell, Player};
use reversi_solver::{Game, GameError};

#[test]
fn board_text_lists_rows_with_line_breaks() {
    let mut board = Board::new();
    board.set_cell(0, 0, Cell::Player(Player::One));
    board.set_cell(7, 7, Cell::Player(Player::Two));
    let expected = "X-------\n--------\n--------\n--------\n--------\n--------\n--------\n-------O\n";
    assert_eq!(board.to_text(), expected);
}

#[test]
fn opening_grid_string_marks_the_legal_moves() {
    let game = Game::new();
    let expected = "--------\n--------\n----*---\n---XO*--\n--*OX---\n---*----\n--------\n--------";
    assert_eq!(game.to_grid_string(), expected);
}

#[test]
fn round_trip_reconstructs_the_opening() {
    let game = Game::new();
    let text = game.to_grid_string();
    let parsed = Game::from_string(&text, game.current_player(), true).unwrap();
    assert_eq!(parsed.board_cells(), game.board_cells());
    assert_eq!(parsed.current_player(), game.current_player());
}

#[test]
fn round_trip_survives_a_few_plies() {
    let mut game = Game::new();
    for _ in 0..3 {
        let moves = game.moves();
        assert!(!moves.is_empty());
        assert!(game.play_idx(moves[0]).is_ok());
    }
    let text = game.to_grid_string();
    let parsed = Game::from_string(&text, game.current_player(), true).unwrap();
    assert_eq!(parsed.board_cells(), game.board_cells());
    assert_eq!(parsed.current_player(), game.current_player());
}

#[test]
fn too_many_rows_is_malformed() {
    let text = "-\n-\n-\n-\n-\n-\n-\n-\n-";
    assert_eq!(
        Game::from_string(text, Player::One, false),
        Err(GameError::MalformedLayout)
    );
}

#[test]
fn too_many_columns_is_malformed() {
    let text = "---------";
    assert_eq!(
        Game::from_string(text, Player::One, false),
        Err(GameError::MalformedLayout)
    );
}

#[test]
fn unknown_characters_are_malformed() {
    assert_eq!(
        Game::from_string("Z", Player::One, false),
        Err(GameError::MalformedLayout)
    );
}

#[test]
fn missing_markers_fail_validation() {
    let text = "--------\n--------\n--------\n---XO---\n---OX---\n--------\n--------\n--------";
    assert_eq!(
        Game::from_string(text, Player::One, true),
        Err(GameError::MovesMismatch)
    );
    assert!(Game::from_string(text, Player::One, false).is_ok());
}

#[test]
fn layout_cells_overwrite_the_opening() {
    let parsed = Game::from_string("XXXXXXXX", Player::Two, false).unwrap();
    for x in 0..8 {
        assert_eq!(parsed.cell_at(x, 0), Cell::Player(Player::One));
    }
    assert_eq!(parsed.cell_at(3, 3), Cell::Player(Player::One));
    assert_eq!(parsed.cell_at(4, 3), Cell::Player(Player::Two));
    assert_eq!(parsed.current_player(), Player::Two);
}

#[test]
fn marked_layout_with_validation_parses() {
    let text = "--------\n--------\n----*---\n---XO*--\n--*OX---\n---*----\n--------\n--------";
    let parsed = Game::from_string(text, Player::One, true).unwrap();
    assert_eq!(parsed.board_cells(), Game::new().board_cells());
    assert_eq!(parsed.moves(), Game::new().moves());
}

#[test]
fn empty_input_keeps_the_opening() {
    let parsed = Game::from_string("", Player::Two, false).unwrap();
    assert_eq!(parsed.board_cells(), Game::new().board_cells());
    assert_eq!(parsed.current_player(), Player::Two);
}

#[test]
fn trailing_line_break_opens_one_row_too_many() {
    let text = "--------\n--------\n--------\n---XO---\n---OX---\n--------\n--------\n--------\n";
    assert_eq!(
        Game::from_string(text, Player::One, false),
        Err(GameError::MalformedLayout)
    );
}
