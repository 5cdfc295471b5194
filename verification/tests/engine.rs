use reversi_solver::board::{at_pos, Board, Cell, Player, HEIGHT, SIZE, WIDTH};
use reversi_solver::{Game, GameError};

#[test]
fn opponent_is_involutive() {
    assert_eq!(Player::One.opponent(), Player::Two);
    assert_eq!(Player::Two.opponent(), Player::One);
    assert_eq!(Player::One.opponent().opponent(), Player::One);
    assert_eq!(Player::Two.opponent().opponent(), Player::Two);
}

#[test]
fn cell_characters() {
    assert_eq!(Cell::Empty.to_char(), '-');
    assert_eq!(Cell::Player(Player::One).to_char(), 'X');
    assert_eq!(Cell::Player(Player::Two).to_char(), 'O');
}

#[test]
fn board_indexing() {
    assert_eq!(at_pos(0, 0), 0);
    assert_eq!(at_pos(3, 2), 19);
    assert_eq!(at_pos(7, 7), SIZE - 1);

    let mut board = Board::new();
    assert_eq!(board.total_moves(), 0);
    for idx in 0..SIZE {
        assert_eq!(board.get_cell_idx(idx), Cell::Empty);
    }

    board.set_cell(3, 2, Cell::Player(Player::One));
    assert_eq!(board.get_cell(3, 2), Cell::Player(Player::One));
    assert_eq!(board.get_cell_idx(19), Cell::Player(Player::One));
    board.set_cell_idx(19, Cell::Player(Player::Two));
    assert_eq!(board.get_cell(3, 2), Cell::Player(Player::Two));
    assert_eq!(board.total_moves(), 1);

    assert!(board.on_board(0, 0));
    assert!(board.on_board(7, 7));
    assert!(!board.on_board(8, 0));
    assert!(!board.on_board(0, 8));

    let cells = board.cells_row_major();
    assert_eq!(cells.len(), SIZE);
    assert_eq!(cells[19], Cell::Player(Player::Two));
}

#[test]
fn opening_position() {
    let game = Game::new();
    assert_eq!(game.current_player(), Player::One);
    assert_eq!(game.cell_at(3, 3), Cell::Player(Player::One));
    assert_eq!(game.cell_at(4, 4), Cell::Player(Player::One));
    assert_eq!(game.cell_at(3, 4), Cell::Player(Player::Two));
    assert_eq!(game.cell_at(4, 3), Cell::Player(Player::Two));
    assert_eq!(game.total_moves(), 4);
    for y in 0..HEIGHT {
        for x in 0..WIDTH {
            if !((x == 3 || x == 4) && (y == 3 || y == 4)) {
                assert_eq!(game.cell_at(x, y), Cell::Empty);
            }
        }
    }
}

#[test]
fn opening_moves_are_the_four_diagonal_entries() {
    let game = Game::new();
    let moves = game.moves();
    assert_eq!(moves, vec![at_pos(4, 2), at_pos(5, 3), at_pos(2, 4), at_pos(3, 5)]);
    assert_eq!(moves, vec![20, 29, 34, 43]);
}

#[test]
fn moves_target_only_empty_cells() {
    let game = Game::new();
    for idx in game.moves() {
        assert_eq!(game.cell_at(idx % WIDTH, idx / WIDTH), Cell::Empty);
    }
}

#[test]
fn playing_the_first_move_flips_one_tile() {
    let mut game = Game::new();
    assert!(game.play(2, 4).is_ok());

    assert_eq!(game.cell_at(2, 4), Cell::Player(Player::One));
    assert_eq!(game.cell_at(3, 4), Cell::Player(Player::One));
    assert_eq!(game.cell_at(3, 3), Cell::Player(Player::One));
    assert_eq!(game.cell_at(4, 4), Cell::Player(Player::One));
    assert_eq!(game.cell_at(4, 3), Cell::Player(Player::Two));
    assert_eq!(game.current_player(), Player::Two);
    assert_eq!(game.total_moves(), 5);
}

#[test]
fn play_keeps_tile_counts_monotone() {
    let mut game = Game::new();
    let count_of = |g: &Game, p: Player| {
        g.board_cells().into_iter().filter(|c| *c == Cell::Player(p)).count()
    };
    let mover = game.current_player();
    let mover_before = count_of(&game, mover);
    let opp_before = count_of(&game, mover.opponent());
    let total_before = game.total_moves();

    let m = game.moves()[0];
    assert!(game.play_idx(m).is_ok());

    assert!(count_of(&game, mover) > mover_before);
    assert!(count_of(&game, mover.opponent()) <= opp_before);
    assert_eq!(game.total_moves(), total_before + 1);
}

#[test]
fn illegal_moves_are_rejected_and_change_nothing() {
    let mut game = Game::new();
    assert_eq!(game.play(0, 0), Err(GameError::InvalidMove));
    assert_eq!(game.play(2, 3), Err(GameError::InvalidMove));
    assert_eq!(game.play_idx(SIZE), Err(GameError::InvalidMove));
    assert_eq!(game.play(9, 9), Err(GameError::InvalidMove));
    assert_eq!(game.current_player(), Player::One);
    assert_eq!(game.total_moves(), 4);
}

#[test]
fn swap_players_passes_the_turn() {
    let mut game = Game::new();
    game.swap_players();
    assert_eq!(game.current_player(), Player::Two);
    assert_eq!(game.total_moves(), 4);
    game.swap_players();
    assert_eq!(game.current_player(), Player::One);
}

#[test]
fn current_player_after_play_is_the_pre_move_opponent() {
    let mut game = Game::new();
    for _ in 0..4 {
        let moves = game.moves();
        if moves.is_empty() {
            break;
        }
        let before = game.current_player();
        assert!(game.play_idx(moves[0]).is_ok());
        assert_eq!(game.current_player(), before.opponent());
    }
}

#[test]
fn opening_moves_do_not_win() {
    let game = Game::new();
    assert_eq!(game.is_winning_move(4, 2, Player::One), Ok(false));
    assert_eq!(game.is_winning_move_idx(20, Player::One), Ok(false));
    assert_eq!(game.is_winning_move(0, 0, Player::One), Err(GameError::InvalidMove));
    assert_eq!(game.is_winning_move_idx(SIZE, Player::One), Err(GameError::InvalidMove));
}

#[test]
fn duplicate_is_independent() {
    let mut game = Game::new();
    let copy = game.duplicate();
    assert!(game.play(2, 4).is_ok());
    assert_eq!(copy.cell_at(2, 4), Cell::Empty);
    assert_eq!(copy.current_player(), Player::One);
    assert_eq!(game.cell_at(2, 4), Cell::Player(Player::One));
}
