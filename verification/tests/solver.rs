use reversi_solver::board::Player;
use reversi_solver::solve::{negamax, solve};
use reversi_solver::Game;

/// A board with every cell occupied: nobody can move.
fn full_board_game() -> Game {
    let text = "XXXXXXXX\nXXXXXXXX\nXXXXXXXX\nXXXXXXXX\nOOOOOOOO\nOOOOOOOO\nOOOOOOOO\nOOOOOOOO";
    Game::from_string(text, Player::One, false).unwrap()
}

/// Player One to move; the only legal move is at (2, 0), and it wins at
/// once: it flips the lone opposing tile, leaving the opponent without a
/// move while three cells are still empty.
fn forced_win_game() -> Game {
    let text = "XO-XXXXX\nXXXXXXXX\nXXXXXXXX\nXXXXXXXX\nXXXXXXXX\nXXXXXXXX\nXXXXXXXX\nXXXXXX--";
    Game::from_string(text, Player::One, false).unwrap()
}

/// Player One to move with a single legal move at (2, 0); afterwards the
/// opponent holds an immediately winning answer, so the position is lost
/// by one mate-scaled tile.
fn forced_loss_game() -> Game {
    let text = "XO-OOOOO\nOOOOOOOO\nOOOOOOOO\nOOOOOOOO\nOOOOOOOO\nOOOOOOOO\nOOOOOOOO\nOOOOX--O";
    Game::from_string(text, Player::One, false).unwrap()
}

#[test]
fn stalled_full_board_scores_zero() {
    let game = full_board_game();
    assert!(game.moves().is_empty());
    assert_eq!(negamax(&game), Ok(0));

    let mut passed = game.duplicate();
    passed.swap_players();
    assert!(passed.moves().is_empty());
    assert_eq!(negamax(&passed), Ok(0));
}

#[test]
fn immediate_win_scores_by_mate_distance() {
    let game = forced_win_game();
    assert_eq!(game.moves(), vec![2]);
    assert_eq!(game.is_winning_move_idx(2, Player::One), Ok(true));
    // 61 tiles are placed, so the mate-scaled value is (64 - 61) / 2 = 1,
    // not the raw tile differential of about sixty.
    assert_eq!(game.total_moves(), 61);
    assert_eq!(negamax(&game), Ok(1));
}

#[test]
fn forced_loss_scores_negative() {
    let game = forced_loss_game();
    assert_eq!(game.moves(), vec![2]);
    assert_eq!(game.is_winning_move_idx(2, Player::One), Ok(false));
    assert_eq!(negamax(&game), Ok(-1));
}

#[test]
fn solve_reports_a_score_for_each_move() {
    let game = forced_loss_game();
    assert_eq!(solve(&game), vec![(-1, 2)]);

    let won = forced_win_game();
    // The winning move leads to a stalled position, which the search
    // values at zero for the side then to move.
    assert_eq!(solve(&won), vec![(0, 2)]);

    let full = full_board_game();
    assert_eq!(solve(&full), vec![]);
}
