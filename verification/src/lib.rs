//! A Reversi (Othello) rules engine and exact game solver.
//!
//! The crate is organised bottom-up: `board` holds the raw grid of cells,
//! `rules` gives the mathematical model of move legality and tile flipping,
//! `game` wraps a board together with the player to move, `text` reads and
//! writes the textual board format, and `solve` performs the exhaustive
//! negamax search over game positions.

pub mod board;
pub mod game;
pub mod rules;
pub mod solve;
pub mod text;

pub use game::Game;
pub use game::GameError;
