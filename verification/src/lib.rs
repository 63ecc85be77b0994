//! The rules of Othello on the fixed 8×8 board: the board and its pieces,
//! the legality of a move, the captures a move makes, and the turn-by-turn
//! course of a game in which each side always plays its first legal move.
//!
//! Every executable function carries a contract over the mathematical
//! description of the rules in [`rules`], and the general facts about the
//! game are proved in [`laws`] and [`game`].

pub mod board;
pub mod game;
pub mod laws;
pub mod rules;

pub use board::{initialize_board, render, Board, Cell, Side, SIZE};
pub use game::{outcome, Game, Outcome, Phase, Turn};
pub use rules::{apply_move, captured_run, count_pieces, find_moves, is_valid_move, DIRECTIONS};
