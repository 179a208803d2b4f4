//! Rules engine and search for a two-player disc-flipping board game
//! (Reversi / Othello) on an even-sided square board of side 2 to 10.

pub mod bitmap;
pub mod rules;
pub mod board;
pub mod text;
pub mod computer;
