//! A verified bingo engine: square boards of numbers with a mark mask,
//! a draw loop that marks every live board, detects winners, scores them
//! and removes them, and a scorer computing `unmarked sum * winning draw`.

pub mod board;
pub mod error;
pub mod game;
pub mod lines;
pub mod parse;
