//! A Connect Four engine on bitboards: the board and its geometry, win
//! detection, a positional evaluator and a depth-limited alpha-beta search.

pub mod bits;
pub mod board;
pub mod constants;
pub mod eval;
pub mod files;
pub mod grid;
pub mod lines;
pub mod minimax;
pub mod notation;
pub mod perft;
pub mod repl;
pub mod score;
pub mod text;
