//! A verified tic-tac-toe game engine: a fixed-size board with
//! single-assignment cells, win-pattern generation and detection, a
//! minimax search with alpha-beta pruning proved equivalent to the
//! unpruned search, and a turn-taking game session built on top.

pub mod grid;
pub mod minimax;
pub mod patterns;
pub mod session;
pub mod text;
