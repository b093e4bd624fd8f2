//! Generalised m,n,k games: a board that detects runs and finished games,
//! and a game-tree search, plain and pruned, that picks moves on it.

pub mod cell;
pub mod model;
pub mod board;
pub mod minimax;
pub mod ai;
pub mod text;
pub mod play;
pub mod input;
