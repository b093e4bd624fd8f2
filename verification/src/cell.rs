//! Marks, cells and the states a game can be in.

use vstd::prelude::*;

verus! {

/// What a cell of the grid holds.
#[derive(Clone, Copy, PartialEq, Eq, Structural, Debug)]
pub enum Mark {
    /// A mark of the first player.
    Player,
    /// A mark of the second player, the engine.
    Ai,
    /// No mark.
    Empty,
}

/// How a game stands.
#[derive(Clone, Copy, PartialEq, Eq, Structural, Debug)]
pub enum BoardState {
    InProgress,
    PlayerWins,
    AiWins,
    CatsGame,
}

/// One square of the grid: column `x`, row `y`, and the mark on it.
#[derive(Clone, Copy, PartialEq, Eq, Structural, Debug)]
pub struct Cell {
    pub x: usize,
    pub y: usize,
    pub mark: Mark,
}

} // verus!
