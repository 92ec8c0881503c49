//! A verified engine for a single-player sliding-snake puzzle.
//!
//! Given a rectangular grid of rocks and cherries, the engine finds a
//! starting placement plus a sequence of cardinal moves that lets a growing
//! snake consume every cherry.  The snake slides in a chosen direction,
//! eating one cherry per cell, until it is blocked by a rock, its own body,
//! or the edge of the grid.

pub mod board;
pub mod movement;
pub mod search;

pub use board::{Board, Tile};
pub use movement::Dir;
pub use search::{Outcome, Parent, Record, solution, solve};
