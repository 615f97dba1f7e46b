//! A verified minesweeper core.
//!
//! - [`cell`]: a square of the minefield and how it is shown.
//! - [`board`]: the minefield as a mathematical value, and what a click, a
//!   flag and a mine make of it.
//! - [`grid`]: the minefield as it is stored and changed.
//! - [`game`]: a session of play: counters, play clock and mouse clicks.
//! - [`sprites`]: cutting a sprite sheet into sprites.
//! - [`counts`], [`flood`]: the proofs behind mine counts and flood fill.
//! - [`laws`]: what holds of every board and every session.

pub mod board;
pub mod cell;
pub mod counts;
pub mod flood;
pub mod game;
pub mod grid;
pub mod laws;
pub mod sprites;
