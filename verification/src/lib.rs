//! Screen-reading and move-planning logic of a Tetris-playing bot.
use vstd::prelude::*;

pub mod board;
pub mod colr;
pub mod constants;
pub mod des;
pub mod game;
pub mod pic;
pub mod plan;
pub mod tetr;

verus! {
} // verus!
