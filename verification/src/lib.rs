//! Rule engine for a tile-matching puzzle: a rectangular grid of colored
//! cells where selecting a cell removes its connected same-colored group
//! (if it has at least two cells), cells above fall down, and empty columns
//! compact leftward.

pub mod board;
pub mod codec;
pub mod component;
pub mod erase;
mod rng;
mod seq_util;
