//! A minesweeper board engine: a grid of tiles with lazily placed mines and
//! numeric hints, driven by two player actions, uncover and cycle-mark.

pub mod counting;
mod sample;
pub mod minefield;
