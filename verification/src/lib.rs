//! The rules of the tile-merging game 2048 on a square board: sliding and
//! merging tiles, placing new tiles, and detecting the end of a game.

pub mod bridge;
pub mod cells;
pub mod conserve;
pub mod direction;
pub mod game;
pub mod grid;
pub mod lanes;
pub mod laws;
pub mod line;
pub mod pack;
pub mod shift;
pub mod spawn;
