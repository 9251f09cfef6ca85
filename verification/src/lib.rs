//! Rules engine for a sliding-tile merge puzzle: a square grid of numbered
//! tiles, directional shift-and-merge moves, random tile spawning, score
//! tracking, and detection of the terminal (no legal move) state.

pub mod grid;
pub mod shift;
pub mod spawn;
pub mod terminal;
pub mod session;
pub mod conservation;
