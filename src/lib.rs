//! A grid puzzle engine: cells, push moves, a bounded undo history, win
//! detection and a replayable command log.

pub mod cell;
pub mod number;
pub mod grid;
pub mod game;
pub mod level;
pub mod record;
pub mod session;
pub mod laws;
