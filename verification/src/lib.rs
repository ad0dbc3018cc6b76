//! Rules engine of a falling-block puzzle game.
//!
//! `tetromino` holds the piece geometry: occupied cells, the rotation
//! anchor, translation, rotation and row removal. `game` holds the board:
//! the falling piece, the settled pieces, collision and bounds checks,
//! full-row clearing and the loss condition.

pub mod game;
pub mod tetromino;
