//! A codec for streams of game-position training records.
//!
//! Records (a board position, an outcome value, and a move-probability
//! distribution) are packed into a compact binary stream. Positions that are
//! one legal move away from the previous position are stored as that move
//! alone; all other positions are stored as a packed bit serialization of the
//! full board.

pub mod action;
pub mod bits;
pub mod game;
pub mod policy;
pub mod state;
pub mod stream;
pub mod value;
