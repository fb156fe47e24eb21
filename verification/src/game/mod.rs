//! The game itself: players, outcomes, the board and its win rules.

pub mod board;
pub mod lines;
pub mod player;
pub mod result;
