//! A four-in-a-row game on a 7x6 grid and a Monte Carlo tree search
//! engine that picks moves for it.

pub mod agent;
pub mod chance;
pub mod game;
pub mod mcst;
pub mod tournament;
