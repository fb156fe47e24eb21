//! Agents: whoever picks the moves of one side.

pub mod monty;
pub mod randy;

use crate::game::board::Board;
use vstd::prelude::*;

verus! {

/// One side of a game. An agent is asked for its move, and is told every
/// move that was played, its own too.
pub trait Agent {
    /// Whether the agent is ready for the position `board`: what it keeps
    /// between the moves stands at that position. An agent that keeps
    /// nothing is ready for every position.
    open spec fn follows(&self, board: Board) -> bool {
        true
    }

    /// Picks a legal column on `board`.
    fn select_move(&mut self, board: Board) -> (column: usize)
        requires
            old(self).follows(board),
            !board.full(),
        ensures
            final(self).follows(board),
            board.legal(column as int),
    ;

    /// Takes note that the move into column `index` was played and led to
    /// `board`, and hands `board` back.
    fn record_move(&mut self, index: usize, board: Board) -> (played: Board)
        requires
            exists|before: Board|
                old(self).follows(before) && before.legal(index as int) && #[trigger] before.leads_to(
                    index as int,
                    board,
                ),
        ensures
            played == board,
            final(self).follows(board),
    ;
}

} // verus!
