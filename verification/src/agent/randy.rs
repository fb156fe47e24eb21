//! The agent that plays at random.

use crate::agent::Agent;
use crate::chance::{next_u64, thread_rng};
use crate::game::board::{lemma_open_columns, Board};
use crate::game::lines::{HEIGHT, WIDTH};
use vstd::prelude::*;

verus! {

/// Picks each move at random among the legal ones and keeps nothing
/// between the moves.
pub struct Randy;

impl Agent for Randy {
    fn select_move(&mut self, board: Board) -> (column: usize) {
        let mut rand = thread_rng();
        let moves: Vec<usize> = board.get_moves();
        proof {
            lemma_open_columns(board.column_pieces@, WIDTH as nat);
            let c = choose|c: int| 0 <= c < WIDTH && board.column_pieces@[c] < HEIGHT;
            assert(moves@.contains(c as usize));
        }
        let rand_index: usize = (next_u64(&mut rand) % (moves.len() as u64)) as usize;
        moves[rand_index]
    }

    fn record_move(&mut self, index: usize, board: Board) -> (played: Board) {
        board
    }
}

} // verus!
