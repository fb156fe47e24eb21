//! Playouts: a position is played to its end with moves drawn at random.

use crate::chance::{next_u64, thread_rng};
use crate::game::board::{lemma_free_cells_bound, lemma_open_columns, reached, Board};
use crate::game::lines::{HEIGHT, WIDTH};
use crate::game::result::GameResult;
use vstd::prelude::*;

verus! {

/// No playout goes on for more plies than this.
pub const MAX_PLIES: usize = 1000;

/// The column that the random number `sample` picks on `board`: the legal
/// columns are counted from the left, and the number is taken modulo how
/// many there are.
pub open spec fn picked(board: Board, sample: u64) -> usize {
    board.moves()[(sample % (board.moves().len() as u64)) as int]
}

/// Whether `outcome` can be what a playout from `board` ends with: the
/// outcome of the board if it is decided; a draw if no move is left; else
/// the outcome of a decided position that legal moves lead to.
pub open spec fn playout_of(board: Board, outcome: GameResult) -> bool {
    match board.result {
        Some(r) => outcome == r,
        None => if board.full() {
            outcome == GameResult::Draw
        } else {
            exists|end: Board, plies: nat| #[trigger]
                reached(board, end, plies) && end.result == Some(outcome)
        },
    }
}

/// Plays the move that `sample` picks.
pub fn rollout_step(board: Board, sample: u64) -> (next: Board)
    requires
        !board.full(),
        board.turn < u32::MAX,
    ensures
        board.legal(picked(board, sample) as int),
        board.leads_to(picked(board, sample) as int, next),
{
    let moves: Vec<usize> = board.get_moves();
    proof {
        lemma_open_columns(board.column_pieces@, WIDTH as nat);
        let c = choose|c: int| 0 <= c < WIDTH && board.column_pieces@[c] < HEIGHT;
        assert(moves@.contains(c as usize));
    }
    let rand_index: usize = (sample % (moves.len() as u64)) as usize;
    board.play_move(moves[rand_index])
}

/// Plays `board` to its end with random moves and returns the outcome. A
/// decided board is not played on; a board without legal moves is drawn.
pub fn from(board: Board) -> (outcome: GameResult)
    requires
        board.ply_fits(),
    ensures
        playout_of(board, outcome),
{
    match board.result {
        Some(r) => {
            return r;
        },
        None => {},
    }
    if board.is_full() {
        return GameResult::Draw;
    }
    let mut rand = thread_rng();
    let mut current: Board = board;
    let mut i: usize = 0;
    proof {
        lemma_free_cells_bound(board.column_pieces@, WIDTH as nat);
    }
    while i < MAX_PLIES
        invariant
            board.result is None,
            !board.full(),
            board.moves_left() <= HEIGHT * WIDTH,
            reached(board, current, i as nat),
            current.result is None,
            !current.full(),
            current.ply_fits(),
            i + current.moves_left() <= board.moves_left(),
        decreases MAX_PLIES - i,
    {
        let sample: u64 = next_u64(&mut rand);
        proof {
            let c = choose|c: int| 0 <= c < WIDTH && current.column_pieces@[c] < HEIGHT;
            current.lemma_legal_has_room(c);
        }
        let next: Board = rollout_step(current, sample);
        proof {
            current.lemma_move_keeps_fit(picked(current, sample) as int, next);
            assert(reached(board, next, (i + 1) as nat));
        }
        i = i + 1;
        match next.result {
            Some(result) => {
                return result;
            },
            None => {
                current = next;
            },
        }
    }
    GameResult::Draw
}

} // verus!
