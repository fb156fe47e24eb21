//! A game between two agents.

use crate::agent::Agent;
use crate::game::board::{lemma_free_cells_bound, reached, Board};
use crate::game::lines::{HEIGHT, WIDTH};
use vstd::prelude::*;

verus! {

/// Two agents, one for each side.
pub struct Tournament<Y, B> {
    pub yellow_player: Y,
    pub blue_player: B,
}

impl<Y: Agent, B: Agent> Tournament<Y, B> {
    /// Sets two agents against each other.
    pub fn new(yellow_player: Y, blue_player: B) -> (tournament: Tournament<Y, B>)
        ensures
            tournament.yellow_player == yellow_player,
            tournament.blue_player == blue_player,
    {
        Tournament { yellow_player, blue_player }
    }

    /// Plays one game from the empty board: the side to move is asked for
    /// its move, the move is played, and both agents are told, until the
    /// game is decided. Returns the last position.
    pub fn play(&mut self) -> (board: Board)
        requires
            old(self).yellow_player.follows(Board::start()),
            old(self).blue_player.follows(Board::start()),
        ensures
            board.result is Some,
            exists|plies: nat|
                plies <= HEIGHT * WIDTH && #[trigger] reached(Board::start(), board, plies),
            final(self).yellow_player.follows(board),
            final(self).blue_player.follows(board),
    {
        let mut board: Board = Board::default();
        let ghost mut plies: nat = 0;
        proof {
            lemma_free_cells_bound(board.column_pieces@, WIDTH as nat);
            assert(board.column_pieces@[0] < HEIGHT);
        }
        loop
            invariant_except_break
                board.result is None,
                !board.full(),
            invariant
                reached(Board::start(), board, plies),
                plies + board.moves_left() <= HEIGHT * WIDTH,
                board.ply_fits(),
                self.yellow_player.follows(board),
                self.blue_player.follows(board),
            ensures
                board.result is Some,
            decreases board.moves_left(),
        {
            let selected_move: usize = if board.yellow_turn {
                self.yellow_player.select_move(board)
            } else {
                self.blue_player.select_move(board)
            };
            let ghost before = board;
            proof {
                before.lemma_legal_has_room(selected_move as int);
            }
            board = board.play_move(selected_move);
            proof {
                before.lemma_move_keeps_fit(selected_move as int, board);
                assert(reached(Board::start(), board, plies + 1));
                plies = plies + 1;
            }
            self.yellow_player.record_move(selected_move, board);
            self.blue_player.record_move(selected_move, board);
            if board.result.is_some() {
                break ;
            }
        }
        board
    }
}

} // verus!
