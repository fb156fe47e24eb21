//! One node of the search tree.

use crate::game::board::Board;
use crate::game::lines::WIDTH;
use crate::game::result::GameResult;
use crate::mcst::record::Record;
use crate::mcst::valid_move::ValidMove;
use vstd::prelude::*;

verus! {

/// A node: a position, the place of its parent in the tree's store, its
/// counters, its children once they have been made, and its outcome once
/// it is known for certain. Children and outcome are written at most once.
#[derive(Clone, Copy, Debug)]
pub struct NodeContent {
    pub board: Board,
    pub parent: Option<usize>,
    pub record: Record,
    pub children: Option<[ValidMove<usize>; WIDTH]>,
    pub result: Option<GameResult>,
}

/// Writes `value` into a cell that is written at most once, and tells
/// whether it did. The first write wins: a cell that holds a value keeps
/// it.
pub fn write_once<T: Copy>(cell: &mut Option<T>, value: T) -> (written: bool)
    ensures
        written == (*old(cell) is None),
        *final(cell) == if *old(cell) is None {
            Some(value)
        } else {
            *old(cell)
        },
{
    if cell.is_none() {
        *cell = Some(value);
        true
    } else {
        false
    }
}

impl NodeContent {
    /// The node after one playout with outcome `result` went through it:
    /// one more playout, and one more win if the side to move at this node
    /// is the winner.
    pub open spec fn credited(self, result: GameResult) -> NodeContent {
        NodeContent {
            record: self.record.incremented(result == GameResult::Win(self.board.mover())),
            ..self
        }
    }

    /// A node without parent for `board`: no playouts, no children, no
    /// known outcome.
    pub fn new_root(board: Board) -> (node: NodeContent)
        ensures
            node.board == board,
            node.parent is None,
            node.record == (Record { wins: 0, played: 0 }),
            node.children is None,
            node.result is None,
    {
        NodeContent {
            board,
            parent: None,
            record: Record::default(),
            children: None,
            result: None,
        }
    }

    /// A node for `board` below the node stored at `parent`. Its outcome is
    /// known at once if the board is decided.
    pub fn new_child(parent: usize, board: Board) -> (node: NodeContent)
        ensures
            node.board == board,
            node.parent == Some(parent),
            node.record == (Record { wins: 0, played: 0 }),
            node.children is None,
            node.result == board.result,
    {
        NodeContent {
            board,
            parent: Some(parent),
            record: Record::default(),
            children: None,
            result: board.result,
        }
    }

    /// Whether the children of this node have never been made. A node whose
    /// columns are all illegal is no leaf once that has been found out.
    pub fn is_leaf(&self) -> (leaf: bool)
        ensures
            leaf == (self.children is None),
    {
        self.children.is_none()
    }

    /// The position of this node.
    pub fn board(&self) -> (board: Board)
        ensures
            board == self.board,
    {
        self.board
    }

    /// Counts a playout that ended with `result`. It counts as won if the
    /// winner is the side to move at this node.
    pub fn record_result(&mut self, result: GameResult)
        requires
            result is Win,
            old(self).record.played < u64::MAX,
            old(self).record.wins <= old(self).record.played,
        ensures
            *final(self) == old(self).credited(result),
    {
        let win: bool = match result {
            GameResult::Win(winner) => winner == self.board.active_player(),
            GameResult::Draw => false,
        };
        self.record.increment(win);
    }
}

} // verus!
