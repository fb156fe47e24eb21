//! Finding the node of a position.

use crate::game::board::Board;
use crate::game::lines::WIDTH;
use crate::mcst::node::NodeContent;
use crate::mcst::select::holds_child;
use crate::mcst::shape::{node_ok, slot_ok};
use crate::mcst::valid_move::ValidMove;
use crate::mcst::SearchTree;
use vstd::prelude::*;

verus! {

/// The first node that shows the position of `board`, looking at node `n`
/// and then, column by column up to `upto`, at all that hangs below it.
pub open spec fn seek_in(nodes: Seq<NodeContent>, n: int, board: Board, upto: int) -> Option<usize>
    decreases nodes.len() - n, upto,
{
    if !(0 <= n < nodes.len()) {
        None
    } else if nodes[n].board.same_position(board) {
        Some(n as usize)
    } else {
        match nodes[n].children {
            None => None,
            Some(ch) => if upto <= 0 || upto > WIDTH {
                None
            } else {
                match seek_in(nodes, n, board, upto - 1) {
                    Some(found) => Some(found),
                    None => match ch[upto - 1] {
                        ValidMove::Valid(k) => if n < k < nodes.len() {
                            seek_in(nodes, k as int, board, WIDTH as int)
                        } else {
                            None
                        },
                        ValidMove::Invalid => None,
                    },
                }
            },
        }
    }
}

/// What `seek_in` finds is a node at or after `n` that shows the position.
pub proof fn lemma_seek_finds(nodes: Seq<NodeContent>, n: int, board: Board, upto: int)
    requires
        nodes.len() <= usize::MAX,
    ensures
        seek_in(nodes, n, board, upto) matches Some(found) ==> n <= found < nodes.len()
            && nodes[found as int].board.same_position(board),
    decreases nodes.len() - n, upto,
{
    if 0 <= n < nodes.len() && !nodes[n].board.same_position(board) && nodes[n].children is Some
        && 0 < upto <= WIDTH {
        lemma_seek_finds(nodes, n, board, upto - 1);
        let ch = nodes[n].children->0;
        if ch[upto - 1] is Valid {
            let k = ch[upto - 1]->Valid_0 as int;
            if n < k < nodes.len() {
                lemma_seek_finds(nodes, k, board, WIDTH as int);
            }
        }
    }
}

/// Whether node `k` can be reached from node `n` by going down through
/// columns that hold children, or is `n` itself.
pub open spec fn hangs_below(nodes: Seq<NodeContent>, n: int, k: int) -> bool
    decreases k,
{
    k == n || (0 <= k < nodes.len() && exists|p: int, c: int|
        0 <= p < k && #[trigger] holds_child(nodes, p, c, k) && hangs_below(nodes, n, p))
}

/// Where nothing is found from node `n`, nothing is found from any node
/// that hangs below it, and none of them shows the position.
pub proof fn lemma_seek_misses_nothing(nodes: Seq<NodeContent>, n: int, board: Board, k: int)
    requires
        nodes.len() <= usize::MAX,
        0 <= n < nodes.len(),
        seek_in(nodes, n, board, WIDTH as int) is None,
        hangs_below(nodes, n, k),
    ensures
        seek_in(nodes, k, board, WIDTH as int) is None,
        !nodes[k].board.same_position(board),
    decreases k,
{
    if k != n {
        let (p, c) = choose|p: int, c: int|
            0 <= p < k && #[trigger] holds_child(nodes, p, c, k) && hangs_below(nodes, n, p);
        lemma_seek_misses_nothing(nodes, n, board, p);
        if seek_in(nodes, p, board, c + 1) is Some {
            lemma_seek_stays(nodes, p, board, c + 1, WIDTH as int);
        }
        if seek_in(nodes, p, board, c) is Some {
            lemma_seek_stays(nodes, p, board, c, WIDTH as int);
        }
    }
}

/// What is found in the first columns stays found when more columns are
/// looked at.
pub proof fn lemma_seek_stays(
    nodes: Seq<NodeContent>,
    n: int,
    board: Board,
    upto: int,
    later: int,
)
    requires
        0 <= upto <= later <= WIDTH,
        seek_in(nodes, n, board, upto) is Some,
    ensures
        seek_in(nodes, n, board, later) == seek_in(nodes, n, board, upto),
    decreases later,
{
    if upto < later {
        lemma_seek_stays(nodes, n, board, upto, later - 1);
    }
}

impl<F: Fn(u64, u64, u64) -> u32> SearchTree<F> {
    /// Looks for the position of `board` in the node stored at `node` and
    /// below it, depth first and in the order of the columns, and returns
    /// the place of the first node found that shows it.
    pub fn seek(&self, node: usize, board: Board) -> (found: Option<usize>)
        requires
            self.well_formed(),
            node < self.nodes@.len(),
        ensures
            found == seek_in(self.nodes@, node as int, board, WIDTH as int),
            found matches Some(place) ==> node <= place < self.nodes@.len()
                && self.nodes@[place as int].board.same_position(board),
            found is None ==> forall|k: int| #[trigger]
                hangs_below(self.nodes@, node as int, k) ==> !self.nodes@[k].board.same_position(
                    board,
                ),
        decreases self.nodes@.len() - node,
    {
        proof {
            lemma_seek_finds(self.nodes@, node as int, board, WIDTH as int);
            if seek_in(self.nodes@, node as int, board, WIDTH as int) is None {
                assert forall|k: int| #[trigger]
                    hangs_below(self.nodes@, node as int, k) implies !self.nodes@[k].board.same_position(
                    board,
                ) by {
                    lemma_seek_misses_nothing(self.nodes@, node as int, board, k);
                }
            }
        }
        let content: NodeContent = self.nodes[node];
        if content.board == board {
            return Some(node);
        }
        match content.children {
            Some(children) => {
                let mut i: usize = 0;
                while i < WIDTH
                    invariant
                        i <= WIDTH,
                        self.well_formed(),
                        node < self.nodes@.len(),
                        content == self.nodes@[node as int],
                        !content.board.same_position(board),
                        content.children == Some(children),
                        seek_in(self.nodes@, node as int, board, i as int) is None,
                    decreases WIDTH - i,
                {
                    match children[i] {
                        ValidMove::Valid(s) => {
                            proof {
                                assert(node_ok(self.nodes@, self.root as int, node as int));
                                assert(slot_ok(self.nodes@, node as int, i as int));
                            }
                            match self.seek(s, board) {
                                Some(tn) => {
                                    proof {
                                        lemma_seek_stays(
                                            self.nodes@,
                                            node as int,
                                            board,
                                            i + 1,
                                            WIDTH as int,
                                        );
                                    }
                                    return Some(tn);
                                },
                                None => {},
                            }
                        },
                        ValidMove::Invalid => {},
                    }
                    i = i + 1;
                }
                None
            },
            None => None,
        }
    }
}

} // verus!
