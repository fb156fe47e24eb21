//! Choosing a move at the root, and moving the root along with the game.

use crate::game::lines::WIDTH;
use crate::game::player::Player;
use crate::game::result::GameResult;
use crate::mcst::node::NodeContent;
use crate::mcst::valid_move::ValidMove;
use vstd::prelude::*;

verus! {

/// The child in column `c` is known to end in a win of `mover`.
pub open spec fn proven_win(
    nodes: Seq<NodeContent>,
    ch: [ValidMove<usize>; WIDTH],
    mover: Player,
    c: int,
) -> bool {
    ch[c] matches ValidMove::Valid(k) && nodes[k as int].result == Some(GameResult::Win(mover))
}

/// What the child in column `c` counts for when a move is chosen and no
/// move is known to win: a child known to be lost counts -2, a child known
/// to be drawn counts 0, and any other child counts its playouts. An
/// illegal column counts for nothing.
pub open spec fn move_score(
    nodes: Seq<NodeContent>,
    ch: [ValidMove<usize>; WIDTH],
    c: int,
) -> Option<int> {
    match ch[c] {
        ValidMove::Valid(k) => Some(
            match nodes[k as int].result {
                Some(GameResult::Win(_)) => -2,
                Some(GameResult::Draw) => 0,
                None => nodes[k as int].record.played as int,
            },
        ),
        ValidMove::Invalid => None,
    }
}

/// Whether `column` is the move to choose at node `n`, whose children
/// have been made: the first column known to win for the side to move,
/// if there is one; else the legal column that counts most, the first of
/// them if several count the same.
pub open spec fn chosen(nodes: Seq<NodeContent>, n: int, column: int) -> bool {
    let ch = nodes[n].children->0;
    let mover = nodes[n].board.mover();
    &&& 0 <= column < WIDTH
    &&& move_score(nodes, ch, column) is Some
    &&& if exists|c: int| 0 <= c < WIDTH && #[trigger] proven_win(nodes, ch, mover, c) {
        &&& proven_win(nodes, ch, mover, column)
        &&& forall|c: int| 0 <= c < column ==> !#[trigger] proven_win(nodes, ch, mover, c)
    } else {
        forall|c: int|
            0 <= c < WIDTH ==> (#[trigger] move_score(nodes, ch, c) matches Some(score) ==> {
                &&& score <= move_score(nodes, ch, column)->0
                &&& c < column ==> score < move_score(nodes, ch, column)->0
            })
    }
}

/// A node with its tie to its parent cut, as the root has it.
pub open spec fn cut(node: NodeContent) -> NodeContent {
    NodeContent { parent: None, ..node }
}

/// What moving the root from `root` to its child in column `index` turns
/// the store `before` into, when the children of `root` have been made:
/// the child, stored at `next`, loses its tie to its parent, and nothing
/// else changes, so all that was explored below it is still there.
pub open spec fn advanced(
    before: Seq<NodeContent>,
    root: int,
    index: int,
    next: int,
    after: Seq<NodeContent>,
) -> bool {
    &&& before[root].children matches Some(ch) && ch[index] == ValidMove::Valid(next as usize)
    &&& 0 <= next < before.len()
    &&& after == before.update(next, cut(before[next]))
}

/// Moving the root to a child whose subtree was explored keeps that
/// subtree: the child keeps its board, its counters, its children and its
/// known outcome, and every other node stays as it was.
pub proof fn lemma_advanced_keeps_subtree(
    before: Seq<NodeContent>,
    root: int,
    index: int,
    next: int,
    after: Seq<NodeContent>,
)
    requires
        advanced(before, root, index, next, after),
    ensures
        after.len() == before.len(),
        after[next].board == before[next].board,
        after[next].record == before[next].record,
        after[next].children == before[next].children,
        after[next].result == before[next].result,
        forall|j: int| 0 <= j < before.len() && j != next ==> after[j] == before[j],
{
}

} // verus!
