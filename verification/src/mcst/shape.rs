//! The shape of the tree: what holds of the store of nodes between any
//! two operations.
//!
//! The nodes of a tree live in one vector. A node names its parent and its
//! children by their places in that vector. Children are stored after
//! their parent, so no chain of parents or children can come back to where
//! it started.

use crate::game::lines::WIDTH;
use crate::game::result::GameResult;
use crate::mcst::node::NodeContent;
use crate::mcst::valid_move::ValidMove;
use vstd::prelude::*;

verus! {

/// Column `c` of node `n` is in order: if the children of `n` have been
/// made, the column holds a child exactly if it is legal on the board of
/// `n`; the child is stored after `n`, holds the position that the move
/// leads to, and names `n` as its parent unless it has become a root.
pub open spec fn slot_ok(nodes: Seq<NodeContent>, n: int, c: int) -> bool {
    nodes[n].children matches Some(ch) ==> match ch[c] {
        ValidMove::Valid(k) => {
            &&& n < k < nodes.len()
            &&& nodes[n].board.legal(c)
            &&& nodes[n].board.leads_to(c, nodes[k as int].board)
            &&& (nodes[k as int].parent == Some(n as usize) || nodes[k as int].parent is None)
        },
        ValidMove::Invalid => !nodes[n].board.legal(c),
    }
}

/// The known outcome of a node is that of its board, or, for a node whose
/// children have been made, a win of the side to move that one of its
/// moves was found to bring about.
pub open spec fn result_ok(node: NodeContent) -> bool {
    node.result matches Some(r) ==> {
        ||| node.board.result == Some(r)
        ||| node.board.result is None && node.children is Some && r == GameResult::Win(
            node.board.mover(),
        )
    }
}

/// Node `n` is in order: it has won no more playouts than went through
/// it; its board can take the moves that are left; its parent is stored
/// before it and has seen every playout that it has seen; a node without
/// parent is the root or was the root before; its columns and its known
/// outcome are in order.
pub open spec fn node_ok(nodes: Seq<NodeContent>, root: int, n: int) -> bool {
    let node = nodes[n];
    &&& node.record.wins <= node.record.played
    &&& node.board.ply_fits()
    &&& match node.parent {
        Some(p) => p < n && node.record.played <= nodes[p as int].record.played,
        None => n <= root,
    }
    &&& forall|c: int| 0 <= c < WIDTH ==> #[trigger] slot_ok(nodes, n, c)
    &&& result_ok(node)
}

/// The store is in order: its places can be counted by the machine, the
/// root is in it and has no parent, and every node is in order.
pub open spec fn arena_ok(nodes: Seq<NodeContent>, root: int) -> bool {
    &&& nodes.len() <= usize::MAX
    &&& 0 <= root < nodes.len()
    &&& nodes[root].parent is None
    &&& forall|n: int| 0 <= n < nodes.len() ==> #[trigger] node_ok(nodes, root, n)
}

/// The node at the upper end of the chain of parents that starts at `n`.
pub open spec fn top_of(nodes: Seq<NodeContent>, n: int) -> int
    decreases n,
{
    if 0 <= n < nodes.len() && nodes[n].parent is Some && nodes[n].parent->0 < n {
        top_of(nodes, nodes[n].parent->0 as int)
    } else {
        n
    }
}

/// Whether `n` lies on the chain of parents that starts at `from`, both
/// ends included.
pub open spec fn on_path(nodes: Seq<NodeContent>, from: int, n: int) -> bool
    decreases from,
{
    from == n || (0 <= from < nodes.len() && nodes[from].parent is Some && nodes[from].parent->0
        < from && on_path(nodes, nodes[from].parent->0 as int, n))
}

/// Which nodes lie on a chain of parents depends on the parents alone,
/// and not on nodes that are stored later.
pub proof fn lemma_path_same(a: Seq<NodeContent>, b: Seq<NodeContent>, from: int, n: int)
    requires
        a.len() <= b.len(),
        from < a.len(),
        forall|j: int| 0 <= j < a.len() ==> (#[trigger] a[j]).parent == b[j].parent,
    ensures
        on_path(a, from, n) == on_path(b, from, n),
        top_of(a, from) == top_of(b, from),
    decreases from,
{
    if 0 <= from < a.len() && a[from].parent is Some && a[from].parent->0 < from {
        lemma_path_same(a, b, a[from].parent->0 as int, n);
    }
}

/// A chain of parents only leads to nodes that are stored earlier.
pub proof fn lemma_path_goes_down(nodes: Seq<NodeContent>, from: int, n: int)
    requires
        on_path(nodes, from, n),
    ensures
        n <= from,
        from >= 0 ==> n >= 0,
        top_of(nodes, n) == top_of(nodes, from),
    decreases from,
{
    if from != n {
        lemma_path_goes_down(nodes, nodes[from].parent->0 as int, n);
    }
}

/// The parent of a node on a chain of parents is on that chain too.
pub proof fn lemma_path_extends(nodes: Seq<NodeContent>, from: int, n: int)
    requires
        on_path(nodes, from, n),
        0 <= n < nodes.len(),
        nodes[n].parent is Some,
        nodes[n].parent->0 < n,
    ensures
        on_path(nodes, from, nodes[n].parent->0 as int),
    decreases from,
{
    if from == n {
        assert(on_path(nodes, nodes[n].parent->0 as int, nodes[n].parent->0 as int));
    } else {
        lemma_path_extends(nodes, nodes[from].parent->0 as int, n);
    }
}

/// In a store that is in order, the upper end of the chain of parents of
/// a node is a node without parent that has seen every playout that the
/// node has seen.
pub proof fn lemma_top_has_most(nodes: Seq<NodeContent>, root: int, n: int)
    requires
        arena_ok(nodes, root),
        0 <= n < nodes.len(),
    ensures
        0 <= top_of(nodes, n) <= n,
        nodes[top_of(nodes, n)].parent is None,
        nodes[n].record.played <= nodes[top_of(nodes, n)].record.played,
        on_path(nodes, n, top_of(nodes, n)),
    decreases n,
{
    assert(node_ok(nodes, root, n));
    if nodes[n].parent is Some {
        lemma_top_has_most(nodes, root, nodes[n].parent->0 as int);
    }
}

} // verus!
