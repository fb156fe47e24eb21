//! Selection: which leaf is expanded next.
//!
//! The tree is walked from the root. A node whose board is decided offers
//! nothing. A leaf offers itself, with a priority. A node with children
//! offers the best of what its children offer, the earlier column winning
//! a tie.

use crate::game::lines::WIDTH;
use crate::mcst::node::NodeContent;
use crate::mcst::record::Record;
use crate::mcst::shape::{arena_ok, lemma_top_has_most, node_ok, slot_ok, top_of};
use crate::mcst::valid_move::ValidMove;
use crate::mcst::SearchTree;
use vstd::prelude::*;

verus! {

/// The priority of a leaf that no playout has gone through yet. It is
/// above every rank that a scorer can give.
pub const UNVISITED: u64 = 0x1_0000_0000;

/// The rank that the scorer `f` gives to a leaf with `wins` wins out of
/// `played` playouts below a parent with `parent_played` playouts.
pub open spec fn rank_of<F: Fn(u64, u64, u64) -> u32>(
    f: F,
    wins: u64,
    played: u64,
    parent_played: u64,
) -> u32 {
    choose|r: u32| call_ensures(f, (wins, played, parent_played), r)
}

/// `f` is a rule: it can be asked about every leaf that has been visited,
/// and it gives one answer to one question.
pub open spec fn rule_ok<F: Fn(u64, u64, u64) -> u32>(f: F) -> bool {
    &&& forall|wins: u64, played: u64, parent_played: u64|
        0 < played && wins <= played && played <= parent_played ==> call_requires(
            f,
            (wins, played, parent_played),
        )
    &&& forall|wins: u64, played: u64, parent_played: u64, a: u32, b: u32|
        call_ensures(f, (wins, played, parent_played), a) && call_ensures(
            f,
            (wins, played, parent_played),
            b,
        ) ==> a == b
}

/// The priority of a leaf: beyond all ranks if it was never visited, else
/// the rank that the scorer gives it.
pub open spec fn leaf_priority<F: Fn(u64, u64, u64) -> u32>(
    f: F,
    record: Record,
    parent_played: u64,
) -> u64 {
    if record.played == 0 {
        UNVISITED
    } else {
        rank_of(f, record.wins, record.played, parent_played) as u64
    }
}

/// The better of two offers, each a leaf with its priority. The first one
/// stays unless the second is strictly better.
pub open spec fn better(first: Option<(usize, u64)>, second: Option<(usize, u64)>) -> Option<
    (usize, u64),
> {
    match (first, second) {
        (_, None) => first,
        (None, Some(_)) => second,
        (Some(a), Some(b)) => if b.1 > a.1 {
            second
        } else {
            first
        },
    }
}

/// What node `n` offers when only its first `upto` columns are looked at:
/// nothing if its board is decided; itself if it is a leaf; else the best
/// of what the children in those columns offer.
pub open spec fn descend<F: Fn(u64, u64, u64) -> u32>(
    nodes: Seq<NodeContent>,
    f: F,
    n: int,
    parent_played: u64,
    upto: int,
) -> Option<(usize, u64)>
    decreases nodes.len() - n, upto,
{
    if !(0 <= n < nodes.len()) || nodes[n].board.result is Some {
        None
    } else {
        match nodes[n].children {
            None => Some((n as usize, leaf_priority(f, nodes[n].record, parent_played))),
            Some(ch) => if upto <= 0 || upto > WIDTH {
                None
            } else {
                let found = descend(nodes, f, n, parent_played, upto - 1);
                match ch[upto - 1] {
                    ValidMove::Valid(k) => if n < k < nodes.len() {
                        better(
                            found,
                            descend(nodes, f, k as int, nodes[n].record.played, WIDTH as int),
                        )
                    } else {
                        found
                    },
                    ValidMove::Invalid => found,
                }
            },
        }
    }
}

impl<F: Fn(u64, u64, u64) -> u32> SearchTree<F> {
    /// The leaf that is expanded next, if there is one.
    pub open spec fn selected_leaf(&self) -> Option<usize> {
        match descend(
            self.nodes@,
            self.scorer,
            self.root as int,
            self.nodes@[self.root as int].record.played,
            WIDTH as int,
        ) {
            Some(offer) => Some(offer.0),
            None => None,
        }
    }

    /// The priority of the leaf stored at `node`: beyond every rank if no
    /// playout has gone through it, else the rank that the scorer gives.
    pub fn calculate_node_uctb(&self, node: usize, parent_sims: u64) -> (priority: u64)
        requires
            self.well_formed(),
            node < self.nodes@.len(),
            self.nodes@[node as int].record.played <= parent_sims,
        ensures
            priority == leaf_priority(self.scorer, self.nodes@[node as int].record, parent_sims),
    {
        let record: Record = self.nodes[node].record;
        proof {
            assert(node_ok(self.nodes@, self.root as int, node as int));
        }
        if record.played == 0 {
            UNVISITED
        } else {
            let rank: u32 = (self.scorer)(record.wins, record.played, parent_sims);
            rank as u64
        }
    }

    /// What the node stored at `node` offers, see `descend`.
    fn traverse_tree_ucb(&self, node: usize, parent_sims: u64) -> (found: Option<(usize, u64)>)
        requires
            self.well_formed(),
            node < self.nodes@.len(),
            top_of(self.nodes@, node as int) == self.root,
            self.nodes@[node as int].record.played <= parent_sims,
        ensures
            found == descend(self.nodes@, self.scorer, node as int, parent_sims, WIDTH as int),
        decreases self.nodes@.len() - node,
    {
        let content: NodeContent = self.nodes[node];
        if content.board.result.is_some() {
            return None;
        }
        match content.children {
            None => Some((node, self.calculate_node_uctb(node, parent_sims))),
            Some(children) => {
                let sims: u64 = content.record.played;
                let mut selected: Option<(usize, u64)> = None;
                let mut i: usize = 0;
                while i < WIDTH
                    invariant
                        i <= WIDTH,
                        self.well_formed(),
                        node < self.nodes@.len(),
                        top_of(self.nodes@, node as int) == self.root,
                        content == self.nodes@[node as int],
                        content.board.result is None,
                        content.children == Some(children),
                        sims == content.record.played,
                        selected == descend(
                            self.nodes@,
                            self.scorer,
                            node as int,
                            parent_sims,
                            i as int,
                        ),
                    decreases WIDTH - i,
                {
                    match children[i] {
                        ValidMove::Valid(child) => {
                            proof {
                                lemma_child_is_live(
                                    self.nodes@,
                                    self.root as int,
                                    node as int,
                                    i as int,
                                );
                            }
                            let offer = self.traverse_tree_ucb(child, sims);
                            match offer {
                                Some((_, rank)) => {
                                    let take: bool = match selected {
                                        Some((_, best)) => rank > best,
                                        None => true,
                                    };
                                    if take {
                                        selected = offer;
                                    }
                                },
                                None => {},
                            }
                        },
                        ValidMove::Invalid => {},
                    }
                    i = i + 1;
                }
                selected
            },
        }
    }

    /// Picks the leaf to expand next: among the leaves that can be reached
    /// from the root without passing a decided board, the one of the
    /// highest priority, found first in the order of the columns. There is
    /// none if every way down ends in a decided board.
    pub fn selection(&self) -> (selected: Option<usize>)
        requires
            self.well_formed(),
        ensures
            selected == self.selected_leaf(),
            selected matches Some(leaf) ==> {
                &&& leaf < self.nodes@.len()
                &&& self.nodes@[leaf as int].children is None
                &&& self.nodes@[leaf as int].board.result is None
                &&& top_of(self.nodes@, leaf as int) == self.root
            },
    {
        let root_sims: u64 = self.nodes[self.root].record.played;
        proof {
            assert(node_ok(self.nodes@, self.root as int, self.root as int));
            lemma_offer_is_live_leaf(
                self.nodes@,
                self.scorer,
                self.root as int,
                self.root as int,
                root_sims,
                WIDTH as int,
            );
        }
        match self.traverse_tree_ucb(self.root, root_sims) {
            Some((leaf, _)) => Some(leaf),
            None => None,
        }
    }
}

/// The priority of an offer; no offer is below every offer.
pub open spec fn offer_priority(offer: Option<(usize, u64)>) -> int {
    match offer {
        Some(o) => o.1 as int,
        None => -1,
    }
}

/// Column `c` of node `p` holds the node stored at `k`.
pub open spec fn holds_child(nodes: Seq<NodeContent>, p: int, c: int, k: int) -> bool {
    &&& 0 <= c < WIDTH
    &&& nodes[p].children matches Some(ch)
    &&& ch[c] == ValidMove::Valid(k as usize)
}

/// There is a way down from node `n` to node `k` on which no board is
/// decided, the board of `k` included.
pub open spec fn open_way(nodes: Seq<NodeContent>, n: int, k: int) -> bool
    decreases k,
{
    &&& 0 <= k < nodes.len()
    &&& nodes[k].board.result is None
    &&& (k == n || {
        &&& nodes[k].parent matches Some(p)
        &&& p < k
        &&& exists|c: int| #[trigger] holds_child(nodes, p as int, c, k)
        &&& open_way(nodes, n, p as int)
    })
}

/// A leaf that was never visited has a higher priority than any leaf that
/// was, whatever the scorer says.
pub proof fn lemma_unvisited_outranks<F: Fn(u64, u64, u64) -> u32>(
    f: F,
    fresh: Record,
    fresh_parent_played: u64,
    seen: Record,
    seen_parent_played: u64,
)
    requires
        fresh.played == 0,
        seen.played > 0,
    ensures
        leaf_priority(f, fresh, fresh_parent_played) > leaf_priority(f, seen, seen_parent_played),
{
}

/// The leaf of an offer was never visited exactly if the offer has the
/// priority of the unvisited.
pub proof fn lemma_offer_priority<F: Fn(u64, u64, u64) -> u32>(
    nodes: Seq<NodeContent>,
    f: F,
    n: int,
    parent_played: u64,
    upto: int,
)
    requires
        nodes.len() <= usize::MAX,
    ensures
        descend(nodes, f, n, parent_played, upto) matches Some(offer) ==> {
            &&& offer.0 < nodes.len()
            &&& offer.1 <= UNVISITED
            &&& (offer.1 == UNVISITED) == (nodes[offer.0 as int].record.played == 0)
        },
    decreases nodes.len() - n, upto,
{
    if 0 <= n < nodes.len() && nodes[n].board.result is None && nodes[n].children is Some && 0
        < upto <= WIDTH {
        lemma_offer_priority(nodes, f, n, parent_played, upto - 1);
        let ch = nodes[n].children->0;
        if ch[upto - 1] is Valid {
            let k = ch[upto - 1]->Valid_0 as int;
            if n < k < nodes.len() {
                lemma_offer_priority(nodes, f, k, nodes[n].record.played, WIDTH as int);
            }
        }
    }
}

/// Looking at more columns of a node never lowers what it offers.
pub proof fn lemma_descend_grows<F: Fn(u64, u64, u64) -> u32>(
    nodes: Seq<NodeContent>,
    f: F,
    n: int,
    parent_played: u64,
    upto: int,
    later: int,
)
    requires
        0 <= n < nodes.len(),
        nodes[n].board.result is None,
        nodes[n].children is Some,
        0 <= upto <= later <= WIDTH,
    ensures
        offer_priority(descend(nodes, f, n, parent_played, upto)) <= offer_priority(
            descend(nodes, f, n, parent_played, later),
        ),
    decreases later,
{
    if upto < later {
        lemma_descend_grows(nodes, f, n, parent_played, upto, later - 1);
    }
}

/// A node whose board is not decided offers at least what each of its
/// children offers.
pub proof fn lemma_descend_covers_child<F: Fn(u64, u64, u64) -> u32>(
    nodes: Seq<NodeContent>,
    f: F,
    n: int,
    parent_played: u64,
    c: int,
    k: int,
)
    requires
        nodes.len() <= usize::MAX,
        0 <= n < k < nodes.len(),
        nodes[n].board.result is None,
        holds_child(nodes, n, c, k),
    ensures
        offer_priority(descend(nodes, f, k, nodes[n].record.played, WIDTH as int))
            <= offer_priority(descend(nodes, f, n, parent_played, WIDTH as int)),
{
    let sub = descend(nodes, f, k, nodes[n].record.played, WIDTH as int);
    let found = descend(nodes, f, n, parent_played, c);
    assert(descend(nodes, f, n, parent_played, c + 1) == better(found, sub));
    lemma_descend_grows(nodes, f, n, parent_played, c + 1, WIDTH as int);
}

/// The played count that the walk hands to node `k` when it starts at
/// node `n` with `parent_played`: that of the parent of `k`, and for `n`
/// itself what the walk started with.
pub open spec fn handed_down(nodes: Seq<NodeContent>, n: int, parent_played: u64, k: int) -> u64 {
    if k == n || nodes[k].parent is None {
        parent_played
    } else {
        nodes[nodes[k].parent->0 as int].record.played
    }
}

/// A node offers at least what any node offers that an open way leads to.
pub proof fn lemma_descend_covers_way<F: Fn(u64, u64, u64) -> u32>(
    nodes: Seq<NodeContent>,
    f: F,
    n: int,
    parent_played: u64,
    k: int,
)
    requires
        nodes.len() <= usize::MAX,
        0 <= n,
        open_way(nodes, n, k),
    ensures
        offer_priority(
            descend(nodes, f, k, handed_down(nodes, n, parent_played, k), WIDTH as int),
        ) <= offer_priority(descend(nodes, f, n, parent_played, WIDTH as int)),
    decreases k,
{
    reveal_with_fuel(open_way, 2);
    if k != n {
        let p = nodes[k].parent->0 as int;
        let c = choose|c: int| #[trigger] holds_child(nodes, p, c, k);
        lemma_descend_covers_way(nodes, f, n, parent_played, p);
        lemma_descend_covers_child(nodes, f, p, handed_down(nodes, n, parent_played, p), c, k);
    }
}

/// An open way to a child's node goes on from its parent.
pub proof fn lemma_open_way_from_parent(nodes: Seq<NodeContent>, n: int, c: int, k: int, l: int)
    requires
        0 <= n < k < nodes.len() <= usize::MAX,
        nodes[n].board.result is None,
        nodes[k].parent == Some(n as usize),
        holds_child(nodes, n, c, k),
        open_way(nodes, k, l),
    ensures
        open_way(nodes, n, l),
        l >= k,
    decreases l,
{
    if l != k {
        let p = nodes[l].parent->0 as int;
        lemma_open_way_from_parent(nodes, n, c, k, p);
        assert(open_way(nodes, n, p));
    } else {
        assert(open_way(nodes, n, n));
        assert(holds_child(nodes, nodes[k].parent->0 as int, c, k));
    }
}

/// What a node below the root offers is a leaf at the end of an open way
/// from it, offered with its own priority.
pub proof fn lemma_offer_is_open_leaf<F: Fn(u64, u64, u64) -> u32>(
    nodes: Seq<NodeContent>,
    f: F,
    root: int,
    n: int,
    parent_played: u64,
    upto: int,
)
    requires
        arena_ok(nodes, root),
        0 <= n < nodes.len(),
        top_of(nodes, n) == root,
    ensures
        descend(nodes, f, n, parent_played, upto) matches Some(offer) ==> {
            &&& open_way(nodes, n, offer.0 as int)
            &&& nodes[offer.0 as int].children is None
            &&& offer.1 == leaf_priority(
                f,
                nodes[offer.0 as int].record,
                handed_down(nodes, n, parent_played, offer.0 as int),
            )
        },
    decreases nodes.len() - n, upto,
{
    if nodes[n].board.result is None && nodes[n].children is Some && 0 < upto <= WIDTH {
        lemma_offer_is_open_leaf(nodes, f, root, n, parent_played, upto - 1);
        let ch = nodes[n].children->0;
        if ch[upto - 1] is Valid {
            let k = ch[upto - 1]->Valid_0 as int;
            lemma_child_is_live(nodes, root, n, upto - 1);
            lemma_offer_is_open_leaf(nodes, f, root, k, nodes[n].record.played, WIDTH as int);
            let sub = descend(nodes, f, k, nodes[n].record.played, WIDTH as int);
            if sub is Some {
                let offer = sub->0;
                assert(holds_child(nodes, n, upto - 1, k));
                lemma_open_way_from_parent(nodes, n, upto - 1, k, offer.0 as int);
            }
        }
    }
}

/// The leaf selected is a best one: it lies at the end of an open way
/// from the root, and no leaf at the end of an open way from the root has
/// a higher priority.
pub proof fn lemma_selection_is_best<F: Fn(u64, u64, u64) -> u32>(
    nodes: Seq<NodeContent>,
    f: F,
    root: int,
    other: int,
)
    requires
        arena_ok(nodes, root),
        open_way(nodes, root, other),
        nodes[other].children is None,
    ensures
        ({
            let played = nodes[root].record.played;
            &&& descend(nodes, f, root, played, WIDTH as int) matches Some(offer)
            &&& open_way(nodes, root, offer.0 as int)
            &&& nodes[offer.0 as int].children is None
            &&& offer.1 == leaf_priority(
                f,
                nodes[offer.0 as int].record,
                handed_down(nodes, root, played, offer.0 as int),
            )
            &&& offer.1 >= leaf_priority(
                f,
                nodes[other].record,
                handed_down(nodes, root, played, other),
            )
        }),
{
    let played = nodes[root].record.played;
    lemma_descend_covers_way(nodes, f, root, played, other);
    lemma_offer_is_open_leaf(nodes, f, root, root, played, WIDTH as int);
}

/// As long as a leaf that was never visited can be reached from the root
/// on an open way, the leaf selected is one that was never visited: every
/// new leaf is sampled before any leaf is looked at again.
pub proof fn lemma_unvisited_goes_first<F: Fn(u64, u64, u64) -> u32>(
    nodes: Seq<NodeContent>,
    f: F,
    root: int,
    target: int,
)
    requires
        nodes.len() <= usize::MAX,
        0 <= root,
        open_way(nodes, root, target),
        nodes[target].children is None,
        nodes[target].record.played == 0,
    ensures
        ({
            &&& descend(nodes, f, root, nodes[root].record.played, WIDTH as int) matches Some(
                offer,
            )
            &&& offer.0 < nodes.len()
            &&& nodes[offer.0 as int].record.played == 0
        }),
{
    let played = nodes[root].record.played;
    lemma_descend_covers_way(nodes, f, root, played, target);
    lemma_offer_priority(nodes, f, root, played, WIDTH as int);
}

/// A child of a node below the root is below the root, names that node as
/// its parent and has seen no more playouts than it.
pub proof fn lemma_child_is_live(nodes: Seq<NodeContent>, root: int, n: int, c: int)
    requires
        arena_ok(nodes, root),
        0 <= n < nodes.len(),
        top_of(nodes, n) == root,
        0 <= c < WIDTH,
        nodes[n].children is Some,
        nodes[n].children->0[c] is Valid,
    ensures
        ({
            let k = nodes[n].children->0[c]->Valid_0 as int;
            &&& n < k < nodes.len()
            &&& nodes[k].parent == Some(n as usize)
            &&& top_of(nodes, k) == root
            &&& nodes[k].record.played <= nodes[n].record.played
        }),
{
    let k = nodes[n].children->0[c]->Valid_0 as int;
    assert(node_ok(nodes, root, n));
    assert(slot_ok(nodes, n, c));
    assert(node_ok(nodes, root, k));
    lemma_top_has_most(nodes, root, n);
}

/// What a node below the root offers is a leaf below the root whose board
/// is not decided.
pub proof fn lemma_offer_is_live_leaf<F: Fn(u64, u64, u64) -> u32>(
    nodes: Seq<NodeContent>,
    f: F,
    root: int,
    n: int,
    parent_played: u64,
    upto: int,
)
    requires
        arena_ok(nodes, root),
        0 <= n < nodes.len(),
        top_of(nodes, n) == root,
    ensures
        descend(nodes, f, n, parent_played, upto) matches Some(offer) ==> {
            &&& offer.0 < nodes.len()
            &&& nodes[offer.0 as int].children is None
            &&& nodes[offer.0 as int].board.result is None
            &&& top_of(nodes, offer.0 as int) == root
        },
    decreases nodes.len() - n, upto,
{
    if nodes[n].board.result is None && nodes[n].children is Some && 0 < upto <= WIDTH {
        lemma_offer_is_live_leaf(nodes, f, root, n, parent_played, upto - 1);
        let ch = nodes[n].children->0;
        if ch[upto - 1] is Valid {
            let k = ch[upto - 1]->Valid_0 as int;
            lemma_child_is_live(nodes, root, n, upto - 1);
            lemma_offer_is_live_leaf(nodes, f, root, k, nodes[n].record.played, WIDTH as int);
        }
    }
}

} // verus!
