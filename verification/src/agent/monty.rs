//! The agent that searches.

use crate::agent::Agent;
use crate::game::board::Board;
use crate::game::lines::WIDTH;
use crate::mcst::choice::{advanced, chosen};
use crate::mcst::credit::lemma_explored_keeps;
use crate::mcst::growth::{expanded, lemma_expanded_keeps};
use crate::mcst::node::NodeContent;
use crate::mcst::select::{lemma_offer_is_live_leaf, rule_ok};
use crate::mcst::shape::{node_ok, slot_ok};
use crate::mcst::{room_for_step, steps_of, SearchTree};
use vstd::prelude::*;

verus! {

/// Picks its moves by Monte Carlo tree search. It keeps its tree from
/// move to move, and moves the root along with the game.
pub struct Monty<F> {
    pub search_tree: SearchTree<F>,
    pub iterations: usize,
}

impl<F: Fn(u64, u64, u64) -> u32> Monty<F> {
    /// An agent for a game that stands at `board`. For each move it
    /// searches `iterations` steps, and samples each new node
    /// `simulations` times; `scorer` ranks the leaves of its tree.
    pub fn new(board: Board, iterations: usize, simulations: usize, scorer: F) -> (monty: Monty<F>)
        requires
            board.ply_fits(),
            rule_ok(scorer),
        ensures
            monty.follows(board),
            monty.iterations == iterations,
            monty.search_tree.simulations == simulations,
            monty.search_tree.scorer == scorer,
            monty.search_tree.nodes@.len() == 1,
    {
        Monty { search_tree: SearchTree::new(board, simulations, scorer), iterations }
    }
}

/// What a search of `iterations` steps and the choice of a move make of
/// the store `before`: `searched` is the store after `steps` steps of the
/// search, all `iterations` of them unless the counters of the root run
/// out of room first; and `after` is `searched`, with the children of the
/// root made if the search has not made them.
pub open spec fn searched_by<F: Fn(u64, u64, u64) -> u32>(
    before: Seq<NodeContent>,
    root: int,
    times: int,
    f: F,
    iterations: int,
    steps: nat,
    searched: Seq<NodeContent>,
    after: Seq<NodeContent>,
) -> bool {
    &&& steps <= iterations
    &&& steps_of(before, root, times, f, steps, searched)
    &&& (steps == iterations || !room_for_step(searched, root, times))
    &&& if searched[root].children is Some {
        after == searched
    } else {
        expanded(searched, root, after)
    }
}

impl<F: Fn(u64, u64, u64) -> u32> Agent for Monty<F> {
    /// The tree is in order and its root shows `board`.
    open spec fn follows(&self, board: Board) -> bool {
        self.search_tree.well_formed() && self.search_tree.nodes@[self.search_tree.root as int].board
            == board
    }

    /// Searches as many steps as the agent is set to, for as long as the
    /// counters of the root have room, and picks the move that the tree
    /// speaks for. Should the root still be without children after that,
    /// they are made without sampling.
    fn select_move(&mut self, board: Board) -> (column: usize)
        ensures
            final(self).iterations == old(self).iterations,
            final(self).search_tree.root == old(self).search_tree.root,
            final(self).search_tree.nodes@[final(self).search_tree.root as int].children is Some,
            chosen(
                final(self).search_tree.nodes@,
                final(self).search_tree.root as int,
                column as int,
            ),
            final(self).search_tree.simulations == old(self).search_tree.simulations,
            final(self).search_tree.scorer == old(self).search_tree.scorer,
            exists|steps: nat, searched: Seq<NodeContent>| #[trigger]
                searched_by(
                    old(self).search_tree.nodes@,
                    old(self).search_tree.root as int,
                    old(self).search_tree.simulations as int,
                    old(self).search_tree.scorer,
                    old(self).iterations as int,
                    steps,
                    searched,
                    final(self).search_tree.nodes@,
                ),
    {
        let ghost start = self.search_tree.nodes@;
        let ghost mut steps: nat = 0;
        let mut i: usize = 0;
        while i < self.iterations
            invariant
                i <= self.iterations,
                self.follows(board),
                self.iterations == old(self).iterations,
                self.search_tree.root == old(self).search_tree.root,
                self.search_tree.simulations == old(self).search_tree.simulations,
                self.search_tree.scorer == old(self).search_tree.scorer,
                steps <= i,
                steps == i || !self.search_tree.has_room(),
                steps_of(
                    start,
                    self.search_tree.root as int,
                    self.search_tree.simulations as int,
                    self.search_tree.scorer,
                    steps,
                    self.search_tree.nodes@,
                ),
            decreases self.iterations - i,
        {
            if self.search_tree.can_iterate() {
                let ghost before = self.search_tree.nodes@;
                let ghost next = self.search_tree.next_leaf();
                proof {
                    if next is Some {
                        lemma_offer_is_live_leaf(
                            before,
                            self.search_tree.scorer,
                            self.search_tree.root as int,
                            self.search_tree.root as int,
                            before[self.search_tree.root as int].record.played,
                            WIDTH as int,
                        );
                    }
                }
                self.search_tree.iterate();
                proof {
                    steps = steps + 1;
                    if next is Some {
                        lemma_explored_keeps(
                            before,
                            next->0 as int,
                            self.search_tree.simulations as int,
                            self.search_tree.nodes@,
                            self.search_tree.root as int,
                        );
                    }
                }
            }
            i = i + 1;
        }
        let root: usize = self.search_tree.root;
        let ghost searched = self.search_tree.nodes@;
        if self.search_tree.nodes[root].is_leaf() {
            let ghost before = self.search_tree.nodes@;
            self.search_tree.expansion(root);
            proof {
                lemma_expanded_keeps(before, root as int, self.search_tree.nodes@, root as int);
            }
        }
        let column: usize = self.search_tree.choose_move();
        proof {
            assert(searched_by(
                start,
                root as int,
                self.search_tree.simulations as int,
                self.search_tree.scorer,
                self.iterations as int,
                steps,
                searched,
                self.search_tree.nodes@,
            ));
            let nodes = self.search_tree.nodes@;
            assert(node_ok(nodes, root as int, root as int));
            assert(slot_ok(nodes, root as int, column as int));
        }
        column
    }

    /// Moves the root of the tree along with the move played.
    fn record_move(&mut self, index: usize, board: Board) -> (played: Board)
        ensures
            final(self).iterations == old(self).iterations,
            final(self).search_tree.nodes@[final(self).search_tree.root as int].parent is None,
            old(self).search_tree.nodes@[old(self).search_tree.root as int].children is Some
                ==> advanced(
                old(self).search_tree.nodes@,
                old(self).search_tree.root as int,
                index as int,
                final(self).search_tree.root as int,
                final(self).search_tree.nodes@,
            ),
    {
        let ghost root_board = self.search_tree.nodes@[self.search_tree.root as int].board;
        let played: Board = self.search_tree.record_move(index, board);
        proof {
            root_board.lemma_leads_to_one(
                index as int,
                board,
                self.search_tree.nodes@[self.search_tree.root as int].board,
            );
        }
        played
    }
}

} // verus!
