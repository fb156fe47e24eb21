//! Monte Carlo tree search over the positions of the game.

pub mod choice;
pub mod credit;
pub mod growth;
pub mod node;
pub mod playout;
pub mod record;
pub mod seek;
pub mod select;
pub mod shape;
pub mod valid_move;

use crate::game::board::{lemma_open_columns, open_columns, Board};
use crate::game::lines::{HEIGHT, WIDTH};
use crate::game::player::Player;
use crate::game::result::GameResult;
use crate::mcst::choice::{advanced, chosen, cut, move_score, proven_win};
use crate::mcst::credit::{
    counted, credit_rounds, credited_path, explored, explored_by, kept, lemma_credit_all_push,
    lemma_credit_is_path, lemma_credit_keeps_order, lemma_credit_rounds_push,
    lemma_sampled_next_child, lemma_sampled_once_more, lemma_step_credits_movers,
    lost_by_children, rounds_of, sample_of, sampled_children, sampled_path, sampled_with,
};
use crate::mcst::growth::{
    child_place, expanded, growing, known_after, lemma_growing_step, lemma_leaf_filled,
    lemma_places_ascend, slot_made, some_win_at_once,
};
use crate::mcst::node::{write_once, NodeContent};
use crate::mcst::playout::playout_of;
use crate::mcst::select::{descend, rule_ok};
use crate::mcst::shape::{
    arena_ok, lemma_path_extends, lemma_path_goes_down, lemma_path_same, lemma_top_has_most,
    node_ok, on_path, result_ok, slot_ok, top_of,
};
use crate::mcst::valid_move::ValidMove;
use vstd::prelude::*;

verus! {

/// A search tree. `nodes` stores every node that was ever made; `root` is
/// the place of the node that stands for the position on the table;
/// `simulations` is the number of playouts run from each new child;
/// `scorer` ranks the visited leaves when the next one to expand is
/// chosen.
///
/// The scorer is handed the wins and the playouts of a leaf and the
/// playouts of its parent, and answers with a rank; the leaf of the
/// highest rank is expanded next. The tree is meant to be used with the
/// UCB1 rule, mean win rate plus `sqrt(2 * ln(parent playouts) / playouts)`,
/// mapped to integers in a way that keeps its order; what is proved of the
/// tree holds for every rule.
pub struct SearchTree<F> {
    pub nodes: Vec<NodeContent>,
    pub root: usize,
    pub simulations: usize,
    pub scorer: F,
}

impl<F: Fn(u64, u64, u64) -> u32> SearchTree<F> {
    /// The tree is in order: its store is, and its scorer is a rule.
    pub open spec fn well_formed(&self) -> bool {
        arena_ok(self.nodes@, self.root as int) && rule_ok(self.scorer)
    }

    /// A tree that holds one node, the root, for `board`. Each child made
    /// later will be sampled `simulations` times, and `scorer` ranks the
    /// leaves.
    pub fn new(board: Board, simulations: usize, scorer: F) -> (tree: SearchTree<F>)
        requires
            board.ply_fits(),
            rule_ok(scorer),
        ensures
            tree.scorer == scorer,
            tree.well_formed(),
            tree.root == 0,
            tree.nodes@.len() == 1,
            tree.nodes@[0].board == board,
            tree.nodes@[0].parent is None,
            tree.nodes@[0].record.wins == 0,
            tree.nodes@[0].record.played == 0,
            tree.nodes@[0].children is None,
            tree.nodes@[0].result is None,
            tree.simulations == simulations,
    {
        let mut nodes: Vec<NodeContent> = Vec::new();
        nodes.push(NodeContent::new_root(board));
        let tree = SearchTree { nodes, root: 0, simulations, scorer };
        assert(node_ok(tree.nodes@, 0, 0));
        tree
    }

    /// Stores a new node for `board` as the child of the leaf stored at
    /// `parent` that the move into column `index` leads to, and returns its
    /// place. The leaf learns of its children only when all of them have
    /// been made, see `expansion`.
    pub fn new_child(&mut self, parent: usize, index: usize, board: Board) -> (place: usize)
        requires
            old(self).well_formed(),
            parent < old(self).nodes@.len(),
            old(self).nodes@[parent as int].children is None,
            index < WIDTH,
            board.ply_fits(),
        ensures
            final(self).well_formed(),
            final(self).root == old(self).root,
            final(self).simulations == old(self).simulations,
            final(self).scorer == old(self).scorer,
            place == old(self).nodes@.len(),
            final(self).nodes@.len() == place + 1,
            forall|j: int| 0 <= j < place ==> final(self).nodes@[j] == old(self).nodes@[j],
            final(self).nodes@[place as int].board == board,
            final(self).nodes@[place as int].parent == Some(parent),
            final(self).nodes@[place as int].record.wins == 0,
            final(self).nodes@[place as int].record.played == 0,
            final(self).nodes@[place as int].children is None,
            final(self).nodes@[place as int].result == board.result,
    {
        let ghost before = self.nodes@;
        let place: usize = self.nodes.len();
        self.nodes.push(NodeContent::new_child(parent, board));
        proof {
            vstd::std_specs::vec::axiom_spec_len(&self.nodes);
            assert forall|n: int| 0 <= n < self.nodes@.len() implies #[trigger] node_ok(
                self.nodes@,
                self.root as int,
                n,
            ) by {
                if n < place {
                    assert(node_ok(before, self.root as int, n));
                    assert forall|c: int| 0 <= c < WIDTH implies #[trigger] slot_ok(
                        self.nodes@,
                        n,
                        c,
                    ) by {
                        assert(slot_ok(before, n, c));
                    }
                } else {
                    assert(node_ok(before, self.root as int, parent as int));
                }
            }
        }
        place
    }

    /// Makes the children of the leaf stored at `leaf`: one node for each
    /// legal move, with the position that the move leads to. If one of
    /// the moves wins at once for the side to move, and no outcome of the
    /// leaf is known yet, that win becomes the known outcome of the leaf.
    pub fn expansion(&mut self, leaf: usize)
        requires
            old(self).well_formed(),
            leaf < old(self).nodes@.len(),
            old(self).nodes@[leaf as int].children is None,
        ensures
            final(self).well_formed(),
            final(self).root == old(self).root,
            final(self).simulations == old(self).simulations,
            final(self).scorer == old(self).scorer,
            expanded(old(self).nodes@, leaf as int, final(self).nodes@),
    {
        let ghost before = self.nodes@;
        let node: NodeContent = self.nodes[leaf];
        let board: Board = node.board;
        let mover: Player = board.active_player();
        let mut new_leaves: [ValidMove<usize>; WIDTH] = [ValidMove::Invalid;WIDTH];
        let mut proven: Option<GameResult> = node.result;
        let mut selected_move: usize = 0;
        proof {
            assert(node_ok(before, self.root as int, leaf as int));
            vstd::array::axiom_spec_array_fill_for_copy_type::<ValidMove<usize>, WIDTH>(
                ValidMove::Invalid,
            );
        }
        while selected_move < WIDTH
            invariant
                selected_move <= WIDTH,
                leaf < before.len(),
                node == before[leaf as int],
                board == node.board,
                node.children is None,
                mover == board.mover(),
                board.ply_fits(),
                self.root == old(self).root,
                self.simulations == old(self).simulations,
                self.scorer == old(self).scorer,
                self.well_formed(),
                result_ok(node),
                growing(before, leaf as int, self.nodes@, new_leaves, selected_move as int),
                forall|c: int|
                    selected_move <= c < WIDTH ==> new_leaves[c] == ValidMove::<usize>::Invalid,
                proven == known_after(
                    node,
                    some_win_at_once(self.nodes@, new_leaves, mover, selected_move as int),
                ),
            decreases WIDTH - selected_move,
        {
            let ghost nodes_then = self.nodes@;
            let ghost leaves_then = new_leaves;
            if board.column_pieces[selected_move] < HEIGHT {
                proof {
                    board.lemma_legal_has_room(selected_move as int);
                }
                let new_state: Board = board.play_move(selected_move);
                proof {
                    board.lemma_move_keeps_fit(selected_move as int, new_state);
                }
                let place: usize = self.new_child(leaf, selected_move, new_state);
                new_leaves[selected_move] = ValidMove::Valid(place);
                match new_state.result {
                    Some(GameResult::Win(winner)) => {
                        if winner == mover {
                            let written: bool = write_once(&mut proven, GameResult::Win(winner));
                            // A second write never brings another outcome.
                            assert(written || proven == Some(GameResult::Win(winner)));
                        }
                    },
                    _ => {},
                }
            }
            proof {
                lemma_growing_step(
                    before,
                    leaf as int,
                    nodes_then,
                    leaves_then,
                    self.nodes@,
                    new_leaves,
                    selected_move as int,
                );
            }
            selected_move = selected_move + 1;
        }
        let ghost grown = self.nodes@;
        let mut filled: NodeContent = node;
        let written: bool = write_once(&mut filled.children, new_leaves);
        assert(written);
        filled.result = proven;
        self.nodes[leaf] = filled;
        proof {
            lemma_leaf_filled(before, self.root as int, leaf as int, grown, new_leaves, self.nodes@);
        }
    }

    /// Moves the root to its child in column `index`, after that move has
    /// been played on the table, and hands `board` back. If the children
    /// of the root have not been made yet, they are made first. What was
    /// explored below the child stays as it is.
    pub fn record_move(&mut self, index: usize, board: Board) -> (played: Board)
        requires
            old(self).well_formed(),
            old(self).nodes@[old(self).root as int].board.legal(index as int),
        ensures
            final(self).well_formed(),
            final(self).simulations == old(self).simulations,
            final(self).scorer == old(self).scorer,
            played == board,
            final(self).nodes@[final(self).root as int].parent is None,
            old(self).nodes@[old(self).root as int].board.leads_to(
                index as int,
                final(self).nodes@[final(self).root as int].board,
            ),
            old(self).nodes@[old(self).root as int].board.leads_to(index as int, board)
                ==> final(self).nodes@[final(self).root as int].board == board,
            old(self).nodes@[old(self).root as int].children is Some ==> advanced(
                old(self).nodes@,
                old(self).root as int,
                index as int,
                final(self).root as int,
                final(self).nodes@,
            ),
            old(self).nodes@[old(self).root as int].children is None ==> exists|
                grown: Seq<NodeContent>,
            | #[trigger]
                expanded(old(self).nodes@, old(self).root as int, grown) && advanced(
                    grown,
                    old(self).root as int,
                    index as int,
                    final(self).root as int,
                    final(self).nodes@,
                ),
    {
        let root: usize = self.root;
        let ghost before = self.nodes@;
        if self.nodes[root].children.is_none() {
            self.expansion(root);
        }
        let ghost grown = self.nodes@;
        let children: [ValidMove<usize>; WIDTH] = match self.nodes[root].children {
            Some(children) => children,
            None => {
                return board;
            },
        };
        proof {
            assert(node_ok(grown, root as int, root as int));
            assert(slot_ok(grown, root as int, index as int));
        }
        let new_root: usize = match children[index] {
            ValidMove::Valid(c) => c,
            ValidMove::Invalid => {
                return board;
            },
        };
        proof {
            if before[root as int].board.leads_to(index as int, board) {
                before[root as int].board.lemma_leads_to_one(
                    index as int,
                    grown[new_root as int].board,
                    board,
                );
            }
        }
        let mut node: NodeContent = self.nodes[new_root];
        node.parent = None;
        self.nodes[new_root] = node;
        self.root = new_root;
        proof {
            assert(self.nodes@ == grown.update(new_root as int, cut(grown[new_root as int])));
            assert forall|n: int| 0 <= n < self.nodes@.len() implies #[trigger] node_ok(
                self.nodes@,
                new_root as int,
                n,
            ) by {
                assert(node_ok(grown, root as int, n));
                assert forall|c: int| 0 <= c < WIDTH implies #[trigger] slot_ok(
                    self.nodes@,
                    n,
                    c,
                ) by {
                    assert(slot_ok(grown, n, c));
                }
            }
        }
        board
    }

    /// Picks the move to play at the root: the first move known to win
    /// for the side to move; else the move that counts most, where a
    /// move known to be lost counts -2, one known to be drawn 0, and any
    /// other the playouts that went through it; of several that count the
    /// same, the first.
    pub fn choose_move(&self) -> (column: usize)
        requires
            self.well_formed(),
            self.nodes@[self.root as int].children is Some,
            !self.nodes@[self.root as int].board.full(),
        ensures
            chosen(self.nodes@, self.root as int, column as int),
    {
        let root: NodeContent = self.nodes[self.root];
        let mover: Player = root.board.active_player();
        let children: [ValidMove<usize>; WIDTH] = match root.children {
            Some(children) => children,
            None => {
                return 0;
            },
        };
        let mut m: Option<usize> = None;
        let mut m_s: i128 = i128::MIN;
        let mut i: usize = 0;
        proof {
            assert(node_ok(self.nodes@, self.root as int, self.root as int));
        }
        while i < WIDTH
            invariant
                i <= WIDTH,
                self.well_formed(),
                root == self.nodes@[self.root as int],
                root.children == Some(children),
                mover == root.board.mover(),
                forall|c: int|
                    0 <= c < i ==> !#[trigger] proven_win(self.nodes@, children, mover, c),
                match m {
                    Some(best) => {
                        &&& best < i
                        &&& move_score(self.nodes@, children, best as int) == Some(m_s as int)
                        &&& forall|c: int|
                            0 <= c < i ==> (#[trigger] move_score(
                                self.nodes@,
                                children,
                                c,
                            ) matches Some(score) ==> score <= m_s && (c < best ==> score < m_s))
                    },
                    None => {
                        &&& m_s == i128::MIN
                        &&& forall|c: int|
                            0 <= c < i ==> #[trigger] move_score(self.nodes@, children, c) is None
                    },
                },
            decreases WIDTH - i,
        {
            proof {
                assert(node_ok(self.nodes@, self.root as int, self.root as int));
                assert(slot_ok(self.nodes@, self.root as int, i as int));
            }
            let r: i128 = match children[i] {
                ValidMove::Valid(c) => {
                    let child: NodeContent = self.nodes[c];
                    match child.result {
                        Some(GameResult::Win(winner)) => {
                            if winner == mover {
                                assert(proven_win(self.nodes@, children, mover, i as int));
                                return i;
                            } else {
                                -2
                            }
                        },
                        Some(GameResult::Draw) => 0,
                        None => child.record.played as i128,
                    }
                },
                ValidMove::Invalid => i128::MIN,
            };
            if r > m_s {
                m = Some(i);
                m_s = r;
            }
            i = i + 1;
        }
        proof {
            let c = choose|c: int| 0 <= c < WIDTH && root.board.column_pieces@[c] < HEIGHT;
            assert(node_ok(self.nodes@, self.root as int, self.root as int));
            assert(slot_ok(self.nodes@, self.root as int, c));
            assert(move_score(self.nodes@, children, c) is Some);
        }
        match m {
            Some(best) => best,
            None => 0,
        }
    }

    /// Plays one playout from the position of the node stored at `leaf`
    /// and returns its outcome, with a draw turned into a win of a side
    /// picked at random. The tree is left as it is.
    pub fn simulation(&mut self, leaf: usize) -> (outcome: GameResult)
        requires
            old(self).well_formed(),
            leaf < old(self).nodes@.len(),
        ensures
            final(self).nodes@ == old(self).nodes@,
            final(self).root == old(self).root,
            final(self).simulations == old(self).simulations,
            final(self).scorer == old(self).scorer,
            outcome.decided(),
            sample_of(old(self).nodes@[leaf as int].board, outcome),
    {
        proof {
            assert(node_ok(self.nodes@, self.root as int, leaf as int));
        }
        let board: Board = self.nodes[leaf].board;
        let raw: GameResult = crate::mcst::playout::from(board);
        let outcome: GameResult = raw.fair_random_result();
        proof {
            assert(playout_of(board, raw) && (outcome == raw.settled(true) || outcome
                == raw.settled(false)));
            assert(sample_of(board, outcome));
        }
        outcome
    }

    /// Samples the node stored at `child`: runs as many playouts from it
    /// as the tree is set to, and hands each outcome up the tree.
    fn sample_child(&mut self, child: usize)
        requires
            old(self).well_formed(),
            child < old(self).nodes@.len(),
            old(self).nodes@[top_of(old(self).nodes@, child as int)].record.played + old(
                self,
            ).simulations <= u64::MAX,
        ensures
            final(self).well_formed(),
            final(self).root == old(self).root,
            final(self).simulations == old(self).simulations,
            final(self).scorer == old(self).scorer,
            sampled_path(
                old(self).nodes@,
                child as int,
                old(self).simulations as int,
                final(self).nodes@,
            ),
            exists|outcomes: Seq<GameResult>| #[trigger]
                sampled_with(
                    old(self).nodes@,
                    child as int,
                    old(self).simulations as int,
                    outcomes,
                    final(self).nodes@,
                ),
    {
        let ghost before = self.nodes@;
        let ghost top = top_of(before, child as int);
        let ghost mut outcomes: Seq<GameResult> = Seq::empty();
        let mut i: usize = 0;
        proof {
            lemma_top_has_most(before, self.root as int, child as int);
        }
        while i < self.simulations
            invariant
                i <= self.simulations,
                self.well_formed(),
                self.root == old(self).root,
                self.simulations == old(self).simulations,
                self.scorer == old(self).scorer,
                child < before.len(),
                top == top_of(before, child as int),
                0 <= top < before.len(),
                on_path(before, child as int, top),
                before[top].record.played + self.simulations <= u64::MAX,
                sampled_path(before, child as int, i as int, self.nodes@),
                sampled_with(before, child as int, i as int, outcomes, self.nodes@),
            decreases self.simulations - i,
        {
            let ghost now = self.nodes@;
            proof {
                assert(on_path(before, child as int, child as int));
                assert(kept(before[child as int], now[child as int]));
            }
            let sim_result: GameResult = self.simulation(child);
            proof {
                lemma_path_same(before, now, child as int, top);
                assert(kept(before[top], now[top]));
                assert forall|j: int| 0 <= j < now.len() && on_path(now, child as int, j) implies (
                #[trigger] now[j]).record.played < u64::MAX && now[j].record.wins
                    <= now[j].record.played by {
                    assert(node_ok(now, self.root as int, j));
                    lemma_top_has_most(now, self.root as int, j);
                    lemma_path_goes_down(now, child as int, j);
                }
            }
            backpropagation(self, child, sim_result);
            proof {
                lemma_sampled_once_more(
                    before,
                    child as int,
                    i as int,
                    now,
                    sim_result,
                    self.nodes@,
                );
                lemma_credit_is_path(now, child as int, sim_result, self.nodes@);
                lemma_credit_all_push(before, child as int, outcomes, sim_result);
                outcomes = outcomes.push(sim_result);
            }
            i = i + 1;
        }
    }

    /// The leaf that the next step of the search expands: none if the
    /// outcome of the root is known or no leaf can be selected.
    pub open spec fn next_leaf(&self) -> Option<usize> {
        if self.nodes@[self.root as int].result is Some {
            None
        } else {
            self.selected_leaf()
        }
    }

    /// The counters of the root have room for the playouts of one more
    /// step of the search.
    pub open spec fn has_room(&self) -> bool {
        room_for_step(self.nodes@, self.root as int, self.simulations as int)
    }

    /// Whether the counters of the root have room for one more step.
    pub fn can_iterate(&self) -> (room: bool)
        requires
            self.well_formed(),
        ensures
            room == self.has_room(),
    {
        let played: u64 = self.nodes[self.root].record.played;
        let simulations: u64 = self.simulations as u64;
        let left: u64 = u64::MAX - played;
        assert(WIDTH * self.simulations <= left <==> self.simulations <= left / 7) by (nonlinear_arith)
            requires
                WIDTH == 7,
                0 <= left,
                0 <= self.simulations,
        ;
        simulations <= left / 7
    }

    /// One step of the search. Nothing happens if the outcome of the root
    /// is known, or if no leaf can be selected. Else the selected leaf is
    /// expanded, and from each new child as many playouts are run as the
    /// tree is set to, each handed up from the child to the root.
    pub fn iterate(&mut self)
        requires
            old(self).well_formed(),
            old(self).next_leaf() is Some ==> old(self).has_room(),
        ensures
            final(self).well_formed(),
            final(self).root == old(self).root,
            final(self).simulations == old(self).simulations,
            final(self).scorer == old(self).scorer,
            match old(self).next_leaf() {
                None => final(self).nodes@ == old(self).nodes@,
                Some(leaf) => explored(
                    old(self).nodes@,
                    leaf as int,
                    old(self).simulations as int,
                    final(self).nodes@,
                ),
            },
            step_of(
                old(self).nodes@,
                old(self).root as int,
                old(self).simulations as int,
                old(self).scorer,
                final(self).nodes@,
            ),
            old(self).next_leaf() matches Some(leaf) ==> final(self).nodes@[leaf as int].record.wins
                == old(self).nodes@[leaf as int].record.wins + lost_by_children(
                final(self).nodes@,
                old(self).nodes@.len() as int,
                old(self).nodes@[leaf as int].board.moves().len(),
            ),
    {
        if self.nodes[self.root].result.is_some() {
            return ;
        }
        let leaf: usize = match self.selection() {
            Some(leaf) => leaf,
            None => {
                return ;
            },
        };
        let ghost before = self.nodes@;
        let ghost root = self.root as int;
        let first: usize = self.nodes.len();
        self.expansion(leaf);
        let ghost grown = self.nodes@;
        let children: [ValidMove<usize>; WIDTH] = match self.nodes[leaf].children {
            Some(children) => children,
            None => {
                return ;
            },
        };
        let ghost heights = before[leaf as int].board.column_pieces@;
        let ghost mut rounds: Seq<Seq<GameResult>> = Seq::empty();
        proof {
            lemma_top_has_most(before, root, leaf as int);
            lemma_path_same(before, grown, leaf as int, root);
            assert(before[root].record == grown[root].record);
            assert(0 * self.simulations == 0);
        }
        let mut i: usize = 0;
        while i < WIDTH
            invariant
                i <= WIDTH,
                self.well_formed(),
                self.root == old(self).root,
                self.simulations == old(self).simulations,
                self.scorer == old(self).scorer,
                root == self.root,
                leaf < first,
                first == before.len(),
                first <= grown.len(),
                arena_ok(grown, root),
                expanded(before, leaf as int, grown),
                grown[leaf as int].children == Some(children),
                heights == grown[leaf as int].board.column_pieces@,
                top_of(grown, leaf as int) == root,
                on_path(grown, leaf as int, root),
                grown[root].record.played + WIDTH * self.simulations <= u64::MAX,
                sampled_children(
                    grown,
                    leaf as int,
                    first as int,
                    i as int,
                    self.simulations as int,
                    self.nodes@,
                ),
                rounds_of(
                    grown,
                    first as int,
                    open_columns(heights, i as nat).len() as int,
                    self.simulations as int,
                    rounds,
                ),
                self.nodes@ == credit_rounds(grown, first as int, rounds),
            decreases WIDTH - i,
        {
            let ghost now = self.nodes@;
            proof {
                assert(slot_made(before, leaf as int, grown, children, i as int));
                lemma_places_ascend(heights, i as int, WIDTH as int);
                lemma_open_columns(heights, i as nat);
            }
            match children[i] {
                ValidMove::Valid(m) => {
                    proof {
                        let sampled = open_columns(heights, i as nat).len() as int;
                        assert(m == child_place(first as int, heights, i as int));
                        assert(grown[m as int].parent == Some(leaf));
                        assert forall|j: int| 0 <= j < grown.len() implies (
                        #[trigger] grown[j]).parent == now[j].parent by {
                            assert(kept(grown[j], now[j]));
                        }
                        lemma_path_same(grown, now, m as int, root);
                        assert(top_of(grown, m as int) == top_of(grown, leaf as int));
                        assert(counted(grown[root], sampled * self.simulations, now[root]));
                        assert(sampled * self.simulations + self.simulations <= WIDTH
                            * self.simulations) by (nonlinear_arith)
                            requires
                                0 <= sampled < WIDTH,
                                WIDTH == 7,
                                0 <= self.simulations,
                        ;
                    }
                    self.sample_child(m);
                    proof {
                        let outcomes = choose|outcomes: Seq<GameResult>| #[trigger]
                            sampled_with(
                                now,
                                m as int,
                                self.simulations as int,
                                outcomes,
                                self.nodes@,
                            );
                        assert(kept(grown[m as int], now[m as int]));
                        lemma_credit_rounds_push(grown, first as int, rounds, outcomes);
                        rounds = rounds.push(outcomes);
                        lemma_sampled_next_child(
                            grown,
                            leaf as int,
                            first as int,
                            i as int,
                            self.simulations as int,
                            now,
                            m as int,
                            self.nodes@,
                        );
                    }
                },
                ValidMove::Invalid => {
                    proof {
                        assert(open_columns(heights, (i + 1) as nat) == open_columns(
                            heights,
                            i as nat,
                        ));
                    }
                },
            }
            i = i + 1;
        }
        proof {
            assert(explored_by(
                before,
                leaf as int,
                self.simulations as int,
                grown,
                rounds,
                self.nodes@,
            ));
            vstd::std_specs::vec::axiom_spec_len(&self.nodes);
            assert(node_ok(before, root, leaf as int));
            lemma_top_has_most(before, root, leaf as int);
            lemma_step_credits_movers(before, leaf as int, self.simulations as int, self.nodes@);
        }
    }
}

/// Whether `after` can be the store that one step of the search makes of
/// the store `nodes`: the same store if the outcome of the root is known
/// or no leaf can be selected; else the store with the selected leaf
/// expanded and its children sampled `times` times each.
pub open spec fn step_of<F: Fn(u64, u64, u64) -> u32>(
    nodes: Seq<NodeContent>,
    root: int,
    times: int,
    f: F,
    after: Seq<NodeContent>,
) -> bool {
    if nodes[root].result is Some {
        after == nodes
    } else {
        match descend(nodes, f, root, nodes[root].record.played, WIDTH as int) {
            None => after == nodes,
            Some(offer) => explored(nodes, offer.0 as int, times, after),
        }
    }
}

/// Whether `after` can be the store that `n` steps of the search, one
/// after the other, make of the store `nodes`.
pub open spec fn steps_of<F: Fn(u64, u64, u64) -> u32>(
    nodes: Seq<NodeContent>,
    root: int,
    times: int,
    f: F,
    n: nat,
    after: Seq<NodeContent>,
) -> bool
    decreases n,
{
    if n == 0 {
        after == nodes
    } else {
        exists|mid: Seq<NodeContent>|
            steps_of(nodes, root, times, f, (n - 1) as nat, mid) && #[trigger] step_of(
                mid,
                root,
                times,
                f,
                after,
            )
    }
}

/// The counters of the root have room for the playouts of one more step.
pub open spec fn room_for_step(nodes: Seq<NodeContent>, root: int, times: int) -> bool {
    nodes[root].record.played + WIDTH * times <= u64::MAX
}

/// Hands the outcome `result` of one playout up from the node stored at
/// `leaf`: that node and each node above it, up to the one without
/// parent, counts one more playout, and one more win where the winner is
/// the side to move at that node.
pub fn backpropagation<F: Fn(u64, u64, u64) -> u32>(
    tree: &mut SearchTree<F>,
    leaf: usize,
    result: GameResult,
)
    requires
        old(tree).well_formed(),
        leaf < old(tree).nodes@.len(),
        result is Win,
        old(tree).nodes@[top_of(old(tree).nodes@, leaf as int)].record.played < u64::MAX,
    ensures
        final(tree).well_formed(),
        final(tree).root == old(tree).root,
        final(tree).simulations == old(tree).simulations,
        final(tree).scorer == old(tree).scorer,
        credited_path(old(tree).nodes@, leaf as int, result, final(tree).nodes@),
{
    let ghost before = tree.nodes@;
    let ghost root = tree.root as int;
    let ghost mut pending: int = leaf as int;
    let mut cur: usize = leaf;
    let mut more: bool = true;
    assert(on_path(before, leaf as int, leaf as int));
    while more
        invariant
            arena_ok(before, root),
            tree.root == old(tree).root,
            tree.simulations == old(tree).simulations,
            tree.scorer == old(tree).scorer,
            result is Win,
            0 <= leaf < before.len(),
            before[top_of(before, leaf as int)].record.played < u64::MAX,
            tree.nodes@.len() == before.len(),
            more ==> pending == cur && cur < before.len() && on_path(
                before,
                leaf as int,
                cur as int,
            ),
            !more ==> pending == -1,
            forall|j: int|
                0 <= j < before.len() ==> #[trigger] tree.nodes@[j] == if on_path(
                    before,
                    leaf as int,
                    j,
                ) && !on_path(before, pending, j) {
                    before[j].credited(result)
                } else {
                    before[j]
                },
        decreases
                if more {
                    cur + 1
                } else {
                    0
                },
    {
        let ghost then = tree.nodes@;
        proof {
            assert(node_ok(before, root, cur as int));
            lemma_path_goes_down(before, leaf as int, cur as int);
            lemma_top_has_most(before, root, cur as int);
            assert(on_path(before, cur as int, cur as int));
            assert(then[cur as int] == before[cur as int]);
        }
        let mut node: NodeContent = tree.nodes[cur];
        node.record_result(result);
        tree.nodes[cur] = node;
        let ghost here = cur as int;
        match node.parent {
            Some(p) => {
                cur = p;
                proof {
                    pending = p as int;
                    assert(on_path(before, leaf as int, p as int)) by {
                        lemma_path_extends(before, leaf as int, here);
                    }
                }
            },
            None => {
                more = false;
                proof {
                    pending = -1;
                }
            },
        }
        proof {
            assert forall|j: int| 0 <= j < before.len() implies #[trigger] tree.nodes@[j]
                == if on_path(before, leaf as int, j) && !on_path(before, pending, j) {
                before[j].credited(result)
            } else {
                before[j]
            } by {
                assert(tree.nodes@[j] == if j == here {
                    node
                } else {
                    then[j]
                });
                if on_path(before, pending, j) {
                    lemma_path_goes_down(before, pending, j);
                }
            }
        }
    }
    proof {
        assert(credited_path(before, leaf as int, result, tree.nodes@));
        lemma_credit_keeps_order(before, root, leaf as int, result, tree.nodes@);
    }
}

} // verus!
