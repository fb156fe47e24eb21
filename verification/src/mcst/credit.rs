//! Counting: what handing playouts up the tree does to the store.

use crate::game::board::{lemma_open_column_at, lemma_open_columns, open_columns, Board};
use crate::game::lines::{HEIGHT, WIDTH};
use crate::game::result::GameResult;
use crate::mcst::playout::playout_of;
use crate::mcst::growth::{
    child_place, expanded, lemma_expanded_keeps, lemma_places_ascend, slot_made,
};
use crate::mcst::valid_move::ValidMove;
use crate::mcst::node::NodeContent;
use crate::mcst::shape::{
    arena_ok, lemma_path_extends, lemma_path_goes_down, lemma_path_same, lemma_top_has_most,
    node_ok, on_path, slot_ok, top_of,
};
use vstd::prelude::*;

verus! {

/// What one playout with outcome `result`, handed up from node `leaf`,
/// turns the store `before` into: every node on the chain of parents
/// from `leaf` is credited with it, and nothing else changes.
pub open spec fn credited_path(
    before: Seq<NodeContent>,
    leaf: int,
    result: GameResult,
    after: Seq<NodeContent>,
) -> bool {
    &&& after.len() == before.len()
    &&& forall|j: int|
        0 <= j < before.len() ==> #[trigger] after[j] == if on_path(before, leaf, j) {
            before[j].credited(result)
        } else {
            before[j]
        }
}

/// Two states of a node that differ in the counters at most.
pub open spec fn kept(before: NodeContent, after: NodeContent) -> bool {
    &&& after.board == before.board
    &&& after.parent == before.parent
    &&& after.children == before.children
    &&& after.result == before.result
}

/// The counters of a node after `times` more playouts went through it,
/// however they ended.
pub open spec fn counted(before: NodeContent, times: int, after: NodeContent) -> bool {
    &&& kept(before, after)
    &&& after.record.played == before.record.played + times
    &&& before.record.wins <= after.record.wins <= before.record.wins + times
}

/// What `times` playouts handed up from node `from` turn the store
/// `before` into: every node on the chain of parents from `from` has
/// counted them, and nothing else has changed.
pub open spec fn sampled_path(
    before: Seq<NodeContent>,
    from: int,
    times: int,
    after: Seq<NodeContent>,
) -> bool {
    &&& after.len() == before.len()
    &&& forall|j: int|
        0 <= j < before.len() ==> if on_path(before, from, j) {
            counted(before[j], times, #[trigger] after[j])
        } else {
            after[j] == before[j]
        }
}

/// What sampling the children in the first `upto` columns of the newly
/// expanded node `leaf`, `times` playouts each, turns the store `before`
/// into. The children are the nodes from place `first` on. Each child
/// sampled has counted its own playouts; `leaf` and every node above it
/// have counted the playouts of all children sampled; nothing else has
/// changed.
pub open spec fn sampled_children(
    before: Seq<NodeContent>,
    leaf: int,
    first: int,
    upto: int,
    times: int,
    after: Seq<NodeContent>,
) -> bool {
    let sampled = open_columns(
        before[leaf].board.column_pieces@,
        upto as nat,
    ).len();
    &&& after.len() == before.len()
    &&& forall|j: int|
        0 <= j < before.len() ==> if on_path(before, leaf, j) {
            counted(before[j], sampled * times, #[trigger] after[j])
        } else if first <= j < first + sampled {
            counted(before[j], times, after[j])
        } else {
            after[j] == before[j]
        }
}

/// The store after one playout with outcome `result` has been handed up
/// from node `leaf`: every node on the chain of parents from `leaf` is
/// credited with it, each by its own side to move.
pub open spec fn credit(nodes: Seq<NodeContent>, leaf: int, result: GameResult) -> Seq<
    NodeContent,
> {
    Seq::new(
        nodes.len(),
        |j: int|
            if on_path(nodes, leaf, j) {
                nodes[j].credited(result)
            } else {
                nodes[j]
            },
    )
}

/// The store after the playouts with the outcomes `outcomes` have been
/// handed up from node `leaf`, one after the other.
pub open spec fn credit_all(
    nodes: Seq<NodeContent>,
    leaf: int,
    outcomes: Seq<GameResult>,
) -> Seq<NodeContent>
    decreases outcomes.len(),
{
    if outcomes.len() == 0 {
        nodes
    } else {
        credit(credit_all(nodes, leaf, outcomes.drop_last()), leaf, outcomes.last())
    }
}

/// The store after the children stored from place `first` on have been
/// sampled one after the other, the child at `first + k` with the
/// outcomes `rounds[k]`.
pub open spec fn credit_rounds(
    nodes: Seq<NodeContent>,
    first: int,
    rounds: Seq<Seq<GameResult>>,
) -> Seq<NodeContent>
    decreases rounds.len(),
{
    if rounds.len() == 0 {
        nodes
    } else {
        credit_all(
            credit_rounds(nodes, first, rounds.drop_last()),
            first + rounds.len() - 1,
            rounds.last(),
        )
    }
}

/// Whether `outcome` can be what sampling `board` gives: the outcome of a
/// playout from it, with anything but a win of a side turned into a win
/// of either side.
pub open spec fn sample_of(board: Board, outcome: GameResult) -> bool {
    exists|raw: GameResult, coin: bool|
        playout_of(board, raw) && outcome == #[trigger] raw.settled(coin)
}

/// `outcomes` are `times` samples of `board`.
pub open spec fn samples_of(board: Board, times: int, outcomes: Seq<GameResult>) -> bool {
    &&& outcomes.len() == times
    &&& forall|i: int| 0 <= i < outcomes.len() ==> sample_of(board, #[trigger] outcomes[i])
}

/// What sampling node `child` with the outcomes `outcomes` turns the
/// store `before` into: the outcomes are `times` samples of its board, and
/// each has been handed up from it in turn.
pub open spec fn sampled_with(
    before: Seq<NodeContent>,
    child: int,
    times: int,
    outcomes: Seq<GameResult>,
    after: Seq<NodeContent>,
) -> bool {
    samples_of(before[child].board, times, outcomes) && after == credit_all(
        before,
        child,
        outcomes,
    )
}

/// `rounds` holds, for each of the `children` nodes stored from place
/// `first` on, `times` samples of its board.
pub open spec fn rounds_of(
    nodes: Seq<NodeContent>,
    first: int,
    children: int,
    times: int,
    rounds: Seq<Seq<GameResult>>,
) -> bool {
    &&& rounds.len() == children
    &&& forall|k: int|
        0 <= k < rounds.len() ==> samples_of(nodes[first + k].board, times, #[trigger] rounds[k])
}

/// One step of the search that expands node `leaf` turns the store
/// `before` into `after` by way of `grown` and `rounds`: `grown` is the
/// store with the leaf expanded; `rounds` holds `times` samples of the
/// board of each new child; and `after` is `grown` with each of those
/// outcomes handed up from its child, child after child in the order of
/// the columns.
pub open spec fn explored_by(
    before: Seq<NodeContent>,
    leaf: int,
    times: int,
    grown: Seq<NodeContent>,
    rounds: Seq<Seq<GameResult>>,
    after: Seq<NodeContent>,
) -> bool {
    &&& expanded(before, leaf, grown)
    &&& rounds_of(
        grown,
        before.len() as int,
        before[leaf].board.moves().len() as int,
        times,
        rounds,
    )
    &&& after == credit_rounds(grown, before.len() as int, rounds)
    &&& sampled_children(grown, leaf, before.len() as int, WIDTH as int, times, after)
}

/// What one step of the search that expands node `leaf` turns the store
/// `before` into: the leaf is expanded, each new child is sampled `times`
/// times, and every outcome is handed up from its child to the root.
pub open spec fn explored(
    before: Seq<NodeContent>,
    leaf: int,
    times: int,
    after: Seq<NodeContent>,
) -> bool {
    exists|grown: Seq<NodeContent>, rounds: Seq<Seq<GameResult>>| #[trigger]
        explored_by(before, leaf, times, grown, rounds, after)
}

/// Handing one playout up a chain gives the store that `credit` names.
pub proof fn lemma_credit_is_path(
    before: Seq<NodeContent>,
    leaf: int,
    result: GameResult,
    after: Seq<NodeContent>,
)
    requires
        credited_path(before, leaf, result, after),
    ensures
        after == credit(before, leaf, result),
{
    assert(after =~= credit(before, leaf, result));
}

/// One more outcome handed up is one more step of `credit_all`.
pub proof fn lemma_credit_all_push(
    nodes: Seq<NodeContent>,
    leaf: int,
    outcomes: Seq<GameResult>,
    result: GameResult,
)
    ensures
        credit_all(nodes, leaf, outcomes.push(result)) == credit(
            credit_all(nodes, leaf, outcomes),
            leaf,
            result,
        ),
{
    assert(outcomes.push(result).drop_last() =~= outcomes);
}

/// One more child sampled is one more step of `credit_rounds`.
pub proof fn lemma_credit_rounds_push(
    nodes: Seq<NodeContent>,
    first: int,
    rounds: Seq<Seq<GameResult>>,
    outcomes: Seq<GameResult>,
)
    ensures
        credit_rounds(nodes, first, rounds.push(outcomes)) == credit_all(
            credit_rounds(nodes, first, rounds),
            first + rounds.len(),
            outcomes,
        ),
{
    assert(rounds.push(outcomes).drop_last() =~= rounds);
}

/// What a step of the search leaves behind at the leaf it expands: a
/// child in every legal column and in no other; each child a leaf with
/// exactly `times` playouts, so that every legal move has been sampled
/// before any of them is looked at again; and at the expanded node the
/// playouts of all its children on top of those it had.
pub proof fn lemma_step_samples_each_child(
    before: Seq<NodeContent>,
    leaf: int,
    times: int,
    after: Seq<NodeContent>,
    c: int,
)
    requires
        0 <= leaf < before.len() <= usize::MAX,
        before[leaf].children is None,
        0 <= times,
        explored(before, leaf, times, after),
        0 <= c < WIDTH,
    ensures
        after[leaf].children is Some,
        after[leaf].children->0[c] is Valid == before[leaf].board.legal(c),
        after[leaf].record.played == before[leaf].record.played + times
            * before[leaf].board.moves().len(),
        before[leaf].board.legal(c) ==> ({
            let place = child_place(before.len() as int, before[leaf].board.column_pieces@, c);
            &&& after[leaf].children->0[c] == ValidMove::Valid(place as usize)
            &&& before.len() <= place < after.len()
            &&& after[place].parent == Some(leaf as usize)
            &&& after[place].children is None
            &&& after[place].record.played == times
            &&& after[place].record.wins <= times
            &&& before[leaf].board.leads_to(c, after[place].board)
        }),
{
    let (grown, rounds) = choose|grown: Seq<NodeContent>, rounds: Seq<Seq<GameResult>>| #[trigger]
        explored_by(before, leaf, times, grown, rounds, after);
    let heights = before[leaf].board.column_pieces@;
    let ch = grown[leaf].children->0;
    assert(slot_made(before, leaf, grown, ch, c));
    lemma_places_ascend(heights, c, WIDTH as int);
    assert(on_path(grown, leaf, leaf));
    assert(kept(grown[leaf], after[leaf]));
    if before[leaf].board.legal(c) {
        let place = child_place(before.len() as int, heights, c);
        if on_path(grown, leaf, place) {
            lemma_path_goes_down(grown, leaf, place);
        }
        assert(counted(grown[place], times, after[place]));
    }
}

/// The playouts that the `n` nodes stored from place `first` on have
/// not won, all together.
pub open spec fn lost_by_children(nodes: Seq<NodeContent>, first: int, n: nat) -> int
    decreases n,
{
    if n == 0 {
        0
    } else {
        lost_by_children(nodes, first, (n - 1) as nat) + nodes[first + n
            - 1].record.played - nodes[first + n - 1].record.wins
    }
}

/// The sum over the children depends on their counters alone.
pub proof fn lemma_lost_same(a: Seq<NodeContent>, b: Seq<NodeContent>, first: int, n: nat)
    requires
        forall|k: int| 0 <= k < n ==> (#[trigger] a[first + k]).record == b[first + k].record,
    ensures
        lost_by_children(a, first, n) == lost_by_children(b, first, n),
    decreases n,
{
    if n > 0 {
        lemma_lost_same(a, b, first, (n - 1) as nat);
        assert(a[first + (n - 1)].record == b[first + (n - 1)].record);
    }
}

/// A child and its parent, with their counters in order and room in them
/// for `more` playouts.
pub open spec fn pair_ok(nodes: Seq<NodeContent>, leaf: int, child: int, more: int) -> bool {
    &&& 0 <= leaf < child < nodes.len() <= usize::MAX
    &&& nodes[child].parent == Some(leaf as usize)
    &&& nodes[child].board.mover() != nodes[leaf].board.mover()
    &&& nodes[child].record.wins <= nodes[child].record.played <= nodes[leaf].record.played
    &&& nodes[leaf].record.wins <= nodes[leaf].record.played
    &&& nodes[leaf].record.played + more <= u64::MAX
}

/// What `count` decided playouts handed up from `child` have done to the
/// store `before`: child and parent have counted them, each playout is won
/// at exactly one of the two, and nothing has changed off the chain.
pub open spec fn pair_counted(
    before: Seq<NodeContent>,
    leaf: int,
    child: int,
    count: int,
    after: Seq<NodeContent>,
) -> bool {
    &&& after.len() == before.len()
    &&& forall|j: int| 0 <= j < before.len() ==> kept(before[j], #[trigger] after[j])
    &&& forall|j: int|
        0 <= j < before.len() && j != child && !on_path(before, leaf, j) ==> #[trigger] after[j]
            == before[j]
    &&& after[child].record.played == before[child].record.played + count
    &&& after[leaf].record.played == before[leaf].record.played + count
    &&& after[child].record.wins + after[leaf].record.wins == before[child].record.wins
        + before[leaf].record.wins + count
    &&& before[child].record.wins <= after[child].record.wins <= after[child].record.played
    &&& before[leaf].record.wins <= after[leaf].record.wins <= after[leaf].record.played
}

/// Playouts handed up from a child are won either at the child or at its
/// parent, as the two have different sides to move.
pub proof fn lemma_credit_all_counts(
    nodes: Seq<NodeContent>,
    leaf: int,
    child: int,
    outcomes: Seq<GameResult>,
)
    requires
        pair_ok(nodes, leaf, child, outcomes.len() as int),
        forall|i: int| 0 <= i < outcomes.len() ==> (#[trigger] outcomes[i]).decided(),
    ensures
        pair_counted(nodes, leaf, child, outcomes.len() as int, credit_all(nodes, child, outcomes)),
    decreases outcomes.len(),
{
    if outcomes.len() > 0 {
        let earlier = outcomes.drop_last();
        let mid = credit_all(nodes, child, earlier);
        let result = outcomes.last();
        lemma_credit_all_counts(nodes, leaf, child, earlier);
        assert forall|j: int| 0 <= j < nodes.len() implies (#[trigger] nodes[j]).parent
            == mid[j].parent by {
            assert(kept(nodes[j], mid[j]));
        }
        let after = credit(mid, child, result);
        assert(result.decided());
        assert forall|j: int| 0 <= j < nodes.len() implies on_path(mid, child, j) == (j == child
            || on_path(nodes, leaf, j)) by {
            lemma_path_same(nodes, mid, child, j);
            lemma_path_same(nodes, mid, leaf, j);
        }
        assert(on_path(nodes, leaf, leaf));
        if on_path(nodes, leaf, child) {
            lemma_path_goes_down(nodes, leaf, child);
        }
    }
}

/// The children of `leaf` stored from place `first` on are `n` fresh
/// leaves below it, and the counters of `leaf` have room for `times`
/// playouts from each.
pub open spec fn fresh_below(
    nodes: Seq<NodeContent>,
    leaf: int,
    first: int,
    n: int,
    times: int,
) -> bool {
    &&& 0 <= leaf < first
    &&& first + n <= nodes.len() <= usize::MAX
    &&& nodes[leaf].record.wins <= nodes[leaf].record.played
    &&& nodes[leaf].record.played + n * times <= u64::MAX
    &&& forall|k: int|
        0 <= k < n ==> {
            let child = #[trigger] nodes[first + k];
            &&& child.parent == Some(leaf as usize)
            &&& child.board.mover() != nodes[leaf].board.mover()
            &&& child.record.played == 0
            &&& child.record.wins == 0
        }
}

/// Sampling fresh children one after the other: each child ends with its
/// `times` playouts, and their parent has won exactly the playouts that
/// its children have not.
pub proof fn lemma_credit_rounds_counts(
    grown: Seq<NodeContent>,
    leaf: int,
    first: int,
    times: int,
    rounds: Seq<Seq<GameResult>>,
)
    requires
        0 <= times,
        fresh_below(grown, leaf, first, rounds.len() as int, times),
        forall|k: int|
            0 <= k < rounds.len() ==> (#[trigger] rounds[k]).len() == times && forall|i: int|
                0 <= i < rounds[k].len() ==> (#[trigger] rounds[k][i]).decided(),
    ensures
        ({
            let after = credit_rounds(grown, first, rounds);
            let n = rounds.len();
            &&& after.len() == grown.len()
            &&& forall|j: int| 0 <= j < grown.len() ==> kept(grown[j], #[trigger] after[j])
            &&& forall|j: int| first + n <= j < grown.len() ==> #[trigger] after[j] == grown[j]
            &&& forall|k: int| 0 <= k < n ==> (#[trigger] after[first + k]).record.played == times
            &&& after[leaf].record.played == grown[leaf].record.played + n * times
            &&& after[leaf].record.wins == grown[leaf].record.wins + lost_by_children(
                after,
                first,
                n,
            )
            &&& after[leaf].record.wins <= after[leaf].record.played
        }),
    decreases rounds.len(),
{
    let n = rounds.len() as int;
    if n > 0 {
        let earlier = rounds.drop_last();
        let mid = credit_rounds(grown, first, earlier);
        let child = first + n - 1;
        let outcomes = rounds.last();
        assert((n - 1) * times + times == n * times) by (nonlinear_arith);
        assert(0 <= (n - 1) * times) by (nonlinear_arith)
            requires
                n >= 1,
                times >= 0,
        ;
        assert forall|k: int| 0 <= k < earlier.len() implies (#[trigger] earlier[k]).len() == times
            && forall|i: int|
            0 <= i < earlier[k].len() ==> (#[trigger] earlier[k][i]).decided() by {
            assert(earlier[k] == rounds[k]);
        }
        lemma_credit_rounds_counts(grown, leaf, first, times, earlier);
        assert(mid[child] == grown[child]);
        assert(grown[first + (n - 1)].parent == Some(leaf as usize));
        assert(kept(grown[leaf], mid[leaf]));
        assert(pair_ok(mid, leaf, child, outcomes.len() as int));
        lemma_credit_all_counts(mid, leaf, child, outcomes);
        let after = credit_all(mid, child, outcomes);
        assert forall|j: int| 0 <= j < grown.len() implies kept(grown[j], #[trigger] after[j]) by {
            assert(kept(grown[j], mid[j]));
            assert(kept(mid[j], after[j]));
        }
        assert forall|j: int| first <= j < grown.len() && j != child implies #[trigger] after[j]
            == mid[j] by {
            if on_path(mid, leaf, j) {
                lemma_path_goes_down(mid, leaf, j);
            }
        }
        assert forall|k: int| 0 <= k < n - 1 implies (#[trigger] after[first + k]).record
            == mid[first + k].record by {
            assert(after[first + k] == mid[first + k]);
        }
        lemma_lost_same(after, mid, first, (n - 1) as nat);
    }
}

/// What a step of the search credits: at the node it expands, every
/// playout of a child that the child has not won is won, and no other.
pub proof fn lemma_step_credits_movers(
    before: Seq<NodeContent>,
    leaf: int,
    times: int,
    after: Seq<NodeContent>,
)
    requires
        0 <= leaf < before.len(),
        after.len() <= usize::MAX,
        before[leaf].children is None,
        before[leaf].record.wins <= before[leaf].record.played,
        before[leaf].record.played + WIDTH * times <= u64::MAX,
        0 <= times,
        explored(before, leaf, times, after),
    ensures
        after[leaf].record.wins == before[leaf].record.wins + lost_by_children(
            after,
            before.len() as int,
            before[leaf].board.moves().len(),
        ),
{
    let (grown, rounds) = choose|grown: Seq<NodeContent>, rounds: Seq<Seq<GameResult>>| #[trigger]
        explored_by(before, leaf, times, grown, rounds, after);
    let board = before[leaf].board;
    let heights = board.column_pieces@;
    let first = before.len() as int;
    let n = board.moves().len() as int;
    let ch = grown[leaf].children->0;
    lemma_open_columns(heights, WIDTH as nat);
    assert(n * times <= WIDTH * times) by (nonlinear_arith)
        requires
            0 <= n <= WIDTH,
            0 <= times,
    ;
    assert forall|k: int| 0 <= k < n implies {
        let child = #[trigger] grown[first + k];
        &&& child.parent == Some(leaf as usize)
        &&& child.board.mover() != grown[leaf].board.mover()
        &&& child.record.played == 0
        &&& child.record.wins == 0
    } by {
        lemma_open_column_at(heights, WIDTH as nat, k);
        let c = open_columns(heights, WIDTH as nat)[k] as int;
        assert(slot_made(before, leaf, grown, ch, c));
    }
    assert(fresh_below(grown, leaf, first, n, times));
    assert forall|k: int| 0 <= k < rounds.len() implies (#[trigger] rounds[k]).len() == times
        && forall|i: int| 0 <= i < rounds[k].len() ==> (#[trigger] rounds[k][i]).decided() by {
        assert(samples_of(grown[first + k].board, times, rounds[k]));
        assert forall|i: int| 0 <= i < rounds[k].len() implies (#[trigger] rounds[k][i]).decided() by {
            assert(sample_of(grown[first + k].board, rounds[k][i]));
        }
    }
    lemma_credit_rounds_counts(grown, leaf, first, times, rounds);
}

/// Crediting a chain of parents with one playout keeps the store in
/// order, provided the counters on the chain have room.
pub proof fn lemma_credit_keeps_order(
    before: Seq<NodeContent>,
    root: int,
    leaf: int,
    result: GameResult,
    after: Seq<NodeContent>,
)
    requires
        arena_ok(before, root),
        0 <= leaf < before.len(),
        credited_path(before, leaf, result, after),
        before[top_of(before, leaf)].record.played < u64::MAX,
    ensures
        arena_ok(after, root),
{
    assert forall|n: int| 0 <= n < after.len() implies #[trigger] node_ok(after, root, n) by {
        assert(node_ok(before, root, n));
        lemma_top_has_most(before, root, n);
        if on_path(before, leaf, n) {
            lemma_path_goes_down(before, leaf, n);
        }
        if before[n].parent is Some {
            let p = before[n].parent->0 as int;
            assert(after[p].record.played >= before[p].record.played) by {
                lemma_top_has_most(before, root, p);
                if on_path(before, leaf, p) {
                    lemma_path_goes_down(before, leaf, p);
                }
            }
            if on_path(before, leaf, n) {
                assert(on_path(before, leaf, p)) by {
                    lemma_path_extends(before, leaf, n);
                }
                lemma_path_goes_down(before, leaf, p);
                lemma_top_has_most(before, root, p);
            }
        }
        assert forall|c: int| 0 <= c < WIDTH implies #[trigger] slot_ok(after, n, c) by {
            assert(slot_ok(before, n, c));
        }
    }
}

/// One more playout handed up the same chain adds one to the count.
pub proof fn lemma_sampled_once_more(
    before: Seq<NodeContent>,
    from: int,
    times: int,
    now: Seq<NodeContent>,
    result: GameResult,
    next: Seq<NodeContent>,
)
    requires
        0 <= from < before.len(),
        0 <= times,
        sampled_path(before, from, times, now),
        credited_path(now, from, result, next),
        forall|j: int|
            0 <= j < now.len() && on_path(now, from, j) ==> (#[trigger] now[j]).record.played
                < u64::MAX && now[j].record.wins <= now[j].record.played,
    ensures
        sampled_path(before, from, times + 1, next),
{
    assert forall|j: int| 0 <= j < before.len() implies if on_path(before, from, j) {
        counted(before[j], times + 1, #[trigger] next[j])
    } else {
        next[j] == before[j]
    } by {
        assert(kept(before[j], now[j]));
        lemma_path_same(before, now, from, j);
    }
}

/// Sampling the child in one more column, stored at `child`, carries
/// `sampled_children` one column on.
pub proof fn lemma_sampled_next_child(
    grown: Seq<NodeContent>,
    leaf: int,
    first: int,
    column: int,
    times: int,
    now: Seq<NodeContent>,
    child: int,
    next: Seq<NodeContent>,
)
    requires
        0 <= leaf < first <= grown.len() <= usize::MAX,
        0 <= column < WIDTH,
        0 <= times,
        sampled_children(grown, leaf, first, column, times, now),
        grown[leaf].board.column_pieces@[column] < HEIGHT,
        child == child_place(first, grown[leaf].board.column_pieces@, column),
        child < grown.len(),
        grown[child].parent == Some(leaf as usize),
        sampled_path(now, child, times, next),
    ensures
        sampled_children(grown, leaf, first, column + 1, times, next),
{
    let heights = grown[leaf].board.column_pieces@;
    let sampled = open_columns(heights, column as nat).len() as int;
    assert(open_columns(heights, (column + 1) as nat).len() == sampled + 1);
    assert((sampled + 1) * times == sampled * times + times) by (nonlinear_arith);
    assert forall|j: int| 0 <= j < grown.len() implies if on_path(grown, leaf, j) {
        counted(grown[j], (sampled + 1) * times, #[trigger] next[j])
    } else if first <= j < first + sampled + 1 {
        counted(grown[j], times, next[j])
    } else {
        next[j] == grown[j]
    } by {
        assert(kept(grown[j], now[j]));
        lemma_path_same(grown, now, child, j);
        lemma_path_same(grown, now, leaf, j);
        assert(on_path(grown, child, j) == (j == child || on_path(grown, leaf, j)));
        if on_path(grown, leaf, j) {
            lemma_path_goes_down(grown, leaf, j);
        }
    }
}

/// A step of the search keeps every node that was there, with its board
/// and its parent; a node that had children keeps them, and the leaf that
/// was expanded has children afterwards.
pub proof fn lemma_explored_keeps(
    before: Seq<NodeContent>,
    leaf: int,
    times: int,
    after: Seq<NodeContent>,
    j: int,
)
    requires
        0 <= leaf < before.len(),
        0 <= j < before.len(),
        before[leaf].children is None,
        explored(before, leaf, times, after),
    ensures
        before.len() <= after.len(),
        after[j].board == before[j].board,
        after[j].parent == before[j].parent,
        before[j].children is Some ==> after[j].children == before[j].children,
        after[leaf].children is Some,
{
    let (grown, rounds) = choose|grown: Seq<NodeContent>, rounds: Seq<Seq<GameResult>>| #[trigger]
        explored_by(before, leaf, times, grown, rounds, after);
    lemma_expanded_keeps(before, leaf, grown, j);
    assert(kept(grown[j], after[j]));
    assert(kept(grown[leaf], after[leaf]));
}

} // verus!
