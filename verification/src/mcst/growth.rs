//! Expansion: what making the children of a leaf does to the store.

use crate::game::board::{open_columns, Board};
use crate::game::lines::{HEIGHT, WIDTH};
use crate::game::player::Player;
use crate::game::result::GameResult;
use crate::mcst::node::NodeContent;
use crate::mcst::shape::{arena_ok, node_ok, result_ok, slot_ok};
use crate::mcst::valid_move::ValidMove;
use vstd::prelude::*;

verus! {

/// A node as `expansion` makes it for the move into `column` from the
/// position `from` of the node stored at `parent`.
pub open spec fn fresh_child(node: NodeContent, parent: int, from: Board, column: int) -> bool {
    &&& from.leads_to(column, node.board)
    &&& node.parent == Some(parent as usize)
    &&& node.record.wins == 0
    &&& node.record.played == 0
    &&& node.children is None
    &&& node.result == node.board.result
}

/// The child in column `c` ends the game at once with a win of `mover`.
pub open spec fn wins_at_once(
    nodes: Seq<NodeContent>,
    ch: [ValidMove<usize>; WIDTH],
    mover: Player,
    c: int,
) -> bool {
    ch[c] matches ValidMove::Valid(k) && nodes[k as int].board.result == Some(
        GameResult::Win(mover),
    )
}

/// One of the first `upto` columns holds a child that wins at once for
/// `mover`.
pub open spec fn some_win_at_once(
    nodes: Seq<NodeContent>,
    ch: [ValidMove<usize>; WIDTH],
    mover: Player,
    upto: int,
) -> bool {
    exists|c: int| 0 <= c < upto && #[trigger] wins_at_once(nodes, ch, mover, c)
}

/// The known outcome of a node once its children have been made: what was
/// known before stays; else, if a move wins at once, a win of the side to
/// move; else nothing.
pub open spec fn known_after(node: NodeContent, win_at_once: bool) -> Option<GameResult> {
    if node.result is Some {
        node.result
    } else if win_at_once {
        Some(GameResult::Win(node.board.mover()))
    } else {
        None
    }
}

/// The place that the child of column `c` gets when a node with column
/// heights `heights` is expanded into a store of `len` nodes: the new
/// nodes follow the old ones in the order of their columns.
pub open spec fn child_place(len: int, heights: Seq<usize>, c: int) -> int {
    len + open_columns(heights, c as nat).len()
}

/// Column `c` as `expansion` of node `leaf` leaves it.
pub open spec fn slot_made(
    before: Seq<NodeContent>,
    leaf: int,
    after: Seq<NodeContent>,
    ch: [ValidMove<usize>; WIDTH],
    c: int,
) -> bool {
    let board = before[leaf].board;
    let place = child_place(before.len() as int, board.column_pieces@, c);
    if board.legal(c) {
        ch[c] == ValidMove::Valid(place as usize) && fresh_child(after[place], leaf, board, c)
    } else {
        ch[c] == ValidMove::<usize>::Invalid
    }
}

/// The store `now` and the columns `leaves` while node `leaf` of the store
/// `before` is being expanded and its first `upto` columns are done: the
/// old nodes are as they were, the children of those columns follow them,
/// and the columns are filled in.
pub open spec fn growing(
    before: Seq<NodeContent>,
    leaf: int,
    now: Seq<NodeContent>,
    leaves: [ValidMove<usize>; WIDTH],
    upto: int,
) -> bool {
    &&& now.len() == child_place(before.len() as int, before[leaf].board.column_pieces@, upto)
    &&& forall|j: int| 0 <= j < before.len() ==> now[j] == before[j]
    &&& forall|c: int| 0 <= c < upto ==> #[trigger] slot_made(before, leaf, now, leaves, c)
}

/// What `expansion` of node `leaf` turns the store `before` into: one new
/// node for each legal move, in the order of the columns, behind the old
/// nodes; the columns of `leaf` filled in; the outcome of `leaf` kept if
/// it was known, and else set to a win of the side to move if one of the
/// moves wins at once; nothing else touched.
pub open spec fn expanded(before: Seq<NodeContent>, leaf: int, after: Seq<NodeContent>) -> bool {
    let board = before[leaf].board;
    &&& after.len() == before.len() + board.moves().len()
    &&& forall|j: int| 0 <= j < before.len() && j != leaf ==> after[j] == before[j]
    &&& after[leaf].board == board
    &&& after[leaf].parent == before[leaf].parent
    &&& after[leaf].record == before[leaf].record
    &&& after[leaf].children matches Some(ch) && {
        &&& forall|c: int| 0 <= c < WIDTH ==> #[trigger] slot_made(before, leaf, after, ch, c)
        &&& after[leaf].result == known_after(
            before[leaf],
            some_win_at_once(after, ch, board.mover(), WIDTH as int),
        )
    }
}

/// The open columns below `c` are among those below `d` when `c` is not
/// above `d`, so the places of the children ascend with their columns.
pub proof fn lemma_places_ascend(heights: Seq<usize>, c: int, d: int)
    requires
        0 <= c <= d <= heights.len(),
    ensures
        open_columns(heights, c as nat).len() <= open_columns(heights, d as nat).len(),
        c < d && heights[c] < HEIGHT ==> open_columns(heights, c as nat).len() < open_columns(
            heights,
            d as nat,
        ).len(),
    decreases d - c,
{
    if c < d {
        lemma_places_ascend(heights, c, d - 1);
    }
}

/// Looking at one more column, a win at once is found exactly if it was
/// found before or the new column holds one, as long as the columns that
/// were looked at before have not changed.
pub proof fn lemma_win_at_once_step(
    nodes_then: Seq<NodeContent>,
    leaves_then: [ValidMove<usize>; WIDTH],
    nodes_now: Seq<NodeContent>,
    leaves_now: [ValidMove<usize>; WIDTH],
    mover: Player,
    column: int,
)
    requires
        0 <= column,
        forall|c: int|
            0 <= c < column ==> #[trigger] wins_at_once(nodes_now, leaves_now, mover, c)
                == wins_at_once(nodes_then, leaves_then, mover, c),
    ensures
        some_win_at_once(nodes_now, leaves_now, mover, column + 1) == (some_win_at_once(
            nodes_then,
            leaves_then,
            mover,
            column,
        ) || wins_at_once(nodes_now, leaves_now, mover, column)),
{
    let found_then = some_win_at_once(nodes_then, leaves_then, mover, column);
    let found_now = some_win_at_once(nodes_now, leaves_now, mover, column + 1);
    if found_then {
        let c = choose|c: int|
            0 <= c < column && #[trigger] wins_at_once(nodes_then, leaves_then, mover, c);
        assert(wins_at_once(nodes_now, leaves_now, mover, c));
        assert(found_now);
    }
    if wins_at_once(nodes_now, leaves_now, mover, column) {
        assert(0 <= column < column + 1);
        assert(found_now);
    }
    if found_now {
        let c = choose|c: int|
            0 <= c < column + 1 && #[trigger] wins_at_once(nodes_now, leaves_now, mover, c);
        if c < column {
            assert(wins_at_once(nodes_then, leaves_then, mover, c));
            assert(found_then);
        }
    }
}

/// A win at once is found in two stores alike if each column tells the
/// same in both.
pub proof fn lemma_win_at_once_same(
    nodes_then: Seq<NodeContent>,
    nodes_now: Seq<NodeContent>,
    leaves: [ValidMove<usize>; WIDTH],
    mover: Player,
    upto: int,
)
    requires
        forall|c: int|
            0 <= c < upto ==> #[trigger] wins_at_once(nodes_now, leaves, mover, c) == wins_at_once(
                nodes_then,
                leaves,
                mover,
                c,
            ),
    ensures
        some_win_at_once(nodes_now, leaves, mover, upto) == some_win_at_once(
            nodes_then,
            leaves,
            mover,
            upto,
        ),
{
    if some_win_at_once(nodes_then, leaves, mover, upto) {
        let c = choose|c: int| 0 <= c < upto && #[trigger] wins_at_once(nodes_then, leaves, mover, c);
        assert(wins_at_once(nodes_now, leaves, mover, c));
    }
    if some_win_at_once(nodes_now, leaves, mover, upto) {
        let c = choose|c: int| 0 <= c < upto && #[trigger] wins_at_once(nodes_now, leaves, mover, c);
        assert(wins_at_once(nodes_then, leaves, mover, c));
    }
}

/// One more column done keeps the expansion `growing`: either the column
/// is legal and its child has been stored behind the others and entered,
/// or it is illegal and nothing has changed. A win at once is found in
/// the columns done exactly if it was found before or the new child is
/// one.
pub proof fn lemma_growing_step(
    before: Seq<NodeContent>,
    leaf: int,
    then: Seq<NodeContent>,
    leaves_then: [ValidMove<usize>; WIDTH],
    now: Seq<NodeContent>,
    leaves_now: [ValidMove<usize>; WIDTH],
    column: int,
)
    requires
        0 <= leaf < before.len(),
        0 <= column < WIDTH,
        growing(before, leaf, then, leaves_then, column),
        leaves_then[column] == ValidMove::<usize>::Invalid,
        if before[leaf].board.legal(column) {
            &&& now.len() == then.len() + 1
            &&& now.len() <= usize::MAX
            &&& forall|j: int| 0 <= j < then.len() ==> now[j] == then[j]
            &&& fresh_child(now[then.len() as int], leaf, before[leaf].board, column)
            &&& leaves_now@ == leaves_then@.update(column, ValidMove::Valid(then.len() as usize))
        } else {
            now == then && leaves_now == leaves_then
        },
    ensures
        growing(before, leaf, now, leaves_now, column + 1),
        some_win_at_once(now, leaves_now, before[leaf].board.mover(), column + 1) == (
        some_win_at_once(then, leaves_then, before[leaf].board.mover(), column) || (
        before[leaf].board.legal(column) && now[then.len() as int].board.result == Some(
            GameResult::Win(before[leaf].board.mover()),
        ))),
{
    let board = before[leaf].board;
    let heights = board.column_pieces@;
    let mover = board.mover();
    assert forall|c: int| 0 <= c < column + 1 implies #[trigger] slot_made(
        before,
        leaf,
        now,
        leaves_now,
        c,
    ) by {
        if c < column {
            assert(slot_made(before, leaf, then, leaves_then, c));
            lemma_places_ascend(heights, c, column);
        }
    }
    assert forall|c: int| 0 <= c < column implies #[trigger] wins_at_once(
        now,
        leaves_now,
        mover,
        c,
    ) == wins_at_once(then, leaves_then, mover, c) by {
        assert(slot_made(before, leaf, then, leaves_then, c));
        lemma_places_ascend(heights, c, column);
    }
    lemma_win_at_once_step(then, leaves_then, now, leaves_now, mover, column);
}

/// Entering the columns and the known outcome into the expanded leaf
/// completes the expansion and leaves the store in order.
pub proof fn lemma_leaf_filled(
    before: Seq<NodeContent>,
    root: int,
    leaf: int,
    grown: Seq<NodeContent>,
    leaves: [ValidMove<usize>; WIDTH],
    after: Seq<NodeContent>,
)
    requires
        0 <= leaf < before.len(),
        before[leaf].children is None,
        arena_ok(grown, root),
        growing(before, leaf, grown, leaves, WIDTH as int),
        after == grown.update(
            leaf,
            NodeContent {
                children: Some(leaves),
                result: known_after(
                    before[leaf],
                    some_win_at_once(grown, leaves, before[leaf].board.mover(), WIDTH as int),
                ),
                ..before[leaf]
            },
        ),
    ensures
        arena_ok(after, root),
        expanded(before, leaf, after),
{
    let node = before[leaf];
    let board = node.board;
    let heights = board.column_pieces@;
    let mover = board.mover();
    let first = before.len() as int;
    assert(board.moves() == open_columns(heights, WIDTH as nat));
    assert forall|c: int| 0 <= c < WIDTH implies #[trigger] slot_made(
        before,
        leaf,
        after,
        leaves,
        c,
    ) by {
        assert(slot_made(before, leaf, grown, leaves, c));
        lemma_places_ascend(heights, c, WIDTH as int);
    }
    assert forall|c: int| 0 <= c < WIDTH implies #[trigger] wins_at_once(after, leaves, mover, c)
        == wins_at_once(grown, leaves, mover, c) by {
        assert(slot_made(before, leaf, grown, leaves, c));
        lemma_places_ascend(heights, c, WIDTH as int);
    }
    lemma_win_at_once_same(grown, after, leaves, mover, WIDTH as int);
    assert forall|n: int| 0 <= n < after.len() implies #[trigger] node_ok(after, root, n) by {
        assert(node_ok(grown, root, n));
        assert forall|c: int| 0 <= c < WIDTH implies #[trigger] slot_ok(after, n, c) by {
            if n == leaf {
                assert(slot_made(before, leaf, after, leaves, c));
                lemma_places_ascend(heights, c, WIDTH as int);
            } else {
                assert(slot_ok(grown, n, c));
            }
        }
        if n == leaf {
            assert(result_ok(node));
            if after[leaf].result is Some && node.result is None {
                let c = choose|c: int|
                    0 <= c < WIDTH && #[trigger] wins_at_once(after, leaves, mover, c);
                assert(slot_made(before, leaf, after, leaves, c));
                lemma_places_ascend(heights, c, WIDTH as int);
            }
        }
    }
}

/// Expansion keeps every node that was there, with its board, its parent
/// and its counters; only the expanded leaf gets its children.
pub proof fn lemma_expanded_keeps(
    before: Seq<NodeContent>,
    leaf: int,
    after: Seq<NodeContent>,
    j: int,
)
    requires
        0 <= leaf < before.len(),
        0 <= j < before.len(),
        expanded(before, leaf, after),
    ensures
        before.len() <= after.len(),
        after[j].board == before[j].board,
        after[j].parent == before[j].parent,
        after[j].record == before[j].record,
        j != leaf ==> after[j] == before[j],
        after[leaf].children is Some,
{
}

} // verus!
