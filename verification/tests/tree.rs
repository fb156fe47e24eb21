use connect4_mcts::game::board::Board;
use connect4_mcts::game::player::Player;
use connect4_mcts::game::result::GameResult;
use connect4_mcts::mcst::node::{write_once, NodeContent};
use connect4_mcts::mcst::record::Record;
use connect4_mcts::mcst::select::UNVISITED;
use connect4_mcts::mcst::valid_move::ValidMove;
use connect4_mcts::mcst::{backpropagation, SearchTree};

/// The UCB1 rule: mean win rate plus the exploration bonus, as an integer
/// that orders as the score does.
fn ucb1(wins: u64, played: u64, parent_played: u64) -> u32 {
    let mean = wins as f32 / played as f32;
    let exploration_bias =
        std::f32::consts::SQRT_2 * f32::sqrt(f32::ln(parent_played as f32) / played as f32);
    let score = mean + exploration_bias;
    if score >= 0.0 {
        score.to_bits()
    } else {
        0
    }
}

#[test]
pub fn insert_to_tree_root() {
    // Act
    let tree = SearchTree::new(Board::default(), 10, ucb1);

    // Assert
    assert_eq!(tree.nodes[tree.root].board, Board::default());
}

#[test]
pub fn find_child_on_root_returns_root() {
    // Arrange
    let tree = SearchTree::new(Board::default(), 10, ucb1);

    // Act
    let seek = tree.seek(tree.root, Board::default());

    // Assert
    assert!(seek.is_some());
}

#[test]
pub fn winning_move_possible() {
    // Act
    let mut tree = SearchTree::new(Board::setup(7, 112, [1, 1, 1, 0, 1, 1, 1]), 10, ucb1);

    // Act
    for _ in 0..10 {
        tree.iterate();
    }

    let m = tree.choose_move();

    // Assert
    assert_eq!(m, 3);
}

#[test]
pub fn opponent_can_win_next_move_should_block() {
    // Act
    let b = Board::setup(7, 96, [1, 1, 0, 0, 1, 1, 1]);
    let mut tree = SearchTree::new(b, 1, ucb1);

    // Act
    for _ in 0..200 {
        tree.iterate();
    }

    let m = tree.choose_move();

    // Assert
    assert_eq!(m, 3);
}

#[test]
pub fn opponent_can_win_next_move_should_but_so_can_player_should_win() {
    // Act
    let b = Board::setup(16513, 14, [3, 1, 1, 1, 0, 0, 0]);
    let mut tree = SearchTree::new(b, 10, ucb1);

    // Act
    for _ in 0..200 {
        tree.iterate();
    }

    let m = tree.choose_move();

    // Assert
    assert_eq!(m, 0);
}

/// A rule that ranks a leaf by its wins alone.
fn by_wins(wins: u64, _played: u64, _parent_played: u64) -> u32 {
    wins as u32
}

/// A tree whose root has been expanded and nothing else.
fn opened(board: Board) -> SearchTree<fn(u64, u64, u64) -> u32> {
    let mut tree = SearchTree::new(board, 3, by_wins as fn(u64, u64, u64) -> u32);
    tree.expansion(0);
    tree
}

#[test]
pub fn new_tree_holds_only_its_root() {
    let tree = SearchTree::new(Board::default(), 10, ucb1);
    assert_eq!(tree.root, 0);
    assert_eq!(tree.simulations, 10);
    assert_eq!(tree.nodes.len(), 1);
    let root = &tree.nodes[0];
    assert!(root.is_leaf());
    assert_eq!(root.parent, None);
    assert_eq!(root.result, None);
    assert_eq!(root.record.wins, 0);
    assert_eq!(root.record.played, 0);
    assert_eq!(root.board(), Board::default());
    assert_eq!(UNVISITED, 1 << 32);
}

#[test]
pub fn expansion_makes_one_child_for_each_legal_move() {
    let board = Board::setup(0, 0, [6, 0, 6, 5, 6, 6, 1]);
    let tree = opened(board);

    assert_eq!(tree.nodes.len(), 4);
    assert_eq!(
        tree.nodes[0].children,
        Some([
            ValidMove::Invalid,
            ValidMove::Valid(1),
            ValidMove::Invalid,
            ValidMove::Valid(2),
            ValidMove::Invalid,
            ValidMove::Invalid,
            ValidMove::Valid(3),
        ])
    );
    assert!(!tree.nodes[0].is_leaf());
    assert_eq!(tree.nodes[0].result, None);
    for (place, column) in [(1usize, 1usize), (2, 3), (3, 6)] {
        let child = &tree.nodes[place];
        assert_eq!(child.parent, Some(0));
        assert!(child.is_leaf());
        assert_eq!(child.record.played, 0);
        assert_eq!(child.record.wins, 0);
        assert_eq!(child.result, None);
        assert_eq!(child.board.column_pieces, board.play_move(column).column_pieces);
        assert_eq!(child.board.yellow_bb, board.play_move(column).yellow_bb);
        assert_eq!(child.board.turn, board.turn + 1);
    }
}

#[test]
pub fn new_child_stores_a_node_behind_the_others() {
    let mut tree = SearchTree::new(Board::default(), 10, ucb1);
    let board = Board::default().play_move(4);
    let place = tree.new_child(0, 4, board);
    assert_eq!(place, 1);
    assert_eq!(tree.nodes.len(), 2);
    assert_eq!(tree.root, 0);
    assert_eq!(tree.nodes[1].parent, Some(0));
    assert_eq!(tree.nodes[1].board.column_pieces, [0, 0, 0, 0, 1, 0, 0]);
    assert_eq!(tree.nodes[1].result, None);
    assert!(tree.nodes[1].is_leaf());
    // The leaf learns of its children only when all of them have been made.
    assert!(tree.nodes[0].is_leaf());

    let won = Board::setup(7, 112, [1, 1, 1, 0, 1, 1, 1]).play_move(3);
    let place = tree.new_child(1, 3, won);
    assert_eq!(place, 2);
    assert_eq!(tree.nodes[2].result, Some(GameResult::Win(Player::Yellow)));
}

#[test]
pub fn expansion_of_a_node_without_moves_leaves_it_childless_but_no_leaf() {
    let tree = opened(Board::setup(0, 0, [6; 7]));
    assert_eq!(tree.nodes.len(), 1);
    assert_eq!(tree.nodes[0].children, Some([ValidMove::Invalid; 7]));
    assert!(!tree.nodes[0].is_leaf());
    assert_eq!(tree.selection(), None);
}

#[test]
pub fn expansion_hands_an_immediate_win_to_the_parent() {
    let tree = opened(Board::setup(7, 112, [1, 1, 1, 0, 1, 1, 1]));
    assert_eq!(tree.nodes[0].result, Some(GameResult::Win(Player::Yellow)));
    assert_eq!(tree.nodes[4].result, Some(GameResult::Win(Player::Yellow)));
    assert_eq!(tree.nodes[1].result, None);

    // A move that only draws is not handed up.
    let tree = opened(Board::setup(890452430364, 1308570825187, [6, 6, 6, 6, 6, 6, 5]));
    assert_eq!(tree.nodes[1].result, Some(GameResult::Draw));
    assert_eq!(tree.nodes[0].result, None);
}

#[test]
pub fn the_first_write_into_a_cell_wins() {
    let mut cell: Option<GameResult> = None;
    assert!(write_once(&mut cell, GameResult::Draw));
    assert_eq!(cell, Some(GameResult::Draw));
    assert!(!write_once(&mut cell, GameResult::Win(Player::Blue)));
    assert_eq!(cell, Some(GameResult::Draw));
}

#[test]
pub fn record_result_credits_the_side_to_move() {
    let mut node = NodeContent::new_root(Board::default());
    node.record_result(GameResult::Win(Player::Blue));
    assert_eq!((node.record.wins, node.record.played), (0, 1));
    node.record_result(GameResult::Win(Player::Yellow));
    assert_eq!((node.record.wins, node.record.played), (1, 2));
    node.record_result(GameResult::Win(Player::NoPlayer));
    assert_eq!((node.record.wins, node.record.played), (1, 3));

    let mut record = Record::default();
    record.increment(true);
    record.increment(false);
    assert_eq!((record.wins, record.played), (1, 2));
}

#[test]
pub fn backpropagation_credits_each_node_by_its_own_mover() {
    let mut tree = opened(Board::default());
    tree.expansion(3);
    let grandchild = tree.nodes.len() - 1;
    assert_eq!(tree.nodes[grandchild].parent, Some(3));

    backpropagation(&mut tree, grandchild, GameResult::Win(Player::Yellow));
    backpropagation(&mut tree, grandchild, GameResult::Win(Player::Blue));
    backpropagation(&mut tree, 3, GameResult::Win(Player::Blue));

    // Yellow moves at the root and at the grandchild, Blue at the child.
    let count = |place: usize| (tree.nodes[place].record.wins, tree.nodes[place].record.played);
    assert_eq!(count(grandchild), (1, 2));
    assert_eq!(count(3), (2, 3));
    assert_eq!(count(0), (1, 3));
    for place in 1..tree.nodes.len() {
        if place != 3 && place != grandchild {
            assert_eq!(count(place), (0, 0));
        }
    }
}

#[test]
pub fn selection_takes_the_root_of_a_new_tree() {
    let tree = SearchTree::new(Board::default(), 10, ucb1);
    assert_eq!(tree.selection(), Some(0));
}

#[test]
pub fn selection_skips_decided_boards() {
    let won = Board::setup(7, 112, [1, 1, 1, 0, 1, 1, 1]).play_move(3);
    let tree = SearchTree::new(won, 10, ucb1);
    assert_eq!(tree.selection(), None);

    // All children but the winning one can still be explored.
    let tree = opened(Board::setup(7, 112, [1, 1, 1, 0, 1, 1, 1]));
    assert_eq!(tree.selection(), Some(1));
}

#[test]
pub fn selection_prefers_leaves_never_visited() {
    let mut tree = opened(Board::default());
    // Visit every child but the one in column 4, with a rank beyond doubt.
    for place in [1, 2, 3, 4, 6, 7] {
        tree.nodes[place].record = Record { wins: u32::MAX as u64, played: u32::MAX as u64 };
    }
    tree.nodes[0].record = Record { wins: 0, played: u64::MAX / 2 };
    assert_eq!(tree.selection(), Some(5));

    // Sampled in the order of the columns, each before any is revisited.
    let mut tree = opened(Board::default());
    for expected in 1..=7 {
        assert_eq!(tree.selection(), Some(expected));
        tree.iterate();
        assert_eq!(tree.nodes[expected].record.played, 7 * 3);
    }
    let seventh = tree.selection().unwrap();
    assert!(seventh > 7);
    assert!(tree.nodes[seventh].record.played > 0);
}

#[test]
pub fn selection_takes_the_highest_rank_and_the_first_of_equals() {
    let mut tree = opened(Board::default());
    let wins = [0u64, 2, 5, 1, 5, 0, 3];
    for column in 0..7 {
        tree.nodes[column + 1].record = Record { wins: wins[column], played: 9 };
    }
    tree.nodes[0].record = Record { wins: 0, played: 63 };
    assert_eq!(tree.selection(), Some(3));
}

#[test]
pub fn iterate_expands_and_samples() {
    let mut tree = SearchTree::new(Board::default(), 5, ucb1);
    tree.iterate();

    assert_eq!(tree.nodes.len(), 8);
    assert_eq!(tree.root, 0);
    assert_eq!(tree.nodes[0].record.played, 35);
    assert!(tree.nodes[0].record.wins <= 35);
    let mut blue_wins = 0;
    for place in 1..8 {
        assert_eq!(tree.nodes[place].parent, Some(0));
        assert_eq!(tree.nodes[place].record.played, 5);
        assert!(tree.nodes[place].record.wins <= 5);
        assert!(tree.nodes[place].is_leaf());
        blue_wins += tree.nodes[place].record.wins;
    }
    // Every playout is won by one of the sides.
    assert_eq!(tree.nodes[0].record.wins + blue_wins, 35);

    tree.iterate();
    assert_eq!(tree.nodes.len(), 15);
    assert_eq!(tree.nodes[0].record.played, 70);
    let expanded: Vec<usize> = (1..8).filter(|place| !tree.nodes[*place].is_leaf()).collect();
    assert_eq!(expanded.len(), 1);
    assert_eq!(tree.nodes[expanded[0]].record.played, 40);
    for place in 8..15 {
        assert_eq!(tree.nodes[place].parent, Some(expanded[0]));
        assert_eq!(tree.nodes[place].record.played, 5);
    }
}

#[test]
pub fn iterate_does_nothing_once_the_root_is_decided() {
    let mut tree = SearchTree::new(Board::setup(7, 112, [1, 1, 1, 0, 1, 1, 1]), 2, ucb1);
    tree.iterate();
    assert_eq!(tree.nodes[0].result, Some(GameResult::Win(Player::Yellow)));
    let nodes = tree.nodes.len();
    let played = tree.nodes[0].record.played;
    assert_eq!(played, 14);
    tree.iterate();
    assert_eq!(tree.nodes.len(), nodes);
    assert_eq!(tree.nodes[0].record.played, played);

    let won = Board::setup(7, 112, [1, 1, 1, 0, 1, 1, 1]).play_move(3);
    let mut tree = SearchTree::new(won, 2, ucb1);
    tree.iterate();
    assert_eq!(tree.nodes.len(), 1);
    assert_eq!(tree.nodes[0].record.played, 0);
}

#[test]
pub fn a_step_that_does_nothing_needs_no_room() {
    let won = Board::setup(7, 112, [1, 1, 1, 0, 1, 1, 1]).play_move(3);
    let mut tree = SearchTree::new(won, 10, ucb1);
    tree.nodes[0].record = Record { wins: 0, played: u64::MAX };
    assert!(!tree.can_iterate());
    tree.iterate();
    assert_eq!(tree.nodes.len(), 1);
    assert_eq!(tree.nodes[0].record.played, u64::MAX);
}

#[test]
pub fn the_parent_wins_what_its_children_lose() {
    let mut tree = SearchTree::new(Board::default(), 4, ucb1);
    for _ in 0..12 {
        let leaf = tree.selection().unwrap();
        let first = tree.nodes.len();
        let wins = tree.nodes[leaf].record.wins;
        let played = tree.nodes[leaf].record.played;
        tree.iterate();
        let mut lost = 0;
        for place in first..tree.nodes.len() {
            assert_eq!(tree.nodes[place].parent, Some(leaf));
            assert_eq!(tree.nodes[place].record.played, 4);
            lost += 4 - tree.nodes[place].record.wins;
        }
        assert_eq!(tree.nodes.len() - first, 7);
        assert_eq!(tree.nodes[leaf].record.wins, wins + lost);
        assert_eq!(tree.nodes[leaf].record.played, played + 28);
    }
}

#[test]
pub fn the_priority_of_a_leaf_is_its_rank_unless_it_is_new() {
    let mut tree = opened(Board::default());
    assert_eq!(tree.calculate_node_uctb(1, 0), UNVISITED);
    assert_eq!(tree.calculate_node_uctb(1, 1000), UNVISITED);
    tree.nodes[1].record = Record { wins: 3, played: 9 };
    assert_eq!(tree.calculate_node_uctb(1, 63), 3);
    tree.nodes[1].record = Record { wins: u32::MAX as u64, played: u64::MAX };
    assert!(tree.calculate_node_uctb(1, u64::MAX) < UNVISITED);
}

#[test]
pub fn can_iterate_tells_whether_the_counters_have_room() {
    let mut tree = SearchTree::new(Board::default(), 10, ucb1);
    assert!(tree.can_iterate());
    tree.nodes[0].record = Record { wins: 0, played: u64::MAX - 70 };
    assert!(tree.can_iterate());
    tree.nodes[0].record = Record { wins: 0, played: u64::MAX - 69 };
    assert!(!tree.can_iterate());
}

#[test]
pub fn simulation_leaves_the_tree_alone() {
    let mut tree = SearchTree::new(Board::default(), 10, ucb1);
    for _ in 0..20 {
        match tree.simulation(0) {
            GameResult::Win(Player::Yellow) | GameResult::Win(Player::Blue) => {}
            other => panic!("undecided outcome {:?}", other),
        }
    }
    assert_eq!(tree.nodes.len(), 1);
    assert_eq!(tree.nodes[0].record.played, 0);
}

/// A tree over the empty board whose root has been expanded, with the
/// outcomes and playouts of the children set by hand.
fn with_children(
    results: [Option<GameResult>; 7],
    played: [u64; 7],
) -> SearchTree<fn(u64, u64, u64) -> u32> {
    let mut tree = opened(Board::default());
    for column in 0..7 {
        tree.nodes[column + 1].result = results[column];
        tree.nodes[column + 1].record = Record { wins: 0, played: played[column] };
    }
    tree
}

#[test]
pub fn choose_move_takes_the_most_played() {
    let tree = with_children([None; 7], [3, 9, 4, 9, 1, 0, 8]);
    assert_eq!(tree.choose_move(), 1);
}

#[test]
pub fn choose_move_takes_a_proven_win_at_once() {
    let yellow = Some(GameResult::Win(Player::Yellow));
    let tree = with_children(
        [None, None, None, None, yellow, None, yellow],
        [3, 900, 4, 9, 0, 0, 8],
    );
    assert_eq!(tree.choose_move(), 4);
}

#[test]
pub fn choose_move_counts_a_loss_below_a_draw_below_a_playout() {
    let lost = Some(GameResult::Win(Player::Blue));
    let drawn = Some(GameResult::Draw);
    let tree = with_children([lost, lost, drawn, lost, None, lost, lost], [50, 50, 50, 50, 1, 9, 9]);
    assert_eq!(tree.choose_move(), 4);
    // An unvisited child counts as much as a draw; the first of them wins.
    let tree = with_children([lost, lost, drawn, lost, None, lost, lost], [50, 50, 50, 50, 0, 9, 9]);
    assert_eq!(tree.choose_move(), 2);
    let tree = with_children([lost, None, drawn, lost, None, lost, lost], [50, 0, 50, 50, 0, 9, 9]);
    assert_eq!(tree.choose_move(), 1);
    let tree = with_children([lost; 7], [1, 2, 3, 4, 5, 6, 7]);
    assert_eq!(tree.choose_move(), 0);
}

#[test]
pub fn choose_move_leaves_illegal_columns_out() {
    let mut tree = opened(Board::setup(0, 0, [6, 0, 6, 5, 6, 6, 1]));
    tree.nodes[2].record = Record { wins: 0, played: 4 };
    tree.nodes[3].record = Record { wins: 0, played: 4 };
    assert_eq!(tree.choose_move(), 3);
    // A loss is still better than no move at all.
    for place in 1..4 {
        tree.nodes[place].result = Some(GameResult::Win(Player::Blue));
    }
    assert_eq!(tree.choose_move(), 1);
}

#[test]
pub fn record_move_keeps_what_was_explored() {
    let mut tree = SearchTree::new(Board::default(), 2, ucb1);
    for _ in 0..30 {
        tree.iterate();
    }
    let before: Vec<NodeContent> = tree.nodes.clone();
    let next = match before[0].children.unwrap()[2] {
        ValidMove::Valid(place) => place,
        ValidMove::Invalid => panic!("column 2 is legal on the empty board"),
    };
    let board = Board::default().play_move(2);

    let played = tree.record_move(2, board);

    assert_eq!(played, board);
    assert_eq!(tree.root, next);
    assert_eq!(tree.nodes[tree.root].board, board);
    assert_eq!(tree.nodes[tree.root].board.turn, 1);
    assert_eq!(tree.nodes[tree.root].parent, None);
    assert_eq!(tree.nodes.len(), before.len());
    for place in 0..before.len() {
        let now = &tree.nodes[place];
        let then = &before[place];
        assert_eq!(now.board.column_pieces, then.board.column_pieces);
        assert_eq!(now.record.played, then.record.played);
        assert_eq!(now.record.wins, then.record.wins);
        assert_eq!(now.children, then.children);
        assert_eq!(now.result, then.result);
        if place != next {
            assert_eq!(now.parent, then.parent);
        }
    }
}

#[test]
pub fn record_move_expands_a_root_without_children() {
    let mut tree = SearchTree::new(Board::default(), 2, ucb1);
    let board = Board::default().play_move(6);
    tree.record_move(6, board);
    assert_eq!(tree.nodes.len(), 8);
    assert_eq!(tree.root, 7);
    assert_eq!(tree.nodes[7].board.column_pieces, [0, 0, 0, 0, 0, 0, 1]);
    assert_eq!(tree.nodes[7].record.played, 0);
    assert!(tree.nodes[7].is_leaf());

    // Playouts from below the new root stop there.
    tree.iterate();
    assert_eq!(tree.nodes[7].record.played, 14);
    assert_eq!(tree.nodes[0].record.played, 0);
}

#[test]
pub fn seek_finds_the_first_node_of_a_position() {
    let mut tree = opened(Board::default());
    tree.expansion(2);
    tree.expansion(5);
    // Files 1 and 4, played in either order, give the same masks only if
    // the same side plays the same file; look for Yellow 1, Blue 4.
    let target = Board::default().play_move(1).play_move(4);
    let found = tree.seek(0, target).unwrap();
    assert_eq!(tree.nodes[found].parent, Some(2));
    assert_eq!(tree.nodes[found].board, target);
    assert_eq!(tree.seek(2, target), Some(found));
    assert_eq!(tree.seek(found, target), Some(found));
    assert_eq!(tree.seek(5, target), None);
    assert_eq!(tree.seek(0, Board::default().play_move(1).play_move(1).play_move(1)), None);
}
