use connect4_mcts::agent::monty::Monty;
use connect4_mcts::agent::randy::Randy;
use connect4_mcts::agent::Agent;
use connect4_mcts::game::board::Board;
use connect4_mcts::tournament::Tournament;

fn ucb1(wins: u64, played: u64, parent_played: u64) -> u32 {
    let mean = wins as f32 / played as f32;
    let exploration_bias =
        std::f32::consts::SQRT_2 * f32::sqrt(f32::ln(parent_played as f32) / played as f32);
    let score = mean + exploration_bias;
    if score >= 0.0 {
        score.to_bits()
    } else {
        0
    }
}

#[test]
pub fn randy_picks_a_legal_column() {
    let board = Board::setup(0, 0, [6, 0, 6, 5, 6, 6, 1]);
    let mut randy = Randy;
    for _ in 0..50 {
        let column = randy.select_move(board);
        assert!(column == 1 || column == 3 || column == 6);
    }
    assert_eq!(randy.record_move(3, board), board);
}

#[test]
pub fn monty_takes_the_winning_move() {
    let board = Board::setup(7, 112, [1, 1, 1, 0, 1, 1, 1]);
    let mut monty = Monty::new(board, 10, 10, ucb1);
    assert_eq!(monty.iterations, 10);
    assert_eq!(monty.select_move(board), 3);
}

#[test]
pub fn monty_blocks_the_threat() {
    let board = Board::setup(7, 96, [1, 1, 0, 0, 1, 1, 1]);
    let mut monty = Monty::new(board, 200, 1, ucb1);
    assert_eq!(monty.select_move(board), 3);
}

#[test]
pub fn monty_follows_the_game() {
    let start = Board::default();
    let mut monty = Monty::new(start, 20, 2, ucb1);
    let first = monty.select_move(start);
    assert!(first < 7);
    let board = start.play_move(first);
    assert_eq!(monty.record_move(first, board), board);
    assert_eq!(monty.search_tree.nodes[monty.search_tree.root].board, board);

    // The other side answers with a move that may not have been explored.
    let answer = 6;
    let board = board.play_move(answer);
    monty.record_move(answer, board);
    let root = &monty.search_tree.nodes[monty.search_tree.root];
    assert_eq!(root.board, board);
    assert_eq!(root.board.turn, 2);
    assert_eq!(root.parent, None);
    let second = monty.select_move(board);
    assert!(board.get_moves().contains(&second));
}

#[test]
pub fn monty_searches_as_many_steps_as_it_is_set_to() {
    let start = Board::default();
    let mut monty = Monty::new(start, 3, 2, ucb1);
    monty.select_move(start);
    // Each of the three steps expands one leaf of the empty board's tree.
    assert_eq!(monty.search_tree.nodes.len(), 1 + 3 * 7);
    assert_eq!(monty.search_tree.nodes[0].record.played, 3 * 7 * 2);
}

#[test]
pub fn monty_without_a_search_still_picks_a_move() {
    let start = Board::default();
    let mut monty = Monty::new(start, 0, 10, ucb1);
    assert_eq!(monty.select_move(start), 0);
    assert_eq!(monty.search_tree.nodes.len(), 8);
}

#[test]
pub fn a_game_between_random_agents_ends() {
    for _ in 0..20 {
        let mut tournament = Tournament::new(Randy, Randy);
        let board = tournament.play();
        assert!(board.result.is_some());
        let pieces = board.yellow_bb.count_ones() + board.blue_bb.count_ones();
        assert_eq!(board.turn, pieces);
        assert!(pieces >= 7);
        assert!(pieces <= 42);
        assert_eq!(board.yellow_bb & board.blue_bb, 0);
    }
}

#[test]
pub fn a_game_between_searching_agents_ends() {
    let start = Board::default();
    let mut tournament =
        Tournament::new(Monty::new(start, 5, 2, ucb1), Monty::new(start, 10, 2, ucb1));
    let board = tournament.play();
    assert!(board.result.is_some());
    let root = tournament.yellow_player.search_tree.root;
    assert_eq!(tournament.yellow_player.search_tree.nodes[root].board, board);
    let root = tournament.blue_player.search_tree.root;
    assert_eq!(tournament.blue_player.search_tree.nodes[root].board, board);
}
