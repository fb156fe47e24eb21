use connect4_mcts::game::board::Board;
use connect4_mcts::game::player::Player;
use connect4_mcts::game::result::GameResult;
use connect4_mcts::mcst::playout::{from, rollout_step};

#[test]
pub fn invert_swaps_the_sides() {
    assert_eq!(Player::Yellow.invert(), Player::Blue);
    assert_eq!(Player::Blue.invert(), Player::Yellow);
    assert_eq!(Player::NoPlayer.invert_with(true), Player::Yellow);
    assert_eq!(Player::NoPlayer.invert_with(false), Player::Blue);
    assert_eq!(Player::Yellow.invert_with(true), Player::Blue);
    for _ in 0..20 {
        assert_ne!(Player::NoPlayer.invert(), Player::NoPlayer);
    }
}

#[test]
pub fn fair_random_result_keeps_a_win() {
    let yellow = GameResult::Win(Player::Yellow);
    let blue = GameResult::Win(Player::Blue);
    assert_eq!(yellow.fair_random_result(), yellow);
    assert_eq!(blue.fair_random_result(), blue);
    assert_eq!(yellow.settle(false), yellow);
    assert_eq!(blue.settle(true), blue);
}

#[test]
pub fn fair_random_result_turns_a_draw_into_a_win() {
    assert_eq!(GameResult::Draw.settle(true), GameResult::Win(Player::Yellow));
    assert_eq!(GameResult::Draw.settle(false), GameResult::Win(Player::Blue));
    assert_eq!(
        GameResult::Win(Player::NoPlayer).settle(true),
        GameResult::Win(Player::Yellow)
    );
    let mut yellow = 0;
    let mut blue = 0;
    for _ in 0..200 {
        match GameResult::Draw.fair_random_result() {
            GameResult::Win(Player::Yellow) => yellow += 1,
            GameResult::Win(Player::Blue) => blue += 1,
            other => panic!("undecided outcome {:?}", other),
        }
    }
    assert!(yellow > 0);
    assert!(blue > 0);
}

#[test]
pub fn rollout_step_plays_the_column_picked() {
    let b = Board::setup(0, 0, [6, 0, 6, 5, 6, 6, 1]);
    // The legal columns are 1, 3 and 6.
    assert_eq!(rollout_step(b, 0).column_pieces, [6, 1, 6, 5, 6, 6, 1]);
    assert_eq!(rollout_step(b, 1).column_pieces, [6, 0, 6, 6, 6, 6, 1]);
    assert_eq!(rollout_step(b, 2).column_pieces, [6, 0, 6, 5, 6, 6, 2]);
    assert_eq!(rollout_step(b, 3).column_pieces, [6, 1, 6, 5, 6, 6, 1]);
    // u64::MAX is a multiple of three.
    assert_eq!(rollout_step(b, u64::MAX).column_pieces, [6, 1, 6, 5, 6, 6, 1]);
}

#[test]
pub fn playout_of_a_decided_board_is_its_outcome() {
    let won = Board::setup(7, 112, [1, 1, 1, 0, 1, 1, 1]).play_move(3);
    assert_eq!(from(won), GameResult::Win(Player::Yellow));
    let drawn = Board::setup(890452430364, 1308570825187, [6, 6, 6, 6, 6, 6, 5]).play_move(6);
    assert_eq!(from(drawn), GameResult::Draw);
}

#[test]
pub fn playout_of_a_board_without_moves_is_a_draw() {
    let stuck = Board::setup(0, 0, [6; 7]);
    assert_eq!(stuck.result, None);
    assert_eq!(from(stuck), GameResult::Draw);
}

#[test]
pub fn playout_with_one_move_left_plays_it() {
    let b = Board::setup(890452430364, 1308570825187, [6, 6, 6, 6, 6, 6, 5]);
    assert_eq!(from(b), GameResult::Draw);
    let b = Board::setup(7, 0, [6, 6, 6, 0, 6, 6, 6]);
    let b = Board { yellow_turn: true, ..b };
    // Only file 3 is open, and Yellow completes the bottom rank there.
    assert_eq!(from(b), GameResult::Win(Player::Yellow));
}

#[test]
pub fn playout_ends_in_an_outcome() {
    for _ in 0..50 {
        match from(Board::default()) {
            GameResult::Win(Player::Yellow) | GameResult::Win(Player::Blue) | GameResult::Draw => {}
            other => panic!("no outcome of a game: {:?}", other),
        }
    }
}
