use connect4_mcts::game::board::Board;
use connect4_mcts::game::lines::{check_diagonals, check_horizontal, check_vertical, MAX_INDEX};
use connect4_mcts::game::player::Player;
use connect4_mcts::game::result::GameResult;

#[test]
pub fn default_board_is_empty_with_yellow_to_move() {
    let b = Board::default();
    assert_eq!(b.yellow_bb, 0);
    assert_eq!(b.blue_bb, 0);
    assert_eq!(b.column_pieces, [0; 7]);
    assert!(b.yellow_turn);
    assert_eq!(b.result, None);
    assert_eq!(b.turn, 0);
    assert_eq!(b.active_player(), Player::Yellow);
    assert_eq!(MAX_INDEX, 42);
}

#[test]
pub fn setup_counts_the_pieces() {
    let b = Board::setup(7, 112, [1, 1, 1, 0, 1, 1, 1]);
    assert_eq!(b.yellow_bb, 7);
    assert_eq!(b.blue_bb, 112);
    assert_eq!(b.column_pieces, [1, 1, 1, 0, 1, 1, 1]);
    assert!(b.yellow_turn);
    assert_eq!(b.turn, 7);
    assert_eq!(b.result, None);

    let b = Board::setup(7, 96, [1, 1, 0, 0, 1, 1, 1]);
    assert!(!b.yellow_turn);
    assert_eq!(b.active_player(), Player::Blue);
    assert_eq!(b.turn, 6);

    let b = Board::setup(u64::MAX, 0, [0; 7]);
    assert!(!b.yellow_turn);
    assert_eq!(b.turn, 65);
}

#[test]
pub fn play_move_advances_and_leaves_the_board_alone() {
    let b = Board::default();
    let next = b.play_move(3);

    assert_eq!(next.yellow_bb, 8);
    assert_eq!(next.blue_bb, 0);
    assert_eq!(next.column_pieces, [0, 0, 0, 1, 0, 0, 0]);
    assert!(!next.yellow_turn);
    assert_eq!(next.turn, 1);
    assert_eq!(next.result, None);

    assert_eq!(b.yellow_bb, 0);
    assert_eq!(b.column_pieces, [0; 7]);
    assert!(b.yellow_turn);
    assert_eq!(b.turn, 0);

    let third = next.play_move(3);
    assert_eq!(third.yellow_bb, 8);
    assert_eq!(third.blue_bb, 1 << 10);
    assert_eq!(third.column_pieces, [0, 0, 0, 2, 0, 0, 0]);
    assert!(third.yellow_turn);
    assert_eq!(third.turn, 2);
}

#[test]
pub fn get_moves_leaves_full_columns_out() {
    assert_eq!(Board::default().get_moves(), vec![0, 1, 2, 3, 4, 5, 6]);
    let b = Board::setup(0, 0, [6, 0, 6, 5, 6, 6, 1]);
    assert_eq!(b.get_moves(), vec![1, 3, 6]);
    assert!(!b.is_full());
    let b = Board::setup(0, 0, [6; 7]);
    assert_eq!(b.get_moves(), Vec::<usize>::new());
    assert!(b.is_full());
    let b = Board::setup(0, 0, [7, 6, 6, 6, 6, 6, 6]);
    assert_eq!(b.get_moves(), Vec::<usize>::new());
}

#[test]
pub fn cell_empty_compares_the_height() {
    let b = Board::setup(0, 0, [2, 0, 0, 0, 0, 0, 0]);
    assert!(b.cell_empty(0, 3));
    assert!(!b.cell_empty(0, 2));
    assert!(!b.cell_empty(1, 0));
}

#[test]
pub fn vertical_four_wins() {
    let b = Board::setup(16513, 33026, [3, 3, 0, 0, 0, 0, 0]);
    assert!(b.yellow_turn);
    let won = b.play_move(0);
    assert_eq!(won.yellow_bb, 2113665);
    assert_eq!(won.result, Some(GameResult::Win(Player::Yellow)));
}

#[test]
pub fn horizontal_four_wins() {
    let b = Board::setup(7, 112, [1, 1, 1, 0, 1, 1, 1]);
    let won = b.play_move(3);
    assert_eq!(won.yellow_bb, 15);
    assert_eq!(won.result, Some(GameResult::Win(Player::Yellow)));
}

#[test]
pub fn rising_four_wins() {
    // Yellow holds cells 0, 8 and 16 and drops into file 3 onto cell 24.
    let yellow = 1 | 1 << 8 | 1 << 16;
    let blue = 1 << 1 | 1 << 2 | 1 << 9 | 1 << 3 | 1 << 10 | 1 << 17;
    let b = Board::setup(yellow, blue, [1, 2, 3, 3, 0, 0, 0]);
    assert!(!b.yellow_turn);
    let b = Board { yellow_turn: true, ..b };
    let won = b.play_move(3);
    assert_eq!(won.yellow_bb, yellow | 1 << 24);
    assert_eq!(won.result, Some(GameResult::Win(Player::Yellow)));
}

#[test]
pub fn three_pieces_never_win() {
    let b = Board::setup(3, 0, [1, 1, 0, 0, 0, 0, 0]);
    let b = Board { yellow_turn: true, ..b };
    let next = b.play_move(2);
    assert_eq!(next.yellow_bb, 7);
    assert_eq!(next.result, None);
}

#[test]
pub fn an_outcome_once_set_stays() {
    let b = Board::setup(16513, 33026, [3, 3, 0, 0, 0, 0, 0]);
    let won = b.play_move(0);
    assert_eq!(won.result, Some(GameResult::Win(Player::Yellow)));

    // Blue completes four of its own in file 1; the game was over before.
    let after = won.play_move(1);
    assert_eq!(after.blue_bb, 33026 | 1 << 22);
    assert!(check_vertical(after.blue_bb, 22));
    assert_eq!(after.result, Some(GameResult::Win(Player::Yellow)));

    // Judging the same masks once more changes nothing.
    let mut again = after;
    again.update_winner(22, false);
    assert_eq!(again.result, after.result);
}

#[test]
pub fn update_winner_judges_the_side_named() {
    let mut b = Board::setup(15, 0, [1, 1, 1, 1, 0, 0, 0]);
    b.update_winner(3, false);
    assert_eq!(b.result, None);
    b.update_winner(3, true);
    assert_eq!(b.result, Some(GameResult::Win(Player::Yellow)));

    let mut full = Board::setup(0, 0, [6; 7]);
    full.update_winner(41, true);
    assert_eq!(full.result, Some(GameResult::Draw));
}

#[test]
pub fn boards_are_equal_when_their_masks_are() {
    let a = Board::setup(7, 112, [1, 1, 1, 0, 1, 1, 1]);
    let b = Board::setup(7, 112, [0; 7]);
    let c = Board::setup(7, 96, [1, 1, 1, 0, 1, 1, 1]);
    assert!(a == b);
    assert!(a != c);
}

#[test]
pub fn piece_at_reads_both_masks() {
    let b = Board::setup(0b0011, 0b0110, [0; 7]);
    assert_eq!(b.piece_at(0), Player::Yellow);
    assert_eq!(b.piece_at(1), Player::Blue);
    assert_eq!(b.piece_at(2), Player::Blue);
    assert_eq!(b.piece_at(3), Player::NoPlayer);
    assert_eq!(b.piece_at(63), Player::NoPlayer);
}

#[test]
pub fn every_diagonal_four_is_found_from_each_of_its_cells() {
    let mut lines = 0;
    for start in 0..42usize {
        for stride in [6usize, 8] {
            let file = start % 7;
            let fits = start / 7 <= 2 && if stride == 8 { file <= 3 } else { file >= 3 };
            let bb: u64 = (0..4).map(|j| 1u64 << (start + j * stride)).sum();
            for j in 0..4 {
                let index = start + j * stride;
                if index < 42 {
                    assert_eq!(check_diagonals(bb, index), fits, "start {start} stride {stride}");
                }
            }
            if fits {
                lines += 1;
            }
        }
    }
    assert_eq!(lines, 24);
}

#[test]
pub fn falling_fours_that_start_in_file_three_or_in_the_bottom_rank_win() {
    for cells in [[3, 9, 15, 21], [4, 10, 16, 22], [5, 11, 17, 23], [10, 16, 22, 28], [17, 23, 29, 35]] {
        let bb: u64 = cells.iter().map(|c| 1u64 << c).sum();
        for index in cells {
            assert!(check_diagonals(bb, index));
        }
    }
    assert!(check_diagonals(0x208208, 21));
}

#[test]
pub fn a_diagonal_four_must_hold_the_piece_placed() {
    // A rising four from cell 0 and a lone piece on cell 5.
    let bb = 0x1010101 | 1 << 5;
    assert!(check_diagonals(bb, 16));
    assert!(!check_diagonals(bb, 5));
    // A run of five is found from its middle and from both ends.
    let five = 0x1010101 | 1 << 32;
    assert!(check_diagonals(five, 0));
    assert!(check_diagonals(five, 16));
    assert!(check_diagonals(five, 32));
    // Three in a line are not enough, with a gap or without.
    assert!(!check_diagonals(0x10101, 8));
    assert!(!check_diagonals(0x1000101, 24));
    // A clear cell gives no piece to go by: any diagonal four counts.
    assert!(check_diagonals(0x1010101, 41));
    assert!(!check_diagonals(0x10101, 41));
}

#[test]
pub fn a_diagonal_four_through_the_last_piece_wins() {
    let b = Board::setup(0x208208 & !(1 << 21), 0x4187, [3, 3, 2, 1, 0, 0, 0]);
    let b = Board { yellow_turn: true, ..b };
    let won = b.play_move(0);
    assert_eq!(won.yellow_bb, 0x208208);
    assert_eq!(won.column_pieces, [4, 3, 2, 1, 0, 0, 0]);
    assert_eq!(won.result, Some(GameResult::Win(Player::Yellow)));

    let mut judged = Board::setup(0x208208, 0x4187, [4, 3, 2, 1, 0, 0, 0]);
    judged.update_winner(21, true);
    assert_eq!(judged.result, Some(GameResult::Win(Player::Yellow)));
}

#[test]
pub fn horizontal_run_is_anchored_at_its_left_end() {
    let bb = 0b0111_1000;
    assert!(check_horizontal(bb, 6));
    assert!(check_horizontal(bb, 3));
    // Five in a row, counted from the left end.
    assert!(check_horizontal(0b0111_1100, 6));
    // A gap right of the left end.
    assert!(!check_horizontal(0b0110_1100, 6));
}
