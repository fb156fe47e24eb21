use connect4_mcts::game::board::Board;
use connect4_mcts::game::lines::{check_diagonals, check_horizontal, check_vertical, WIDTH};
use connect4_mcts::game::result::GameResult;

#[test]
pub fn check_vertical_valid_win() {
    let file = 4;
    let bb = 0x204081 << file;
    let _board = Board::setup(bb, 0, [0; WIDTH]);

    assert!(check_vertical(bb, file + WIDTH * 3))
}

#[test]
pub fn check_vertical_below_4th_row_fails() {
    let file = 6;
    let bb = 0x4081 << file;
    let _board = Board::setup(bb, 0, [0; WIDTH]);

    assert!(!check_vertical(bb, file + WIDTH * 2))
}

#[test]
pub fn check_vertical_above_4th_row_but_missing_a_position() {
    let file = 5;
    let bb = 0x10200080 << file;
    let _board = Board::setup(bb, 0, [0; WIDTH]);

    assert!(!check_vertical(bb, file + WIDTH * 4))
}

#[test]
pub fn check_vertical_win_with_noise() {
    let file = 5;
    let bb = 0x14606188 << file;
    let _board = Board::setup(bb, 0, [0; WIDTH]);

    assert!(check_vertical(bb, file + WIDTH * 4))
}

#[test]
pub fn check_horizontal_valid_win() {
    let bb = 0x78;
    let _board = Board::setup(0, bb, [0; WIDTH]);

    assert!(check_horizontal(bb, 5));
    assert!(check_horizontal(bb, 6));
    assert!(check_horizontal(bb, 4));
    assert!(check_horizontal(bb, 3))
}

#[test]
pub fn check_horizontal_no_wrapping_wins() {
    let bb = 0xF0;
    let _board = Board::setup(0, bb, [0; WIDTH]);

    assert!(!check_horizontal(bb, 7));
    assert!(!check_horizontal(bb, 6));
    assert!(!check_horizontal(bb, 5));
    assert!(!check_horizontal(bb, 4))
}

#[test]
pub fn check_horizontal_only_win_on_left_side() {
    let bb = 0x1EC000;
    let _board = Board::setup(0, bb, [0; WIDTH]);

    assert!(!check_horizontal(bb, 14));
    assert!(check_horizontal(bb, 18));
}

#[test]
pub fn check_horizontal_case_0() {
    let bb = 0x2020F65;

    let _board = Board::setup(bb, 0, [0; WIDTH]);
    assert!(check_horizontal(bb, 8));
}

#[test]
pub fn check_horizontal_case_1() {
    let bb = 0x8F;

    let _board = Board::setup(bb, 0, [0; WIDTH]);
    assert!(check_horizontal(bb, 1));
}

#[test]
pub fn check_diagonal_valid_starting_in_bottom_corner_0() {
    let bb = 0x1010101;
    let _board = Board::setup(0, bb, [0; WIDTH]);

    assert!(check_diagonals(bb, 0));
}

#[test]
pub fn check_diagonal_valid_starting_in_bottom_corner_6() {
    let bb = 0x1041040;
    let _board = Board::setup(0, bb, [0; WIDTH]);

    assert!(check_diagonals(bb, 24));
}

#[test]
pub fn check_diagonal_bl_not_on_file_0() {
    let bb = 0x1041040 << 6;
    let _board = Board::setup(0, bb, [0; WIDTH]);

    assert!(check_diagonals(bb, 30));
}

#[test]
pub fn check_diagonal_br_not_on_file_0() {
    let bb = 0x1010101 << 10;
    let _board = Board::setup(0, bb, [0; WIDTH]);

    assert!(check_diagonals(bb, 26));
}

#[test]
pub fn check_diagonal_bl_wrapping_fails() {
    let bb = 0x1041040 >> 5;
    let _board = Board::setup(0, bb, [0; WIDTH]);

    assert!(!check_diagonals(bb, 13));
}

#[test]
pub fn check_diagonal_br_wrapping_fails() {
    let bb = 0x1010101 << 12;
    let _board = Board::setup(0, bb, [0; WIDTH]);

    assert!(!check_diagonals(bb, 28));
}

#[test]
pub fn check_diagonal_case_0() {
    let bb = 0x8219;

    let _board = Board::setup(bb, 0, [0; WIDTH]);
    assert!(!check_diagonals(bb, 9));
}

#[test]
pub fn check_diagonal_case_1() {
    let bb = 0x10099;

    let _board = Board::setup(0, bb, [0; WIDTH]);
    assert!(!check_diagonals(bb, 7));
}

#[test]
pub fn check_diagonal_case_2() {
    let bb = 13314539663852;

    let _board = Board::setup(bb, 0, [0; WIDTH]);
    assert!(!check_diagonals(bb, 19));
}

#[test]
pub fn check_diagonal_case_3() {
    let bb = 0x104104;

    let _board = Board::setup(bb, 0, [0; WIDTH]);
    assert!(!check_diagonals(bb, 3));
}

#[test]
pub fn check_diagonal_case_4() {
    let bb = 0x208208;

    let _board = Board::setup(bb, 0, [0; WIDTH]);
    assert!(check_diagonals(bb, 4));
}

#[test]
pub fn update_winner_move_leading_to_draw() {
    // Arrange
    let b = Board::setup(890452430364, 1308570825187, [6, 6, 6, 6, 6, 6, 5]);

    // Act
    let r = b.play_move(6);

    // Assert
    assert_eq!(r.result, Some(GameResult::Draw));
}
