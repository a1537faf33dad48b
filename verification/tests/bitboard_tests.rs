use calendar_puzzle::bitboard::{board_to_bitmask, FULL_BOARD};

#[test]
fn empty_grid_encodes_to_zero() {
    assert_eq!(board_to_bitmask(&vec![]), 0);
    assert_eq!(board_to_bitmask(&vec![vec![0u8; 7]; 7]), 0);
}

#[test]
fn bit_is_row_times_seven_plus_column() {
    let board = vec![vec![1u8, 0, 1], vec![0, 1]];
    assert_eq!(board_to_bitmask(&board), 1 | (1 << 2) | (1 << 8));
    assert_eq!(board_to_bitmask(&board), 261);
}

#[test]
fn full_grid_encodes_to_full_board() {
    let board = vec![vec![1u8; 7]; 7];
    assert_eq!(board_to_bitmask(&board), FULL_BOARD);
    assert_eq!(FULL_BOARD, (1u64 << 49) - 1);
}

#[test]
fn only_cells_equal_to_one_are_set() {
    let board = vec![vec![2u8, 1, 255], vec![0, 0, 0, 0, 0, 0, 1]];
    assert_eq!(board_to_bitmask(&board), (1 << 1) | (1 << 13));
}

#[test]
fn last_cell_is_bit_forty_eight() {
    let mut board = vec![vec![0u8; 7]; 7];
    board[6][6] = 1;
    assert_eq!(board_to_bitmask(&board), 1u64 << 48);
}
