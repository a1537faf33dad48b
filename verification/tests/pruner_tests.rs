use calendar_puzzle::bitboard::FULL_BOARD;
use calendar_puzzle::pruner::{is_clear, judge_connected_component};

fn all_but(cells: &[u32]) -> u64 {
    cells.iter().fold(FULL_BOARD, |mask, cell| mask & !(1u64 << cell))
}

#[test]
fn full_board_is_accepted() {
    assert!(judge_connected_component(FULL_BOARD, false));
    assert!(judge_connected_component(FULL_BOARD, true));
}

#[test]
fn regions_of_one_to_four_cells_are_rejected() {
    let regions: [&[u32]; 4] = [&[24], &[24, 25], &[24, 25, 32], &[0, 1, 7, 8]];
    for region in regions {
        assert!(!judge_connected_component(all_but(region), false));
        assert!(!judge_connected_component(all_but(region), true));
    }
}

#[test]
fn small_region_is_rejected_beside_a_large_one() {
    let mask = all_but(&[0, 1, 2, 3, 4, 48]);
    assert!(!judge_connected_component(mask, false));
    assert!(!judge_connected_component(mask, true));
}

#[test]
fn region_of_five_is_accepted() {
    let mask = all_but(&[0, 1, 2, 3, 4]);
    assert!(judge_connected_component(mask, false));
    assert!(judge_connected_component(mask, true));
}

#[test]
fn region_of_six_is_accepted_only_while_the_six_is_unused() {
    let mask = all_but(&[0, 1, 2, 3, 4, 5]);
    assert!(judge_connected_component(mask, false));
    assert!(!judge_connected_component(mask, true));
}

#[test]
fn region_of_ten_is_accepted() {
    let mask = all_but(&[0, 1, 2, 3, 4, 7, 8, 9, 10, 11]);
    assert!(judge_connected_component(mask, false));
    assert!(judge_connected_component(mask, true));
}

#[test]
fn region_of_eleven_is_accepted_only_while_the_six_is_unused() {
    let mask = all_but(&[0, 1, 2, 3, 4, 5, 7, 8, 9, 10, 11]);
    assert!(judge_connected_component(mask, false));
    assert!(!judge_connected_component(mask, true));
}

#[test]
fn region_of_twelve_is_rejected() {
    let mask = all_but(&[0, 1, 2, 3, 4, 5, 7, 8, 9, 10, 11, 12]);
    assert!(!judge_connected_component(mask, false));
    assert!(!judge_connected_component(mask, true));
}

#[test]
fn regions_of_seven_eight_and_nine_are_rejected() {
    assert!(!judge_connected_component(all_but(&[0, 1, 2, 3, 4, 5, 6]), false));
    assert!(!judge_connected_component(all_but(&[0, 1, 2, 3, 4, 5, 6, 7]), false));
    assert!(!judge_connected_component(all_but(&[0, 1, 2, 3, 4, 5, 6, 7, 8]), true));
}

#[test]
fn rows_do_not_wrap() {
    // Cells 4, 5, 6 end the first row and 7, 8 start the second: 6 and 7
    // are not neighbours, and 5 and 6 touch nothing of the second row.
    let mask = all_but(&[4, 5, 6, 7, 8]);
    assert!(!judge_connected_component(mask, false));
    let column = all_but(&[3, 10, 17, 24, 31]);
    assert!(judge_connected_component(column, true));
}

#[test]
fn diagonal_cells_are_not_connected() {
    let mask = all_but(&[0, 8, 16, 24, 32]);
    assert!(!judge_connected_component(mask, false));
}

#[test]
fn two_regions_are_judged_one_by_one() {
    let both_five = all_but(&[0, 1, 2, 3, 4, 44, 45, 46, 47, 48]);
    assert!(judge_connected_component(both_five, true));
    let five_and_six = all_but(&[0, 1, 2, 3, 4, 43, 44, 45, 46, 47, 48]);
    assert!(judge_connected_component(five_and_six, false));
    assert!(!judge_connected_component(five_and_six, true));
}

#[test]
fn empty_board_has_one_region_of_forty_nine() {
    assert!(!judge_connected_component(0, false));
    assert!(!judge_connected_component(0, true));
    // 41 empty cells: 6 + 7 * 5.
    let start = calendar_puzzle::solver::initial_board_mask(1, 1);
    assert!(judge_connected_component(start, false));
    assert!(!judge_connected_component(start, true));
}

#[test]
fn bits_above_the_board_are_ignored() {
    let mask = all_but(&[0, 1, 2, 3, 4]);
    assert!(judge_connected_component(mask | (1u64 << 49) | (1u64 << 63), true));
    assert!(judge_connected_component(mask & FULL_BOARD, true));
}

#[test]
fn is_clear_reads_one_bit() {
    assert!(is_clear(0b1011, 2));
    assert!(!is_clear(0b1011, 0));
    assert!(!is_clear(0b1011, 3));
    assert!(is_clear(FULL_BOARD, 49));
    assert!(!is_clear(FULL_BOARD, 48));
    assert!(!is_clear(1u64 << 63, 63));
}
