use calendar_puzzle::bitboard::FULL_BOARD;
use calendar_puzzle::pieces::get_initial_pieces;
use calendar_puzzle::placement::all_piece_placements;
use calendar_puzzle::pruner::judge_connected_component;
use calendar_puzzle::search::find_solutions_recursive;
use calendar_puzzle::solver::initial_board_mask;

fn bits(cells: &[u32]) -> u64 {
    cells.iter().fold(0u64, |mask, cell| mask | (1u64 << cell))
}

fn search(blocked: u64) -> Vec<Vec<u64>> {
    let table = all_piece_placements(&get_initial_pieces());
    let mut solutions = Vec::new();
    let mut used = Vec::new();
    find_solutions_recursive(0, blocked, &mut used, false, &table, 0, &mut solutions);
    assert!(used.is_empty());
    solutions
}

#[test]
fn all_pieces_placed_records_the_assignment() {
    let table: Vec<Vec<u64>> = vec![vec![]; 8];
    let mut solutions = vec![vec![7u64]];
    let mut used = vec![1u64, 2, 3];
    find_solutions_recursive(8, 0, &mut used, true, &table, 0, &mut solutions);
    assert_eq!(solutions, vec![vec![7u64], vec![1u64, 2, 3]]);
    assert_eq!(used, vec![1u64, 2, 3]);
}

#[test]
fn piece_without_placements_gives_no_solution() {
    let table: Vec<Vec<u64>> = vec![vec![]; 8];
    let mut solutions = Vec::new();
    let mut used = Vec::new();
    find_solutions_recursive(0, 0, &mut used, false, &table, 0, &mut solutions);
    assert!(solutions.is_empty());
}

#[test]
fn last_piece_is_tried_at_each_of_its_placements() {
    // Seven pieces are placed and ten cells in two rows are left; the last
    // piece has two placements that fit, one that overlaps, and one that
    // leaves a region of three cells.
    let top = bits(&[0, 1, 2, 3, 4]);
    let bottom = bits(&[44, 45, 46, 47, 48]);
    let blocked = FULL_BOARD & !(top | bottom);
    let split = bits(&[0, 1]);
    let overlap = bits(&[4, 5, 6, 7, 8]);
    let mut table: Vec<Vec<u64>> = vec![vec![]; 8];
    table[7] = vec![bottom, overlap, split, top];
    let mut solutions = Vec::new();
    let mut used = vec![11u64, 12, 13, 14, 15, 16, 17];
    find_solutions_recursive(7, blocked, &mut used, true, &table, 0, &mut solutions);
    assert_eq!(solutions.len(), 2);
    assert_eq!(solutions[0], vec![11u64, 12, 13, 14, 15, 16, 17, bottom]);
    assert_eq!(solutions[1], vec![11u64, 12, 13, 14, 15, 16, 17, top]);
    assert_eq!(used, vec![11u64, 12, 13, 14, 15, 16, 17]);
}

#[test]
fn size_six_flag_is_set_at_the_index_of_the_six() {
    // One region of six cells is left after the last piece: accepted only
    // if no piece so far was the one of six cells.
    let region = bits(&[0, 1, 2, 3, 4, 5]);
    let piece = bits(&[44, 45, 46, 47, 48]);
    let blocked = FULL_BOARD & !(region | piece);
    let mut table: Vec<Vec<u64>> = vec![vec![]; 8];
    table[7] = vec![piece];
    let mut found = Vec::new();
    find_solutions_recursive(7, blocked, &mut Vec::new(), false, &table, 0, &mut found);
    assert_eq!(found, vec![vec![piece]]);
    let mut none = Vec::new();
    find_solutions_recursive(7, blocked, &mut Vec::new(), false, &table, 7, &mut none);
    assert!(none.is_empty());
    let mut used_before = Vec::new();
    find_solutions_recursive(7, blocked, &mut Vec::new(), true, &table, 0, &mut used_before);
    assert!(used_before.is_empty());
}

#[test]
fn isolated_pocket_of_four_cells_gives_no_solution() {
    // The cells (0,0), (0,1), (1,0), (1,1) are walled in.
    let walls = bits(&[2, 9, 14, 15]);
    let holes = bits(&[6, 13, 45, 46, 47, 48]);
    let blocked = walls | holes;
    assert!(!judge_connected_component(blocked, false));
    assert_eq!(search(blocked), Vec::<Vec<u64>>::new());
}

#[test]
fn date_holes_that_close_a_pocket_give_no_solution() {
    // With the cells around them filled, the holes of January 1st wall in
    // the four cells (1,0), (1,1), (1,2), (1,3).
    let start = initial_board_mask(1, 1);
    let blocked = start | bits(&[1, 2, 3, 4, 11, 15, 16, 17]);
    assert!(!judge_connected_component(blocked, false));
    assert_eq!(search(blocked), Vec::<Vec<u64>>::new());
}

#[test]
fn solutions_cover_the_board_without_overlap() {
    let blocked = initial_board_mask(1, 1);
    let table = all_piece_placements(&get_initial_pieces());
    let solutions = search(blocked);
    assert_eq!(solutions.len(), 64);
    assert_eq!(
        solutions[0],
        vec![
            198156,
            3315916079104,
            974957576192,
            58984448,
            30889404792832,
            4227458,
            4028628992,
            1577008
        ]
    );
    assert_eq!(
        solutions[63],
        vec![
            31026843746304,
            3869765533696,
            135794720,
            264220,
            14778368,
            1922,
            278904438784,
            8707506176
        ]
    );
    for solution in solutions.iter() {
        assert_eq!(solution.len(), 8);
        let mut union = blocked;
        for (k, mask) in solution.iter().enumerate() {
            assert!(table[k].contains(mask));
            assert_eq!(union & mask, 0);
            union |= mask;
        }
        assert_eq!(union, FULL_BOARD);
        for a in 0..8 {
            for b in 0..a {
                assert_eq!(solution[a] & solution[b], 0);
            }
        }
    }
    for a in 0..solutions.len() {
        for b in 0..a {
            assert_ne!(solutions[a], solutions[b]);
        }
    }
}

#[test]
fn order_of_the_placements_does_not_change_the_set_of_solutions() {
    let blocked = initial_board_mask(10, 6);
    let table = all_piece_placements(&get_initial_pieces());
    let reversed: Vec<Vec<u64>> =
        table.iter().map(|row| row.iter().rev().copied().collect()).collect();
    let mut forward = Vec::new();
    find_solutions_recursive(0, blocked, &mut Vec::new(), false, &table, 0, &mut forward);
    let mut backward = Vec::new();
    find_solutions_recursive(0, blocked, &mut Vec::new(), false, &reversed, 0, &mut backward);
    assert_eq!(forward.len(), 7);
    assert_ne!(forward, backward);
    forward.sort();
    backward.sort();
    assert_eq!(forward, backward);
}
