use calendar_puzzle::solver::{
    initial_board_mask, is_blocked, render_solution, BLOCKED, SIZE_6_PIECE_INDEX,
};
use calendar_puzzle::{solve_for_date, Solution};

fn bits(cells: &[u32]) -> u64 {
    cells.iter().fold(0u64, |mask, cell| mask | (1u64 << cell))
}

#[test]
fn january_first_blocks_eight_cells() {
    let mask = initial_board_mask(1, 1);
    assert_eq!(mask.count_ones(), 8);
    assert_eq!(mask, bits(&[0, 6, 13, 14, 45, 46, 47, 48]));
}

#[test]
fn month_cells_fill_two_rows_of_six() {
    let holes = bits(&[6, 13, 45, 46, 47, 48]);
    assert_eq!(initial_board_mask(6, 1), holes | bits(&[5, 14]));
    assert_eq!(initial_board_mask(7, 1), holes | bits(&[7, 14]));
    assert_eq!(initial_board_mask(12, 1), holes | bits(&[12, 14]));
}

#[test]
fn day_cells_fill_rows_of_seven_from_the_third() {
    let holes = bits(&[6, 13, 45, 46, 47, 48]);
    assert_eq!(initial_board_mask(1, 7), holes | bits(&[0, 20]));
    assert_eq!(initial_board_mask(1, 8), holes | bits(&[0, 21]));
    assert_eq!(initial_board_mask(1, 28), holes | bits(&[0, 41]));
    assert_eq!(initial_board_mask(1, 29), holes | bits(&[0, 42]));
    assert_eq!(initial_board_mask(12, 31), holes | bits(&[12, 44]));
}

#[test]
fn every_date_blocks_eight_cells() {
    for month in 1..=12 {
        for day in 1..=31 {
            assert_eq!(initial_board_mask(month, day).count_ones(), 8);
        }
    }
}

#[test]
fn is_blocked_agrees_with_the_mask() {
    for (month, day) in [(1, 1), (2, 29), (10, 6), (12, 31)] {
        let mask = initial_board_mask(month, day);
        for row in 0..7 {
            for col in 0..7 {
                assert_eq!(is_blocked(month, day, row, col), (mask >> (row * 7 + col)) & 1 == 1);
            }
        }
    }
}

#[test]
fn render_numbers_the_pieces_from_one() {
    let masks = vec![bits(&[1, 2]), bits(&[3]), 0, 0, 0, 0, 0, bits(&[44])];
    let solution = render_solution(&masks, 1, 1);
    assert_eq!(solution.board.len(), 7);
    assert_eq!(solution.board[0], vec![BLOCKED, 1, 1, 2, 0, 0, BLOCKED]);
    assert_eq!(solution.board[1], vec![0, 0, 0, 0, 0, 0, BLOCKED]);
    assert_eq!(solution.board[2], vec![BLOCKED, 0, 0, 0, 0, 0, 0]);
    assert_eq!(solution.board[6], vec![0, 0, 8, BLOCKED, BLOCKED, BLOCKED, BLOCKED]);
    assert_eq!(BLOCKED, -1);
}

#[test]
fn render_lets_the_later_piece_win_and_keeps_blocked_cells() {
    let masks = vec![bits(&[0, 8, 9]), bits(&[9, 10]), bits(&[9])];
    let solution = render_solution(&masks, 1, 1);
    assert_eq!(solution.board[0][0], -1);
    assert_eq!(solution.board[1], vec![0, 1, 3, 2, 0, 0, -1]);
    assert_eq!(render_solution(&vec![], 1, 1).board[3], vec![0i8; 7]);
}

#[test]
fn solutions_of_january_first() {
    let solutions = solve_for_date(1, 1);
    assert_eq!(solutions.len(), 64);
    let blocked = initial_board_mask(1, 1);
    for Solution { board } in solutions.iter() {
        assert_eq!(board.len(), 7);
        let mut count = [0usize; 9];
        for row in 0..7 {
            assert_eq!(board[row].len(), 7);
            for col in 0..7 {
                let cell = board[row][col];
                if (blocked >> (row * 7 + col)) & 1 == 1 {
                    assert_eq!(cell, -1);
                } else {
                    assert!(1 <= cell && cell <= 8);
                    count[cell as usize] += 1;
                }
            }
        }
        assert_eq!(count, [0, 6, 5, 5, 5, 5, 5, 5, 5]);
        assert_eq!(count[SIZE_6_PIECE_INDEX + 1], 6);
    }
    for a in 0..solutions.len() {
        for b in 0..a {
            assert_ne!(solutions[a], solutions[b]);
        }
    }
}

#[test]
fn solving_twice_gives_the_same_solutions() {
    let first = solve_for_date(10, 6);
    let second = solve_for_date(10, 6);
    assert_eq!(first.len(), 7);
    assert_eq!(first, second);
}

#[test]
fn first_board_of_january_first() {
    let solutions = solve_for_date(1, 1);
    let expected: Vec<Vec<i8>> = vec![
        vec![-1, 6, 1, 1, 8, 8, -1],
        vec![6, 6, 1, 1, 4, 8, -1],
        vec![-1, 6, 1, 1, 4, 8, 8],
        vec![7, 6, 4, 4, 4, 2, 2],
        vec![7, 7, 7, 7, 3, 3, 2],
        vec![5, 5, 3, 3, 3, 2, 2],
        vec![5, 5, 5, -1, -1, -1, -1],
    ];
    assert_eq!(solutions[0].board, expected);
    assert_eq!(solutions[0], Solution { board: expected });
}

#[test]
fn number_of_solutions_of_other_dates() {
    assert_eq!(solve_for_date(10, 6).len(), 7);
    assert_eq!(solve_for_date(1, 25).len(), 216);
}

#[test]
fn cloned_solution_is_equal() {
    let solutions = solve_for_date(1, 1);
    let copy = solutions[3].clone();
    assert_eq!(copy, solutions[3]);
    assert_ne!(copy, solutions[4]);
}

#[test]
fn cover_with_a_piece_along_the_edge_is_found() {
    // A cover of January 25th in which the fifth piece lies in the first
    // two rows and the fourth in the last column.
    let board: Vec<Vec<i8>> = vec![
        vec![-1, 5, 5, 7, 7, 3, -1],
        vec![5, 5, 5, 7, 3, 3, -1],
        vec![2, 2, 2, 7, 3, 8, 8],
        vec![2, 6, 2, 7, 3, 8, 4],
        vec![6, 6, 6, 6, 8, 8, 4],
        vec![1, 1, 1, -1, 4, 4, 4],
        vec![1, 1, 1, -1, -1, -1, -1],
    ];
    let solutions = solve_for_date(1, 25);
    assert!(solutions.contains(&Solution { board }));
}
