use calendar_puzzle::pieces::get_initial_pieces;
use calendar_puzzle::trim::{col_has_cell, row_has_cell, trim_shape};

#[test]
fn trim_cuts_empty_border_rows_and_columns() {
    let shape = vec![vec![0u8, 0, 0, 0], vec![0, 1, 1, 0], vec![0, 0, 1, 0], vec![0, 0, 0, 0]];
    assert_eq!(trim_shape(&shape), vec![vec![1u8, 1], vec![0, 1]]);
}

#[test]
fn trim_keeps_empty_rows_and_columns_inside() {
    let shape = vec![vec![1u8, 0, 1, 0], vec![0, 0, 0, 0], vec![1, 0, 0, 0], vec![0, 0, 0, 0]];
    assert_eq!(trim_shape(&shape), vec![vec![1u8, 0, 1], vec![0, 0, 0], vec![1, 0, 0]]);
}

#[test]
fn trim_leaves_a_tight_shape_as_it_is() {
    let pieces = get_initial_pieces();
    assert_eq!(trim_shape(&pieces[0]), pieces[0]);
    assert_eq!(trim_shape(&pieces[3]), pieces[3]);
    assert_eq!(trim_shape(&pieces[7]), pieces[7]);
}

#[test]
fn trim_cuts_the_empty_column_of_a_piece() {
    let pieces = get_initial_pieces();
    assert_eq!(trim_shape(&pieces[1]), vec![vec![1u8, 1], vec![1, 0], vec![1, 1]]);
    assert_eq!(trim_shape(&pieces[4]), vec![vec![1u8, 0], vec![1, 1], vec![1, 1]]);
    assert_eq!(trim_shape(&pieces[6]), vec![vec![1u8, 1], vec![1, 0], vec![1, 0], vec![1, 0]]);
}

#[test]
fn trim_of_a_shape_without_cells_is_empty() {
    assert_eq!(trim_shape(&vec![vec![0u8, 0], vec![0, 0]]), Vec::<Vec<u8>>::new());
    assert_eq!(trim_shape(&vec![vec![]]), Vec::<Vec<u8>>::new());
    assert_eq!(trim_shape(&vec![vec![2u8, 3]]), Vec::<Vec<u8>>::new());
}

#[test]
fn only_cells_equal_to_one_span_the_box() {
    // Other values are kept inside the box and cut off outside of it.
    let shape = vec![vec![7u8, 0, 0, 0], vec![0, 1, 9, 1], vec![0, 1, 0, 0], vec![3, 0, 0, 0]];
    assert_eq!(trim_shape(&shape), vec![vec![1u8, 9, 1], vec![1, 0, 0]]);
    let narrow = vec![vec![7u8, 0, 0], vec![0, 1, 9], vec![0, 1, 0], vec![3, 0, 0]];
    assert_eq!(trim_shape(&narrow), vec![vec![1u8], vec![1]]);
}

#[test]
fn rows_and_columns_with_a_cell() {
    let shape = vec![vec![0u8, 0, 0], vec![0, 1, 0], vec![0, 2, 0]];
    assert!(!row_has_cell(&shape, 0));
    assert!(row_has_cell(&shape, 1));
    assert!(!row_has_cell(&shape, 2));
    assert!(!col_has_cell(&shape, 0));
    assert!(col_has_cell(&shape, 1));
    assert!(!col_has_cell(&shape, 2));
}
