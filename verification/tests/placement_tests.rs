use calendar_puzzle::bitboard::FULL_BOARD;
use calendar_puzzle::pieces::{get_initial_pieces, piece_size};
use calendar_puzzle::placement::{all_piece_placements, piece_placements, stamp_shape};
use calendar_puzzle::shape::{get_unique_rotations, rotate_and_flip};
use calendar_puzzle::trim::trim_shape;

fn bits(cells: &[u32]) -> u64 {
    cells.iter().fold(0u64, |mask, cell| mask | (1u64 << cell))
}

#[test]
fn stamp_at_the_origin() {
    let rectangle = vec![vec![1u8, 1], vec![1, 1], vec![1, 1]];
    assert_eq!(stamp_shape(&rectangle, 0, 0), bits(&[0, 1, 7, 8, 14, 15]));
    assert_eq!(stamp_shape(&rectangle, 0, 0), 49539);
}

#[test]
fn stamp_at_the_last_offset() {
    let rectangle = vec![vec![1u8, 1], vec![1, 1], vec![1, 1]];
    assert_eq!(stamp_shape(&rectangle, 4, 5), bits(&[33, 34, 40, 41, 47, 48]));
}

#[test]
fn stamp_keeps_the_holes_of_a_shape() {
    let piece = vec![vec![1u8, 1, 0], vec![0, 1, 0], vec![0, 1, 1]];
    assert_eq!(stamp_shape(&piece, 2, 3), bits(&[17, 18, 25, 32, 33]));
}

#[test]
fn stamp_leaves_out_what_falls_off_the_board() {
    let rectangle = vec![vec![1u8, 1], vec![1, 1], vec![1, 1]];
    assert_eq!(stamp_shape(&rectangle, 5, 6), bits(&[41, 48]));
    assert_eq!(stamp_shape(&rectangle, 7, 0), 0);
}

#[test]
fn rectangle_has_sixty_placements() {
    let rectangle = vec![vec![1u8, 1], vec![1, 1], vec![1, 1]];
    let placements = piece_placements(&rectangle);
    assert_eq!(placements.len(), 60);
    assert_eq!(placements[0], bits(&[0, 1, 7, 8, 14, 15]));
    assert_eq!(placements[1], bits(&[1, 2, 8, 9, 15, 16]));
    assert_eq!(placements[6], bits(&[7, 8, 14, 15, 21, 22]));
    assert_eq!(placements[30], bits(&[0, 1, 2, 7, 8, 9]));
    assert_eq!(placements[59], bits(&[39, 40, 41, 46, 47, 48]));
}

#[test]
fn symmetric_shape_yields_each_mask_once() {
    let square = vec![vec![1u8, 1], vec![1, 1]];
    let placements = piece_placements(&square);
    assert_eq!(placements.len(), 36);
    let single = piece_placements(&vec![vec![1u8]]);
    assert_eq!(single, (0..49).map(|cell| 1u64 << cell).collect::<Vec<u64>>());
}

#[test]
fn shape_larger_than_the_board_has_no_placement() {
    assert_eq!(piece_placements(&vec![vec![1u8; 8]]), Vec::<u64>::new());
    assert_eq!(piece_placements(&vec![vec![1u8; 7]]).len(), 14);
}

#[test]
fn placements_have_no_duplicates_and_lie_on_the_board() {
    let pieces = get_initial_pieces();
    let table = all_piece_placements(&pieces);
    assert_eq!(table.len(), 8);
    for (piece, placements) in pieces.iter().zip(table.iter()) {
        assert!(!placements.is_empty());
        let mut sorted = placements.clone();
        sorted.sort();
        sorted.dedup();
        assert_eq!(sorted.len(), placements.len());
        for mask in placements {
            assert!(*mask <= FULL_BOARD);
            assert_eq!(mask.count_ones() as usize, piece_size(piece));
        }
    }
}

#[test]
fn placements_are_the_stamps_of_the_orientations() {
    let pieces = get_initial_pieces();
    for piece in pieces.iter() {
        let placements = piece_placements(piece);
        let mut expected: Vec<u64> = Vec::new();
        for shape in get_unique_rotations(piece) {
            let shape = trim_shape(&shape);
            for r in 0..(8 - shape.len()) {
                for c in 0..(8 - shape[0].len()) {
                    let mask = stamp_shape(&shape, r, c);
                    if !expected.contains(&mask) {
                        expected.push(mask);
                    }
                }
            }
        }
        assert_eq!(placements, expected);
    }
}

#[test]
fn table_holds_the_placements_of_each_piece() {
    let pieces = get_initial_pieces();
    let table = all_piece_placements(&pieces);
    for k in 0..8 {
        assert_eq!(table[k], piece_placements(&pieces[k]));
    }
    assert_eq!(table[0].len(), 60);
    assert_eq!(all_piece_placements(&vec![]), Vec::<Vec<u64>>::new());
}

#[test]
fn every_orientation_at_the_origin_is_a_placement() {
    let pieces = get_initial_pieces();
    let placements = piece_placements(&pieces[7]);
    for t in 0..8u8 {
        let shape = rotate_and_flip(&pieces[7], t);
        assert!(placements.contains(&stamp_shape(&shape, 0, 0)));
        assert!(placements.contains(&stamp_shape(&shape, 4, 4)));
    }
}

#[test]
fn number_of_placements_of_each_piece() {
    let table = all_piece_placements(&get_initial_pieces());
    let counts: Vec<usize> = table.iter().map(|row| row.len()).collect();
    assert_eq!(counts, vec![60, 120, 192, 100, 240, 192, 192, 100]);
}

#[test]
fn padded_shape_reaches_every_edge() {
    // The fifth piece has an empty third column; its cells still reach the
    // first and the last column and row of the board.
    let pieces = get_initial_pieces();
    let placements = piece_placements(&pieces[4]);
    assert!(placements.contains(&bits(&[1, 2, 7, 8, 9])));
    assert!(placements.contains(&0x386));
    assert!(placements.contains(&bits(&[5, 12, 13, 19, 20])));
    assert!(placements.contains(&bits(&[28, 35, 36, 42, 43])));
    assert!(placements.contains(&bits(&[34, 40, 41, 47, 48])));
    for k in [1usize, 2, 4, 5, 6] {
        let union = piece_placements(&pieces[k]).iter().fold(0u64, |all, mask| all | mask);
        assert_eq!(union, FULL_BOARD);
    }
}

#[test]
fn placements_are_all_positions_of_all_orientations() {
    // Every orientation, at every offset, negative ones too, at which all
    // its cells land on the board.
    for piece in get_initial_pieces() {
        let mut expected: Vec<u64> = Vec::new();
        for t in 0..8u8 {
            let shape = rotate_and_flip(&piece, t);
            for r in -3i32..7 {
                for c in -3i32..7 {
                    let mut mask = 0u64;
                    let mut inside = true;
                    for (i, row) in shape.iter().enumerate() {
                        for (j, cell) in row.iter().enumerate() {
                            if *cell == 1 {
                                let (y, x) = (i as i32 + r, j as i32 + c);
                                if (0..7).contains(&y) && (0..7).contains(&x) {
                                    mask |= 1u64 << (y * 7 + x);
                                } else {
                                    inside = false;
                                }
                            }
                        }
                    }
                    if inside && !expected.contains(&mask) {
                        expected.push(mask);
                    }
                }
            }
        }
        let mut placements = piece_placements(&piece);
        placements.sort();
        expected.sort();
        assert_eq!(placements, expected);
    }
}

#[test]
fn shape_with_a_border_is_slid_by_its_cells() {
    let dot = vec![vec![0u8, 0, 0], vec![0, 1, 0], vec![0, 0, 0]];
    assert_eq!(piece_placements(&dot), (0..49).map(|cell| 1u64 << cell).collect::<Vec<u64>>());
    let wide = vec![vec![0u8, 1, 1, 1, 1, 1, 1, 1, 0]];
    assert_eq!(piece_placements(&wide).len(), 14);
    let empty = vec![vec![0u8, 0], vec![0, 0]];
    assert_eq!(piece_placements(&empty), Vec::<u64>::new());
}
