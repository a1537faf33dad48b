use calendar_puzzle::pieces::{find_piece_of_size, get_initial_pieces, piece_size};
use calendar_puzzle::shape::{contains_shape, get_unique_rotations, rotate_and_flip, shapes_equal};

fn sample() -> Vec<Vec<u8>> {
    vec![vec![1, 2], vec![3, 4], vec![5, 6]]
}

#[test]
fn orientation_zero_is_the_shape() {
    assert_eq!(rotate_and_flip(&sample(), 0), sample());
}

#[test]
fn quarter_turns() {
    assert_eq!(rotate_and_flip(&sample(), 1), vec![vec![5, 3, 1], vec![6, 4, 2]]);
    assert_eq!(rotate_and_flip(&sample(), 2), vec![vec![6, 5], vec![4, 3], vec![2, 1]]);
    assert_eq!(rotate_and_flip(&sample(), 3), vec![vec![2, 4, 6], vec![1, 3, 5]]);
}

#[test]
fn mirrored_orientations() {
    assert_eq!(rotate_and_flip(&sample(), 4), vec![vec![2, 1], vec![4, 3], vec![6, 5]]);
    assert_eq!(rotate_and_flip(&sample(), 5), vec![vec![6, 4, 2], vec![5, 3, 1]]);
    assert_eq!(rotate_and_flip(&sample(), 6), vec![vec![5, 6], vec![3, 4], vec![1, 2]]);
    assert_eq!(rotate_and_flip(&sample(), 7), vec![vec![1, 3, 5], vec![2, 4, 6]]);
}

#[test]
fn orientation_numbers_above_seven_mirror_and_turn() {
    assert_eq!(rotate_and_flip(&sample(), 9), rotate_and_flip(&sample(), 5));
    assert_eq!(rotate_and_flip(&sample(), 255), rotate_and_flip(&sample(), 7));
}

#[test]
fn four_quarter_turns_give_the_shape_back() {
    let mut shape = get_initial_pieces()[2].clone();
    for _ in 0..4 {
        shape = rotate_and_flip(&shape, 1);
    }
    assert_eq!(shape, get_initial_pieces()[2]);
}

#[test]
fn shapes_equal_compares_cells() {
    assert!(shapes_equal(&sample(), &sample()));
    assert!(!shapes_equal(&sample(), &vec![vec![1, 2], vec![3, 4]]));
    assert!(!shapes_equal(&sample(), &vec![vec![1, 2], vec![3, 4], vec![5, 7]]));
    assert!(!shapes_equal(&sample(), &vec![vec![1, 2], vec![3, 4], vec![5]]));
    assert!(contains_shape(&vec![vec![vec![9]], sample()], &sample()));
    assert!(!contains_shape(&vec![vec![vec![9]]], &sample()));
}

#[test]
fn fully_symmetric_shape_has_one_orientation() {
    let square = vec![vec![1u8, 1], vec![1, 1]];
    assert_eq!(get_unique_rotations(&square), vec![square.clone()]);
    let cross = vec![vec![0u8, 1, 0], vec![1, 1, 1], vec![0, 1, 0]];
    assert_eq!(get_unique_rotations(&cross), vec![cross.clone()]);
    assert_eq!(get_unique_rotations(&vec![vec![1u8]]).len(), 1);
}

#[test]
fn rectangle_has_two_orientations() {
    let pieces = get_initial_pieces();
    let unique = get_unique_rotations(&pieces[0]);
    let upright = vec![vec![1u8, 1], vec![1, 1], vec![1, 1]];
    let lying = vec![vec![1u8, 1, 1], vec![1, 1, 1]];
    assert_eq!(unique, vec![upright, lying]);
}

#[test]
fn asymmetric_shape_has_eight_orientations() {
    let pieces = get_initial_pieces();
    let unique = get_unique_rotations(&pieces[6]);
    assert_eq!(unique.len(), 8);
    for t in 0..8u8 {
        assert_eq!(unique[t as usize], rotate_and_flip(&pieces[6], t));
    }
}

#[test]
fn no_piece_has_more_than_eight_orientations_and_none_repeats() {
    for piece in get_initial_pieces() {
        let unique = get_unique_rotations(&piece);
        assert!(1 <= unique.len() && unique.len() <= 8);
        for a in 0..unique.len() {
            for b in 0..a {
                assert_ne!(unique[a], unique[b]);
            }
        }
        for t in 0..8u8 {
            assert!(unique.contains(&rotate_and_flip(&piece, t)));
        }
    }
}

#[test]
fn the_eight_pieces() {
    let pieces = get_initial_pieces();
    assert_eq!(pieces.len(), 8);
    assert_eq!(pieces[0], vec![vec![1, 1], vec![1, 1], vec![1, 1]]);
    assert_eq!(pieces[1], vec![vec![1, 1, 0], vec![1, 0, 0], vec![1, 1, 0]]);
    assert_eq!(pieces[2], vec![vec![1, 0, 0], vec![1, 1, 0], vec![0, 1, 0], vec![0, 1, 0]]);
    assert_eq!(pieces[3], vec![vec![1, 0, 0], vec![1, 0, 0], vec![1, 1, 1]]);
    assert_eq!(pieces[4], vec![vec![1, 0, 0], vec![1, 1, 0], vec![1, 1, 0]]);
    assert_eq!(pieces[5], vec![vec![1, 0, 0], vec![1, 1, 0], vec![1, 0, 0], vec![1, 0, 0]]);
    assert_eq!(pieces[6], vec![vec![1, 1, 0], vec![1, 0, 0], vec![1, 0, 0], vec![1, 0, 0]]);
    assert_eq!(pieces[7], vec![vec![1, 1, 0], vec![0, 1, 0], vec![0, 1, 1]]);
}

#[test]
fn piece_sizes_are_one_six_and_seven_fives() {
    let sizes: Vec<usize> = get_initial_pieces().iter().map(piece_size).collect();
    assert_eq!(sizes, vec![6, 5, 5, 5, 5, 5, 5, 5]);
    assert_eq!(sizes.iter().sum::<usize>() + 8, 49);
}

#[test]
fn piece_size_sums_the_cells() {
    assert_eq!(piece_size(&vec![]), 0);
    assert_eq!(piece_size(&vec![vec![], vec![0, 0]]), 0);
    assert_eq!(piece_size(&vec![vec![1, 2], vec![3, 4], vec![5, 6]]), 21);
}

#[test]
fn find_piece_of_size_gives_the_first_match() {
    let pieces = get_initial_pieces();
    assert_eq!(find_piece_of_size(&pieces, 6), Some(0));
    assert_eq!(find_piece_of_size(&pieces, 5), Some(1));
    assert_eq!(find_piece_of_size(&pieces, 7), None);
    assert_eq!(find_piece_of_size(&vec![], 6), None);
}
