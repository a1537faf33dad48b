//! The eight pieces of the puzzle.

use crate::bitboard::grid_view;
use crate::shape::shapes_view;
use vstd::prelude::*;

verus! {

/// The base shapes of the eight pieces, in placement order.
pub open spec fn initial_pieces() -> Seq<Seq<Seq<u8>>> {
    seq![
        seq![seq![1u8, 1u8], seq![1u8, 1u8], seq![1u8, 1u8]],
        seq![seq![1u8, 1u8, 0u8], seq![1u8, 0u8, 0u8], seq![1u8, 1u8, 0u8]],
        seq![seq![1u8, 0u8, 0u8], seq![1u8, 1u8, 0u8], seq![0u8, 1u8, 0u8], seq![0u8, 1u8, 0u8]],
        seq![seq![1u8, 0u8, 0u8], seq![1u8, 0u8, 0u8], seq![1u8, 1u8, 1u8]],
        seq![seq![1u8, 0u8, 0u8], seq![1u8, 1u8, 0u8], seq![1u8, 1u8, 0u8]],
        seq![seq![1u8, 0u8, 0u8], seq![1u8, 1u8, 0u8], seq![1u8, 0u8, 0u8], seq![1u8, 0u8, 0u8]],
        seq![seq![1u8, 1u8, 0u8], seq![1u8, 0u8, 0u8], seq![1u8, 0u8, 0u8], seq![1u8, 0u8, 0u8]],
        seq![seq![1u8, 1u8, 0u8], seq![0u8, 1u8, 0u8], seq![0u8, 1u8, 1u8]],
    ]
}

/// The sum of the cells of a row.
pub open spec fn row_sum(row: Seq<u8>) -> int
    decreases row.len(),
{
    if row.len() == 0 {
        0
    } else {
        row_sum(row.drop_last()) + row.last()
    }
}

/// The sum of the cells of a grid: the number of cells of a shape.
pub open spec fn cell_sum(g: Seq<Seq<u8>>) -> int
    decreases g.len(),
{
    if g.len() == 0 {
        0
    } else {
        cell_sum(g.drop_last()) + row_sum(g.last())
    }
}

/// The base shapes of the eight pieces.
pub fn get_initial_pieces() -> (pieces: Vec<Vec<Vec<u8>>>)
    ensures
        shapes_view(&pieces) == initial_pieces(),
{
    let pieces = vec![
        vec![vec![1u8, 1u8], vec![1u8, 1u8], vec![1u8, 1u8]],
        vec![vec![1u8, 1u8, 0u8], vec![1u8, 0u8, 0u8], vec![1u8, 1u8, 0u8]],
        vec![vec![1u8, 0u8, 0u8], vec![1u8, 1u8, 0u8], vec![0u8, 1u8, 0u8], vec![0u8, 1u8, 0u8]],
        vec![vec![1u8, 0u8, 0u8], vec![1u8, 0u8, 0u8], vec![1u8, 1u8, 1u8]],
        vec![vec![1u8, 0u8, 0u8], vec![1u8, 1u8, 0u8], vec![1u8, 1u8, 0u8]],
        vec![vec![1u8, 0u8, 0u8], vec![1u8, 1u8, 0u8], vec![1u8, 0u8, 0u8], vec![1u8, 0u8, 0u8]],
        vec![vec![1u8, 1u8, 0u8], vec![1u8, 0u8, 0u8], vec![1u8, 0u8, 0u8], vec![1u8, 0u8, 0u8]],
        vec![vec![1u8, 1u8, 0u8], vec![0u8, 1u8, 0u8], vec![0u8, 1u8, 1u8]],
    ];
    assert(shapes_view(&pieces) =~~= initial_pieces());
    pieces
}

proof fn lemma_row_sum_prefix(row: Seq<u8>, j: int)
    requires
        0 <= j <= row.len(),
    ensures
        0 <= row_sum(row.take(j)) <= row_sum(row),
    decreases row.len() - j,
{
    if j == row.len() {
        assert(row.take(j) =~= row);
        lemma_row_sum_nonneg(row);
    } else {
        lemma_row_sum_prefix(row, j + 1);
        assert(row.take(j + 1).drop_last() =~= row.take(j));
        assert(row_sum(row.take(j + 1)) == row_sum(row.take(j)) + row.take(j + 1).last());
        lemma_row_sum_nonneg(row.take(j));
    }
}

proof fn lemma_row_sum_nonneg(row: Seq<u8>)
    ensures
        0 <= row_sum(row),
    decreases row.len(),
{
    if row.len() > 0 {
        lemma_row_sum_nonneg(row.drop_last());
    }
}

proof fn lemma_cell_sum_prefix(g: Seq<Seq<u8>>, i: int)
    requires
        0 <= i <= g.len(),
    ensures
        0 <= cell_sum(g.take(i)) <= cell_sum(g),
        i < g.len() ==> cell_sum(g.take(i)) + row_sum(g[i]) <= cell_sum(g),
    decreases g.len() - i,
{
    if i == g.len() {
        assert(g.take(i) =~= g);
        lemma_cell_sum_nonneg(g);
    } else {
        lemma_cell_sum_prefix(g, i + 1);
        assert(g.take(i + 1).drop_last() =~= g.take(i));
        assert(g.take(i + 1).last() == g[i]);
        assert(cell_sum(g.take(i + 1)) == cell_sum(g.take(i)) + row_sum(g[i]));
        lemma_row_sum_nonneg(g[i]);
        lemma_cell_sum_nonneg(g.take(i));
    }
}

proof fn lemma_cell_sum_nonneg(g: Seq<Seq<u8>>)
    ensures
        0 <= cell_sum(g),
    decreases g.len(),
{
    if g.len() > 0 {
        lemma_cell_sum_nonneg(g.drop_last());
        lemma_row_sum_nonneg(g.last());
    }
}

/// The number of cells of a shape: the sum of its grid.
pub fn piece_size(shape: &Vec<Vec<u8>>) -> (size: usize)
    requires
        cell_sum(grid_view(shape)) <= usize::MAX,
    ensures
        size == cell_sum(grid_view(shape)),
{
    let ghost g = grid_view(shape);
    let mut size: usize = 0;
    let mut i: usize = 0;
    assert(g.take(0) =~= Seq::empty());
    while i < shape.len()
        invariant
            i <= shape.len(),
            g == grid_view(shape),
            cell_sum(g) <= usize::MAX,
            size == cell_sum(g.take(i as int)),
        decreases shape.len() - i,
    {
        let row = &shape[i];
        assert(row@ == g[i as int]);
        let ghost base = size;
        let mut j: usize = 0;
        assert(row@.take(0) =~= Seq::empty());
        proof {
            lemma_cell_sum_prefix(g, i as int);
        }
        while j < row.len()
            invariant
                j <= row.len(),
                row@ == g[i as int],
                base + row_sum(row@) <= usize::MAX,
                size == base + row_sum(row@.take(j as int)),
            decreases row.len() - j,
        {
            proof {
                lemma_row_sum_prefix(row@, j + 1);
                assert(row@.take(j + 1).drop_last() =~= row@.take(j as int));
            }
            size = size + row[j] as usize;
            j += 1;
        }
        proof {
            assert(row@.take(j as int) =~= row@);
            assert(g.take(i + 1).drop_last() =~= g.take(i as int));
        }
        i += 1;
    }
    assert(g.take(i as int) =~= g);
    size
}

/// The sizes of the eight pieces: six cells for the first, five for each
/// of the others.
pub proof fn lemma_initial_piece_sizes()
    ensures
        initial_pieces().len() == 8,
        cell_sum(initial_pieces()[0]) == 6,
        forall|k: int| 1 <= k < 8 ==> cell_sum(#[trigger] initial_pieces()[k]) == 5,
{
    reveal_with_fuel(row_sum, 4);
    reveal_with_fuel(cell_sum, 5);
    let p = initial_pieces();
    assert(cell_sum(p[0]) == 6);
    assert(cell_sum(p[1]) == 5);
    assert(cell_sum(p[2]) == 5);
    assert(cell_sum(p[3]) == 5);
    assert(cell_sum(p[4]) == 5);
    assert(cell_sum(p[5]) == 5);
    assert(cell_sum(p[6]) == 5);
    assert(cell_sum(p[7]) == 5);
}

/// The index of the first shape with `size` cells, if there is one.
pub fn find_piece_of_size(pieces: &Vec<Vec<Vec<u8>>>, size: usize) -> (found: Option<usize>)
    requires
        forall|i: int|
            0 <= i < pieces.len() ==> cell_sum(#[trigger] shapes_view(pieces)[i]) <= usize::MAX,
    ensures
        match found {
            Some(k) => k < pieces.len() && cell_sum(shapes_view(pieces)[k as int]) == size
                && forall|i: int|
                    0 <= i < k ==> cell_sum(#[trigger] shapes_view(pieces)[i]) != size,
            None => forall|i: int|
                0 <= i < pieces.len() ==> cell_sum(#[trigger] shapes_view(pieces)[i]) != size,
        },
{
    let mut k: usize = 0;
    while k < pieces.len()
        invariant
            k <= pieces.len(),
            forall|i: int|
                0 <= i < pieces.len() ==> cell_sum(#[trigger] shapes_view(pieces)[i]) <= usize::MAX,
            forall|i: int| 0 <= i < k ==> cell_sum(#[trigger] shapes_view(pieces)[i]) != size,
        decreases pieces.len() - k,
    {
        assert(shapes_view(pieces)[k as int] == grid_view(&pieces[k as int]));
        if piece_size(&pieces[k]) == size {
            return Some(k);
        }
        k += 1;
    }
    None
}

} // verus!
