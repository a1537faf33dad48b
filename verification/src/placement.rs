//! The placements of a piece: every orientation at every offset at which
//! all its cells lie on the board, as a mask, each mask once.

use crate::bitboard::{
    board_to_bitmask, fits_board, grid_cells, grid_view, mask_of, occupied, FULL_BOARD,
};
use crate::distinct::{concat, distinct, lemma_concat_contains, lemma_distinct, lemma_distinct_push};
use crate::shape::{
    get_unique_rotations, is_rect, lemma_oriented_rect, orientations, oriented, shapes_view,
};
use crate::trim::{
    bottom, has_cell, left, lemma_box, lemma_trimmed, right, top, trim_shape, trimmed,
};
use std::collections::HashSet;
use vstd::prelude::*;

verus! {

/// The cells of the board that a grid covers when its top left corner lies
/// at row `r`, column `c`.
pub open spec fn stamped_cells(o: Seq<Seq<u8>>, r: int, c: int) -> Set<int> {
    Set::new(|k: int| 0 <= k < 49 && occupied(o, k / 7 - r, k % 7 - c))
}

/// The mask of a grid placed with its top left corner at row `r`, column `c`.
pub open spec fn stamp(o: Seq<Seq<u8>>, r: int, c: int) -> u64 {
    mask_of(stamped_cells(o, r, c))
}

/// The masks of a shape at the offsets of row `r`, left to right.
pub open spec fn row_stamps(o: Seq<Seq<u8>>, r: int) -> Seq<u64> {
    Seq::new((8 - o[0].len()) as nat, |c: int| stamp(o, r, c))
}

/// `row_stamps` of a shape, as a function of the row.
pub open spec fn rows_of(o: Seq<Seq<u8>>) -> spec_fn(int) -> Seq<u64> {
    |r: int| row_stamps(o, r)
}

/// The masks of a shape at every offset at which its cells lie on the
/// board, row by row: the shape is trimmed to its cells and slid over the
/// board. None for a shape without a cell, or whose cells span more rows or
/// columns than the board has.
pub open spec fn shape_stamps(o: Seq<Seq<u8>>) -> Seq<u64> {
    let b = trimmed(o);
    if 1 <= b.len() <= 7 && b[0].len() <= 7 {
        concat((8 - b.len()) as nat, rows_of(b))
    } else {
        Seq::empty()
    }
}

/// `shape_stamps` of the shapes of a list, as a function of the index.
pub open spec fn stamps_of(os: Seq<Seq<Seq<u8>>>) -> spec_fn(int) -> Seq<u64> {
    |i: int| shape_stamps(os[i])
}

/// The masks of all the shapes of a list, shape by shape.
pub open spec fn candidates(os: Seq<Seq<Seq<u8>>>) -> Seq<u64> {
    concat(os.len(), stamps_of(os))
}

/// The placements of a piece: the masks of its distinct orientations at all
/// offsets at which its cells lie on the board, each mask once, in the
/// order in which they first come up.
pub open spec fn placements_of(g: Seq<Seq<u8>>) -> Seq<u64> {
    distinct(candidates(distinct(orientations(g))))
}

/// The placements of each piece of a list.
pub open spec fn placement_table(pieces: Seq<Seq<Seq<u8>>>) -> Seq<Seq<u64>> {
    Seq::new(pieces.len(), |k: int| placements_of(pieces[k]))
}

/// The rows of a table of masks as sequences.
pub open spec fn masks_view(v: Vec<Vec<u64>>) -> Seq<Seq<u64>> {
    Seq::new(v.len() as nat, |i: int| v[i]@)
}

/// A shape with at least one column.
pub open spec fn is_shape(g: Seq<Seq<u8>>) -> bool {
    is_rect(g) && g[0].len() >= 1
}

/// Every occupied cell of the grid lands on the board when the corner of
/// the grid is put at row `r`, column `c`. The corner itself may lie off the
/// board: `r` and `c` may be negative.
pub open spec fn lands_on_board(o: Seq<Seq<u8>>, r: int, c: int) -> bool {
    forall|i: int, j: int| #[trigger] occupied(o, i, j) ==> 0 <= i + r < 7 && 0 <= j + c < 7
}

/// `p` is the mask of an orientation of `g` at an offset at which all its
/// cells land on the board.
pub open spec fn is_stamp_of(g: Seq<Seq<u8>>, p: u64) -> bool {
    exists|t: int, r: int, c: int|
        0 <= t < 8 && has_cell(oriented(g, t)) && lands_on_board(oriented(g, t), r, c) && p
            == #[trigger] stamp(oriented(g, t), r, c)
}

/// Sliding the trimmed shape is sliding the shape: the offsets differ by
/// the border that was cut off, and the trimmed shape lies on the board
/// exactly where all cells of the shape land on it.
pub proof fn lemma_trimmed_stamp(o: Seq<Seq<u8>>, r: int, c: int)
    requires
        is_rect(o),
        has_cell(o),
    ensures
        stamp(trimmed(o), r + top(o), c + left(o)) == stamp(o, r, c),
        lands_on_board(o, r, c) <==> (0 <= r + top(o) <= 7 - trimmed(o).len() && 0 <= c + left(o)
            <= 7 - trimmed(o)[0].len()),
{
    lemma_box(o);
    lemma_trimmed(o);
    let b = trimmed(o);
    assert forall|k: int|
        stamped_cells(b, r + top(o), c + left(o)).contains(k) == stamped_cells(o, r, c).contains(
            k,
        ) by {
        let i = k / 7 - (r + top(o));
        let j = k % 7 - (c + left(o));
        assert(occupied(b, i, j) <==> occupied(o, i + top(o), j + left(o)));
    }
    assert(stamped_cells(b, r + top(o), c + left(o)) =~= stamped_cells(o, r, c));
    if lands_on_board(o, r, c) {
        let jt = choose|j: int| occupied(o, top(o), j);
        let jb = choose|j: int| occupied(o, bottom(o), j);
        let il = choose|i: int| occupied(o, i, left(o));
        let ir = choose|i: int| occupied(o, i, right(o));
        assert(occupied(o, top(o), jt));
        assert(occupied(o, bottom(o), jb));
        assert(occupied(o, il, left(o)));
        assert(occupied(o, ir, right(o)));
    }
}

/// The placements of a piece are the masks of its orientations at the
/// offsets at which all their cells land on the board, each mask once.
pub proof fn law_placements_are_the_stamps(g: Seq<Seq<u8>>, p: u64)
    requires
        is_shape(g),
    ensures
        placements_of(g).no_duplicates(),
        placements_of(g).contains(p) <==> is_stamp_of(g, p),
{
    let all = orientations(g);
    let os = distinct(all);
    lemma_distinct(all);
    lemma_distinct(candidates(os));
    lemma_concat_contains(os.len(), stamps_of(os), p);
    if placements_of(g).contains(p) {
        let oi = choose|oi: int| 0 <= oi < os.len() && (#[trigger] stamps_of(os)(oi)).contains(p);
        let o = os[oi];
        assert(os.contains(o));
        let t = choose|t: int| 0 <= t < all.len() && all[t] == o;
        assert(o == oriented(g, t));
        lemma_oriented_rect(g, t);
        assert(shape_stamps(o).contains(p));
        let b = trimmed(o);
        assert(has_cell(o));
        lemma_concat_contains((8 - b.len()) as nat, rows_of(b), p);
        let r = choose|r: int| 0 <= r < 8 - b.len() && (#[trigger] rows_of(b)(r)).contains(p);
        let row = row_stamps(b, r);
        let c = choose|c: int| 0 <= c < row.len() && row[c] == p;
        lemma_trimmed_stamp(o, r - top(o), c - left(o));
        assert(p == stamp(oriented(g, t), r - top(o), c - left(o)));
    }
    if is_stamp_of(g, p) {
        let (t, r, c) = choose|t: int, r: int, c: int|
            0 <= t < 8 && has_cell(oriented(g, t)) && lands_on_board(oriented(g, t), r, c) && p
                == #[trigger] stamp(oriented(g, t), r, c);
        let o = oriented(g, t);
        lemma_oriented_rect(g, t);
        assert(all[t] == o);
        assert(os.contains(o));
        let oi = choose|oi: int| 0 <= oi < os.len() && os[oi] == o;
        let b = trimmed(o);
        lemma_trimmed_stamp(o, r, c);
        lemma_trimmed(o);
        assert(row_stamps(b, r + top(o))[c + left(o)] == p);
        assert(rows_of(b)(r + top(o)).contains(p));
        lemma_concat_contains((8 - b.len()) as nat, rows_of(b), p);
        assert(shape_stamps(o).contains(p));
        assert(stamps_of(os)(oi).contains(p));
    }
}

/// The mask of a grid placed with its top left corner at row `r`, column
/// `c`. Cells that fall outside the board are left out.
pub fn stamp_shape(shape: &Vec<Vec<u8>>, r: usize, c: usize) -> (mask: u64)
    ensures
        mask == stamp(grid_view(shape), r as int, c as int),
        mask <= FULL_BOARD,
{
    let ghost o = grid_view(shape);
    let mut board: Vec<Vec<u8>> = Vec::new();
    let mut a: usize = 0;
    while a < 7
        invariant
            a <= 7,
            o == grid_view(shape),
            board@.len() == a,
            forall|i: int| 0 <= i < a ==> (#[trigger] board@[i])@.len() == 7,
            forall|i: int, j: int|
                0 <= i < a && 0 <= j < 7 ==> ((#[trigger] board@[i]@[j]) == 1 <==> occupied(
                    o,
                    i - r,
                    j - c,
                )),
        decreases 7 - a,
    {
        let mut row: Vec<u8> = Vec::new();
        let mut b: usize = 0;
        while b < 7
            invariant
                a < 7,
                b <= 7,
                o == grid_view(shape),
                row@.len() == b,
                forall|j: int|
                    0 <= j < b ==> ((#[trigger] row@[j]) == 1 <==> occupied(o, a - r, j - c)),
            decreases 7 - b,
        {
            let mut filled = false;
            if a >= r && b >= c && a - r < shape.len() {
                let source = &shape[a - r];
                assert(source@ == o[a - r]);
                if b - c < source.len() {
                    filled = source[b - c] == 1;
                }
            }
            row.push(if filled { 1u8 } else { 0u8 });
            b += 1;
        }
        board.push(row);
        a += 1;
    }
    proof {
        let g = grid_view(&board);
        assert(fits_board(g));
        assert forall|k: int|
            grid_cells(g).contains(k) == stamped_cells(o, r as int, c as int).contains(k) by {
            if 0 <= k < 49 {
                let i = k / 7;
                let j = k % 7;
                assert(g[i] == board@[i]@);
                assert(board@[i]@[j] == 1 <==> occupied(o, i - r, j - c));
            }
        }
        assert(grid_cells(g) =~= stamped_cells(o, r as int, c as int));
    }
    board_to_bitmask(&board)
}

proof fn lemma_push_contains<T>(s: Seq<T>, x: T, y: T)
    ensures
        s.push(x).contains(y) <==> (s.contains(y) || y == x),
{
    if s.push(x).contains(y) {
        let i = choose|i: int| 0 <= i < s.push(x).len() && s.push(x)[i] == y;
        if i < s.len() {
            assert(s[i] == y);
        }
    }
    if s.contains(y) {
        let i = choose|i: int| 0 <= i < s.len() && s[i] == y;
        assert(s.push(x)[i] == y);
    }
    if y == x {
        assert(s.push(x)[s.len() as int] == y);
    }
}

/// The placements of a piece.
pub fn piece_placements(shape: &Vec<Vec<u8>>) -> (placements: Vec<u64>)
    requires
        is_shape(grid_view(shape)),
    ensures
        placements@ == placements_of(grid_view(shape)),
{
    let unique_shapes = get_unique_rotations(shape);
    let ghost os = shapes_view(&unique_shapes);
    proof {
        assert forall|i: int| 0 <= i < os.len() implies is_shape(#[trigger] os[i]) by {
            let t = choose|t: int| 0 <= t < 8 && os[i] == oriented(grid_view(shape), t);
            lemma_oriented_rect(grid_view(shape), t);
        }
    }
    let mut placements: Vec<u64> = Vec::new();
    let mut seen: HashSet<u64> = HashSet::new();
    let ghost mut cands: Seq<u64> = Seq::empty();
    let mut oi: usize = 0;
    while oi < unique_shapes.len()
        invariant
            oi <= unique_shapes.len(),
            os == shapes_view(&unique_shapes),
            forall|i: int| 0 <= i < os.len() ==> is_shape(#[trigger] os[i]),
            cands == concat(oi as nat, stamps_of(os)),
            placements@ == distinct(cands),
            forall|x: u64| seen@.contains(x) <==> placements@.contains(x),
        decreases unique_shapes.len() - oi,
    {
        let ghost og = os[oi as int];
        assert(grid_view(&unique_shapes[oi as int]) == og);
        assert(is_shape(og));
        let trimmed_shape = trim_shape(&unique_shapes[oi]);
        let o = &trimmed_shape;
        let ghost bg = trimmed(og);
        let h = o.len();
        let ghost base = cands;
        let mut fits = false;
        let mut w: usize = 0;
        if 1 <= h && h <= 7 {
            w = o[0].len();
            assert(o[0]@ == bg[0]);
            fits = w <= 7;
        }
        if fits {
            let mut r: usize = 0;
            assert(cands =~= base + concat(0, rows_of(bg)));
            while r < 8 - h
                invariant
                    r <= 8 - h,
                    1 <= h <= 7,
                    w <= 7,
                    h == bg.len(),
                    w == bg[0].len(),
                    grid_view(o) == bg,
                    cands == base + concat(r as nat, rows_of(bg)),
                    placements@ == distinct(cands),
                    forall|x: u64| seen@.contains(x) <==> placements@.contains(x),
                decreases 8 - h - r,
            {
                let ghost row_base = cands;
                let ghost row = row_stamps(bg, r as int);
                let mut c: usize = 0;
                assert(cands =~= row_base + row.take(0));
                while c < 8 - w
                    invariant
                        c <= 8 - w,
                        w <= 7,
                        w == bg[0].len(),
                        grid_view(o) == bg,
                        row == row_stamps(bg, r as int),
                        cands == row_base + row.take(c as int),
                        placements@ == distinct(cands),
                        forall|x: u64| seen@.contains(x) <==> placements@.contains(x),
                    decreases 8 - w - c,
                {
                    let mask = stamp_shape(o, r, c);
                    let ghost before = placements@;
                    let ghost prior = cands;
                    proof {
                        assert(row[c as int] == mask);
                        cands = cands.push(mask);
                        assert(cands =~= row_base + row.take(c + 1));
                        lemma_distinct_push(prior, mask);
                    }
                    if seen.insert(mask) {
                        placements.push(mask);
                        proof {
                            assert forall|x: u64|
                                seen@.contains(x) <==> placements@.contains(x) by {
                                lemma_push_contains(before, mask, x);
                            }
                        }
                    }
                    c += 1;
                }
                proof {
                    assert(row.take(c as int) =~= row);
                    assert(concat((r + 1) as nat, rows_of(bg)) == concat(r as nat, rows_of(bg))
                        + rows_of(bg)(r as int));
                    assert(cands =~= base + concat((r + 1) as nat, rows_of(bg)));
                }
                r += 1;
            }
            assert(cands == base + shape_stamps(og));
        } else {
            assert(cands =~= base + shape_stamps(og));
        }
        proof {
            assert(concat((oi + 1) as nat, stamps_of(os)) == concat(oi as nat, stamps_of(os))
                + stamps_of(os)(oi as int));
        }
        oi += 1;
    }
    placements
}

/// The placements of every piece of a list.
pub fn all_piece_placements(pieces: &Vec<Vec<Vec<u8>>>) -> (table: Vec<Vec<u64>>)
    requires
        forall|k: int| 0 <= k < pieces.len() ==> is_shape(#[trigger] shapes_view(pieces)[k]),
    ensures
        masks_view(table) == placement_table(shapes_view(pieces)),
{
    let mut table: Vec<Vec<u64>> = Vec::new();
    let mut k: usize = 0;
    while k < pieces.len()
        invariant
            k <= pieces.len(),
            forall|i: int| 0 <= i < pieces.len() ==> is_shape(#[trigger] shapes_view(pieces)[i]),
            table@.len() == k,
            forall|i: int|
                0 <= i < k ==> (#[trigger] table@[i])@ == placements_of(shapes_view(pieces)[i]),
        decreases pieces.len() - k,
    {
        assert(shapes_view(pieces)[k as int] == grid_view(&pieces[k as int]));
        let placements = piece_placements(&pieces[k]);
        table.push(placements);
        k += 1;
    }
    assert(masks_view(table) =~= placement_table(shapes_view(pieces)));
    table
}

} // verus!
