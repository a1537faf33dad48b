//! Trimming: the part of a grid between its first and last occupied rows
//! and columns, so that a shape can be slid by its own cells.

use crate::bitboard::{grid_view, occupied};
use crate::shape::is_rect;
use vstd::prelude::*;

verus! {

/// The grid holds an occupied cell.
pub open spec fn has_cell(g: Seq<Seq<u8>>) -> bool {
    exists|i: int, j: int| occupied(g, i, j)
}

/// Row `i` of the grid holds an occupied cell.
pub open spec fn row_used(g: Seq<Seq<u8>>, i: int) -> bool {
    exists|j: int| occupied(g, i, j)
}

/// Column `j` of the grid holds an occupied cell.
pub open spec fn col_used(g: Seq<Seq<u8>>, j: int) -> bool {
    exists|i: int| occupied(g, i, j)
}

/// `row_used` of a grid, as a function of the row.
pub open spec fn used_rows(g: Seq<Seq<u8>>) -> spec_fn(int) -> bool {
    |i: int| row_used(g, i)
}

/// `col_used` of a grid, as a function of the column.
pub open spec fn used_cols(g: Seq<Seq<u8>>) -> spec_fn(int) -> bool {
    |j: int| col_used(g, j)
}

/// The first index from `from` on, below `n`, that is used; `n` if none is.
pub open spec fn first_of(used: spec_fn(int) -> bool, from: int, n: int) -> int
    decreases n - from,
{
    if from >= n {
        n
    } else if used(from) {
        from
    } else {
        first_of(used, from + 1, n)
    }
}

/// The last index below `n` that is used; -1 if none is.
pub open spec fn last_of(used: spec_fn(int) -> bool, n: int) -> int
    decreases n,
{
    if n <= 0 {
        -1
    } else if used(n - 1) {
        n - 1
    } else {
        last_of(used, n - 1)
    }
}

/// The first row that holds an occupied cell.
pub open spec fn top(g: Seq<Seq<u8>>) -> int {
    first_of(used_rows(g), 0, g.len() as int)
}

/// The last row that holds an occupied cell.
pub open spec fn bottom(g: Seq<Seq<u8>>) -> int {
    last_of(used_rows(g), g.len() as int)
}

/// The first column that holds an occupied cell.
pub open spec fn left(g: Seq<Seq<u8>>) -> int {
    first_of(used_cols(g), 0, g[0].len() as int)
}

/// The last column that holds an occupied cell.
pub open spec fn right(g: Seq<Seq<u8>>) -> int {
    last_of(used_cols(g), g[0].len() as int)
}

/// The grid without its empty border rows and columns: the rows from `top`
/// to `bottom` and the columns from `left` to `right`. Of a grid without an
/// occupied cell nothing is left.
pub open spec fn trimmed(g: Seq<Seq<u8>>) -> Seq<Seq<u8>> {
    if has_cell(g) {
        Seq::new(
            (bottom(g) - top(g) + 1) as nat,
            |i: int|
                Seq::new((right(g) - left(g) + 1) as nat, |j: int| g[top(g) + i][left(g) + j]),
        )
    } else {
        Seq::empty()
    }
}

/// `first_of` is used, and nothing from `from` up to it is.
pub proof fn lemma_first_of(used: spec_fn(int) -> bool, from: int, n: int)
    requires
        from <= n,
    ensures
        from <= first_of(used, from, n) <= n,
        first_of(used, from, n) < n ==> used(first_of(used, from, n)),
        forall|i: int| from <= i < first_of(used, from, n) ==> !#[trigger] used(i),
    decreases n - from,
{
    if from < n && !used(from) {
        lemma_first_of(used, from + 1, n);
    }
}

/// `last_of` is used, and nothing after it below `n` is.
pub proof fn lemma_last_of(used: spec_fn(int) -> bool, n: int)
    requires
        0 <= n,
    ensures
        -1 <= last_of(used, n) < n,
        last_of(used, n) >= 0 ==> used(last_of(used, n)),
        forall|i: int| last_of(used, n) < i < n ==> !#[trigger] used(i),
    decreases n,
{
    if n > 0 && !used(n - 1) {
        lemma_last_of(used, n - 1);
    }
}

/// The occupied cells of a shape lie between `top` and `bottom` and between
/// `left` and `right`, and each of those four lines holds one of them.
pub proof fn lemma_box(g: Seq<Seq<u8>>)
    requires
        is_rect(g),
        has_cell(g),
    ensures
        0 <= top(g) <= bottom(g) < g.len(),
        0 <= left(g) <= right(g) < g[0].len(),
        row_used(g, top(g)),
        row_used(g, bottom(g)),
        col_used(g, left(g)),
        col_used(g, right(g)),
        forall|i: int, j: int| #[trigger]
            occupied(g, i, j) ==> top(g) <= i <= bottom(g) && left(g) <= j <= right(g),
{
    let h = g.len() as int;
    let w = g[0].len() as int;
    lemma_first_of(used_rows(g), 0, h);
    lemma_last_of(used_rows(g), h);
    lemma_first_of(used_cols(g), 0, w);
    lemma_last_of(used_cols(g), w);
    assert forall|i: int, j: int| #[trigger] occupied(g, i, j) implies top(g) <= i <= bottom(g)
        && left(g) <= j <= right(g) by {
        assert(g[i].len() == w);
        assert(row_used(g, i));
        assert(used_rows(g)(i));
        assert(col_used(g, j));
        assert(used_cols(g)(j));
    }
    let (i0, j0) = choose|i: int, j: int| occupied(g, i, j);
    assert(occupied(g, i0, j0));
    assert(used_rows(g)(top(g)));
    assert(used_rows(g)(bottom(g)));
    assert(used_cols(g)(left(g)));
    assert(used_cols(g)(right(g)));
}

/// A row that is used, with no used row before it, is `top`; and so on for
/// the other three sides.
pub proof fn lemma_box_is(g: Seq<Seq<u8>>, t: int, b: int, l: int, r: int)
    requires
        is_rect(g),
        row_used(g, t),
        row_used(g, b),
        col_used(g, l),
        col_used(g, r),
        forall|i: int| 0 <= i < t ==> !row_used(g, i),
        forall|i: int| b < i < g.len() ==> !row_used(g, i),
        forall|j: int| 0 <= j < l ==> !col_used(g, j),
        forall|j: int| r < j < g[0].len() ==> !col_used(g, j),
    ensures
        has_cell(g),
        t == top(g),
        b == bottom(g),
        l == left(g),
        r == right(g),
{
    let jt = choose|j: int| occupied(g, t, j);
    assert(occupied(g, t, jt));
    lemma_box(g);
    assert(used_rows(g)(top(g)) == row_used(g, top(g)));
    if top(g) < t {
        assert(!row_used(g, top(g)));
    }
    if bottom(g) > b {
        assert(!row_used(g, bottom(g)));
    }
    if left(g) < l {
        assert(!col_used(g, left(g)));
    }
    if right(g) > r {
        assert(!col_used(g, right(g)));
    }
    let jb = choose|j: int| occupied(g, b, j);
    assert(occupied(g, b, jb));
    let il = choose|i: int| occupied(g, i, l);
    assert(occupied(g, il, l));
    let ir = choose|i: int| occupied(g, i, r);
    assert(occupied(g, ir, r));
}

/// The trimmed shape is a shape with the same occupied cells, moved up by
/// `top` and to the left by `left`.
pub proof fn lemma_trimmed(g: Seq<Seq<u8>>)
    requires
        is_rect(g),
        has_cell(g),
    ensures
        is_rect(trimmed(g)),
        trimmed(g).len() == bottom(g) - top(g) + 1,
        trimmed(g)[0].len() == right(g) - left(g) + 1,
        has_cell(trimmed(g)),
        forall|i: int, j: int|
            occupied(trimmed(g), i, j) <==> #[trigger] occupied(g, i + top(g), j + left(g)),
{
    lemma_box(g);
    let b = trimmed(g);
    let w = g[0].len() as int;
    assert forall|i: int, j: int|
        occupied(b, i, j) <==> #[trigger] occupied(g, i + top(g), j + left(g)) by {
        if occupied(b, i, j) {
            assert(g[i + top(g)].len() == w);
        }
        if occupied(g, i + top(g), j + left(g)) {
            assert(b[i][j] == g[top(g) + i][left(g) + j]);
        }
    }
    let jt = choose|j: int| occupied(g, top(g), j);
    assert(occupied(g, 0 + top(g), (jt - left(g)) + left(g)));
    assert(occupied(b, 0, jt - left(g)));
}

/// Whether row `i` of a grid holds an occupied cell.
pub fn row_has_cell(shape: &Vec<Vec<u8>>, i: usize) -> (used: bool)
    requires
        i < shape.len(),
    ensures
        used == row_used(grid_view(shape), i as int),
{
    let ghost g = grid_view(shape);
    let row = &shape[i];
    assert(row@ == g[i as int]);
    let mut j: usize = 0;
    while j < row.len()
        invariant
            j <= row.len(),
            i < shape.len(),
            g == grid_view(shape),
            row@ == g[i as int],
            forall|b: int| 0 <= b < j ==> row@[b] != 1,
        decreases row.len() - j,
    {
        if row[j] == 1 {
            assert(occupied(g, i as int, j as int));
            return true;
        }
        j += 1;
    }
    assert forall|b: int| !occupied(g, i as int, b) by {
        if 0 <= b < row.len() {
            assert(row@[b] != 1);
        }
    }
    false
}

/// Whether column `j` of a shape holds an occupied cell.
pub fn col_has_cell(shape: &Vec<Vec<u8>>, j: usize) -> (used: bool)
    requires
        is_rect(grid_view(shape)),
        j < shape[0].len(),
    ensures
        used == col_used(grid_view(shape), j as int),
{
    let ghost g = grid_view(shape);
    assert(shape[0]@ == g[0]);
    let mut i: usize = 0;
    while i < shape.len()
        invariant
            i <= shape.len(),
            g == grid_view(shape),
            is_rect(g),
            j < g[0].len(),
            forall|a: int| 0 <= a < i ==> g[a][j as int] != 1,
        decreases shape.len() - i,
    {
        let row = &shape[i];
        assert(row@ == g[i as int]);
        assert(g[i as int].len() == g[0].len());
        if row[j] == 1 {
            assert(occupied(g, i as int, j as int));
            return true;
        }
        i += 1;
    }
    assert forall|a: int| !occupied(g, a, j as int) by {
        if 0 <= a < shape.len() {
            assert(g[a][j as int] != 1);
        }
    }
    false
}

/// The shape without its empty border rows and columns.
pub fn trim_shape(shape: &Vec<Vec<u8>>) -> (out: Vec<Vec<u8>>)
    requires
        is_rect(grid_view(shape)),
    ensures
        grid_view(&out) == trimmed(grid_view(shape)),
{
    let ghost g = grid_view(shape);
    let h = shape.len();
    let w = shape[0].len();
    assert(shape[0]@ == g[0]);
    let mut first_row: usize = 0;
    let mut searching = true;
    while searching && first_row < h
        invariant
            first_row <= h,
            g == grid_view(shape),
            h == shape.len(),
            forall|i: int| 0 <= i < first_row ==> !row_used(g, i),
            !searching ==> first_row < h && row_used(g, first_row as int),
        decreases h - first_row + (if searching { 1int } else { 0int }),
    {
        if row_has_cell(shape, first_row) {
            searching = false;
        } else {
            first_row += 1;
        }
    }
    if first_row == h {
        proof {
            assert forall|i: int, j: int| !occupied(g, i, j) by {
                if 0 <= i < h {
                    assert(!row_used(g, i));
                }
            }
        }
        let none: Vec<Vec<u8>> = Vec::new();
        assert(grid_view(&none) =~= Seq::<Seq<u8>>::empty());
        return none;
    }
    let ghost jt = choose|j: int| occupied(g, first_row as int, j);
    assert(occupied(g, first_row as int, jt));
    assert(g[first_row as int].len() == w);
    assert(col_used(g, jt));
    let mut end_row: usize = h;
    searching = true;
    while searching
        invariant
            first_row < end_row <= h,
            g == grid_view(shape),
            h == shape.len(),
            row_used(g, first_row as int),
            forall|i: int| end_row <= i < h ==> !row_used(g, i),
            !searching ==> row_used(g, end_row - 1),
        decreases end_row + (if searching { 1int } else { 0int }),
    {
        if row_has_cell(shape, end_row - 1) {
            searching = false;
        } else {
            end_row -= 1;
        }
    }
    let mut first_col: usize = 0;
    searching = true;
    while searching
        invariant
            first_col <= jt < w,
            g == grid_view(shape),
            is_rect(g),
            w == g[0].len(),
            col_used(g, jt),
            forall|j: int| 0 <= j < first_col ==> !col_used(g, j),
            !searching ==> col_used(g, first_col as int),
        decreases w - first_col + (if searching { 1int } else { 0int }),
    {
        if col_has_cell(shape, first_col) {
            searching = false;
        } else {
            first_col += 1;
        }
    }
    let mut end_col: usize = w;
    searching = true;
    while searching
        invariant
            jt < end_col <= w,
            g == grid_view(shape),
            is_rect(g),
            w == g[0].len(),
            col_used(g, jt),
            forall|j: int| end_col <= j < w ==> !col_used(g, j),
            !searching ==> col_used(g, end_col - 1),
        decreases end_col + (if searching { 1int } else { 0int }),
    {
        if col_has_cell(shape, end_col - 1) {
            searching = false;
        } else {
            end_col -= 1;
        }
    }
    proof {
        lemma_box_is(g, first_row as int, end_row - 1, first_col as int, end_col - 1);
        lemma_box(g);
    }
    let mut out: Vec<Vec<u8>> = Vec::new();
    let mut i: usize = first_row;
    while i < end_row
        invariant
            first_row <= i <= end_row <= h,
            first_col < end_col <= w,
            g == grid_view(shape),
            is_rect(g),
            h == g.len(),
            w == g[0].len(),
            has_cell(g),
            first_row == top(g),
            end_row - 1 == bottom(g),
            first_col == left(g),
            end_col - 1 == right(g),
            out@.len() == i - first_row,
            forall|a: int| 0 <= a < out@.len() ==> (#[trigger] out@[a])@ == trimmed(g)[a],
        decreases end_row - i,
    {
        let source = &shape[i];
        assert(source@ == g[i as int]);
        assert(g[i as int].len() == w);
        let mut row: Vec<u8> = Vec::new();
        let mut j: usize = first_col;
        while j < end_col
            invariant
                first_col <= j <= end_col <= w,
                source@ == g[i as int],
                source@.len() == w,
                row@.len() == j - first_col,
                forall|b: int| 0 <= b < row@.len() ==> #[trigger] row@[b] == source@[first_col + b],
            decreases end_col - j,
        {
            row.push(source[j]);
            j += 1;
        }
        assert(row@ =~= trimmed(g)[i - first_row]);
        out.push(row);
        i += 1;
    }
    assert(grid_view(&out) =~= trimmed(g));
    out
}

} // verus!
