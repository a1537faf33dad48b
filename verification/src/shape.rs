//! Piece shapes and their orientations under the symmetries of the square.

use crate::bitboard::grid_view;
use crate::distinct::{
    distinct, lemma_distinct, lemma_distinct_constant, lemma_distinct_of_distinct,
    lemma_distinct_push,
};
use vstd::prelude::*;

verus! {

/// A shape: a rectangular grid with at least one row.
pub open spec fn is_rect(g: Seq<Seq<u8>>) -> bool {
    g.len() >= 1 && forall|i: int| 0 <= i < g.len() ==> (#[trigger] g[i]).len() == g[0].len()
}

/// The grid mirrored left to right: every row reversed.
pub open spec fn flipped(g: Seq<Seq<u8>>) -> Seq<Seq<u8>> {
    Seq::new(g.len(), |i: int| Seq::new(g[i].len(), |j: int| g[i][g[i].len() - 1 - j]))
}

/// The grid after `k` quarter turns clockwise, for `k` in `1..4`; any other
/// `k` leaves it as it is.
pub open spec fn turned(g: Seq<Seq<u8>>, k: int) -> Seq<Seq<u8>> {
    let h = g.len();
    let w = g[0].len();
    if k == 1 {
        Seq::new(w, |a: int| Seq::new(h, |b: int| g[h - 1 - b][a]))
    } else if k == 2 {
        Seq::new(h, |a: int| Seq::new(w, |b: int| g[h - 1 - a][w - 1 - b]))
    } else if k == 3 {
        Seq::new(w, |a: int| Seq::new(h, |b: int| g[b][w - 1 - a]))
    } else {
        g
    }
}

/// Orientation `t` of a shape: mirrored first if `t >= 4`, then turned
/// `t % 4` quarter turns.
pub open spec fn oriented(g: Seq<Seq<u8>>, t: int) -> Seq<Seq<u8>> {
    turned(if t >= 4 { flipped(g) } else { g }, t % 4)
}

/// The eight orientations of a shape, in order.
pub open spec fn orientations(g: Seq<Seq<u8>>) -> Seq<Seq<Seq<u8>>> {
    Seq::new(8, |t: int| oriented(g, t))
}

/// The grids of a list of shapes.
pub open spec fn shapes_view(v: &Vec<Vec<Vec<u8>>>) -> Seq<Seq<Seq<u8>>> {
    Seq::new(v.len() as nat, |i: int| grid_view(&v[i]))
}

/// Every orientation of a shape is a shape.
pub proof fn lemma_oriented_rect(g: Seq<Seq<u8>>, t: int)
    requires
        is_rect(g),
        g[0].len() >= 1,
    ensures
        is_rect(oriented(g, t)),
        oriented(g, t)[0].len() >= 1,
{
    let f = if t >= 4 { flipped(g) } else { g };
    assert(is_rect(f));
    let o = turned(f, t % 4);
    assert(o.len() >= 1);
    assert forall|i: int| 0 <= i < o.len() implies (#[trigger] o[i]).len() == o[0].len() by {
        if t % 4 == 0 {
            assert(f[i].len() == f[0].len());
        }
    }
}

/// Orientation `rot_type` of a shape.
pub fn rotate_and_flip(shape: &Vec<Vec<u8>>, rot_type: u8) -> (out: Vec<Vec<u8>>)
    requires
        is_rect(grid_view(shape)),
    ensures
        grid_view(&out) == oriented(grid_view(shape), rot_type as int),
{
    let ghost g = grid_view(shape);
    let ghost f = if rot_type >= 4 { flipped(g) } else { g };
    let flip = rot_type >= 4;
    let k = rot_type % 4;
    let h = shape.len();
    let w = shape[0].len();
    assert(shape[0]@ == g[0]);
    let rows = if k % 2 == 1 { w } else { h };
    let cols = if k % 2 == 1 { h } else { w };
    let mut out: Vec<Vec<u8>> = Vec::new();
    let mut a: usize = 0;
    while a < rows
        invariant
            a <= rows,
            g == grid_view(shape),
            is_rect(g),
            h == g.len(),
            w == g[0].len(),
            f == if flip { flipped(g) } else { g },
            k < 4,
            rows == if k % 2 == 1 { w } else { h },
            cols == if k % 2 == 1 { h } else { w },
            out@.len() == a,
            forall|i: int| 0 <= i < a ==> (#[trigger] out@[i])@ == turned(f, k as int)[i],
        decreases rows - a,
    {
        let mut row: Vec<u8> = Vec::new();
        let mut b: usize = 0;
        while b < cols
            invariant
                a < rows,
                b <= cols,
                g == grid_view(shape),
                is_rect(g),
                h == g.len(),
                w == g[0].len(),
                f == if flip { flipped(g) } else { g },
                k < 4,
                rows == if k % 2 == 1 { w } else { h },
                cols == if k % 2 == 1 { h } else { w },
                row@.len() == b,
                forall|j: int|
                    0 <= j < b ==> #[trigger] row@[j] == turned(f, k as int)[a as int][j],
            decreases cols - b,
        {
            let i = if k == 0 {
                a
            } else if k == 1 {
                h - 1 - b
            } else if k == 2 {
                h - 1 - a
            } else {
                b
            };
            let j = if k == 0 {
                b
            } else if k == 1 {
                a
            } else if k == 2 {
                w - 1 - b
            } else {
                w - 1 - a
            };
            let source_row = &shape[i];
            assert(source_row@ == g[i as int]);
            assert(g[i as int].len() == w);
            let jj = if flip { w - 1 - j } else { j };
            row.push(source_row[jj]);
            b += 1;
        }
        assert(row@ =~= turned(f, k as int)[a as int]) by {
            if k == 0 {
                assert(f[a as int].len() == w);
            }
        }
        out.push(row);
        a += 1;
    }
    assert(grid_view(&out) =~= turned(f, k as int));
    out
}

/// Whether two grids hold the same cells.
pub fn shapes_equal(left: &Vec<Vec<u8>>, right: &Vec<Vec<u8>>) -> (same: bool)
    ensures
        same == (grid_view(left) == grid_view(right)),
{
    if left.len() != right.len() {
        assert(grid_view(left).len() != grid_view(right).len());
        return false;
    }
    let mut i: usize = 0;
    while i < left.len()
        invariant
            i <= left.len(),
            left.len() == right.len(),
            forall|a: int| 0 <= a < i ==> left[a]@ == right[a]@,
        decreases left.len() - i,
    {
        let lrow = &left[i];
        let rrow = &right[i];
        if lrow.len() != rrow.len() {
            assert(grid_view(left)[i as int] != grid_view(right)[i as int]);
            return false;
        }
        let mut j: usize = 0;
        while j < lrow.len()
            invariant
                j <= lrow.len(),
                i < left.len(),
                left.len() == right.len(),
                lrow@ == left[i as int]@,
                rrow@ == right[i as int]@,
                lrow.len() == rrow.len(),
                forall|b: int| 0 <= b < j ==> lrow@[b] == rrow@[b],
            decreases lrow.len() - j,
        {
            if lrow[j] != rrow[j] {
                assert(grid_view(left)[i as int][j as int] != grid_view(right)[i as int][j as int]);
                return false;
            }
            j += 1;
        }
        assert(lrow@ =~= rrow@);
        i += 1;
    }
    assert(grid_view(left) =~= grid_view(right));
    true
}

/// Whether a list of shapes holds a grid.
pub fn contains_shape(list: &Vec<Vec<Vec<u8>>>, shape: &Vec<Vec<u8>>) -> (found: bool)
    ensures
        found == shapes_view(list).contains(grid_view(shape)),
{
    let mut i: usize = 0;
    while i < list.len()
        invariant
            i <= list.len(),
            forall|a: int| 0 <= a < i ==> shapes_view(list)[a] != grid_view(shape),
        decreases list.len() - i,
    {
        if shapes_equal(&list[i], shape) {
            assert(shapes_view(list)[i as int] == grid_view(shape));
            return true;
        }
        i += 1;
    }
    false
}

/// The distinct orientations of a shape, each once, in the order in which
/// the eight orientations first produce them.
pub fn get_unique_rotations(shape: &Vec<Vec<u8>>) -> (unique: Vec<Vec<Vec<u8>>>)
    requires
        is_rect(grid_view(shape)),
    ensures
        shapes_view(&unique) == distinct(orientations(grid_view(shape))),
        1 <= unique.len() <= 8,
        shapes_view(&unique).no_duplicates(),
        forall|t: int|
            0 <= t < 8 ==> shapes_view(&unique).contains(#[trigger] oriented(grid_view(shape), t)),
        forall|i: int|
            0 <= i < unique.len()
                ==> exists|t: int|
                0 <= t < 8 && #[trigger] shapes_view(&unique)[i] == oriented(grid_view(shape), t),
{
    let ghost all = orientations(grid_view(shape));
    let mut unique: Vec<Vec<Vec<u8>>> = Vec::new();
    let mut i: u8 = 0;
    assert(all.take(0) =~= Seq::empty());
    assert(shapes_view(&unique) =~= distinct(all.take(0)));
    while i < 8
        invariant
            i <= 8,
            is_rect(grid_view(shape)),
            all == orientations(grid_view(shape)),
            shapes_view(&unique) == distinct(all.take(i as int)),
        decreases 8 - i,
    {
        let rotated = rotate_and_flip(shape, i);
        let ghost before = shapes_view(&unique);
        proof {
            assert(all.take(i + 1) =~= all.take(i as int).push(all[i as int]));
            lemma_distinct_push(all.take(i as int), all[i as int]);
        }
        if !contains_shape(&unique, &rotated) {
            unique.push(rotated);
            assert(shapes_view(&unique) =~= before.push(all[i as int]));
        }
        i += 1;
    }
    proof {
        assert(all.take(8) =~= all);
        lemma_distinct(all);
        let u = shapes_view(&unique);
        assert forall|t: int|
            0 <= t < 8 implies u.contains(#[trigger] oriented(grid_view(shape), t)) by {
            assert(all[t] == oriented(grid_view(shape), t));
            assert(all.contains(all[t]));
        }
        assert forall|i: int|
            0 <= i < unique.len()
            implies exists|t: int|
            0 <= t < 8 && #[trigger] u[i] == oriented(grid_view(shape), t) by {
            assert(u.contains(u[i]));
            assert(all.contains(u[i]));
            let t = choose|t: int| 0 <= t < all.len() && all[t] == u[i];
            assert(u[i] == oriented(grid_view(shape), t));
        }
    }
    unique
}

/// A shape that every symmetry of the square maps to itself has one
/// orientation.
pub proof fn law_symmetric_shape_has_one_orientation(g: Seq<Seq<u8>>)
    requires
        forall|t: int| 0 <= t < 8 ==> oriented(g, t) == g,
    ensures
        distinct(orientations(g)) == seq![g],
{
    let all = orientations(g);
    assert(all[0] == oriented(g, 0));
    assert forall|i: int| 0 <= i < all.len() implies #[trigger] all[i] == all[0] by {
        assert(all[i] == oriented(g, i));
    }
    lemma_distinct_constant(all);
}

/// A shape whose eight orientations all differ keeps all eight, in order.
pub proof fn law_asymmetric_shape_has_eight_orientations(g: Seq<Seq<u8>>)
    requires
        forall|s: int, t: int| 0 <= s < t < 8 ==> oriented(g, s) != oriented(g, t),
    ensures
        distinct(orientations(g)) == orientations(g),
        distinct(orientations(g)).len() == 8,
{
    let all = orientations(g);
    assert forall|s: int, t: int|
        0 <= s < all.len() && 0 <= t < all.len() && s != t implies all[s] != all[t] by {
        if s < t {
            assert(oriented(g, s) != oriented(g, t));
        } else {
            assert(oriented(g, t) != oriented(g, s));
        }
    }
    lemma_distinct_of_distinct(all);
}

/// No shape has more than eight distinct orientations, and none has fewer
/// than one.
pub proof fn law_at_most_eight_orientations(g: Seq<Seq<u8>>)
    ensures
        1 <= distinct(orientations(g)).len() <= 8,
        distinct(orientations(g)).no_duplicates(),
{
    lemma_distinct(orientations(g));
}

} // verus!
