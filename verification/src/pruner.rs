//! The connectivity pruner: a board is a dead end as soon as one of its
//! regions of empty cells has a size that no choice of the pieces still to
//! be placed can fill.

use crate::bitboard::{bit_at, has_bit};
use crate::union_find::{class_of, is_root_map, lemma_class_finite, merged, UnionFind};
use vstd::prelude::*;

verus! {

/// Cell `c` is on the board and not filled in `mask`.
pub open spec fn empty_cell(mask: u64, c: int) -> bool {
    0 <= c < 49 && !has_bit(mask, c)
}

/// Cells `a` and `b` of the board share an edge.
pub open spec fn adjacent(a: int, b: int) -> bool {
    &&& 0 <= a < 49
    &&& 0 <= b < 49
    &&& (b == a + 7 || a == b + 7 || (b == a + 1 && b % 7 != 0) || (a == b + 1 && a % 7 != 0))
}

/// A non-empty walk over empty cells in which each step crosses an edge.
pub open spec fn is_path(mask: u64, p: Seq<int>) -> bool {
    &&& p.len() >= 1
    &&& forall|i: int| 0 <= i < p.len() ==> empty_cell(mask, #[trigger] p[i])
    &&& forall|i: int| 0 <= i < p.len() - 1 ==> adjacent(#[trigger] p[i], p[i + 1])
}

/// Empty cells `a` and `b` are joined by a path of empty cells.
pub open spec fn connected(mask: u64, a: int, b: int) -> bool {
    exists|p: Seq<int>| is_path(mask, p) && p[0] == a && p[p.len() - 1] == b
}

/// The region of the empty cell `a`: every cell connected to it.
pub open spec fn region(mask: u64, a: int) -> Set<int> {
    Set::new(|b: int| connected(mask, a, b))
}

/// A region of `n` cells can be filled by pieces of five cells and, while
/// the piece of six cells is still unused, at most one piece of six.
pub open spec fn feasible_size(n: int, six_used: bool) -> bool {
    n >= 5 && (n % 5 == 0 || (!six_used && n >= 6 && (n - 6) % 5 == 0))
}

/// Every region of empty cells has a feasible size.
pub open spec fn board_feasible(mask: u64, six_used: bool) -> bool {
    forall|c: int| empty_cell(mask, c) ==> feasible_size(region(mask, c).len() as int, six_used)
}

/// The position in the scan at which the edge between two adjacent cells is
/// visited: two steps per cell, first the edge to the right, then the one
/// below.
spec fn link_index(a: int, b: int) -> int {
    let lo = if a < b {
        a
    } else {
        b
    };
    if a == b + 1 || b == a + 1 {
        2 * lo
    } else {
        2 * lo + 1
    }
}

/// The edge between the empty cells `a` and `b` is visited within the
/// first `t` steps of the scan.
spec fn linked(mask: u64, t: int, a: int, b: int) -> bool {
    adjacent(a, b) && empty_cell(mask, a) && empty_cell(mask, b) && link_index(a, b) < t
}

/// A walk over cells of the board along edges visited within `t` steps.
spec fn is_walk(mask: u64, t: int, p: Seq<int>) -> bool {
    &&& p.len() >= 1
    &&& forall|i: int| 0 <= i < p.len() ==> 0 <= #[trigger] p[i] < 49
    &&& forall|i: int| 0 <= i < p.len() - 1 ==> linked(mask, t, #[trigger] p[i], p[i + 1])
}

/// Cells `a` and `b` are joined by the edges visited within `t` steps.
spec fn joined(mask: u64, t: int, a: int, b: int) -> bool {
    exists|p: Seq<int>| is_walk(mask, t, p) && p[0] == a && p[p.len() - 1] == b
}

/// The representatives tell exactly which cells are joined after `t` steps.
spec fn tracks(roots: Seq<int>, mask: u64, t: int) -> bool {
    forall|a: int, b: int|
        0 <= a < 49 && 0 <= b < 49 ==> ((roots[a] == roots[b]) <==> #[trigger] joined(
            mask,
            t,
            a,
            b,
        ))
}

proof fn lemma_joined_self(mask: u64, t: int, a: int)
    requires
        0 <= a < 49,
    ensures
        joined(mask, t, a, a),
{
    let p = seq![a];
    assert(is_walk(mask, t, p));
    assert(p[0] == a && p[p.len() - 1] == a);
}

proof fn lemma_joined_link(mask: u64, t: int, a: int, b: int)
    requires
        linked(mask, t, a, b),
    ensures
        joined(mask, t, a, b),
{
    let p = seq![a, b];
    assert(is_walk(mask, t, p));
    assert(p[0] == a && p[p.len() - 1] == b);
}

proof fn lemma_joined_trans(mask: u64, t: int, a: int, b: int, c: int)
    requires
        joined(mask, t, a, b),
        joined(mask, t, b, c),
    ensures
        joined(mask, t, a, c),
{
    let p = choose|p: Seq<int>| is_walk(mask, t, p) && p[0] == a && p[p.len() - 1] == b;
    let q = choose|q: Seq<int>| is_walk(mask, t, q) && q[0] == b && q[q.len() - 1] == c;
    let r = p + q.subrange(1, q.len() as int);
    assert forall|i: int|
        0 <= i < r.len() - 1 implies linked(mask, t, #[trigger] r[i], r[i + 1]) by {
        if i < p.len() - 1 {
            assert(linked(mask, t, p[i], p[i + 1]));
        } else {
            let j = i - p.len() + 1;
            assert(linked(mask, t, q[j], q[j + 1]));
        }
    }
    assert forall|i: int| 0 <= i < r.len() implies 0 <= #[trigger] r[i] < 49 by {
        if i < p.len() {
            assert(0 <= p[i] < 49);
        } else {
            assert(0 <= q[i - p.len() + 1] < 49);
        }
    }
    assert(is_walk(mask, t, r));
    assert(r[0] == a && r[r.len() - 1] == c);
}

proof fn lemma_joined_grows(mask: u64, t: int, a: int, b: int)
    requires
        joined(mask, t, a, b),
    ensures
        joined(mask, t + 1, a, b),
{
    let p = choose|p: Seq<int>| is_walk(mask, t, p) && p[0] == a && p[p.len() - 1] == b;
    assert forall|i: int|
        0 <= i < p.len() - 1 implies linked(mask, t + 1, #[trigger] p[i], p[i + 1]) by {
        assert(linked(mask, t, p[i], p[i + 1]));
    }
    assert(is_walk(mask, t + 1, p));
}

/// The three ways in which `a` and `b` can be joined once the edge between
/// `x` and `y` is added to those of step `t`.
spec fn joined_via(mask: u64, t: int, x: int, y: int, a: int, b: int) -> bool {
    ||| joined(mask, t, a, b)
    ||| (joined(mask, t, a, x) && joined(mask, t, y, b))
    ||| (joined(mask, t, a, y) && joined(mask, t, x, b))
}

proof fn lemma_walk_via(mask: u64, t: int, x: int, y: int, p: Seq<int>)
    requires
        is_walk(mask, t + 1, p),
        0 <= x < 49,
        0 <= y < 49,
        forall|a: int, b: int| #[trigger]
            linked(mask, t + 1, a, b) ==> linked(mask, t, a, b) || (a == x && b == y) || (a == y
                && b == x),
    ensures
        joined_via(mask, t, x, y, p[0], p[p.len() - 1]),
    decreases p.len(),
{
    let a = p[0];
    if p.len() == 1 {
        lemma_joined_self(mask, t, a);
    } else {
        let q = p.drop_last();
        let u = q[q.len() - 1];
        let b = p[p.len() - 1];
        assert forall|i: int|
            0 <= i < q.len() - 1 implies linked(mask, t + 1, #[trigger] q[i], q[i + 1]) by {
            assert(linked(mask, t + 1, p[i], p[i + 1]));
        }
        assert forall|i: int| 0 <= i < q.len() implies 0 <= #[trigger] q[i] < 49 by {
            assert(0 <= p[i] < 49);
        }
        assert(is_walk(mask, t + 1, q));
        lemma_walk_via(mask, t, x, y, q);
        assert(q[0] == a);
        assert(u == p[p.len() - 2]);
        assert(linked(mask, t + 1, p[p.len() - 2], p[p.len() - 2 + 1]));
        assert(linked(mask, t + 1, u, b));
        lemma_joined_self(mask, t, x);
        lemma_joined_self(mask, t, y);
        if linked(mask, t, u, b) {
            lemma_joined_link(mask, t, u, b);
            if joined(mask, t, a, u) {
                lemma_joined_trans(mask, t, a, u, b);
            } else if joined(mask, t, a, x) && joined(mask, t, y, u) {
                lemma_joined_trans(mask, t, y, u, b);
            } else {
                lemma_joined_trans(mask, t, x, u, b);
            }
        } else if u == x && b == y {
            if joined(mask, t, a, u) {
            } else if joined(mask, t, a, x) && joined(mask, t, y, u) {
            } else {
            }
        } else {
            assert(u == y && b == x);
        }
    }
}

/// Visiting the edge between the empty cells `x` and `y` at step `t` joins
/// what was joined to `x` with what was joined to `y`, and nothing else.
proof fn lemma_join_step(mask: u64, t: int, x: int, y: int)
    requires
        adjacent(x, y),
        empty_cell(mask, x),
        empty_cell(mask, y),
        link_index(x, y) == t,
    ensures
        forall|a: int, b: int| #[trigger]
            joined(mask, t + 1, a, b) <==> joined_via(mask, t, x, y, a, b),
{
    assert forall|a: int, b: int| #[trigger]
        linked(mask, t + 1, a, b) implies linked(mask, t, a, b) || (a == x && b == y) || (a == y
        && b == x) by {}
    assert forall|a: int, b: int| #[trigger]
        joined(mask, t + 1, a, b) <==> joined_via(mask, t, x, y, a, b) by {
        if joined(mask, t + 1, a, b) {
            let p = choose|p: Seq<int>| is_walk(mask, t + 1, p) && p[0] == a && p[p.len() - 1] == b;
            lemma_walk_via(mask, t, x, y, p);
        }
        if joined_via(mask, t, x, y, a, b) {
            assert(linked(mask, t + 1, x, y));
            assert(linked(mask, t + 1, y, x));
            lemma_joined_link(mask, t + 1, x, y);
            lemma_joined_link(mask, t + 1, y, x);
            if joined(mask, t, a, b) {
                lemma_joined_grows(mask, t, a, b);
            } else if joined(mask, t, a, x) && joined(mask, t, y, b) {
                lemma_joined_grows(mask, t, a, x);
                lemma_joined_grows(mask, t, y, b);
                lemma_joined_trans(mask, t + 1, a, x, y);
                lemma_joined_trans(mask, t + 1, a, y, b);
            } else {
                lemma_joined_grows(mask, t, a, y);
                lemma_joined_grows(mask, t, x, b);
                lemma_joined_trans(mask, t + 1, a, y, x);
                lemma_joined_trans(mask, t + 1, a, x, b);
            }
        }
    }
}

/// A step of the scan that visits no edge between empty cells joins nothing.
proof fn lemma_join_skip(mask: u64, t: int)
    requires
        forall|a: int, b: int| #[trigger] linked(mask, t + 1, a, b) ==> linked(mask, t, a, b),
    ensures
        forall|a: int, b: int| #[trigger] joined(mask, t + 1, a, b) <==> joined(mask, t, a, b),
{
    assert forall|a: int, b: int| #[trigger]
        joined(mask, t + 1, a, b) <==> joined(mask, t, a, b) by {
        if joined(mask, t + 1, a, b) {
            let p = choose|p: Seq<int>| is_walk(mask, t + 1, p) && p[0] == a && p[p.len() - 1] == b;
            assert forall|i: int|
                0 <= i < p.len() - 1 implies linked(mask, t, #[trigger] p[i], p[i + 1]) by {
                assert(linked(mask, t + 1, p[i], p[i + 1]));
            }
            assert(is_walk(mask, t, p));
        }
        if joined(mask, t, a, b) {
            lemma_joined_grows(mask, t, a, b);
        }
    }
}

/// Before the scan starts, each cell is joined to itself only.
proof fn lemma_join_start(mask: u64)
    ensures
        tracks(Seq::new(49, |z: int| z), mask, 0),
{
    let roots = Seq::new(49, |z: int| z);
    assert forall|a: int, b: int| 0 <= a < 49 && 0 <= b < 49 implies ((roots[a] == roots[b])
        <==> #[trigger] joined(mask, 0, a, b)) by {
        if a == b {
            lemma_joined_self(mask, 0, a);
        }
        if joined(mask, 0, a, b) {
            let p = choose|p: Seq<int>| is_walk(mask, 0, p) && p[0] == a && p[p.len() - 1] == b;
            if p.len() > 1 {
                assert(linked(mask, 0, p[0int], p[0int + 1]));
            }
        }
    }
}

/// After the whole scan, being joined is being connected.
proof fn lemma_join_end(mask: u64, a: int, b: int)
    requires
        empty_cell(mask, a),
    ensures
        joined(mask, 98, a, b) <==> connected(mask, a, b),
{
    if joined(mask, 98, a, b) {
        let p = choose|p: Seq<int>| is_walk(mask, 98, p) && p[0] == a && p[p.len() - 1] == b;
        assert forall|i: int| 0 <= i < p.len() implies empty_cell(mask, #[trigger] p[i]) by {
            if i == 0 {
            } else {
                assert(linked(mask, 98, p[i - 1], p[i - 1 + 1]));
            }
        }
        assert forall|i: int| 0 <= i < p.len() - 1 implies adjacent(#[trigger] p[i], p[i + 1]) by {
            assert(linked(mask, 98, p[i], p[i + 1]));
        }
        assert(is_path(mask, p));
    }
    if connected(mask, a, b) {
        let p = choose|p: Seq<int>| is_path(mask, p) && p[0] == a && p[p.len() - 1] == b;
        assert forall|i: int|
            0 <= i < p.len() - 1 implies linked(mask, 98, #[trigger] p[i], p[i + 1]) by {
            assert(adjacent(p[i], p[i + 1]));
            assert(empty_cell(mask, p[i + 1]));
        }
        assert(is_walk(mask, 98, p));
    }
}

/// Once the scan is over, the class of a representative is the region of
/// each of its cells.
proof fn lemma_class_is_region(mask: u64, roots: Seq<int>, c: int)
    requires
        roots.len() == 49,
        is_root_map(roots),
        tracks(roots, mask, 98),
        empty_cell(mask, c),
    ensures
        region(mask, c) == class_of(roots, roots[c]),
        empty_cell(mask, roots[c]),
{
    let r = roots[c];
    assert(roots[r] == r);
    assert(joined(mask, 98, c, r));
    lemma_join_end(mask, c, r);
    let p = choose|p: Seq<int>| is_path(mask, p) && p[0] == c && p[p.len() - 1] == r;
    assert(empty_cell(mask, p[p.len() - 1]));
    assert forall|b: int| region(mask, c).contains(b) == class_of(roots, r).contains(b) by {
        lemma_join_end(mask, c, b);
        if connected(mask, c, b) {
            let q = choose|q: Seq<int>| is_path(mask, q) && q[0] == c && q[q.len() - 1] == b;
            assert(empty_cell(mask, q[q.len() - 1]));
        }
        if 0 <= b < 49 {
            assert((roots[c] == roots[b]) <==> joined(mask, 98, c, b));
        }
    }
    assert(region(mask, c) =~= class_of(roots, r));
}

/// Joining two sets of the forest keeps it in step with the scan.
proof fn lemma_tracks_merged(roots: Seq<int>, mask: u64, t: int, x: int, y: int)
    requires
        roots.len() == 49,
        is_root_map(roots),
        tracks(roots, mask, t),
        0 <= x < 49,
        0 <= y < 49,
        forall|a: int, b: int| #[trigger]
            joined(mask, t + 1, a, b) <==> joined_via(mask, t, x, y, a, b),
    ensures
        tracks(merged(roots, x, y), mask, t + 1),
{
    let next = merged(roots, x, y);
    assert forall|a: int, b: int| 0 <= a < 49 && 0 <= b < 49 implies ((next[a] == next[b])
        <==> #[trigger] joined(mask, t + 1, a, b)) by {
        assert(joined(mask, t + 1, a, b) <==> joined_via(mask, t, x, y, a, b));
        assert((roots[a] == roots[b]) <==> joined(mask, t, a, b));
        assert((roots[a] == roots[x]) <==> joined(mask, t, a, x));
        assert((roots[a] == roots[y]) <==> joined(mask, t, a, y));
        assert((roots[y] == roots[b]) <==> joined(mask, t, y, b));
        assert((roots[x] == roots[b]) <==> joined(mask, t, x, b));
    }
}

proof fn lemma_bv_clear(mask: u64, k: u64)
    by (bit_vector)
    requires
        k < 64,
    ensures
        ((mask >> k) & 1 == 0) == !bit_at(mask, k),
{
}

/// Whether cell `i` is clear in `mask`.
pub fn is_clear(mask: u64, i: usize) -> (clear: bool)
    requires
        i < 64,
    ensures
        clear == !has_bit(mask, i as int),
{
    proof {
        lemma_bv_clear(mask, i as u64);
    }
    (mask >> (i as u64)) & 1 == 0
}

/// Decides whether a board may still be completed: groups the empty cells
/// into regions and checks the size of each.
pub fn judge_connected_component(board_mask: u64, is_size_6_piece_used: bool) -> (ok: bool)
    ensures
        ok == board_feasible(board_mask, is_size_6_piece_used),
{
    let mut uf = UnionFind::new(49);
    proof {
        lemma_join_start(board_mask);
    }
    let mut i: usize = 0;
    while i < 49
        invariant
            i <= 49,
            uf.wf(),
            uf.len() == 49,
            tracks(uf@, board_mask, 2 * i),
        decreases 49 - i,
    {
        let ghost t = 2 * (i as int);
        let mut right = false;
        let mut below = false;
        if is_clear(board_mask, i) {
            right = (i + 1) % 7 != 0 && is_clear(board_mask, i + 1);
            below = i < 42 && is_clear(board_mask, i + 7);
        }
        let ghost before = uf@;
        if right {
            uf.union(i, i + 1);
            proof {
                lemma_join_step(board_mask, t, i as int, i + 1);
                lemma_tracks_merged(before, board_mask, t, i as int, i + 1);
            }
        } else {
            proof {
                assert forall|a: int, b: int| #[trigger]
                    linked(board_mask, t + 1, a, b) implies linked(board_mask, t, a, b) by {}
                lemma_join_skip(board_mask, t);
            }
        }
        assert(tracks(uf@, board_mask, t + 1));
        let ghost middle = uf@;
        if below {
            uf.union(i, i + 7);
            proof {
                lemma_join_step(board_mask, t + 1, i as int, i + 7);
                lemma_tracks_merged(middle, board_mask, t + 1, i as int, i + 7);
            }
        } else {
            proof {
                assert forall|a: int, b: int| #[trigger]
                    linked(board_mask, t + 2, a, b) implies linked(board_mask, t + 1, a, b) by {}
                lemma_join_skip(board_mask, t + 1);
            }
        }
        assert(t + 1 + 1 == t + 2);
        assert(tracks(uf@, board_mask, t + 2));
        i += 1;
    }
    let roots = uf.roots();
    let ghost view = uf@;
    let mut k: usize = 0;
    while k < roots.len()
        invariant
            k <= roots.len(),
            uf.wf(),
            uf.len() == 49,
            uf@ == view,
            tracks(view, board_mask, 98),
            forall|j: int|
                0 <= j < roots.len() ==> roots[j] < 49 && view[roots[j] as int] == roots[j],
            forall|j: int|
                0 <= j < k && empty_cell(board_mask, roots[j] as int) ==> feasible_size(
                    class_of(view, roots[j] as int).len() as int,
                    is_size_6_piece_used,
                ),
        decreases roots.len() - k,
    {
        let root = roots[k];
        if is_clear(board_mask, root) {
            let size = uf.size(root);
            proof {
                lemma_class_is_region(board_mask, view, root as int);
                lemma_class_finite(view, root as int);
            }
            if size < 5 {
                return false;
            }
            if !is_size_6_piece_used {
                if size % 5 != 0 && (size < 6 || (size - 6) % 5 != 0) {
                    return false;
                }
            } else {
                if size % 5 != 0 {
                    return false;
                }
            }
        }
        k += 1;
    }
    proof {
        assert forall|c: int| empty_cell(board_mask, c) implies feasible_size(
            region(board_mask, c).len() as int,
            is_size_6_piece_used,
        ) by {
            lemma_class_is_region(board_mask, view, c);
            let r = view[c];
            assert(roots@.contains(r as usize));
            let j = choose|j: int| 0 <= j < roots.len() && roots[j] == r as usize;
            assert(empty_cell(board_mask, roots[j] as int));
        }
    }
    true
}

/// An empty cell is connected to itself.
pub proof fn lemma_connected_self(mask: u64, a: int)
    requires
        empty_cell(mask, a),
    ensures
        connected(mask, a, a),
{
    let p = seq![a];
    assert(is_path(mask, p));
    assert(p[0] == a && p[p.len() - 1] == a);
}

/// Adjacent empty cells are connected.
pub proof fn lemma_connected_step(mask: u64, a: int, b: int)
    requires
        empty_cell(mask, a),
        empty_cell(mask, b),
        adjacent(a, b),
    ensures
        connected(mask, a, b),
{
    let p = seq![a, b];
    assert(is_path(mask, p));
    assert(p[0] == a && p[p.len() - 1] == b);
}

/// Connected cells are empty cells.
pub proof fn lemma_connected_cells_are_empty(mask: u64, a: int, b: int)
    requires
        connected(mask, a, b),
    ensures
        empty_cell(mask, a),
        empty_cell(mask, b),
{
    let p = choose|p: Seq<int>| is_path(mask, p) && p[0] == a && p[p.len() - 1] == b;
    assert(empty_cell(mask, p[0]));
    assert(empty_cell(mask, p[p.len() - 1]));
}

/// A path walked backwards is a path.
pub proof fn lemma_connected_symmetric(mask: u64, a: int, b: int)
    requires
        connected(mask, a, b),
    ensures
        connected(mask, b, a),
{
    let p = choose|p: Seq<int>| is_path(mask, p) && p[0] == a && p[p.len() - 1] == b;
    let n = p.len() as int;
    let r = Seq::new(p.len(), |i: int| p[n - 1 - i]);
    assert forall|i: int| 0 <= i < r.len() implies empty_cell(mask, #[trigger] r[i]) by {
        assert(empty_cell(mask, p[n - 1 - i]));
    }
    assert forall|i: int| 0 <= i < r.len() - 1 implies adjacent(#[trigger] r[i], r[i + 1]) by {
        assert(adjacent(p[n - 2 - i], p[n - 2 - i + 1]));
    }
    assert(is_path(mask, r));
    assert(r[0] == b && r[r.len() - 1] == a);
}

/// Two paths that meet make one path.
pub proof fn lemma_connected_transitive(mask: u64, a: int, b: int, c: int)
    requires
        connected(mask, a, b),
        connected(mask, b, c),
    ensures
        connected(mask, a, c),
{
    let p = choose|p: Seq<int>| is_path(mask, p) && p[0] == a && p[p.len() - 1] == b;
    let q = choose|q: Seq<int>| is_path(mask, q) && q[0] == b && q[q.len() - 1] == c;
    let r = p + q.subrange(1, q.len() as int);
    assert forall|i: int| 0 <= i < r.len() implies empty_cell(mask, #[trigger] r[i]) by {
        if i < p.len() {
            assert(empty_cell(mask, p[i]));
        } else {
            assert(empty_cell(mask, q[i - p.len() + 1]));
        }
    }
    assert forall|i: int| 0 <= i < r.len() - 1 implies adjacent(#[trigger] r[i], r[i + 1]) by {
        if i < p.len() - 1 {
            assert(adjacent(p[i], p[i + 1]));
        } else {
            let j = i - p.len() + 1;
            assert(adjacent(q[j], q[j + 1]));
        }
    }
    assert(is_path(mask, r));
    assert(r[0] == a && r[r.len() - 1] == c);
}

/// Connected cells have the same region.
pub proof fn lemma_same_region(mask: u64, a: int, b: int)
    requires
        connected(mask, a, b),
    ensures
        region(mask, a) == region(mask, b),
{
    lemma_connected_symmetric(mask, a, b);
    assert forall|e: int| region(mask, a).contains(e) == region(mask, b).contains(e) by {
        if connected(mask, a, e) {
            lemma_connected_transitive(mask, b, a, e);
        }
        if connected(mask, b, e) {
            lemma_connected_transitive(mask, a, b, e);
        }
    }
    assert(region(mask, a) =~= region(mask, b));
}

/// A region is finite: it lies on the board.
pub proof fn lemma_region_finite(mask: u64, a: int)
    ensures
        region(mask, a).finite(),
        region(mask, a).len() <= 49,
        empty_cell(mask, a) ==> region(mask, a).len() >= 1,
{
    vstd::set_lib::lemma_int_range(0, 49);
    let board = vstd::set_lib::set_int_range(0, 49);
    assert forall|e: int| region(mask, a).contains(e) implies board.contains(e) by {
        lemma_connected_cells_are_empty(mask, a, e);
    }
    vstd::set_lib::lemma_len_subset(region(mask, a), board);
    if empty_cell(mask, a) {
        lemma_connected_self(mask, a);
        assert(region(mask, a).contains(a));
        if region(mask, a).len() == 0 {
            region(mask, a).lemma_len0_is_empty();
        }
    }
}

/// A board with a region of fewer than five cells is rejected, whether or
/// not the piece of six cells is used.
pub proof fn law_small_region_is_rejected(mask: u64, six_used: bool, c: int)
    requires
        empty_cell(mask, c),
        region(mask, c).len() < 5,
    ensures
        !board_feasible(mask, six_used),
{
}

/// A board whose empty cells form one region is accepted exactly if the
/// size of that region is feasible.
pub proof fn law_single_region(mask: u64, six_used: bool, c: int)
    requires
        empty_cell(mask, c),
        forall|e: int| empty_cell(mask, e) ==> connected(mask, c, e),
    ensures
        board_feasible(mask, six_used) == feasible_size(region(mask, c).len() as int, six_used),
{
    assert forall|e: int| empty_cell(mask, e) implies region(mask, e) == region(mask, c) by {
        lemma_same_region(mask, c, e);
    }
}

/// With the piece of six cells unused, regions of 5, 6, 10 and 11 cells are
/// feasible, and one of 12 cells, which would take two pieces of six, is
/// not; once the piece is used, a region of six cells is not feasible, and
/// the feasible sizes are the positive multiples of five.
pub proof fn law_feasible_sizes()
    ensures
        feasible_size(5, false),
        feasible_size(6, false),
        feasible_size(10, false),
        feasible_size(11, false),
        !feasible_size(12, false),
        !feasible_size(6, true),
        forall|n: int| feasible_size(n, true) <==> n >= 5 && n % 5 == 0,
        forall|n: int| 0 <= n < 5 ==> !feasible_size(n, false) && !feasible_size(n, true),
        forall|n: int| feasible_size(n, true) ==> feasible_size(n, false),
{
}

/// A board whose only region has 5, 6 or 11 cells is accepted while the
/// piece of six cells is unused; once it is used, a board whose only region
/// has 6 cells is rejected, and one is accepted exactly if the size of its
/// only region is a multiple of five.
pub proof fn law_single_region_sizes(mask: u64, c: int)
    requires
        empty_cell(mask, c),
        forall|e: int| empty_cell(mask, e) ==> connected(mask, c, e),
    ensures
        region(mask, c).len() == 5 || region(mask, c).len() == 6 || region(mask, c).len() == 11
            ==> board_feasible(mask, false),
        region(mask, c).len() == 6 ==> !board_feasible(mask, true),
        board_feasible(mask, true) <==> region(mask, c).len() % 5 == 0,
{
    law_single_region(mask, false, c);
    law_single_region(mask, true, c);
    lemma_region_finite(mask, c);
}

} // verus!
