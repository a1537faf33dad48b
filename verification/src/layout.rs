//! Pieces as polyominoes: the cells of a shape listed so that each one
//! after the first touches an earlier one, and how such a list is carried
//! through the orientations and onto the board.

use crate::bitboard::{
    cells, has_bit, lemma_cells_of_mask, lemma_mask_within_board, occupied, FULL_BOARD,
};
use crate::pieces::initial_pieces;
use crate::placement::{
    is_shape, lands_on_board, law_placements_are_the_stamps, placements_of, stamp, stamped_cells,
};
use crate::pruner::adjacent;
use crate::shape::{flipped, is_rect, oriented, turned};
use crate::trim::has_cell;
use vstd::prelude::*;

verus! {

/// The cell `p` of a grid holds 1.
pub open spec fn occ(g: Seq<Seq<u8>>, p: (int, int)) -> bool {
    occupied(g, p.0, p.1)
}

/// Two cells of a grid share an edge.
pub open spec fn touching(p: (int, int), q: (int, int)) -> bool {
    (p.0 == q.0 && (p.1 - q.1 == 1 || q.1 - p.1 == 1)) || (p.1 == q.1 && (p.0 - q.0 == 1 || q.0
        - p.0 == 1))
}

/// Entry `n` of a list of cells touches an entry before it.
pub open spec fn has_earlier_neighbour(q: Seq<(int, int)>, n: int) -> bool {
    exists|m: int| 0 <= m < n && touching(#[trigger] q[m], q[n])
}

/// `q` lists the occupied cells of `g`, each once, and each one after the
/// first touches an earlier one: the shape is in one piece.
pub open spec fn is_layout(g: Seq<Seq<u8>>, q: Seq<(int, int)>) -> bool {
    &&& q.no_duplicates()
    &&& forall|n: int| 0 <= n < q.len() ==> occ(g, #[trigger] q[n])
    &&& forall|p: (int, int)| occ(g, p) ==> q.contains(p)
    &&& forall|n: int| 1 <= n < q.len() ==> has_earlier_neighbour(q, n)
}

/// The shape is in one piece and has `n` cells.
pub open spec fn has_layout(g: Seq<Seq<u8>>, n: nat) -> bool {
    exists|q: Seq<(int, int)>| is_layout(g, q) && q.len() == n
}

/// Entry `n` of a list of board cells is adjacent to an entry before it.
pub open spec fn has_earlier_adjacent(q: Seq<int>, n: int) -> bool {
    exists|m: int| 0 <= m < n && adjacent(#[trigger] q[m], q[n])
}

/// `q` lists the cells of the mask `p`, all on the board, each once, and
/// each one after the first is adjacent to an earlier one.
pub open spec fn is_board_layout(p: u64, q: Seq<int>) -> bool {
    &&& q.no_duplicates()
    &&& forall|n: int| 0 <= n < q.len() ==> 0 <= #[trigger] q[n] < 49 && has_bit(p, q[n])
    &&& forall|k: int| has_bit(p, k) ==> q.contains(k)
    &&& forall|n: int| 1 <= n < q.len() ==> has_earlier_adjacent(q, n)
}

/// The mask is a polyomino of `n` cells on the board.
pub open spec fn is_polyomino(p: u64, n: nat) -> bool {
    exists|q: Seq<int>| is_board_layout(p, q) && q.len() == n
}

proof fn lemma_layout_map(
    g: Seq<Seq<u8>>,
    q: Seq<(int, int)>,
    g2: Seq<Seq<u8>>,
    phi: spec_fn((int, int)) -> (int, int),
    psi: spec_fn((int, int)) -> (int, int),
)
    requires
        is_layout(g, q),
        forall|p: (int, int)| occ(g, p) ==> occ(g2, #[trigger] phi(p)) && psi(phi(p)) == p,
        forall|p: (int, int)| occ(g2, p) ==> occ(g, #[trigger] psi(p)) && phi(psi(p)) == p,
        forall|a: (int, int), b: (int, int)|
            touching(a, b) ==> touching(#[trigger] phi(a), #[trigger] phi(b)),
    ensures
        has_layout(g2, q.len()),
{
    let q2 = Seq::new(q.len(), |n: int| phi(q[n]));
    assert forall|a: int, b: int| 0 <= a < q2.len() && 0 <= b < q2.len() && a != b implies q2[a]
        != q2[b] by {
        assert(occ(g, q[a]) && occ(g, q[b]));
        assert(psi(phi(q[a])) == q[a]);
        assert(psi(phi(q[b])) == q[b]);
    }
    assert forall|n: int| 0 <= n < q2.len() implies occ(g2, #[trigger] q2[n]) by {
        assert(occ(g, q[n]));
        assert(occ(g2, phi(q[n])));
    }
    assert forall|p: (int, int)| occ(g2, p) implies q2.contains(p) by {
        assert(occ(g, psi(p)));
        assert(q.contains(psi(p)));
        let n = choose|n: int| 0 <= n < q.len() && q[n] == psi(p);
        assert(q2[n] == p);
    }
    assert forall|n: int| 1 <= n < q2.len() implies has_earlier_neighbour(q2, n) by {
        assert(has_earlier_neighbour(q, n));
        let m = choose|m: int| 0 <= m < n && touching(#[trigger] q[m], q[n]);
        assert(touching(phi(q[m]), phi(q[n])));
        assert(touching(q2[m], q2[n]));
    }
    assert(is_layout(g2, q2));
}

/// Mirroring keeps a shape in one piece, with as many cells.
pub proof fn lemma_flipped_layout(g: Seq<Seq<u8>>, n: nat)
    requires
        is_rect(g),
        has_layout(g, n),
    ensures
        has_layout(flipped(g), n),
{
    let q = choose|q: Seq<(int, int)>| is_layout(g, q) && q.len() == n;
    let w = g[0].len() as int;
    let phi = |p: (int, int)| (p.0, w - 1 - p.1);
    let g2 = flipped(g);
    assert forall|p: (int, int)|
        occ(g, p) implies occ(g2, #[trigger] phi(p)) && phi(phi(p)) == p by {
        assert(g[p.0].len() == w);
    }
    assert forall|p: (int, int)|
        occ(g2, p) implies occ(g, #[trigger] phi(p)) && phi(phi(p)) == p by {
        assert(g[p.0].len() == w);
    }
    lemma_layout_map(g, q, g2, phi, phi);
}

/// Quarter turns keep a shape in one piece, with as many cells.
pub proof fn lemma_turned_layout(g: Seq<Seq<u8>>, k: int, n: nat)
    requires
        is_rect(g),
        has_layout(g, n),
    ensures
        has_layout(turned(g, k), n),
{
    let q = choose|q: Seq<(int, int)>| is_layout(g, q) && q.len() == n;
    let h = g.len() as int;
    let w = g[0].len() as int;
    let g2 = turned(g, k);
    if k == 1 {
        let phi = |p: (int, int)| (p.1, h - 1 - p.0);
        let psi = |p: (int, int)| (h - 1 - p.1, p.0);
        assert forall|p: (int, int)| occ(g, p) implies occ(g2, #[trigger] phi(p)) && psi(phi(p))
            == p by {
            assert(g[p.0].len() == w);
        }
        assert forall|p: (int, int)| occ(g2, p) implies occ(g, #[trigger] psi(p)) && phi(psi(p))
            == p by {
            assert(g[h - 1 - p.1].len() == w);
        }
        lemma_layout_map(g, q, g2, phi, psi);
    } else if k == 2 {
        let phi = |p: (int, int)| (h - 1 - p.0, w - 1 - p.1);
        assert forall|p: (int, int)| occ(g, p) implies occ(g2, #[trigger] phi(p)) && phi(phi(p))
            == p by {
            assert(g[p.0].len() == w);
        }
        assert forall|p: (int, int)| occ(g2, p) implies occ(g, #[trigger] phi(p)) && phi(phi(p))
            == p by {
            assert(g[h - 1 - p.0].len() == w);
        }
        lemma_layout_map(g, q, g2, phi, phi);
    } else if k == 3 {
        let phi = |p: (int, int)| (w - 1 - p.1, p.0);
        let psi = |p: (int, int)| (p.1, w - 1 - p.0);
        assert forall|p: (int, int)| occ(g, p) implies occ(g2, #[trigger] phi(p)) && psi(phi(p))
            == p by {
            assert(g[p.0].len() == w);
        }
        assert forall|p: (int, int)| occ(g2, p) implies occ(g, #[trigger] psi(p)) && phi(psi(p))
            == p by {
            assert(g[p.1].len() == w);
        }
        lemma_layout_map(g, q, g2, phi, psi);
    }
}

/// Every orientation of a shape in one piece is in one piece, with as many
/// cells.
pub proof fn lemma_oriented_layout(g: Seq<Seq<u8>>, t: int, n: nat)
    requires
        is_rect(g),
        has_layout(g, n),
    ensures
        has_layout(oriented(g, t), n),
{
    if t >= 4 {
        lemma_flipped_layout(g, n);
        assert(is_rect(flipped(g)));
        lemma_turned_layout(flipped(g), t % 4, n);
    } else {
        lemma_turned_layout(g, t % 4, n);
    }
}

/// A shape in one piece, placed where all its cells land on the board, is
/// a polyomino with as many cells.
pub proof fn lemma_stamp_polyomino(o: Seq<Seq<u8>>, n: nat, r: int, c: int)
    requires
        lands_on_board(o, r, c),
        has_layout(o, n),
    ensures
        is_polyomino(stamp(o, r, c), n),
{
    let q = choose|q: Seq<(int, int)>| is_layout(o, q) && q.len() == n;
    let p = stamp(o, r, c);
    let q2 = Seq::new(q.len(), |n: int| (q[n].0 + r) * 7 + q[n].1 + c);
    lemma_cells_of_mask(stamped_cells(o, r, c));
    assert forall|a: int| 0 <= a < q.len() implies 0 <= (#[trigger] q[a]).0 + r < 7 && 0
        <= q[a].1 + c < 7 by {
        assert(occ(o, q[a]));
        assert(occupied(o, q[a].0, q[a].1));
    }
    assert forall|a: int, b: int| 0 <= a < q2.len() && 0 <= b < q2.len() && a != b implies q2[a]
        != q2[b] by {
        assert(0 <= q[a].1 + c < 7);
        assert(0 <= q[b].1 + c < 7);
        assert(q[a] != q[b]);
    }
    assert forall|a: int| 0 <= a < q2.len() implies 0 <= #[trigger] q2[a] < 49 && has_bit(
        p,
        q2[a],
    ) by {
        assert(occ(o, q[a]));
        assert(0 <= q[a].1 + c < 7);
        let k = q2[a];
        assert(k / 7 == q[a].0 + r && k % 7 == q[a].1 + c);
        assert(stamped_cells(o, r, c).contains(k));
    }
    assert forall|k: int| has_bit(p, k) implies q2.contains(k) by {
        assert(stamped_cells(o, r, c).contains(k));
        let cell = (k / 7 - r, k % 7 - c);
        assert(occ(o, cell));
        assert(q.contains(cell));
        let a = choose|a: int| 0 <= a < q.len() && q[a] == cell;
        assert(q2[a] == k);
    }
    assert forall|a: int| 1 <= a < q2.len() implies has_earlier_adjacent(q2, a) by {
        assert(has_earlier_neighbour(q, a));
        let m = choose|m: int| 0 <= m < a && touching(#[trigger] q[m], q[a]);
        assert(0 <= q[a].1 + c < 7);
        assert(0 <= q[m].1 + c < 7);
        assert(q2[m] % 7 == q[m].1 + c && q2[a] % 7 == q[a].1 + c);
        assert(adjacent(q2[m], q2[a]));
    }
    assert(is_board_layout(p, q2));
}

/// A polyomino of `n` cells has `n` cells, all on the board.
pub proof fn lemma_polyomino_cells(p: u64, n: nat)
    requires
        is_polyomino(p, n),
    ensures
        cells(p).finite(),
        cells(p).len() == n,
        p <= FULL_BOARD,
{
    let q = choose|q: Seq<int>| is_board_layout(p, q) && q.len() == n;
    assert forall|k: int| cells(p).contains(k) == q.to_set().contains(k) by {
        if q.contains(k) {
            let a = choose|a: int| 0 <= a < q.len() && q[a] == k;
            assert(has_bit(p, q[a]));
        }
    }
    assert(cells(p) =~= q.to_set());
    q.unique_seq_to_set();
    vstd::seq_lib::seq_to_set_is_finite(q);
    assert forall|k: int| 49 <= k < 64 implies !has_bit(p, k) by {
        if has_bit(p, k) {
            assert(q.contains(k));
            let a = choose|a: int| 0 <= a < q.len() && q[a] == k;
            assert(0 <= q[a] < 49);
        }
    }
    lemma_mask_within_board(p);
}

/// Every placement of a shape in one piece is a polyomino with as many
/// cells as the shape.
pub proof fn lemma_placement_is_polyomino(g: Seq<Seq<u8>>, n: nat, p: u64)
    requires
        is_shape(g),
        has_layout(g, n),
        placements_of(g).contains(p),
    ensures
        is_polyomino(p, n),
{
    law_placements_are_the_stamps(g, p);
    let (t, r, c) = choose|t: int, r: int, c: int|
        0 <= t < 8 && has_cell(oriented(g, t)) && lands_on_board(oriented(g, t), r, c) && p
            == #[trigger] stamp(oriented(g, t), r, c);
    lemma_oriented_layout(g, t, n);
    lemma_stamp_polyomino(oriented(g, t), n, r, c);
}

/// Each of the eight pieces is in one piece: the first has six cells, each
/// of the others five.
pub proof fn lemma_initial_layouts()
    ensures
        has_layout(initial_pieces()[0], 6),
        forall|k: int| 1 <= k < 8 ==> has_layout(#[trigger] initial_pieces()[k], 5),
{
    let p = initial_pieces();
    lemma_layout_of(
        p[0],
        seq![(0int, 0int), (0int, 1int), (1int, 1int), (1int, 0int), (2int, 0int), (2int, 1int)],
        3,
        2,
    );
    lemma_layout_of(
        p[1],
        seq![(0int, 1int), (0int, 0int), (1int, 0int), (2int, 0int), (2int, 1int)],
        3,
        3,
    );
    lemma_layout_of(
        p[2],
        seq![(0int, 0int), (1int, 0int), (1int, 1int), (2int, 1int), (3int, 1int)],
        4,
        3,
    );
    lemma_layout_of(
        p[3],
        seq![(0int, 0int), (1int, 0int), (2int, 0int), (2int, 1int), (2int, 2int)],
        3,
        3,
    );
    lemma_layout_of(
        p[4],
        seq![(0int, 0int), (1int, 0int), (1int, 1int), (2int, 1int), (2int, 0int)],
        3,
        3,
    );
    lemma_layout_of(
        p[5],
        seq![(0int, 0int), (1int, 0int), (1int, 1int), (2int, 0int), (3int, 0int)],
        4,
        3,
    );
    lemma_layout_of(
        p[6],
        seq![(0int, 1int), (0int, 0int), (1int, 0int), (2int, 0int), (3int, 0int)],
        4,
        3,
    );
    lemma_layout_of(
        p[7],
        seq![(0int, 0int), (0int, 1int), (1int, 1int), (2int, 1int), (2int, 2int)],
        3,
        3,
    );
}

/// A list of at most six cells is a layout of a grid of at most four rows
/// of at most three cells if it holds the occupied cells of each row.
proof fn lemma_layout_of(g: Seq<Seq<u8>>, q: Seq<(int, int)>, h: int, w: int)
    requires
        g.len() == h,
        h <= 4,
        w <= 3,
        forall|i: int| 0 <= i < h ==> (#[trigger] g[i]).len() == w,
        q.len() <= 6,
        q.no_duplicates(),
        forall|n: int| 0 <= n < q.len() ==> occ(g, #[trigger] q[n]),
        forall|n: int| 1 <= n < q.len() ==> has_earlier_neighbour(q, n),
        forall|i: int, j: int|
            0 <= i < 4 && 0 <= j < 3 && i < h && j < w && g[i][j] == 1 ==> q.contains((i, j)),
    ensures
        has_layout(g, q.len()),
{
    assert forall|p: (int, int)| occ(g, p) implies q.contains(p) by {
        assert(g[p.0].len() == w);
        assert(0 <= p.0 < 4 && 0 <= p.1 < 3);
        assert(p == (p.0, p.1));
    }
    assert(is_layout(g, q));
}

} // verus!
