//! Exact cover: what the solutions of a board are, beyond being what the
//! search lists. The laws hold for every table of placements whose masks
//! are polyominoes with the cells of their piece, in whatever order the
//! table lists them.

use crate::bitboard::{
    cells, has_bit, lemma_all_cells_is_full, lemma_cells_disjoint, lemma_cells_finite,
    lemma_cells_full, lemma_cells_of_mask, lemma_cells_on_board, lemma_cells_or,
    lemma_mask_within_board, lemma_or_within_board, FULL_BOARD,
};
use crate::distinct::{distinct, lemma_distinct};
use crate::layout::{
    has_earlier_adjacent, is_board_layout, is_polyomino, lemma_initial_layouts,
    lemma_placement_is_polyomino, lemma_polyomino_cells,
};
use crate::pieces::initial_pieces;
use crate::placement::{
    candidates, is_stamp_of, law_placements_are_the_stamps, placement_table, placements_of,
};
use crate::pruner::{
    adjacent, board_feasible, connected, empty_cell, feasible_size, is_path,
    lemma_connected_cells_are_empty, lemma_connected_self, lemma_connected_step,
    lemma_connected_symmetric, lemma_connected_transitive, lemma_region_finite, region,
};
use crate::bitboard::lemma_mask_extensional;
use crate::search::{
    filled, law_solution_masks_do_not_overlap, law_solutions_are_distinct,
    law_solutions_are_valid_assignments, lemma_filled_covers, solutions_of, step_ok,
};
use crate::shape::orientations;
use crate::solver::{
    blocked_cells, blocked_mask, day_cell, lemma_initial_pieces_are_shapes, month_cell, piece_at,
    rendered, rendered_cell, solved_boards, valid_date, SIZE_6_PIECE_INDEX,
};
use vstd::prelude::*;
use vstd::set_lib::{
    lemma_int_range, lemma_len_subset, lemma_set_disjoint_lens, lemma_subset_equality,
    set_int_range,
};

verus! {

/// The placements of the eight pieces.
pub open spec fn puzzle_table() -> Seq<Seq<u64>> {
    placement_table(initial_pieces())
}

/// The number of cells of piece `k`: six for the first, five for the rest.
pub open spec fn piece_cells(k: int) -> nat {
    if k == SIZE_6_PIECE_INDEX as int {
        6
    } else {
        5
    }
}

/// A table for the eight pieces in which every placement of piece `k` is a
/// polyomino with the cells of piece `k`.
pub open spec fn is_polyomino_table(table: Seq<Seq<u64>>) -> bool {
    &&& table.len() == 8
    &&& forall|k: int, p: u64|
        0 <= k < 8 && #[trigger] table[k].contains(p) ==> is_polyomino(p, piece_cells(k))
}

/// A board to start from: eight blocked cells, all on the board.
pub open spec fn is_opening(blocked: u64) -> bool {
    blocked <= FULL_BOARD && cells(blocked).len() == 8
}

/// An exact cover: a placement of each of the eight pieces, no two of them
/// overlapping, none overlapping the blocked cells, that fill the board
/// together with the blocked cells.
pub open spec fn is_exact_cover(table: Seq<Seq<u64>>, blocked: u64, s: Seq<u64>) -> bool {
    &&& s.len() == 8
    &&& forall|j: int| 0 <= j < 8 ==> table[j].contains(#[trigger] s[j])
    &&& forall|a: int| 0 <= a < 8 ==> blocked & #[trigger] s[a] == 0
    &&& forall|a: int, b: int| 0 <= a < b < 8 ==> #[trigger] s[a] & #[trigger] s[b] == 0
    &&& filled(blocked, s, 8) == FULL_BOARD
}

/// The number of cells of the first `n` masks of `s` together.
pub open spec fn cell_total(s: Seq<u64>, n: int) -> nat
    decreases n,
{
    if n <= 0 {
        0
    } else {
        cell_total(s, n - 1) + cells(s[n - 1]).len()
    }
}

/// The placements of the eight pieces are polyominoes with the cells of
/// their piece, and no piece has a placement twice.
pub proof fn lemma_puzzle_table()
    ensures
        is_polyomino_table(puzzle_table()),
        forall|k: int| 0 <= k < 8 ==> (#[trigger] puzzle_table()[k]).no_duplicates(),
{
    lemma_initial_layouts();
    lemma_initial_pieces_are_shapes();
    let table = puzzle_table();
    assert forall|k: int, p: u64|
        0 <= k < 8 && #[trigger] table[k].contains(p) implies is_polyomino(p, piece_cells(k)) by {
        let g = initial_pieces()[k];
        assert(table[k] == placements_of(g));
        lemma_placement_is_polyomino(g, piece_cells(k), p);
    }
    assert forall|k: int| 0 <= k < 8 implies (#[trigger] table[k]).no_duplicates() by {
        let g = initial_pieces()[k];
        assert(table[k] == placements_of(g));
        lemma_distinct(candidates(distinct(orientations(g))));
    }
}

/// A date blocks eight cells, all on the board.
pub proof fn lemma_blocked_cells(month: int, day: int)
    requires
        valid_date(month, day),
    ensures
        cells(blocked_mask(month, day)) == blocked_cells(month, day),
        is_opening(blocked_mask(month, day)),
{
    let b = blocked_cells(month, day);
    let m = month_cell(month);
    let d = day_cell(day);
    lemma_cells_of_mask(b);
    assert(cells(blocked_mask(month, day)) =~= b);
    let holes = set![6int, 13int, 45int, 46int, 47int, 48int];
    assert(holes.len() == 6);
    assert(0 <= m < 13 && m != 6);
    assert(14 <= d < 45);
    assert(b =~= holes.insert(m).insert(d));
    assert forall|k: int| 49 <= k < 64 implies !has_bit(blocked_mask(month, day), k) by {
        assert(!b.contains(k));
    }
    lemma_mask_within_board(blocked_mask(month, day));
}

/// Masks added to a board without overlap add up their cells.
pub proof fn lemma_filled_cells(mask: u64, s: Seq<u64>, n: int)
    requires
        0 <= n <= s.len(),
        forall|j: int| 0 <= j < n ==> filled(mask, s, j) & #[trigger] s[j] == 0,
    ensures
        cells(filled(mask, s, n)).finite(),
        cells(filled(mask, s, n)).len() == cells(mask).len() + cell_total(s, n),
    decreases n,
{
    lemma_cells_finite(mask);
    if n > 0 {
        lemma_filled_cells(mask, s, n - 1);
        let before = filled(mask, s, n - 1);
        let p = s[n - 1];
        assert(before & p == 0);
        lemma_cells_or(before, p);
        lemma_cells_disjoint(before, p);
        lemma_cells_finite(p);
        lemma_set_disjoint_lens(cells(before), cells(p));
    }
}

/// Masks within the board fill a board within the board.
pub proof fn lemma_filled_within(mask: u64, s: Seq<u64>, n: int)
    requires
        0 <= n <= s.len(),
        mask <= FULL_BOARD,
        forall|j: int| 0 <= j < n ==> #[trigger] s[j] <= FULL_BOARD,
    ensures
        filled(mask, s, n) <= FULL_BOARD,
    decreases n,
{
    if n > 0 {
        lemma_filled_within(mask, s, n - 1);
        lemma_or_within_board(filled(mask, s, n - 1), s[n - 1]);
    }
}

/// Every solution covers the board exactly: the blocked cells and the
/// eight masks together are the full board.
pub proof fn law_solutions_cover_the_board(table: Seq<Seq<u64>>, blocked: u64, s: Seq<u64>)
    requires
        is_polyomino_table(table),
        is_opening(blocked),
        solutions_of(table, blocked, SIZE_6_PIECE_INDEX as int).contains(s),
    ensures
        s.len() == 8,
        blocked | s[0] | s[1] | s[2] | s[3] | s[4] | s[5] | s[6] | s[7] == FULL_BOARD,
        filled(blocked, s, 8) == FULL_BOARD,
{
    law_solutions_are_valid_assignments(table, blocked, SIZE_6_PIECE_INDEX as int, s);
    assert forall|j: int| 0 <= j < 8 implies filled(blocked, s, j) & #[trigger] s[j] == 0
        && cells(s[j]).len() == piece_cells(j) && s[j] <= FULL_BOARD by {
        assert(step_ok(table, 0, blocked, false, SIZE_6_PIECE_INDEX as int, s, j));
        assert(is_polyomino(s[j], piece_cells(j)));
        lemma_polyomino_cells(s[j], piece_cells(j));
    }
    lemma_filled_cells(blocked, s, 8);
    reveal_with_fuel(cell_total, 9);
    assert(cell_total(s, 8) == 41);
    lemma_filled_within(blocked, s, 8);
    let all = filled(blocked, s, 8);
    lemma_cells_on_board(all);
    lemma_int_range(0, 49);
    let board = set_int_range(0, 49);
    assert(cells(all).subset_of(board));
    lemma_subset_equality(cells(all), board);
    assert forall|k: int| 0 <= k < 49 implies has_bit(all, k) by {
        assert(board.contains(k));
        assert(cells(all).contains(k));
    }
    lemma_all_cells_is_full(all);
    reveal_with_fuel(filled, 9);
}

proof fn lemma_bv_part_apart(f: u64, m: u64, p: u64)
    by (bit_vector)
    requires
        f & m == m,
        f & p == 0,
    ensures
        m & p == 0,
{
}

proof fn lemma_bv_or_apart(f: u64, x: u64, p: u64)
    by (bit_vector)
    requires
        f & p == 0,
        x & p == 0,
    ensures
        (f | x) & p == 0,
{
}

/// A mask that overlaps neither the board nor any of the masks added to it
/// does not overlap the filled board.
pub proof fn lemma_filled_apart(mask: u64, s: Seq<u64>, n: int, p: u64)
    requires
        0 <= n <= s.len(),
        mask & p == 0,
        forall|a: int| 0 <= a < n ==> #[trigger] s[a] & p == 0,
    ensures
        filled(mask, s, n) & p == 0,
    decreases n,
{
    if n > 0 {
        lemma_filled_apart(mask, s, n - 1, p);
        lemma_bv_or_apart(filled(mask, s, n - 1), s[n - 1], p);
    }
}

/// A cell of a filled board is a cell of the board it started from or of
/// one of the masks added to it.
pub proof fn lemma_filled_bits(mask: u64, s: Seq<u64>, n: int, k: int)
    requires
        0 <= n <= s.len(),
    ensures
        has_bit(filled(mask, s, n), k) <==> (has_bit(mask, k) || exists|j: int|
            0 <= j < n && has_bit(#[trigger] s[j], k)),
    decreases n,
{
    if n > 0 {
        lemma_filled_bits(mask, s, n - 1, k);
        lemma_cells_or(filled(mask, s, n - 1), s[n - 1]);
        assert(cells(filled(mask, s, n)).contains(k) == (cells(filled(mask, s, n - 1)).contains(k)
            || cells(s[n - 1]).contains(k)));
        if has_bit(filled(mask, s, n), k) && !has_bit(mask, k) {
            if has_bit(s[n - 1], k) {
            } else {
                let j = choose|j: int| 0 <= j < n - 1 && has_bit(#[trigger] s[j], k);
                assert(has_bit(s[j], k));
            }
        }
    }
}

/// Filling a board that is partly filled: the masks after the first `a`
/// are added to the board that the first `a` leave.
pub proof fn lemma_filled_split(mask: u64, s: Seq<u64>, a: int, i: int)
    requires
        0 <= a,
        0 <= i,
        a + i <= s.len(),
    ensures
        filled(filled(mask, s, a), s.skip(a), i) == filled(mask, s, a + i),
    decreases i,
{
    if i > 0 {
        lemma_filled_split(mask, s, a, i - 1);
        assert(s.skip(a)[i - 1] == s[a + i - 1]);
    }
}

/// The cells of a mask that overlaps nothing on a board are empty cells of
/// that board.
proof fn lemma_apart_cells_are_empty(mask: u64, p: u64, k: int)
    requires
        mask & p == 0,
        has_bit(p, k),
        0 <= k < 49,
    ensures
        empty_cell(mask, k),
{
    lemma_cells_disjoint(mask, p);
    assert(cells(p).contains(k));
    assert(!cells(mask).contains(k));
}

/// On a board that a polyomino does not overlap, every cell of the
/// polyomino is connected to its first.
proof fn lemma_polyomino_connected(mask: u64, p: u64, q: Seq<int>, n: int)
    requires
        is_board_layout(p, q),
        mask & p == 0,
        0 <= n < q.len(),
    ensures
        connected(mask, q[0], q[n]),
    decreases n,
{
    lemma_apart_cells_are_empty(mask, p, q[n]);
    if n == 0 {
        lemma_connected_self(mask, q[0]);
    } else {
        assert(has_earlier_adjacent(q, n));
        let m = choose|m: int| 0 <= m < n && adjacent(#[trigger] q[m], q[n]);
        lemma_polyomino_connected(mask, p, q, m);
        lemma_apart_cells_are_empty(mask, p, q[m]);
        lemma_connected_step(mask, q[m], q[n]);
        lemma_connected_transitive(mask, q[0], q[m], q[n]);
    }
}

/// On a board that a polyomino does not overlap, the polyomino lies in one
/// region: within the region of a cell, or apart from it.
pub proof fn lemma_polyomino_in_one_region(mask: u64, p: u64, n: nat, c: int)
    requires
        is_polyomino(p, n),
        mask & p == 0,
    ensures
        cells(p).subset_of(region(mask, c)) || cells(p).disjoint(region(mask, c)),
{
    let q = choose|q: Seq<int>| is_board_layout(p, q) && q.len() == n;
    if !cells(p).disjoint(region(mask, c)) {
        let x = choose|x: int| cells(p).contains(x) && region(mask, c).contains(x);
        assert(q.contains(x));
        let a = choose|a: int| 0 <= a < q.len() && q[a] == x;
        lemma_polyomino_connected(mask, p, q, a);
        lemma_connected_symmetric(mask, q[0], x);
        lemma_connected_transitive(mask, c, x, q[0]);
        assert forall|y: int| cells(p).contains(y) implies region(mask, c).contains(y) by {
            assert(q.contains(y));
            let b = choose|b: int| 0 <= b < q.len() && q[b] == y;
            lemma_polyomino_connected(mask, p, q, b);
            lemma_connected_transitive(mask, c, q[0], y);
        }
    }
}

proof fn lemma_region_tiled(mask: u64, rest: Seq<u64>, c: int, n: int)
    requires
        0 <= n <= rest.len(),
        forall|j: int|
            0 <= j < n ==> is_polyomino(#[trigger] rest[j], 5) && filled(mask, rest, j) & rest[j]
                == 0,
    ensures
        region(mask, c).intersect(cells(filled(mask, rest, n))).finite(),
        region(mask, c).intersect(cells(filled(mask, rest, n))).len() % 5 == 0,
    decreases n,
{
    let a = region(mask, c);
    lemma_region_finite(mask, c);
    if n == 0 {
        assert forall|e: int| !(#[trigger] a.contains(e) && cells(mask).contains(e)) by {
            if a.contains(e) {
                lemma_connected_cells_are_empty(mask, c, e);
            }
        }
        assert(a.intersect(cells(mask)) =~= Set::empty());
    } else {
        lemma_region_tiled(mask, rest, c, n - 1);
        let before = filled(mask, rest, n - 1);
        let p = rest[n - 1];
        assert(is_polyomino(p, 5) && before & p == 0);
        if n - 1 > 0 {
            lemma_filled_covers(mask, rest, n - 1, 0);
            lemma_bv_part_apart(before, mask, p);
        }
        assert(mask & p == 0);
        lemma_polyomino_in_one_region(mask, p, 5, c);
        lemma_polyomino_cells(p, 5);
        lemma_cells_or(before, p);
        lemma_cells_disjoint(before, p);
        let x = a.intersect(cells(before));
        let y = a.intersect(cells(p));
        assert(x.disjoint(y));
        assert(a.intersect(cells(filled(mask, rest, n))) =~= x + y);
        if cells(p).subset_of(a) {
            assert(y =~= cells(p));
        } else {
            assert(y =~= Set::empty());
        }
        lemma_set_disjoint_lens(x, y);
    }
}

/// The pruner is sound: a board that polyominoes of five cells complete,
/// without overlap, is accepted.
pub proof fn lemma_tiled_board_is_feasible(mask: u64, rest: Seq<u64>, six_used: bool)
    requires
        forall|j: int|
            0 <= j < rest.len() ==> is_polyomino(#[trigger] rest[j], 5) && filled(mask, rest, j)
                & rest[j] == 0,
        forall|k: int| 0 <= k < 49 ==> has_bit(filled(mask, rest, rest.len() as int), k),
    ensures
        board_feasible(mask, six_used),
{
    let all = filled(mask, rest, rest.len() as int);
    assert forall|c: int| empty_cell(mask, c) implies feasible_size(
        region(mask, c).len() as int,
        six_used,
    ) by {
        let a = region(mask, c);
        lemma_region_tiled(mask, rest, c, rest.len() as int);
        lemma_region_finite(mask, c);
        assert forall|e: int| a.contains(e) implies cells(all).contains(e) by {
            lemma_connected_cells_are_empty(mask, c, e);
        }
        assert(a.intersect(cells(all)) =~= a);
    }
}

/// The search finds every exact cover, and nothing else: the pruner cuts
/// no branch that leads to one.
pub proof fn law_solutions_are_the_exact_covers(table: Seq<Seq<u64>>, blocked: u64, s: Seq<u64>)
    requires
        is_polyomino_table(table),
        is_opening(blocked),
    ensures
        solutions_of(table, blocked, SIZE_6_PIECE_INDEX as int).contains(s) <==> is_exact_cover(
            table,
            blocked,
            s,
        ),
{
    let six = SIZE_6_PIECE_INDEX as int;
    law_solutions_are_valid_assignments(table, blocked, six, s);
    if solutions_of(table, blocked, six).contains(s) {
        law_solution_masks_do_not_overlap(table, blocked, six, s);
        law_solutions_cover_the_board(table, blocked, s);
        assert forall|j: int| 0 <= j < 8 implies table[j].contains(#[trigger] s[j]) by {
            assert(step_ok(table, 0, blocked, false, six, s, j));
        }
    }
    if is_exact_cover(table, blocked, s) {
        assert forall|j: int| 0 <= j < s.len() implies #[trigger] step_ok(
            table,
            0,
            blocked,
            false,
            six,
            s,
            j,
        ) by {
            assert(table[j].contains(s[j]));
            assert forall|a: int| 0 <= a < j implies #[trigger] s[a] & s[j] == 0 by {}
            lemma_filled_apart(blocked, s, j, s[j]);
            let board = filled(blocked, s, j + 1);
            let rest = s.skip(j + 1);
            assert forall|i: int| 0 <= i < rest.len() implies is_polyomino(#[trigger] rest[i], 5)
                && filled(board, rest, i) & rest[i] == 0 by {
                let p = s[j + 1 + i];
                assert(rest[i] == p);
                assert(table[j + 1 + i].contains(p));
                assert(is_polyomino(p, piece_cells(j + 1 + i)));
                lemma_filled_split(blocked, s, j + 1, i);
                assert forall|a: int| 0 <= a < j + 1 + i implies #[trigger] s[a] & p == 0 by {}
                lemma_filled_apart(blocked, s, j + 1 + i, p);
            }
            lemma_filled_split(blocked, s, j + 1, 8 - (j + 1));
            lemma_cells_full();
            lemma_tiled_board_is_feasible(board, rest, true);
        }
    }
}

/// The solutions do not depend on the order in which the placements of a
/// piece are tried: two tables with the same placements have the same
/// solutions.
pub proof fn law_solutions_do_not_depend_on_order(
    first: Seq<Seq<u64>>,
    second: Seq<Seq<u64>>,
    blocked: u64,
    s: Seq<u64>,
)
    requires
        is_polyomino_table(first),
        second.len() == 8,
        forall|k: int, p: u64|
            #![trigger first[k].contains(p)]
            #![trigger second[k].contains(p)]
            0 <= k < 8 ==> (first[k].contains(p) <==> second[k].contains(p)),
        is_opening(blocked),
    ensures
        solutions_of(first, blocked, SIZE_6_PIECE_INDEX as int).contains(s) <==> solutions_of(
            second,
            blocked,
            SIZE_6_PIECE_INDEX as int,
        ).contains(s),
{
    assert forall|k: int, p: u64|
        0 <= k < 8 && #[trigger] second[k].contains(p) implies is_polyomino(p, piece_cells(k)) by {
        assert(first[k].contains(p));
    }
    law_solutions_are_the_exact_covers(first, blocked, s);
    law_solutions_are_the_exact_covers(second, blocked, s);
    if is_exact_cover(first, blocked, s) {
        assert forall|j: int| 0 <= j < 8 implies second[j].contains(#[trigger] s[j]) by {
            assert(first[j].contains(s[j]));
        }
    }
    if is_exact_cover(second, blocked, s) {
        assert forall|j: int| 0 <= j < 8 implies first[j].contains(#[trigger] s[j]) by {
            assert(second[j].contains(s[j]));
        }
    }
}

/// A board with a region of fewer than five empty cells has no solution,
/// whatever else is blocked: no piece fits into the region, so it is still
/// there when the last piece is placed, and the pruner rejects the board.
pub proof fn law_pocket_has_no_solution(table: Seq<Seq<u64>>, blocked: u64, c: int)
    requires
        is_polyomino_table(table),
        empty_cell(blocked, c),
        region(blocked, c).len() < 5,
    ensures
        solutions_of(table, blocked, SIZE_6_PIECE_INDEX as int).len() == 0,
{
    let six = SIZE_6_PIECE_INDEX as int;
    let found = solutions_of(table, blocked, six);
    if found.len() > 0 {
        let s = found[0];
        assert(found.contains(s));
        law_solutions_are_valid_assignments(table, blocked, six, s);
        law_solution_masks_do_not_overlap(table, blocked, six, s);
        let pocket = region(blocked, c);
        lemma_region_finite(blocked, c);
        lemma_connected_self(blocked, c);
        let all = filled(blocked, s, 8);
        assert forall|j: int| 0 <= j < 8 implies !has_bit(#[trigger] s[j], c) by {
            assert(step_ok(table, 0, blocked, false, six, s, j));
            assert(is_polyomino(s[j], piece_cells(j)));
            lemma_polyomino_cells(s[j], piece_cells(j));
            lemma_polyomino_in_one_region(blocked, s[j], piece_cells(j), c);
            if cells(s[j]).subset_of(pocket) {
                lemma_len_subset(cells(s[j]), pocket);
            }
            if has_bit(s[j], c) {
                assert(cells(s[j]).contains(c) && pocket.contains(c));
            }
        }
        lemma_filled_bits(blocked, s, 8, c);
        assert(empty_cell(all, c));
        assert forall|e: int| region(all, c).contains(e) implies pocket.contains(e) by {
            let p = choose|p: Seq<int>| is_path(all, p) && p[0] == c && p[p.len() - 1] == e;
            assert forall|i: int| 0 <= i < p.len() implies empty_cell(blocked, #[trigger] p[i]) by {
                assert(empty_cell(all, p[i]));
                lemma_filled_bits(blocked, s, 8, p[i]);
            }
            assert(is_path(blocked, p));
        }
        lemma_len_subset(region(all, c), pocket);
        assert(step_ok(table, 0, blocked, false, six, s, 7));
        assert(!feasible_size(region(all, c).len() as int, true));
        assert(false);
    }
}

/// The number that `piece_at` gives is that of a mask that holds the cell,
/// and it is 0 only if none of the masks does.
pub proof fn lemma_piece_at(masks: Seq<u64>, cell: int, n: int)
    requires
        0 <= n <= masks.len(),
    ensures
        0 <= piece_at(masks, cell, n) <= n,
        piece_at(masks, cell, n) > 0 ==> has_bit(masks[piece_at(masks, cell, n) - 1], cell),
        piece_at(masks, cell, n) == 0 ==> forall|j: int|
            0 <= j < n ==> !has_bit(#[trigger] masks[j], cell),
    decreases n,
{
    if n > 0 {
        lemma_piece_at(masks, cell, n - 1);
    }
}

/// In the board of a solution of a date, a cell holds -1 exactly if it is
/// blocked, and otherwise the number, from 1 to 8, of the one piece that
/// covers it.
pub proof fn law_boards_show_the_cover(month: int, day: int, s: Seq<u64>, cell: int)
    requires
        valid_date(month, day),
        solutions_of(puzzle_table(), blocked_mask(month, day), SIZE_6_PIECE_INDEX as int).contains(
            s,
        ),
        0 <= cell < 49,
    ensures
        rendered_cell(s, month, day, cell) == -1 <==> blocked_cells(month, day).contains(cell),
        !blocked_cells(month, day).contains(cell) ==> {
            let v = rendered_cell(s, month, day, cell);
            &&& 1 <= v <= 8
            &&& forall|j: int| 0 <= j < 8 ==> (has_bit(#[trigger] s[j], cell) <==> j == v - 1)
        },
{
    let blocked = blocked_mask(month, day);
    let table = puzzle_table();
    let six = SIZE_6_PIECE_INDEX as int;
    lemma_puzzle_table();
    lemma_blocked_cells(month, day);
    law_solutions_cover_the_board(table, blocked, s);
    law_solution_masks_do_not_overlap(table, blocked, six, s);
    lemma_piece_at(s, cell, 8);
    if !blocked_cells(month, day).contains(cell) {
        let v = piece_at(s, cell, 8);
        lemma_cells_full();
        lemma_filled_bits(blocked, s, 8, cell);
        assert(!has_bit(blocked, cell));
        assert(v >= 1);
        assert forall|j: int| 0 <= j < 8 && j != v - 1 implies !has_bit(#[trigger] s[j], cell) by {
            if j < v - 1 {
                assert(s[j] & s[v - 1] == 0);
                lemma_cells_disjoint(s[j], s[v - 1]);
            } else {
                assert(s[v - 1] & s[j] == 0);
                lemma_cells_disjoint(s[v - 1], s[j]);
            }
            assert(cells(s[v - 1]).contains(cell));
            if has_bit(s[j], cell) {
                assert(cells(s[j]).contains(cell));
            }
        }
    }
}

/// The solutions of a date are exactly its exact covers: each placement
/// of the eight pieces that fills the board around the blocked cells,
/// without overlap, is found.
pub proof fn law_date_solutions_are_the_exact_covers(month: int, day: int, s: Seq<u64>)
    requires
        valid_date(month, day),
    ensures
        solutions_of(puzzle_table(), blocked_mask(month, day), SIZE_6_PIECE_INDEX as int).contains(
            s,
        ) <==> is_exact_cover(puzzle_table(), blocked_mask(month, day), s),
{
    lemma_puzzle_table();
    lemma_blocked_cells(month, day);
    law_solutions_are_the_exact_covers(puzzle_table(), blocked_mask(month, day), s);
}

/// Every solution of a date covers the board exactly: the blocked cells of
/// the date and the eight masks together are the full board.
pub proof fn law_date_solutions_cover_the_board(month: int, day: int, s: Seq<u64>)
    requires
        valid_date(month, day),
        solutions_of(puzzle_table(), blocked_mask(month, day), SIZE_6_PIECE_INDEX as int).contains(
            s,
        ),
    ensures
        s.len() == 8,
        blocked_mask(month, day) | s[0] | s[1] | s[2] | s[3] | s[4] | s[5] | s[6] | s[7]
            == FULL_BOARD,
{
    lemma_puzzle_table();
    lemma_blocked_cells(month, day);
    law_solutions_cover_the_board(puzzle_table(), blocked_mask(month, day), s);
}

proof fn lemma_same_board_same_cover(month: int, day: int, s: Seq<u64>, t: Seq<u64>)
    requires
        valid_date(month, day),
        solutions_of(puzzle_table(), blocked_mask(month, day), SIZE_6_PIECE_INDEX as int).contains(
            s,
        ),
        solutions_of(puzzle_table(), blocked_mask(month, day), SIZE_6_PIECE_INDEX as int).contains(
            t,
        ),
        rendered(s, month, day) == rendered(t, month, day),
    ensures
        s == t,
{
    let table = puzzle_table();
    let blocked = blocked_mask(month, day);
    let six = SIZE_6_PIECE_INDEX as int;
    lemma_puzzle_table();
    lemma_blocked_cells(month, day);
    law_solutions_are_valid_assignments(table, blocked, six, s);
    law_solutions_are_valid_assignments(table, blocked, six, t);
    law_solution_masks_do_not_overlap(table, blocked, six, s);
    law_solution_masks_do_not_overlap(table, blocked, six, t);
    assert forall|j: int| 0 <= j < 8 implies s[j] == t[j] by {
        assert(step_ok(table, 0, blocked, false, six, s, j));
        assert(step_ok(table, 0, blocked, false, six, t, j));
        assert(is_polyomino(s[j], piece_cells(j)));
        assert(is_polyomino(t[j], piece_cells(j)));
        lemma_polyomino_cells(s[j], piece_cells(j));
        lemma_polyomino_cells(t[j], piece_cells(j));
        lemma_cells_on_board(s[j]);
        lemma_cells_on_board(t[j]);
        lemma_cells_disjoint(blocked, s[j]);
        lemma_cells_disjoint(blocked, t[j]);
        assert forall|k: int| 0 <= k < 64 implies has_bit(s[j], k) == has_bit(t[j], k) by {
            if k < 49 {
                law_boards_show_the_cover(month, day, s, k);
                law_boards_show_the_cover(month, day, t, k);
                let row = k / 7;
                let col = k % 7;
                assert(row * 7 + col == k);
                assert(rendered(s, month, day)[row][col] == rendered_cell(s, month, day, k) as i8);
                assert(rendered(t, month, day)[row][col] == rendered_cell(t, month, day, k) as i8);
                if blocked_cells(month, day).contains(k) {
                    assert(cells(blocked).contains(k));
                    assert(!cells(s[j]).contains(k));
                    assert(!cells(t[j]).contains(k));
                }
            }
        }
        lemma_mask_extensional(s[j], t[j]);
    }
    assert(s =~= t);
}

/// No board is returned twice: the boards of a date are as many as its
/// exact covers.
pub proof fn law_boards_are_distinct(month: int, day: int)
    requires
        valid_date(month, day),
    ensures
        solved_boards(month, day).no_duplicates(),
{
    let found = solutions_of(
        puzzle_table(),
        blocked_mask(month, day),
        SIZE_6_PIECE_INDEX as int,
    );
    lemma_puzzle_table();
    law_solutions_are_distinct(puzzle_table(), blocked_mask(month, day), SIZE_6_PIECE_INDEX as int);
    let boards = solved_boards(month, day);
    assert forall|a: int, b: int| 0 <= a < boards.len() && 0 <= b < boards.len() && a
        != b implies boards[a] != boards[b] by {
        assert(found.contains(found[a]));
        assert(found.contains(found[b]));
        if boards[a] == boards[b] {
            lemma_same_board_same_cover(month, day, found[a], found[b]);
        }
    }
}

/// A tiling of a board: each of the eight pieces, in one of its
/// orientations, at a position at which all its cells lie on the board; no
/// two of them overlap, none overlaps the blocked cells, and together with
/// the blocked cells they fill the board.
pub open spec fn is_tiling(blocked: u64, s: Seq<u64>) -> bool {
    &&& s.len() == 8
    &&& forall|j: int| 0 <= j < 8 ==> is_stamp_of(initial_pieces()[j], #[trigger] s[j])
    &&& forall|a: int| 0 <= a < 8 ==> blocked & #[trigger] s[a] == 0
    &&& forall|a: int, b: int| 0 <= a < b < 8 ==> #[trigger] s[a] & #[trigger] s[b] == 0
    &&& filled(blocked, s, 8) == FULL_BOARD
}

/// The solutions of a date are exactly its tilings: no tiling of the board
/// around the blocked cells of the date is missing, and nothing else is
/// found.
pub proof fn law_date_solutions_are_the_tilings(month: int, day: int, s: Seq<u64>)
    requires
        valid_date(month, day),
    ensures
        solutions_of(puzzle_table(), blocked_mask(month, day), SIZE_6_PIECE_INDEX as int).contains(
            s,
        ) <==> is_tiling(blocked_mask(month, day), s),
{
    let table = puzzle_table();
    let blocked = blocked_mask(month, day);
    law_date_solutions_are_the_exact_covers(month, day, s);
    lemma_initial_pieces_are_shapes();
    if s.len() == 8 {
        assert forall|j: int| 0 <= j < 8 implies (table[j].contains(s[j]) <==> is_stamp_of(
            initial_pieces()[j],
            s[j],
        )) by {
            assert(table[j] == placements_of(initial_pieces()[j]));
            law_placements_are_the_stamps(initial_pieces()[j], s[j]);
        }
    }
    if is_exact_cover(table, blocked, s) {
        assert forall|j: int| 0 <= j < 8 implies is_stamp_of(
            initial_pieces()[j],
            #[trigger] s[j],
        ) by {
            assert(table[j].contains(s[j]));
        }
    }
    if is_tiling(blocked, s) {
        assert forall|j: int| 0 <= j < 8 implies table[j].contains(#[trigger] s[j]) by {
            assert(is_stamp_of(initial_pieces()[j], s[j]));
        }
    }
}

/// The boards returned for a date are those of its tilings.
pub proof fn law_boards_are_those_of_the_tilings(month: int, day: int, board: Seq<Seq<i8>>)
    requires
        valid_date(month, day),
    ensures
        solved_boards(month, day).contains(board) <==> exists|s: Seq<u64>|
            is_tiling(blocked_mask(month, day), s) && board == #[trigger] rendered(s, month, day),
{
    let table = puzzle_table();
    let blocked = blocked_mask(month, day);
    let found = solutions_of(table, blocked, SIZE_6_PIECE_INDEX as int);
    let boards = solved_boards(month, day);
    if boards.contains(board) {
        let i = choose|i: int| 0 <= i < boards.len() && boards[i] == board;
        assert(found.contains(found[i]));
        law_date_solutions_are_the_tilings(month, day, found[i]);
        assert(board == rendered(found[i], month, day));
    }
    if exists|s: Seq<u64>| is_tiling(blocked, s) && board == #[trigger] rendered(s, month, day) {
        let s = choose|s: Seq<u64>|
            is_tiling(blocked, s) && board == #[trigger] rendered(s, month, day);
        law_date_solutions_are_the_tilings(month, day, s);
        let i = choose|i: int| 0 <= i < found.len() && found[i] == s;
        assert(boards[i] == board);
    }
}

/// The tilings of the board of a date.
pub open spec fn tilings(month: int, day: int) -> Set<Seq<u64>> {
    Set::new(|s: Seq<u64>| is_tiling(blocked_mask(month, day), s))
}

/// As many boards are returned for a date as the date has tilings.
pub proof fn law_number_of_boards(month: int, day: int)
    requires
        valid_date(month, day),
    ensures
        tilings(month, day).finite(),
        solved_boards(month, day).len() == tilings(month, day).len(),
{
    let found = solutions_of(
        puzzle_table(),
        blocked_mask(month, day),
        SIZE_6_PIECE_INDEX as int,
    );
    lemma_puzzle_table();
    law_solutions_are_distinct(puzzle_table(), blocked_mask(month, day), SIZE_6_PIECE_INDEX as int);
    found.unique_seq_to_set();
    vstd::seq_lib::seq_to_set_is_finite(found);
    assert forall|s: Seq<u64>| found.to_set().contains(s) == tilings(month, day).contains(s) by {
        law_date_solutions_are_the_tilings(month, day, s);
    }
    assert(found.to_set() =~= tilings(month, day));
}

} // verus!
