//! The backtracking search: pieces are placed in order, each at one of its
//! placements that fits the board, and every branch that the pruner
//! declares dead is cut.

use crate::placement::masks_view;
use crate::pruner::{board_feasible, judge_connected_component};
use vstd::prelude::*;

verus! {

/// Every way to complete a partial assignment, in search order.
///
/// Pieces `0..k` are placed: their masks are the end of `prefix`, and `mask`
/// is the board that they fill. The result lists, for the placements of
/// piece `k` from index `i` on, in order, the completions that start with
/// that placement: those of the board with the placement added, if the
/// placement overlaps nothing and the pruner accepts the new board, and
/// none otherwise. With all eight pieces placed, the only completion is
/// `prefix` itself.
pub open spec fn completions(
    table: Seq<Seq<u64>>,
    k: int,
    i: int,
    mask: u64,
    six_used: bool,
    six: int,
    prefix: Seq<u64>,
) -> Seq<Seq<u64>>
    decreases 8 - k, table[k].len() - i,
{
    if k >= 8 {
        seq![prefix]
    } else if k < 0 || k >= table.len() || i < 0 || i >= table[k].len() {
        Seq::empty()
    } else {
        let p = table[k][i];
        let now_used = six_used || k == six;
        let here = if mask & p == 0 && board_feasible(mask | p, now_used) {
            completions(table, k + 1, 0, mask | p, now_used, six, prefix.push(p))
        } else {
            Seq::empty()
        };
        here + completions(table, k, i + 1, mask, six_used, six, prefix)
    }
}

/// The solutions of a board: the completions of the empty assignment.
pub open spec fn solutions_of(table: Seq<Seq<u64>>, blocked: u64, six: int) -> Seq<Seq<u64>> {
    completions(table, 0, 0, blocked, false, six, Seq::empty())
}

/// The board `mask` with the first `n` masks of `s` added.
pub open spec fn filled(mask: u64, s: Seq<u64>, n: int) -> u64
    decreases n,
{
    if n <= 0 {
        mask
    } else {
        filled(mask, s, n - 1) | s[n - 1]
    }
}

/// Step `j` of an assignment to the pieces from `k` on is in order: the
/// mask is a placement of piece `k + j`, it overlaps nothing placed before
/// it, and the pruner accepts the board that it leaves.
pub open spec fn step_ok(
    table: Seq<Seq<u64>>,
    k: int,
    mask: u64,
    six_used: bool,
    six: int,
    tail: Seq<u64>,
    j: int,
) -> bool {
    &&& table[k + j].contains(tail[j])
    &&& filled(mask, tail, j) & tail[j] == 0
    &&& board_feasible(filled(mask, tail, j + 1), six_used || k <= six <= k + j)
}

/// `tail` assigns a placement to each piece from `k` on, and every step is
/// in order.
pub open spec fn valid_steps(
    table: Seq<Seq<u64>>,
    k: int,
    mask: u64,
    six_used: bool,
    six: int,
    tail: Seq<u64>,
) -> bool {
    &&& tail.len() == 8 - k
    &&& forall|j: int|
        0 <= j < tail.len() ==> #[trigger] step_ok(table, k, mask, six_used, six, tail, j)
}

/// `s` is `prefix` followed by an assignment to the pieces from `k` on in
/// which every step is in order.
pub open spec fn is_completion(
    table: Seq<Seq<u64>>,
    k: int,
    mask: u64,
    six_used: bool,
    six: int,
    prefix: Seq<u64>,
    s: Seq<u64>,
) -> bool {
    &&& s.len() == prefix.len() + 8 - k
    &&& s.take(prefix.len() as int) == prefix
    &&& valid_steps(table, k, mask, six_used, six, s.skip(prefix.len() as int))
}

proof fn lemma_filled_shift(mask: u64, tail: Seq<u64>, j: int)
    requires
        0 <= j < tail.len(),
    ensures
        filled(mask, tail, j + 1) == filled(mask | tail[0], tail.skip(1), j),
    decreases j,
{
    let next = tail.skip(1);
    let m = mask | tail[0];
    assert(filled(mask, tail, j + 1) == filled(mask, tail, j) | tail[j]);
    if j > 0 {
        lemma_filled_shift(mask, tail, j - 1);
        assert(next[j - 1] == tail[j]);
        assert(filled(m, next, j) == filled(m, next, j - 1) | next[j - 1]);
    } else {
        assert(filled(mask, tail, 0) == mask);
        assert(filled(m, next, 0) == m);
    }
}

proof fn lemma_steps_unfold(
    table: Seq<Seq<u64>>,
    k: int,
    mask: u64,
    six_used: bool,
    six: int,
    tail: Seq<u64>,
)
    requires
        0 <= k < 8,
        tail.len() == 8 - k,
    ensures
        valid_steps(table, k, mask, six_used, six, tail) <==> (table[k].contains(tail[0]) && mask
            & tail[0] == 0 && board_feasible(mask | tail[0], six_used || k == six) && valid_steps(
            table,
            k + 1,
            mask | tail[0],
            six_used || k == six,
            six,
            tail.skip(1),
        )),
{
    let next = tail.skip(1);
    let m = mask | tail[0];
    let u = six_used || k == six;
    assert(filled(mask, tail, 0) == mask);
    assert(filled(mask, tail, 1) == filled(mask, tail, 0) | tail[0]);
    assert forall|j: int| 1 <= j < tail.len() implies (#[trigger] step_ok(
        table,
        k,
        mask,
        six_used,
        six,
        tail,
        j,
    ) <==> step_ok(table, k + 1, m, u, six, next, j - 1)) by {
        lemma_filled_shift(mask, tail, j - 1);
        lemma_filled_shift(mask, tail, j);
        assert(next[j - 1] == tail[j]);
    }
    if valid_steps(table, k, mask, six_used, six, tail) {
        assert(step_ok(table, k, mask, six_used, six, tail, 0));
        assert forall|j: int|
            0 <= j < next.len() implies #[trigger] step_ok(table, k + 1, m, u, six, next, j) by {
            assert(step_ok(table, k, mask, six_used, six, tail, j + 1));
        }
    }
    if table[k].contains(tail[0]) && mask & tail[0] == 0 && board_feasible(m, u) && valid_steps(
        table,
        k + 1,
        m,
        u,
        six,
        next,
    ) {
        assert forall|j: int|
            0 <= j < tail.len()
            implies #[trigger] step_ok(table, k, mask, six_used, six, tail, j) by {
            if j > 0 {
                assert(step_ok(table, k + 1, m, u, six, next, j - 1));
            }
        }
    }
}

proof fn lemma_add_contains<T>(a: Seq<T>, b: Seq<T>, x: T)
    ensures
        (a + b).contains(x) <==> (a.contains(x) || b.contains(x)),
{
    if (a + b).contains(x) {
        let i = choose|i: int| 0 <= i < (a + b).len() && (a + b)[i] == x;
        if i < a.len() {
            assert(a[i] == x);
        } else {
            assert(b[i - a.len()] == x);
        }
    }
    if a.contains(x) {
        let i = choose|i: int| 0 <= i < a.len() && a[i] == x;
        assert((a + b)[i] == x);
    }
    if b.contains(x) {
        let i = choose|i: int| 0 <= i < b.len() && b[i] == x;
        assert((a + b)[a.len() + i] == x);
    }
}

/// Placement `i` or a later one of piece `k` is the mask `p`.
pub open spec fn placed_from(table: Seq<Seq<u64>>, k: int, i: int, p: u64) -> bool {
    exists|n: int| i <= n < table[k].len() && table[k][n] == p
}

/// What the search lists from placement `i` of piece `k` on: the
/// completions whose placement of piece `k` is that one or a later one.
pub proof fn lemma_completions(
    table: Seq<Seq<u64>>,
    k: int,
    i: int,
    mask: u64,
    six_used: bool,
    six: int,
    prefix: Seq<u64>,
    s: Seq<u64>,
)
    requires
        0 <= k <= 8,
        0 <= i,
        table.len() == 8,
    ensures
        completions(table, k, i, mask, six_used, six, prefix).contains(s) <==> (is_completion(
            table,
            k,
            mask,
            six_used,
            six,
            prefix,
            s,
        ) && (k < 8 ==> placed_from(table, k, i, s[prefix.len() as int]))),
    decreases 8 - k, table[k].len() - i,
{
    let n = prefix.len() as int;
    let all = completions(table, k, i, mask, six_used, six, prefix);
    if k == 8 {
        assert(all[0] == prefix);
        if is_completion(table, k, mask, six_used, six, prefix, s) {
            assert(s.take(n) =~= s);
        }
        if all.contains(s) {
            assert(s == prefix);
            assert(s.take(n) =~= s);
            assert(s.skip(n).len() == 0);
        }
    } else if i >= table[k].len() {
    } else {
        let p = table[k][i];
        let m = mask | p;
        let u = six_used || k == six;
        let ok = mask & p == 0 && board_feasible(m, u);
        let deeper = completions(table, k + 1, 0, m, u, six, prefix.push(p));
        let here = if ok {
            deeper
        } else {
            Seq::empty()
        };
        let rest = completions(table, k, i + 1, mask, six_used, six, prefix);
        assert(all == here + rest);
        lemma_add_contains(here, rest, s);
        lemma_completions(table, k + 1, 0, m, u, six, prefix.push(p), s);
        lemma_completions(table, k, i + 1, mask, six_used, six, prefix, s);
        let tail = s.skip(n);
        if s.len() == n + 8 - k {
            assert(tail[0] == s[n]);
            assert(s.skip(n + 1) =~= tail.skip(1));
            lemma_steps_unfold(table, k, mask, six_used, six, tail);
            if s[n] == p {
                assert(table[k].contains(p));
                if s.take(n) == prefix {
                    assert(s.take(n + 1) =~= prefix.push(p));
                }
            }
            if s.take(n + 1) == prefix.push(p) {
                assert(s[n] == s.take(n + 1)[n]);
                assert(s.take(n) =~= s.take(n + 1).take(n));
                assert(prefix.push(p).take(n) =~= prefix);
            }
            if k + 1 < 8 && valid_steps(table, k + 1, m, u, six, tail.skip(1)) {
                assert(step_ok(table, k + 1, m, u, six, tail.skip(1), 0));
                let x = tail.skip(1)[0];
                assert(x == s[n + 1]);
                assert(table[k + 1].contains(x));
                let row = table[k + 1];
                let w = choose|w: int| 0 <= w < row.len() && row[w] == x;
                assert(placed_from(table, k + 1, 0, s[n + 1]));
            }
        }
        if here.contains(s) {
            assert(ok);
            assert(placed_from(table, k, i, s[n]));
        }
        if rest.contains(s) {
            let w = choose|w: int| i + 1 <= w < table[k].len() && table[k][w] == s[n];
            assert(placed_from(table, k, i, s[n]));
        }
        if is_completion(table, k, mask, six_used, six, prefix, s) && placed_from(
            table,
            k,
            i,
            s[n],
        ) {
            let w = choose|w: int| i <= w < table[k].len() && table[k][w] == s[n];
            if s[n] != p {
                assert(w >= i + 1);
                assert(placed_from(table, k, i + 1, s[n]));
            }
        }
    }
}

/// The solutions are exactly the assignments of a placement to each of the
/// eight pieces in which every step is in order.
pub proof fn law_solutions_are_valid_assignments(
    table: Seq<Seq<u64>>,
    blocked: u64,
    six: int,
    s: Seq<u64>,
)
    requires
        table.len() == 8,
    ensures
        solutions_of(table, blocked, six).contains(s) <==> valid_steps(
            table,
            0,
            blocked,
            false,
            six,
            s,
        ),
        solutions_of(table, blocked, six).contains(s) ==> s.len() == 8,
{
    let empty = Seq::<u64>::empty();
    lemma_completions(table, 0, 0, blocked, false, six, empty, s);
    assert(s.skip(0) =~= s);
    assert(s.take(0) =~= empty);
    if valid_steps(table, 0, blocked, false, six, s) {
        assert(step_ok(table, 0, blocked, false, six, s, 0));
        let w = choose|w: int| 0 <= w < table[0].len() && table[0][w] == s[0];
        assert(placed_from(table, 0, 0, s[0]));
    }
}

proof fn lemma_bv_covers(f: u64, x: u64, y: u64)
    by (bit_vector)
    ensures
        (f | x) & x == x,
        f & y == y ==> (f | x) & y == y,
{
}

proof fn lemma_bv_apart(f: u64, x: u64, y: u64)
    by (bit_vector)
    requires
        f & x == x,
        f & y == 0,
    ensures
        x & y == 0,
{
}

proof fn lemma_bv_self(x: u64)
    by (bit_vector)
    ensures
        x & x == x,
{
}

/// A filled board holds the board that it started from and every mask added
/// to it.
pub proof fn lemma_filled_covers(mask: u64, s: Seq<u64>, n: int, a: int)
    requires
        0 <= a < n <= s.len(),
    ensures
        filled(mask, s, n) & s[a] == s[a],
        filled(mask, s, n) & mask == mask,
    decreases n,
{
    assert(filled(mask, s, n) == filled(mask, s, n - 1) | s[n - 1]);
    if n == 1 {
        assert(filled(mask, s, 0) == mask);
        lemma_bv_self(mask);
        lemma_bv_covers(mask, s[0], mask);
    } else if a == n - 1 {
        lemma_filled_covers(mask, s, n - 1, 0);
        lemma_bv_covers(filled(mask, s, n - 1), s[n - 1], mask);
    } else {
        lemma_filled_covers(mask, s, n - 1, a);
        lemma_bv_covers(filled(mask, s, n - 1), s[n - 1], s[a]);
        lemma_bv_covers(filled(mask, s, n - 1), s[n - 1], mask);
    }
}

/// No two masks of a solution overlap, and none overlaps the blocked cells.
pub proof fn law_solution_masks_do_not_overlap(
    table: Seq<Seq<u64>>,
    blocked: u64,
    six: int,
    s: Seq<u64>,
)
    requires
        table.len() == 8,
        solutions_of(table, blocked, six).contains(s),
    ensures
        s.len() == 8,
        forall|a: int, b: int| 0 <= a < b < 8 ==> #[trigger] s[a] & #[trigger] s[b] == 0,
        forall|a: int| 0 <= a < 8 ==> blocked & #[trigger] s[a] == 0,
{
    law_solutions_are_valid_assignments(table, blocked, six, s);
    assert forall|a: int, b: int| 0 <= a < b < 8 implies #[trigger] s[a] & #[trigger] s[b] == 0 by {
        assert(step_ok(table, 0, blocked, false, six, s, b));
        lemma_filled_covers(blocked, s, b, a);
        lemma_bv_apart(filled(blocked, s, b), s[a], s[b]);
    }
    assert forall|a: int| 0 <= a < 8 implies blocked & #[trigger] s[a] == 0 by {
        assert(step_ok(table, 0, blocked, false, six, s, a));
        if a == 0 {
        } else {
            lemma_filled_covers(blocked, s, a, 0);
            lemma_bv_apart(filled(blocked, s, a), blocked, s[a]);
        }
    }
}

/// No completion is listed twice, if no piece has a placement twice.
pub proof fn lemma_completions_distinct(
    table: Seq<Seq<u64>>,
    k: int,
    i: int,
    mask: u64,
    six_used: bool,
    six: int,
    prefix: Seq<u64>,
)
    requires
        0 <= k <= 8,
        0 <= i,
        table.len() == 8,
        forall|j: int| 0 <= j < 8 ==> (#[trigger] table[j]).no_duplicates(),
    ensures
        completions(table, k, i, mask, six_used, six, prefix).no_duplicates(),
    decreases 8 - k, table[k].len() - i,
{
    let n = prefix.len() as int;
    let all = completions(table, k, i, mask, six_used, six, prefix);
    if k == 8 {
    } else if i >= table[k].len() {
    } else {
        let p = table[k][i];
        let m = mask | p;
        let u = six_used || k == six;
        let ok = mask & p == 0 && board_feasible(m, u);
        let deeper = completions(table, k + 1, 0, m, u, six, prefix.push(p));
        let here = if ok {
            deeper
        } else {
            Seq::empty()
        };
        let rest = completions(table, k, i + 1, mask, six_used, six, prefix);
        assert(all == here + rest);
        lemma_completions_distinct(table, k + 1, 0, m, u, six, prefix.push(p));
        lemma_completions_distinct(table, k, i + 1, mask, six_used, six, prefix);
        assert forall|a: int, b: int| 0 <= a < here.len() && 0 <= b < rest.len() implies here[a]
            != rest[b] by {
            let x = here[a];
            let y = rest[b];
            assert(here.contains(x));
            assert(rest.contains(y));
            lemma_completions(table, k + 1, 0, m, u, six, prefix.push(p), x);
            lemma_completions(table, k, i + 1, mask, six_used, six, prefix, y);
            assert(x.take(n + 1)[n] == p);
            assert(x[n] == p);
            let w = choose|w: int| i + 1 <= w < table[k].len() && table[k][w] == y[n];
            assert(table[k][w] != table[k][i]);
        }
        vstd::seq_lib::lemma_no_dup_in_concat(here, rest);
    }
}

/// No solution is listed twice, if no piece has a placement twice.
pub proof fn law_solutions_are_distinct(table: Seq<Seq<u64>>, blocked: u64, six: int)
    requires
        table.len() == 8,
        forall|j: int| 0 <= j < 8 ==> (#[trigger] table[j]).no_duplicates(),
    ensures
        solutions_of(table, blocked, six).no_duplicates(),
{
    lemma_completions_distinct(table, 0, 0, blocked, false, six, Seq::empty());
}

/// Appends to `solutions` every completion of the assignment in
/// `used_placements`, which holds a placement for each piece before
/// `piece_idx` and fills `current_board_mask`. `used_placements` is left as
/// it was.
pub fn find_solutions_recursive(
    piece_idx: usize,
    current_board_mask: u64,
    used_placements: &mut Vec<u64>,
    is_size_6_piece_used: bool,
    all_piece_placements: &Vec<Vec<u64>>,
    size_6_piece_index: usize,
    solutions: &mut Vec<Vec<u64>>,
)
    requires
        piece_idx <= 8,
        all_piece_placements.len() == 8,
    ensures
        final(used_placements)@ == old(used_placements)@,
        masks_view(*final(solutions)) == masks_view(*old(solutions)) + completions(
            masks_view(*all_piece_placements),
            piece_idx as int,
            0,
            current_board_mask,
            is_size_6_piece_used,
            size_6_piece_index as int,
            old(used_placements)@,
        ),
    decreases 8 - piece_idx,
{
    let ghost table = masks_view(*all_piece_placements);
    let ghost prefix = used_placements@;
    let ghost start = masks_view(*solutions);
    let ghost k = piece_idx as int;
    let ghost six = size_6_piece_index as int;
    if piece_idx == 8 {
        let found = used_placements.clone();
        assert(found@ =~= prefix);
        solutions.push(found);
        assert(masks_view(*solutions) =~= start + seq![prefix]);
        return ;
    }
    let placements = &all_piece_placements[piece_idx];
    assert(placements@ == table[k]);
    let mut i: usize = 0;
    while i < placements.len()
        invariant
            i <= placements.len(),
            piece_idx < 8,
            k == piece_idx,
            six == size_6_piece_index,
            all_piece_placements.len() == 8,
            table == masks_view(*all_piece_placements),
            placements@ == table[k],
            used_placements@ == prefix,
            masks_view(*solutions) + completions(
                table,
                k,
                i as int,
                current_board_mask,
                is_size_6_piece_used,
                six,
                prefix,
            ) == start + completions(
                table,
                k,
                0,
                current_board_mask,
                is_size_6_piece_used,
                six,
                prefix,
            ),
        decreases placements.len() - i,
    {
        let placement_mask = placements[i];
        let ghost so_far = masks_view(*solutions);
        let ghost rest = completions(
            table,
            k,
            i + 1,
            current_board_mask,
            is_size_6_piece_used,
            six,
            prefix,
        );
        if (current_board_mask & placement_mask) == 0 {
            let new_board_mask = current_board_mask | placement_mask;
            let new_is_size_6_used = is_size_6_piece_used || (piece_idx == size_6_piece_index);
            if judge_connected_component(new_board_mask, new_is_size_6_used) {
                used_placements.push(placement_mask);
                find_solutions_recursive(
                    piece_idx + 1,
                    new_board_mask,
                    used_placements,
                    new_is_size_6_used,
                    all_piece_placements,
                    size_6_piece_index,
                    solutions,
                );
                used_placements.pop();
                proof {
                    assert(used_placements@ =~= prefix);
                    let here = completions(
                        table,
                        k + 1,
                        0,
                        new_board_mask,
                        new_is_size_6_used,
                        six,
                        prefix.push(placement_mask),
                    );
                    assert(masks_view(*solutions) + rest =~= so_far + (here + rest));
                }
            }
        }
        i += 1;
    }
    assert(masks_view(*solutions) =~= start + completions(
        table,
        k,
        0,
        current_board_mask,
        is_size_6_piece_used,
        six,
        prefix,
    ));
}

} // verus!
