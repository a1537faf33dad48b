//! Bitboards: a 7×7 grid held in the low 49 bits of a `u64`, one bit per
//! cell in row-major order.

use vstd::prelude::*;

verus! {

/// The mask in which every cell of the board is set.
pub const FULL_BOARD: u64 = 0x1_ffff_ffff_ffff;

/// Bit `k` of `mask`, for a machine index.
pub open spec fn bit_at(mask: u64, k: u64) -> bool {
    (mask >> k) & 1 == 1
}

/// Bit `k` of `mask` is set. False for every `k` outside `0..64`.
pub open spec fn has_bit(mask: u64, k: int) -> bool {
    0 <= k < 64 && bit_at(mask, k as u64)
}

/// The set of bit positions that are set in `mask`: the model of a mask.
pub open spec fn cells(mask: u64) -> Set<int> {
    Set::new(|k: int| has_bit(mask, k))
}

/// The mask that holds the members of `s` below `n`.
pub open spec fn mask_upto(s: Set<int>, n: nat) -> u64
    decreases n,
{
    if n == 0 {
        0
    } else {
        let rest = mask_upto(s, (n - 1) as nat);
        if s.contains(n - 1) {
            rest | (1u64 << ((n - 1) as u64))
        } else {
            rest
        }
    }
}

/// The mask whose set bits are the members of `s` in `0..64`.
pub open spec fn mask_of(s: Set<int>) -> u64 {
    mask_upto(s, 64)
}

/// Cell `(row, col)` of a grid holds 1. False outside the grid.
pub open spec fn occupied(grid: Seq<Seq<u8>>, row: int, col: int) -> bool {
    0 <= row < grid.len() && 0 <= col < grid[row].len() && grid[row][col] == 1
}

/// The board cells, numbered `row * 7 + col`, that a grid of at most 7×7
/// occupies.
pub open spec fn grid_cells(grid: Seq<Seq<u8>>) -> Set<int> {
    Set::new(|k: int| 0 <= k < 49 && occupied(grid, k / 7, k % 7))
}

/// The rows of a nested vector as sequences.
pub open spec fn grid_view(v: &Vec<Vec<u8>>) -> Seq<Seq<u8>> {
    Seq::new(v.len() as nat, |i: int| v[i]@)
}

/// A grid fits on the board: at most 7 rows of at most 7 cells.
pub open spec fn fits_board(grid: Seq<Seq<u8>>) -> bool {
    grid.len() <= 7 && forall|i: int| 0 <= i < grid.len() ==> (#[trigger] grid[i]).len() <= 7
}

proof fn lemma_bv_zero(k: u64)
    by (bit_vector)
    requires
        k < 64,
    ensures
        !bit_at(0, k),
{
}

proof fn lemma_bv_set(m: u64, t: u64, k: u64)
    by (bit_vector)
    requires
        t < 64,
        k < 64,
    ensures
        bit_at(m | (1u64 << t), k) == (bit_at(m, k) || k == t),
{
}

proof fn lemma_bv_set_within(m: u64, t: u64)
    by (bit_vector)
    requires
        t < 49,
        m <= 0x1_ffff_ffff_ffff,
    ensures
        m | (1u64 << t) <= 0x1_ffff_ffff_ffff,
{
}

proof fn lemma_bv_or(a: u64, b: u64, k: u64)
    by (bit_vector)
    requires
        k < 64,
    ensures
        bit_at(a | b, k) == (bit_at(a, k) || bit_at(b, k)),
{
}

proof fn lemma_bv_disjoint(a: u64, b: u64, k: u64)
    by (bit_vector)
    requires
        k < 64,
        a & b == 0,
    ensures
        !(bit_at(a, k) && bit_at(b, k)),
{
}

proof fn lemma_bv_board(m: u64, k: u64)
    by (bit_vector)
    requires
        49 <= k < 64,
        m <= 0x1_ffff_ffff_ffff,
    ensures
        !bit_at(m, k),
{
}

proof fn lemma_bv_full(k: u64)
    by (bit_vector)
    requires
        k < 64,
    ensures
        bit_at(0x1_ffff_ffff_ffff, k) == (k < 49),
{
}

/// The low `n` bits of a mask.
spec fn low_bits(m: u64, n: u64) -> u64 {
    if n >= 64 {
        m
    } else {
        m & (((1u64 << n) - 1) as u64)
    }
}

proof fn lemma_bv_low_zero(m: u64)
    by (bit_vector)
    ensures
        low_bits(m, 0) == 0,
{
}

proof fn lemma_bv_low_step(m: u64, n: u64)
    by (bit_vector)
    requires
        n < 64,
    ensures
        bit_at(m, n) ==> low_bits(m, (n + 1) as u64) == low_bits(m, n) | (1u64 << n),
        !bit_at(m, n) ==> low_bits(m, (n + 1) as u64) == low_bits(m, n),
{
}

proof fn lemma_mask_upto_low(m: u64, n: nat)
    requires
        n <= 64,
    ensures
        mask_upto(cells(m), n) == low_bits(m, n as u64),
    decreases n,
{
    if n == 0 {
        lemma_bv_low_zero(m);
    } else {
        lemma_mask_upto_low(m, (n - 1) as nat);
        lemma_bv_low_step(m, (n - 1) as u64);
        assert(cells(m).contains(n - 1) == bit_at(m, (n - 1) as u64));
    }
}

proof fn lemma_mask_upto_bits(s: Set<int>, n: nat, k: int)
    requires
        n <= 64,
        0 <= k < 64,
    ensures
        has_bit(mask_upto(s, n), k) == (k < n && s.contains(k)),
    decreases n,
{
    if n == 0 {
        lemma_bv_zero(k as u64);
    } else {
        lemma_mask_upto_bits(s, (n - 1) as nat, k);
        lemma_bv_set(mask_upto(s, (n - 1) as nat), (n - 1) as u64, k as u64);
    }
}

/// A mask is rebuilt from its own cells.
pub proof fn lemma_mask_of_cells(m: u64)
    ensures
        mask_of(cells(m)) == m,
{
    lemma_mask_upto_low(m, 64);
}

/// The cells of the mask built from `s` are the members of `s` in `0..64`.
pub proof fn lemma_cells_of_mask(s: Set<int>)
    ensures
        forall|k: int| has_bit(mask_of(s), k) == (0 <= k < 64 && s.contains(k)),
        cells(mask_of(s)) == s.intersect(Set::new(|k: int| 0 <= k < 64)),
{
    assert forall|k: int| has_bit(mask_of(s), k) == (0 <= k < 64 && s.contains(k)) by {
        if 0 <= k < 64 {
            lemma_mask_upto_bits(s, 64, k);
        }
    }
    assert(cells(mask_of(s)) =~= s.intersect(Set::new(|k: int| 0 <= k < 64)));
}

/// Two masks with the same cells are the same mask.
pub proof fn lemma_mask_extensional(a: u64, b: u64)
    requires
        forall|k: int| 0 <= k < 64 ==> has_bit(a, k) == has_bit(b, k),
    ensures
        a == b,
{
    assert(cells(a) =~= cells(b));
    lemma_mask_of_cells(a);
    lemma_mask_of_cells(b);
}

/// The cells of a mask are finitely many, all below 64.
pub proof fn lemma_cells_finite(m: u64)
    ensures
        cells(m).finite(),
        cells(m).len() <= 64,
        forall|k: int| cells(m).contains(k) ==> 0 <= k < 64,
{
    vstd::set_lib::lemma_int_range(0, 64);
    let all = vstd::set_lib::set_int_range(0, 64);
    assert(cells(m).subset_of(all));
    vstd::set_lib::lemma_len_subset(cells(m), all);
}

/// Bitwise OR is the union of the cells.
pub proof fn lemma_cells_or(a: u64, b: u64)
    ensures
        cells(a | b) == cells(a).union(cells(b)),
{
    assert forall|k: int| cells(a | b).contains(k) == cells(a).union(cells(b)).contains(k) by {
        if 0 <= k < 64 {
            lemma_bv_or(a, b, k as u64);
        }
    }
    assert(cells(a | b) =~= cells(a).union(cells(b)));
}

/// Masks whose bitwise AND is zero have no cell in common.
pub proof fn lemma_cells_disjoint(a: u64, b: u64)
    requires
        a & b == 0,
    ensures
        cells(a).disjoint(cells(b)),
{
    assert forall|k: int| !(cells(a).contains(k) && cells(b).contains(k)) by {
        if 0 <= k < 64 {
            lemma_bv_disjoint(a, b, k as u64);
        }
    }
}

/// A mask within the board has cells below 49 only.
pub proof fn lemma_cells_on_board(m: u64)
    requires
        m <= FULL_BOARD,
    ensures
        forall|k: int| has_bit(m, k) ==> 0 <= k < 49,
{
    assert forall|k: int| has_bit(m, k) implies 0 <= k < 49 by {
        if 49 <= k < 64 {
            lemma_bv_board(m, k as u64);
        }
    }
}

/// The full board holds exactly the cells `0..49`.
pub proof fn lemma_cells_full()
    ensures
        forall|k: int| has_bit(FULL_BOARD, k) == (0 <= k < 49),
{
    assert forall|k: int| has_bit(FULL_BOARD, k) == (0 <= k < 49) by {
        if 0 <= k < 64 {
            lemma_bv_full(k as u64);
        }
    }
}

/// Encodes a grid of at most 7×7 cells as a mask: bit `row * 7 + col` is set
/// exactly where the grid holds 1.
pub fn board_to_bitmask(board: &Vec<Vec<u8>>) -> (mask: u64)
    requires
        fits_board(grid_view(board)),
    ensures
        mask == mask_of(grid_cells(grid_view(board))),
        mask <= FULL_BOARD,
        forall|k: int| has_bit(mask, k) == grid_cells(grid_view(board)).contains(k),
{
    let ghost grid = grid_view(board);
    let mut mask: u64 = 0;
    let mut i: usize = 0;
    proof {
        assert forall|k: int| !has_bit(0, k) by {
            if 0 <= k < 64 {
                lemma_bv_zero(k as u64);
            }
        }
    }
    while i < board.len()
        invariant
            i <= board.len(),
            grid == grid_view(board),
            fits_board(grid),
            mask <= FULL_BOARD,
            forall|k: int| has_bit(mask, k) == (0 <= k < i * 7 && occupied(grid, k / 7, k % 7)),
        decreases board.len() - i,
    {
        let row = &board[i];
        assert(row@ == grid[i as int]);
        let mut j: usize = 0;
        while j < row.len()
            invariant
                i < board.len(),
                j <= row.len(),
                row@ == grid[i as int],
                grid == grid_view(board),
                fits_board(grid),
                mask <= FULL_BOARD,
                forall|k: int|
                    has_bit(mask, k) == (0 <= k < i * 7 + j && occupied(grid, k / 7, k % 7)),
            decreases row.len() - j,
        {
            let t: u64 = (i * 7 + j) as u64;
            assert(t / 7 == i && t % 7 == j);
            if row[j] == 1 {
                let ghost before = mask;
                mask = mask | (1u64 << t);
                proof {
                    lemma_bv_set_within(before, t);
                    assert forall|k: int|
                        has_bit(mask, k) == (0 <= k < i * 7 + j + 1 && occupied(
                            grid,
                            k / 7,
                            k % 7,
                        )) by {
                        assert(has_bit(before, k) == (0 <= k < i * 7 + j && occupied(
                            grid,
                            k / 7,
                            k % 7,
                        )));
                        if 0 <= k < 64 {
                            lemma_bv_set(before, t, k as u64);
                        }
                    }
                }
            }
            j += 1;
        }
        proof {
            assert forall|k: int|
                has_bit(mask, k) == (0 <= k < (i + 1) * 7 && occupied(grid, k / 7, k % 7)) by {
                if i * 7 + j <= k < (i + 1) * 7 {
                    assert(k / 7 == i);
                    assert(k % 7 >= j);
                }
            }
        }
        i += 1;
    }
    proof {
        assert forall|k: int| has_bit(mask, k) == grid_cells(grid).contains(k) by {
            if 0 <= k < 64 && k >= i * 7 {
                assert(k / 7 >= i);
            }
        }
        lemma_cells_of_mask(grid_cells(grid));
        lemma_mask_extensional(mask, mask_of(grid_cells(grid)));
    }
    mask
}

proof fn lemma_bv_within(m: u64)
    by (bit_vector)
    requires
        m & 0xfffe_0000_0000_0000 == 0,
    ensures
        m <= 0x1_ffff_ffff_ffff,
{
}

proof fn lemma_bv_and_high(m: u64, k: u64)
    by (bit_vector)
    requires
        k < 64,
    ensures
        bit_at(m & 0xfffe_0000_0000_0000, k) == (bit_at(m, k) && k >= 49),
{
}

/// A mask with no cell at 49 or above lies within the board.
pub proof fn lemma_mask_within_board(m: u64)
    requires
        forall|k: int| 49 <= k < 64 ==> !has_bit(m, k),
    ensures
        m <= FULL_BOARD,
{
    let high: u64 = 0xfffe_0000_0000_0000;
    assert forall|k: int| 0 <= k < 64 implies has_bit(m & high, k) == has_bit(0, k) by {
        lemma_bv_and_high(m, k as u64);
        lemma_bv_zero(k as u64);
        if k >= 49 {
            assert(!has_bit(m, k));
        }
    }
    lemma_mask_extensional(m & high, 0);
    lemma_bv_within(m);
}

proof fn lemma_bv_or_within(a: u64, b: u64)
    by (bit_vector)
    requires
        a <= 0x1_ffff_ffff_ffff,
        b <= 0x1_ffff_ffff_ffff,
    ensures
        a | b <= 0x1_ffff_ffff_ffff,
{
}

/// The OR of two masks within the board lies within the board.
pub proof fn lemma_or_within_board(a: u64, b: u64)
    requires
        a <= FULL_BOARD,
        b <= FULL_BOARD,
    ensures
        a | b <= FULL_BOARD,
{
    lemma_bv_or_within(a, b);
}

/// A mask within the board that holds every cell of the board is the full
/// board.
pub proof fn lemma_all_cells_is_full(m: u64)
    requires
        m <= FULL_BOARD,
        forall|k: int| 0 <= k < 49 ==> has_bit(m, k),
    ensures
        m == FULL_BOARD,
{
    lemma_cells_on_board(m);
    lemma_cells_full();
    assert forall|k: int| 0 <= k < 64 implies has_bit(m, k) == has_bit(FULL_BOARD, k) by {
        if k >= 49 && has_bit(m, k) {
            assert(false);
        }
    }
    lemma_mask_extensional(m, FULL_BOARD);
}

} // verus!
