//! Solving a date: the blocked cells of the board, the search over the
//! placements of the eight pieces, and the boards that show the solutions.

use crate::bitboard::{
    board_to_bitmask, fits_board, grid_cells, grid_view, has_bit, mask_of, FULL_BOARD,
};
use crate::pieces::{
    find_piece_of_size, get_initial_pieces, initial_pieces, lemma_initial_piece_sizes,
};
use crate::placement::{all_piece_placements, is_shape, masks_view, placement_table};
use crate::pruner::is_clear;
use crate::search::{find_solutions_recursive, law_solutions_are_valid_assignments, solutions_of};
use vstd::prelude::*;

verus! {

/// One solution as a board: each cell holds the number, from 1 to 8, of the
/// piece that covers it, or -1 where the cell is blocked.
#[derive(Debug, Clone, PartialEq, Eq)]
pub struct Solution {
    pub board: Vec<Vec<i8>>,
}

/// What a blocked cell holds in a board.
pub const BLOCKED: i8 = -1;

/// The index of the piece of six cells among the pieces.
pub const SIZE_6_PIECE_INDEX: usize = 0;

/// The cell that marks a month, in the two rows of six at the top.
pub open spec fn month_cell(month: int) -> int {
    ((month - 1) / 6) * 7 + (month - 1) % 6
}

/// The cell that marks a day, in the rows of seven from the third on.
pub open spec fn day_cell(day: int) -> int {
    ((day - 1) / 7 + 2) * 7 + (day - 1) % 7
}

/// Cell `(row, col)` is one of the six cells that are always blocked.
pub open spec fn static_hole(row: int, col: int) -> bool {
    (col == 6 && (row == 0 || row == 1)) || (row == 6 && 3 <= col <= 6)
}

/// The cells that no piece may cover on a date: the six static holes, the
/// cell of the month and the cell of the day.
pub open spec fn blocked_cells(month: int, day: int) -> Set<int> {
    Set::new(
        |k: int|
            0 <= k < 49 && (static_hole(k / 7, k % 7) || k == month_cell(month) || k == day_cell(
                day,
            )),
    )
}

/// The mask of the blocked cells of a date.
pub open spec fn blocked_mask(month: int, day: int) -> u64 {
    mask_of(blocked_cells(month, day))
}

/// A month from 1 to 12 and a day from 1 to 31.
pub open spec fn valid_date(month: int, day: int) -> bool {
    1 <= month <= 12 && 1 <= day <= 31
}

/// The number of the last of the first `n` masks that holds `cell`, counted
/// from 1, or 0 if none of them does.
pub open spec fn piece_at(masks: Seq<u64>, cell: int, n: int) -> int
    decreases n,
{
    if n <= 0 {
        0
    } else if has_bit(masks[n - 1], cell) {
        n
    } else {
        piece_at(masks, cell, n - 1)
    }
}

/// What the board of an assignment holds at a cell.
pub open spec fn rendered_cell(masks: Seq<u64>, month: int, day: int, cell: int) -> int {
    if blocked_cells(month, day).contains(cell) {
        -1
    } else {
        piece_at(masks, cell, masks.len() as int)
    }
}

/// The board of an assignment: seven rows of seven cells.
pub open spec fn rendered(masks: Seq<u64>, month: int, day: int) -> Seq<Seq<i8>> {
    Seq::new(
        7,
        |row: int| Seq::new(7, |col: int| rendered_cell(masks, month, day, row * 7 + col) as i8),
    )
}

/// The rows of a board as sequences.
pub open spec fn board_view(board: Vec<Vec<i8>>) -> Seq<Seq<i8>> {
    Seq::new(board.len() as nat, |i: int| board[i]@)
}

/// The boards of a list of solutions.
pub open spec fn boards_view(list: Vec<Solution>) -> Seq<Seq<Seq<i8>>> {
    Seq::new(list.len() as nat, |i: int| board_view(list[i].board))
}

/// The boards of all the solutions of a date, in search order.
pub open spec fn solved_boards(month: int, day: int) -> Seq<Seq<Seq<i8>>> {
    let found = solutions_of(
        placement_table(initial_pieces()),
        blocked_mask(month, day),
        SIZE_6_PIECE_INDEX as int,
    );
    Seq::new(found.len(), |i: int| rendered(found[i], month, day))
}

/// Whether cell `(row, col)` is blocked on a date.
pub fn is_blocked(month: u32, day: u32, row: usize, col: usize) -> (blocked: bool)
    requires
        valid_date(month as int, day as int),
        row < 7,
        col < 7,
    ensures
        blocked == blocked_cells(month as int, day as int).contains(row * 7 + col),
{
    let month_r = ((month - 1) / 6) as usize;
    let month_c = ((month - 1) % 6) as usize;
    let day_r = ((day - 1) / 7 + 2) as usize;
    let day_c = ((day - 1) % 7) as usize;
    let ghost k = row * 7 + col;
    assert(k / 7 == row && k % 7 == col);
    assert(month_cell(month as int) == month_r * 7 + month_c);
    assert(day_cell(day as int) == day_r * 7 + day_c);
    (col == 6 && (row == 0 || row == 1)) || (row == 6 && col >= 3) || (row == month_r && col
        == month_c) || (row == day_r && col == day_c)
}

/// The mask of the blocked cells of a date.
pub fn initial_board_mask(month: u32, day: u32) -> (mask: u64)
    requires
        valid_date(month as int, day as int),
    ensures
        mask == blocked_mask(month as int, day as int),
        mask <= FULL_BOARD,
{
    let mut board: Vec<Vec<u8>> = Vec::new();
    let mut row: usize = 0;
    while row < 7
        invariant
            row <= 7,
            valid_date(month as int, day as int),
            board@.len() == row,
            forall|i: int| 0 <= i < row ==> (#[trigger] board@[i])@.len() == 7,
            forall|i: int, j: int|
                0 <= i < row && 0 <= j < 7 ==> ((#[trigger] board@[i]@[j]) == 1 <==> blocked_cells(
                    month as int,
                    day as int,
                ).contains(i * 7 + j)),
        decreases 7 - row,
    {
        let mut cells: Vec<u8> = Vec::new();
        let mut col: usize = 0;
        while col < 7
            invariant
                row < 7,
                col <= 7,
                valid_date(month as int, day as int),
                cells@.len() == col,
                forall|j: int|
                    0 <= j < col ==> ((#[trigger] cells@[j]) == 1 <==> blocked_cells(
                        month as int,
                        day as int,
                    ).contains(row * 7 + j)),
            decreases 7 - col,
        {
            cells.push(if is_blocked(month, day, row, col) { 1u8 } else { 0u8 });
            col += 1;
        }
        board.push(cells);
        row += 1;
    }
    proof {
        let g = grid_view(&board);
        assert(fits_board(g));
        assert forall|k: int| grid_cells(g).contains(k) == blocked_cells(
            month as int,
            day as int,
        ).contains(k) by {
            if 0 <= k < 49 {
                let i = k / 7;
                let j = k % 7;
                assert(g[i] == board@[i]@);
                assert(board@[i]@[j] == 1 <==> blocked_cells(month as int, day as int).contains(
                    i * 7 + j,
                ));
            }
        }
        assert(grid_cells(g) =~= blocked_cells(month as int, day as int));
    }
    board_to_bitmask(&board)
}

/// The board of an assignment on a date.
pub fn render_solution(masks: &Vec<u64>, month: u32, day: u32) -> (solution: Solution)
    requires
        valid_date(month as int, day as int),
        masks.len() <= 127,
    ensures
        board_view(solution.board) == rendered(masks@, month as int, day as int),
{
    let mut board: Vec<Vec<i8>> = Vec::new();
    let mut row: usize = 0;
    while row < 7
        invariant
            row <= 7,
            valid_date(month as int, day as int),
            masks.len() <= 127,
            board@.len() == row,
            forall|i: int|
                0 <= i < row ==> (#[trigger] board@[i])@ == rendered(
                    masks@,
                    month as int,
                    day as int,
                )[i],
        decreases 7 - row,
    {
        let mut cells: Vec<i8> = Vec::new();
        let mut col: usize = 0;
        while col < 7
            invariant
                row < 7,
                col <= 7,
                valid_date(month as int, day as int),
                masks.len() <= 127,
                cells@.len() == col,
                forall|j: int|
                    0 <= j < col ==> #[trigger] cells@[j] == rendered_cell(
                        masks@,
                        month as int,
                        day as int,
                        row * 7 + j,
                    ) as i8,
            decreases 7 - col,
        {
            let cell = row * 7 + col;
            let mut value: i8 = 0;
            if is_blocked(month, day, row, col) {
                value = BLOCKED;
            } else {
                let mut piece_id: usize = 0;
                while piece_id < masks.len()
                    invariant
                        piece_id <= masks.len(),
                        masks.len() <= 127,
                        cell < 49,
                        0 <= value <= piece_id,
                        value == piece_at(masks@, cell as int, piece_id as int),
                    decreases masks.len() - piece_id,
                {
                    if !is_clear(masks[piece_id], cell) {
                        value = (piece_id + 1) as i8;
                    }
                    piece_id += 1;
                }
            }
            cells.push(value);
            col += 1;
        }
        assert(cells@ =~= rendered(masks@, month as int, day as int)[row as int]);
        board.push(cells);
        row += 1;
    }
    assert(board_view(board) =~= rendered(masks@, month as int, day as int));
    Solution { board }
}

/// All the solutions of a date, as boards, in search order.
pub fn solve_for_date(month: u32, day: u32) -> (solutions: Vec<Solution>)
    requires
        valid_date(month as int, day as int),
    ensures
        boards_view(solutions) == solved_boards(month as int, day as int),
{
    let pieces = get_initial_pieces();
    proof {
        lemma_initial_piece_sizes();
        lemma_initial_pieces_are_shapes();
    }
    let size_6_piece_index = find_piece_of_size(&pieces, 6).unwrap();
    let all_piece_placements = all_piece_placements(&pieces);
    proof {
        assert(placement_table(initial_pieces()).len() == 8);
    }
    let initial_board_mask = initial_board_mask(month, day);
    let mut found_raw_solutions: Vec<Vec<u64>> = Vec::new();
    let mut used_placements: Vec<u64> = Vec::new();
    find_solutions_recursive(
        0,
        initial_board_mask,
        &mut used_placements,
        false,
        &all_piece_placements,
        size_6_piece_index,
        &mut found_raw_solutions,
    );
    let ghost found = solutions_of(
        placement_table(initial_pieces()),
        blocked_mask(month as int, day as int),
        SIZE_6_PIECE_INDEX as int,
    );
    assert(masks_view(found_raw_solutions) =~= found);
    proof {
        assert forall|j: int| 0 <= j < found.len() implies (#[trigger] found[j]).len() == 8 by {
            assert(found.contains(found[j]));
            law_solutions_are_valid_assignments(
                placement_table(initial_pieces()),
                blocked_mask(month as int, day as int),
                SIZE_6_PIECE_INDEX as int,
                found[j],
            );
        }
    }
    let mut final_solutions: Vec<Solution> = Vec::new();
    let mut i: usize = 0;
    while i < found_raw_solutions.len()
        invariant
            i <= found_raw_solutions.len(),
            valid_date(month as int, day as int),
            masks_view(found_raw_solutions) == found,
            forall|j: int| 0 <= j < found.len() ==> (#[trigger] found[j]).len() == 8,
            final_solutions@.len() == i,
            forall|j: int|
                0 <= j < i ==> board_view((#[trigger] final_solutions@[j]).board) == rendered(
                    found[j],
                    month as int,
                    day as int,
                ),
        decreases found_raw_solutions.len() - i,
    {
        let masks = &found_raw_solutions[i];
        assert(masks@ == found[i as int]);
        final_solutions.push(render_solution(masks, month, day));
        i += 1;
    }
    assert(boards_view(final_solutions) =~= solved_boards(month as int, day as int));
    final_solutions
}

/// Each of the eight pieces is a shape.
pub proof fn lemma_initial_pieces_are_shapes()
    ensures
        forall|k: int| 0 <= k < 8 ==> is_shape(#[trigger] initial_pieces()[k]),
{
    let p = initial_pieces();
    assert(is_shape(p[0]));
    assert(is_shape(p[1]));
    assert(is_shape(p[2]));
    assert(is_shape(p[3]));
    assert(is_shape(p[4]));
    assert(is_shape(p[5]));
    assert(is_shape(p[6]));
    assert(is_shape(p[7]));
}

/// Solving a date twice gives the same boards, in the same order: what
/// `solve_for_date` returns depends on the date alone.
pub proof fn law_solving_is_deterministic(
    month: int,
    day: int,
    first: Seq<Seq<Seq<i8>>>,
    second: Seq<Seq<Seq<i8>>>,
)
    requires
        first == solved_boards(month, day),
        second == solved_boards(month, day),
    ensures
        first == second,
        first.to_set() == second.to_set(),
{
}

} // verus!
