//! Exhaustive solver for the calendar tiling puzzle: a 7×7 board with six
//! permanently blocked cells and two date cells, one for the month and one
//! for the day, is covered exactly by eight fixed polyominoes.
//!
//! The modules, from the leaves up:
//!
//! - [`bitboard`]: boards as 49-bit masks, and masks as sets of cells;
//! - [`union_find`]: the disjoint-set forest that groups empty cells;
//! - [`distinct`]: sequences without repetition;
//! - [`shape`]: piece shapes and their orientations;
//! - [`trim`]: a shape without its empty border rows and columns;
//! - [`pieces`]: the eight pieces;
//! - [`placement`]: every mask that a piece can take on the board;
//! - [`pruner`]: the rule that rejects boards with a region that cannot be
//!   filled;
//! - [`search`]: the backtracking search;
//! - [`solver`]: the blocked cells of a date, and the boards of its
//!   solutions;
//! - [`layout`] and [`cover`]: why the solutions are exactly the exact
//!   covers of the board.

pub mod bitboard;
pub mod cover;
pub mod distinct;
pub mod layout;
pub mod pieces;
pub mod placement;
pub mod pruner;
pub mod search;
pub mod shape;
pub mod solver;
pub mod trim;
pub mod union_find;

pub use crate::solver::{solve_for_date, Solution};
