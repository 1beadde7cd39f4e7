//! A solver for standard 9x9 Sudoku puzzles.
//!
//! A puzzle is a [`Grid`] of candidate sets, one per cell. Solving alternates
//! constraint propagation, which strikes the value of every assigned cell from
//! the cells that share its row, column or block, with a depth-first search
//! over the candidates of the most constrained open cell.
//!
//! Every executable function carries a contract over the mathematical model in
//! [`board`], and the module [`solve`] proves that a returned grid is a
//! solution of the puzzle and that no solution is ever missed.

pub mod board;
pub mod cell;
pub mod grid;
pub mod propagate;
pub mod select;
pub mod solve;
pub mod text;

pub use cell::{candidates, empty_cell, is_assigned, is_determined, singleton, CellAssignment};
pub use grid::Grid;
pub use propagate::all_in_large_cell;
pub use text::parse_value;
