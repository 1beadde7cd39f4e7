//! Choosing where to branch: the open cell with the fewest candidates.

use crate::board::{on_board, Board};
use crate::cell::is_determined;
use crate::grid::Grid;
use vstd::prelude::*;

verus! {

/// Whether `(r, c)` is the cell to branch on: it is open, no open cell has
/// fewer candidates, and among the open cells with as few it comes first,
/// row by row.
pub open spec fn is_most_constrained(b: Board, r: int, c: int) -> bool {
    &&& on_board(r, c)
    &&& b[r][c].len() >= 2
    &&& forall|i: int, j: int| #[trigger]
        on_board(i, j) && b[i][j].len() >= 2 ==> b[r][c].len() < b[i][j].len() || (b[r][c].len()
            == b[i][j].len() && 9 * r + c <= 9 * i + j)
}

/// Whether every cell is determined: assigned, or without any candidate.
pub open spec fn all_determined(b: Board) -> bool {
    forall|r: int, c: int| #[trigger] on_board(r, c) ==> b[r][c].len() <= 1
}

impl Grid {
    /// The open cell with the fewest candidates, and of several such cells
    /// the first, row by row. `None` if every cell is determined.
    pub fn most_constrained_variable(&self) -> (choice: Option<(usize, usize)>)
        ensures
            match choice {
                Some((row, col)) => is_most_constrained(self@, row as int, col as int),
                None => all_determined(self@),
            },
    {
        let mut min_num_vars: Option<usize> = None;
        let mut min_cell: Option<(usize, usize)> = None;
        let mut row: usize = 0;
        while row < 9
            invariant
                row <= 9,
                best_so_far(self@, min_cell, min_num_vars, 9 * row),
            decreases 9 - row,
        {
            let mut col: usize = 0;
            while col < 9
                invariant
                    row < 9,
                    col <= 9,
                    best_so_far(self@, min_cell, min_num_vars, 9 * row + col),
                decreases 9 - col,
            {
                let cur_cell = &self.data[row][col];
                assert(on_board(row as int, col as int));
                if !is_determined(cur_cell) {
                    let smaller = match min_num_vars {
                        Some(cur_min) => cur_cell.len() < cur_min,
                        None => true,
                    };
                    if smaller {
                        min_cell = Some((row, col));
                        min_num_vars = Some(cur_cell.len());
                    }
                }
                col = col + 1;
            }
            row = row + 1;
        }
        min_cell
    }
}

/// What the scan knows after the first `n` cells: either none of them is
/// open, or `cell` is the best of them and `size` its number of candidates.
pub open spec fn best_so_far(
    b: Board,
    cell: Option<(usize, usize)>,
    size: Option<usize>,
    n: int,
) -> bool {
    match cell {
        None => size is None && forall|i: int, j: int| #[trigger]
            on_board(i, j) && 9 * i + j < n ==> b[i][j].len() <= 1,
        Some((r, c)) => {
            &&& on_board(r as int, c as int)
            &&& 9 * r + c < n
            &&& size == Some(b[r as int][c as int].len() as usize)
            &&& b[r as int][c as int].len() >= 2
            &&& b[r as int][c as int].len() <= usize::MAX
            &&& forall|i: int, j: int| #[trigger]
                on_board(i, j) && 9 * i + j < n && b[i][j].len() >= 2 ==> b[r as int][c as int].len()
                    < b[i][j].len() || (b[r as int][c as int].len() == b[i][j].len() && 9 * r + c
                    <= 9 * i + j)
        },
    }
}

} // verus!
