//! The puzzle state: a 9x9 grid of candidate sets, and what can be asked of it.

use crate::board::{blank, is_complete, is_impossible, on_board, well_formed, Board};
use crate::cell::{empty_cell, lemma_cell_finite, lemma_sole, sole, CellAssignment};
use vstd::prelude::*;

verus! {

/// A Sudoku puzzle in progress: for each of the 81 cells, the values that
/// have not been ruled out. Cells are addressed by row and column, 0 to 8.
pub struct Grid {
    pub data: [[CellAssignment; 9]; 9],
}

impl View for Grid {
    type V = Board;

    open spec fn view(&self) -> Board {
        Seq::new(9, |r: int| Seq::new(9, |c: int| self.data[r][c]@))
    }
}

fn empty_row() -> (row: [CellAssignment; 9])
    ensures
        forall|c: int| 0 <= c < 9 ==> (#[trigger] row[c])@ == crate::cell::all_digits(),
{
    [
        empty_cell(),
        empty_cell(),
        empty_cell(),
        empty_cell(),
        empty_cell(),
        empty_cell(),
        empty_cell(),
        empty_cell(),
        empty_cell(),
    ]
}

fn copy_row(from: &[CellAssignment; 9]) -> (row: [CellAssignment; 9])
    ensures
        forall|c: int| 0 <= c < 9 ==> (#[trigger] row[c])@ == from[c]@,
{
    [
        from[0].clone(),
        from[1].clone(),
        from[2].clone(),
        from[3].clone(),
        from[4].clone(),
        from[5].clone(),
        from[6].clone(),
        from[7].clone(),
        from[8].clone(),
    ]
}

impl Clone for Grid {
    /// An independent copy with the same candidates in every cell.
    fn clone(&self) -> (copy: Self)
        ensures
            copy@ == self@,
    {
        let copy = Grid {
            data: [
                copy_row(&self.data[0]),
                copy_row(&self.data[1]),
                copy_row(&self.data[2]),
                copy_row(&self.data[3]),
                copy_row(&self.data[4]),
                copy_row(&self.data[5]),
                copy_row(&self.data[6]),
                copy_row(&self.data[7]),
                copy_row(&self.data[8]),
            ],
        };
        assert(copy@ =~~= self@);
        copy
    }
}

impl Grid {
    /// The view of any grid is a well-formed board.
    pub proof fn lemma_well_formed(&self)
        ensures
            well_formed(self@),
    {
        assert forall|r: int, c: int| #[trigger] on_board(r, c) implies self@[r][c].finite() by {
            lemma_cell_finite(&self.data[r][c]);
        }
    }

    /// The puzzle without clues: every cell may still take every digit.
    pub fn empty() -> (grid: Self)
        ensures
            grid@ == blank(),
    {
        let grid = Grid {
            data: [
                empty_row(),
                empty_row(),
                empty_row(),
                empty_row(),
                empty_row(),
                empty_row(),
                empty_row(),
                empty_row(),
                empty_row(),
            ],
        };
        assert(grid@ =~~= blank());
        grid
    }

    /// The candidates of the cell in row `x`, column `y`.
    pub fn get(&self, x: usize, y: usize) -> (cell: &CellAssignment)
        requires
            x < 9,
            y < 9,
        ensures
            cell@ == self@[x as int][y as int],
            *cell == self.data[x as int][y as int],
    {
        &self.data[x][y]
    }

    /// Whether the cell in row `x`, column `y` has exactly one candidate.
    pub fn is_assigned(&self, x: usize, y: usize) -> (assigned: bool)
        requires
            x < 9,
            y < 9,
        ensures
            assigned == (self@[x as int][y as int].len() == 1),
    {
        crate::cell::is_assigned(&self.data[x][y])
    }

    /// The value of the assigned cell in row `x`, column `y`.
    pub fn get_assigned(&self, x: usize, y: usize) -> (value: i32)
        requires
            x < 9,
            y < 9,
            self@[x as int][y as int].len() == 1,
        ensures
            value == sole(self@[x as int][y as int]),
            self@[x as int][y as int] == crate::cell::only(value),
    {
        let cell = &self.data[x][y];
        let list = crate::cell::candidates(cell);
        proof {
            lemma_cell_finite(cell);
            lemma_sole(cell@);
            assert(list@.to_set().contains(list@[0]));
        }
        list[0]
    }

    /// A grid is complete when every cell is assigned.
    pub fn complete(&self) -> (done: bool)
        ensures
            done == is_complete(self@),
    {
        let mut row: usize = 0;
        while row < 9
            invariant
                row <= 9,
                forall|r: int, c: int| #[trigger] on_board(r, c) && r < row ==> self@[r][c].len() == 1,
            decreases 9 - row,
        {
            let mut col: usize = 0;
            while col < 9
                invariant
                    row < 9,
                    col <= 9,
                    forall|r: int, c: int| #[trigger]
                        on_board(r, c) && (r < row || (r == row && c < col)) ==> self@[r][c].len() == 1,
                decreases 9 - col,
            {
                if !crate::cell::is_assigned(&self.data[row][col]) {
                    assert(on_board(row as int, col as int));
                    return false;
                }
                col = col + 1;
            }
            row = row + 1;
        }
        true
    }

    /// A grid is impossible when some cell has no candidate left, so that no
    /// value can be placed there.
    pub fn is_impossible(&self) -> (stuck: bool)
        ensures
            stuck == is_impossible(self@),
    {
        let mut row: usize = 0;
        while row < 9
            invariant
                row <= 9,
                forall|r: int, c: int| #[trigger] on_board(r, c) && r < row ==> self@[r][c].len() != 0,
            decreases 9 - row,
        {
            let mut col: usize = 0;
            while col < 9
                invariant
                    row < 9,
                    col <= 9,
                    forall|r: int, c: int| #[trigger]
                        on_board(r, c) && (r < row || (r == row && c < col)) ==> self@[r][c].len() != 0,
                decreases 9 - col,
            {
                if self.data[row][col].len() == 0 {
                    assert(on_board(row as int, col as int));
                    return true;
                }
                col = col + 1;
            }
            row = row + 1;
        }
        false
    }

    /// Whether every cell has at least one candidate: the least that a
    /// puzzle must offer. Clues that contradict each other go unnoticed here.
    pub fn is_valid(&self) -> (valid: bool)
        ensures
            valid == !is_impossible(self@),
    {
        let mut row: usize = 0;
        while row < 9
            invariant
                row <= 9,
                forall|r: int, c: int| #[trigger] on_board(r, c) && r < row ==> self@[r][c].len() != 0,
            decreases 9 - row,
        {
            let mut col: usize = 0;
            while col < 9
                invariant
                    row < 9,
                    col <= 9,
                    forall|r: int, c: int| #[trigger]
                        on_board(r, c) && (r < row || (r == row && c < col)) ==> self@[r][c].len() != 0,
                decreases 9 - col,
            {
                if self.data[row][col].len() == 0 {
                    assert(on_board(row as int, col as int));
                    return false;
                }
                col = col + 1;
            }
            row = row + 1;
        }
        true
    }
}

} // verus!
