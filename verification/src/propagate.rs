//! Constraint propagation: striking the value of an assigned cell from the
//! candidates of its peers.

use crate::board::{
    block_anchor, count_upto, is_peer, is_settled, lemma_refines_antisymmetric,
    lemma_refines_same_total, lemma_refines_total, lemma_refines_transitive, nth_cell, on_board,
    refines, shares, solves, total, well_formed, Board, House,
};
use crate::cell::{lemma_sole, sole};
use crate::grid::Grid;
use vstd::prelude::*;

verus! {

/// The board `b` after `v` has been struck from every other cell of the house
/// of kind `h` around `(r, c)`.
pub open spec fn strike_house(b: Board, h: House, r: int, c: int, v: i32) -> Board {
    Seq::new(
        9,
        |i: int|
            Seq::new(
                9,
                |j: int|
                    if shares(h, r, c, i, j) {
                        b[i][j].remove(v)
                    } else {
                        b[i][j]
                    },
            ),
    )
}

/// The board `b` after `v` has been struck from every peer of `(r, c)`.
pub open spec fn strike_peers(b: Board, r: int, c: int, v: i32) -> Board {
    Seq::new(
        9,
        |i: int|
            Seq::new(
                9,
                |j: int|
                    if is_peer(r, c, i, j) {
                        b[i][j].remove(v)
                    } else {
                        b[i][j]
                    },
            ),
    )
}

/// Propagation from one cell: nothing happens unless `(r, c)` is assigned;
/// if it is, its value leaves the candidates of all its peers.
pub open spec fn apply_at(b: Board, r: int, c: int) -> Board {
    if b[r][c].len() == 1 {
        strike_peers(b, r, c, sole(b[r][c]))
    } else {
        b
    }
}

/// Propagation from the first `n` cells in turn, row by row.
pub open spec fn apply_upto(b: Board, n: nat) -> Board
    decreases n,
{
    if n == 0 {
        b
    } else {
        apply_at(apply_upto(b, (n - 1) as nat), (n - 1) / 9, (n - 1) % 9)
    }
}

/// One pass of propagation over all 81 cells.
pub open spec fn apply_all(b: Board) -> Board {
    apply_upto(b, 81)
}

/// Propagation to the end: passes over the board are repeated until a pass
/// strikes nothing.
pub open spec fn propagate_fully(b: Board) -> Board
    decreases total(b),
    when well_formed(b)
    via propagate_fully_decreases
{
    if apply_all(b) == b {
        b
    } else {
        propagate_fully(apply_all(b))
    }
}

#[via_fn]
proof fn propagate_fully_decreases(b: Board) {
    if apply_all(b) != b {
        lemma_pass_makes_progress(b);
    }
}

/// Whether `(i, j)` is among the first `k` cells, counted row by row, of the
/// block whose first row is `top` and whose first column is `left`.
pub open spec fn in_block_before(top: int, left: int, i: int, j: int, k: int) -> bool {
    &&& top <= i < top + 3
    &&& left <= j < left + 3
    &&& 3 * (i - top) + (j - left) < k
}

/// The nine cells of the block that holds `(x, y)`, row by row.
pub fn all_in_large_cell(x: usize, y: usize) -> (cells: Vec<(usize, usize)>)
    requires
        block_anchor(x as int) + 2 <= usize::MAX,
        block_anchor(y as int) + 2 <= usize::MAX,
    ensures
        cells@.len() == 9,
        forall|k: int|
            0 <= k < 9 ==> #[trigger] cells@[k] == (
                (block_anchor(x as int) + k / 3) as usize,
                (block_anchor(y as int) + k % 3) as usize,
            ),
{
    let row: usize = x - x % 3;
    let col: usize = y - y % 3;
    let mut cells: Vec<(usize, usize)> = Vec::new();
    let mut row_offset: usize = 0;
    while row_offset < 3
        invariant
            row_offset <= 3,
            row == block_anchor(x as int),
            col == block_anchor(y as int),
            row + 2 <= usize::MAX,
            col + 2 <= usize::MAX,
            cells@.len() == 3 * row_offset,
            forall|k: int|
                0 <= k < cells@.len() ==> #[trigger] cells@[k] == (
                    (row + k / 3) as usize,
                    (col + k % 3) as usize,
                ),
        decreases 3 - row_offset,
    {
        let mut col_offset: usize = 0;
        while col_offset < 3
            invariant
                row_offset < 3,
                col_offset <= 3,
                row + 2 <= usize::MAX,
                col + 2 <= usize::MAX,
                cells@.len() == 3 * row_offset + col_offset,
                forall|k: int|
                    0 <= k < cells@.len() ==> #[trigger] cells@[k] == (
                        (row + k / 3) as usize,
                        (col + k % 3) as usize,
                    ),
            decreases 3 - col_offset,
        {
            cells.push((row + row_offset, col + col_offset));
            col_offset = col_offset + 1;
        }
        row_offset = row_offset + 1;
    }
    cells
}

impl Grid {
    /// Strikes the value of the assigned cell `(x, y)` from the cell in
    /// column `y` of every other row.
    pub fn update_row(&mut self, x: usize, y: usize)
        requires
            x < 9,
            y < 9,
            old(self)@[x as int][y as int].len() == 1,
        ensures
            final(self)@ == strike_house(
                old(self)@,
                House::Column,
                x as int,
                y as int,
                sole(old(self)@[x as int][y as int]),
            ),
    {
        let assigned = self.get_assigned(x, y);
        let mut row: usize = 0;
        while row < 9
            invariant
                row <= 9,
                x < 9,
                y < 9,
                forall|i: int, j: int| #[trigger]
                    on_board(i, j) ==> self@[i][j] == if j == y && i != x && i < row {
                        old(self)@[i][j].remove(assigned)
                    } else {
                        old(self)@[i][j]
                    },
            decreases 9 - row,
        {
            if row != x {
                assert(on_board(row as int, y as int));
                self.data[row][y].remove(&assigned);
            }
            row = row + 1;
        }
        assert(self@ =~~= strike_house(old(self)@, House::Column, x as int, y as int, assigned)) by {
            assert forall|i: int, j: int| 0 <= i < 9 && 0 <= j < 9 implies self@[i][j]
                == strike_house(old(self)@, House::Column, x as int, y as int, assigned)[i][j] by {
                assert(on_board(i, j));
            }
        }
    }

    /// Strikes the value of the assigned cell `(x, y)` from the cell in row
    /// `x` of every other column.
    pub fn update_col(&mut self, x: usize, y: usize)
        requires
            x < 9,
            y < 9,
            old(self)@[x as int][y as int].len() == 1,
        ensures
            final(self)@ == strike_house(
                old(self)@,
                House::Row,
                x as int,
                y as int,
                sole(old(self)@[x as int][y as int]),
            ),
    {
        let assigned = self.get_assigned(x, y);
        let mut col: usize = 0;
        while col < 9
            invariant
                col <= 9,
                x < 9,
                y < 9,
                forall|i: int, j: int| #[trigger]
                    on_board(i, j) ==> self@[i][j] == if i == x && j != y && j < col {
                        old(self)@[i][j].remove(assigned)
                    } else {
                        old(self)@[i][j]
                    },
            decreases 9 - col,
        {
            if col != y {
                assert(on_board(x as int, col as int));
                self.data[x][col].remove(&assigned);
            }
            col = col + 1;
        }
        assert(self@ =~~= strike_house(old(self)@, House::Row, x as int, y as int, assigned)) by {
            assert forall|i: int, j: int| 0 <= i < 9 && 0 <= j < 9 implies self@[i][j]
                == strike_house(old(self)@, House::Row, x as int, y as int, assigned)[i][j] by {
                assert(on_board(i, j));
            }
        }
    }

    /// Strikes the value of the assigned cell `(x, y)` from every other cell
    /// of its 3x3 block.
    pub fn update_cell(&mut self, x: usize, y: usize)
        requires
            x < 9,
            y < 9,
            old(self)@[x as int][y as int].len() == 1,
        ensures
            final(self)@ == strike_house(
                old(self)@,
                House::Block,
                x as int,
                y as int,
                sole(old(self)@[x as int][y as int]),
            ),
    {
        let assigned = self.get_assigned(x, y);
        let cells = all_in_large_cell(x, y);
        let ghost top = block_anchor(x as int);
        let ghost left = block_anchor(y as int);
        let mut k: usize = 0;
        while k < 9
            invariant
                k <= 9,
                x < 9,
                y < 9,
                top == block_anchor(x as int),
                left == block_anchor(y as int),
                cells@.len() == 9,
                forall|n: int|
                    0 <= n < 9 ==> #[trigger] cells@[n] == (
                        (top + n / 3) as usize,
                        (left + n % 3) as usize,
                    ),
                forall|i: int, j: int| #[trigger]
                    on_board(i, j) ==> self@[i][j] == if in_block_before(top, left, i, j, k as int)
                        && (i != x || j != y) {
                        old(self)@[i][j].remove(assigned)
                    } else {
                        old(self)@[i][j]
                    },
            decreases 9 - k,
        {
            let (row, col) = cells[k];
            assert(row == top + k / 3 && col == left + k % 3);
            assert(on_board(row as int, col as int));
            assert forall|i: int, j: int| on_board(i, j) implies (in_block_before(
                top,
                left,
                i,
                j,
                k + 1,
            ) <==> in_block_before(top, left, i, j, k as int) || (i == row && j == col)) by {}
            if !(row == x && col == y) {
                self.data[row][col].remove(&assigned);
            }
            k = k + 1;
        }
        assert(self@ =~~= strike_house(old(self)@, House::Block, x as int, y as int, assigned)) by {
            assert forall|i: int, j: int| 0 <= i < 9 && 0 <= j < 9 implies self@[i][j]
                == strike_house(old(self)@, House::Block, x as int, y as int, assigned)[i][j] by {
                assert(on_board(i, j));
                assert(in_block_before(top, left, i, j, 9) <==> block_anchor(i) == top
                    && block_anchor(j) == left);
            }
        }
    }

    /// Propagates from the cell in row `x`, column `y`: if the cell is
    /// assigned, its value is struck from every other cell of its row, its
    /// column and its block. A cell that is not assigned changes nothing.
    pub fn apply_constraints(&mut self, x: usize, y: usize)
        requires
            x < 9,
            y < 9,
        ensures
            final(self)@ == apply_at(old(self)@, x as int, y as int),
            refines(final(self)@, old(self)@),
            final(self)@[x as int][y as int] == old(self)@[x as int][y as int],
            old(self)@[x as int][y as int].len() == 1 ==> forall|i: int, j: int| #[trigger]
                is_peer(x as int, y as int, i, j) ==> !final(self)@[i][j].contains(
                    sole(old(self)@[x as int][y as int]),
                ),
    {
        proof {
            self.lemma_well_formed();
            lemma_apply_at_refines(self@, x as int, y as int);
            lemma_apply_at_strikes(self@, x as int, y as int);
        }
        if !self.is_assigned(x, y) {
            return ;
        }
        let ghost v = sole(self@[x as int][y as int]);
        self.update_row(x, y);
        self.update_col(x, y);
        self.update_cell(x, y);
        assert(self@ =~~= strike_peers(old(self)@, x as int, y as int, v));
    }

    /// One pass of propagation: from each of the 81 cells in turn, row by row.
    ///
    /// A cell that becomes assigned during the pass propagates in the same
    /// pass only if its turn is still to come, so one pass need not reach a
    /// state in which nothing more can be struck.
    pub fn apply_constraints_all_cells(&mut self)
        ensures
            final(self)@ == apply_all(old(self)@),
            refines(final(self)@, old(self)@),
    {
        let mut row: usize = 0;
        while row < 9
            invariant
                row <= 9,
                self@ == apply_upto(old(self)@, (9 * row) as nat),
            decreases 9 - row,
        {
            let mut col: usize = 0;
            while col < 9
                invariant
                    row < 9,
                    col <= 9,
                    self@ == apply_upto(old(self)@, (9 * row + col) as nat),
                decreases 9 - col,
            {
                self.apply_constraints(row, col);
                col = col + 1;
            }
            row = row + 1;
        }
        proof {
            old(self).lemma_well_formed();
            lemma_apply_upto_refines(old(self)@, 81);
        }
    }

    /// The number of candidates that are left on the whole grid.
    pub fn candidate_count(&self) -> (count: u128)
        ensures
            count == total(self@),
    {
        let mut count: u128 = 0;
        let mut row: usize = 0;
        while row < 9
            invariant
                row <= 9,
                count == count_upto(self@, (9 * row) as nat),
                count <= 9 * row * usize::MAX,
            decreases 9 - row,
        {
            let mut col: usize = 0;
            while col < 9
                invariant
                    row < 9,
                    col <= 9,
                    count == count_upto(self@, (9 * row + col) as nat),
                    count <= (9 * row + col) * usize::MAX,
                decreases 9 - col,
            {
                assert(nth_cell(self@, 9 * row + col) == self@[row as int][col as int]);
                assert((9 * row + col + 1) * usize::MAX == (9 * row + col) * usize::MAX
                    + usize::MAX) by (nonlinear_arith);
                assert((9 * row + col + 1) * usize::MAX <= 81 * usize::MAX) by (nonlinear_arith)
                    requires
                        9 * row + col + 1 <= 81,
                ;
                count = count + self.data[row][col].len() as u128;
                col = col + 1;
            }
            row = row + 1;
        }
        count
    }

    /// Propagates until nothing more can be struck: passes over all cells are
    /// repeated until one leaves the grid as it found it.
    ///
    /// Afterwards no assigned cell has its value among the candidates of a
    /// peer, and the grid has the same solutions as before.
    pub fn propagate(&mut self)
        ensures
            final(self)@ == propagate_fully(old(self)@),
            refines(final(self)@, old(self)@),
            apply_all(final(self)@) == final(self)@,
            apply_all(apply_all(final(self)@)) == final(self)@,
            is_settled(final(self)@),
            forall|s: Board|
                #![trigger solves(s, old(self)@)]
                #![trigger solves(s, final(self)@)]
                solves(s, old(self)@) <==> solves(s, final(self)@),
    {
        let ghost start = self@;
        proof {
            self.lemma_well_formed();
        }
        let mut before: u128 = self.candidate_count();
        loop
            invariant
                before == total(self@),
                well_formed(self@),
                well_formed(start),
                propagate_fully(self@) == propagate_fully(start),
                refines(self@, start),
            ensures
                apply_all(self@) == self@,
                well_formed(self@),
                well_formed(start),
                propagate_fully(self@) == propagate_fully(start),
                refines(self@, start),
            decreases before,
        {
            let ghost prev = self@;
            self.apply_constraints_all_cells();
            let after = self.candidate_count();
            proof {
                self.lemma_well_formed();
                lemma_refines_total(self@, prev);
                lemma_refines_transitive(self@, prev, start);
                if after == before {
                    lemma_refines_same_total(self@, prev);
                }
            }
            if after == before {
                break ;
            }
            before = after;
        }
        proof {
            lemma_fixed_is_settled(self@);
            assert forall|s: Board|
                #![trigger solves(s, start)]
                #![trigger solves(s, self@)]
                solves(s, start) <==> solves(s, self@) by {
                lemma_propagate_fully_keeps_solutions(start, s);
            }
        }
    }
}

/// Propagation from one cell never adds a candidate: cell by cell, what is
/// left is a subset of what was there. It also keeps the board well formed.
pub proof fn lemma_apply_at_refines(b: Board, r: int, c: int)
    requires
        well_formed(b),
        on_board(r, c),
    ensures
        well_formed(apply_at(b, r, c)),
        refines(apply_at(b, r, c), b),
{
    let a = apply_at(b, r, c);
    assert forall|i: int, j: int| #[trigger] on_board(i, j) implies a[i][j].subset_of(b[i][j])
        && a[i][j].finite() by {}
}

/// Propagation from an assigned cell leaves the cell itself as it was and
/// leaves its value with none of its peers.
pub proof fn lemma_apply_at_strikes(b: Board, r: int, c: int)
    requires
        well_formed(b),
        on_board(r, c),
    ensures
        apply_at(b, r, c)[r][c] == b[r][c],
        b[r][c].len() == 1 ==> forall|i: int, j: int| #[trigger]
            is_peer(r, c, i, j) ==> !apply_at(b, r, c)[i][j].contains(sole(b[r][c])),
{
}

/// Propagation from the first `n` cells never adds a candidate.
pub proof fn lemma_apply_upto_refines(b: Board, n: nat)
    requires
        well_formed(b),
        n <= 81,
    ensures
        well_formed(apply_upto(b, n)),
        refines(apply_upto(b, n), b),
    decreases n,
{
    if n > 0 {
        let before = apply_upto(b, (n - 1) as nat);
        lemma_apply_upto_refines(b, (n - 1) as nat);
        lemma_apply_at_refines(before, (n - 1) / 9, (n - 1) % 9);
        let after = apply_upto(b, n);
        assert forall|i: int, j: int| #[trigger] on_board(i, j) implies after[i][j].subset_of(
            b[i][j],
        ) by {}
    }
}

/// Propagating twice from the same cell does no more than propagating once.
pub proof fn lemma_apply_at_idempotent(b: Board, r: int, c: int)
    requires
        well_formed(b),
        on_board(r, c),
    ensures
        apply_at(apply_at(b, r, c), r, c) == apply_at(b, r, c),
{
    let a = apply_at(b, r, c);
    if b[r][c].len() == 1 {
        let v = sole(b[r][c]);
        assert(a[r][c] == b[r][c]);
        assert forall|i: int, j: int| 0 <= i < 9 && 0 <= j < 9 implies apply_at(a, r, c)[i][j]
            =~= a[i][j] by {}
        assert(apply_at(a, r, c) =~~= a);
    }
}

/// A pass that changes the board lowers the number of candidates.
pub proof fn lemma_pass_makes_progress(b: Board)
    requires
        well_formed(b),
        apply_all(b) != b,
    ensures
        well_formed(apply_all(b)),
        refines(apply_all(b), b),
        total(apply_all(b)) < total(b),
{
    lemma_apply_upto_refines(b, 81);
    lemma_refines_total(apply_all(b), b);
    if total(apply_all(b)) == total(b) {
        lemma_refines_same_total(apply_all(b), b);
    }
}

/// On a settled board, propagation from any cell changes nothing.
pub proof fn lemma_settled_is_fixed_at(b: Board, r: int, c: int)
    requires
        well_formed(b),
        is_settled(b),
        on_board(r, c),
    ensures
        apply_at(b, r, c) == b,
{
    if b[r][c].len() == 1 {
        let v = sole(b[r][c]);
        assert forall|i: int, j: int| 0 <= i < 9 && 0 <= j < 9 implies apply_at(b, r, c)[i][j]
            =~= b[i][j] by {
            if is_peer(r, c, i, j) {
                assert(!b[i][j].contains(v));
            }
        }
        assert(apply_at(b, r, c) =~~= b);
    }
}

proof fn lemma_settled_is_fixed_upto(b: Board, n: nat)
    requires
        well_formed(b),
        is_settled(b),
        n <= 81,
    ensures
        apply_upto(b, n) == b,
    decreases n,
{
    if n > 0 {
        lemma_settled_is_fixed_upto(b, (n - 1) as nat);
        lemma_settled_is_fixed_at(b, (n - 1) / 9, (n - 1) % 9);
    }
}

/// A pass over a settled board changes nothing, and neither does a second
/// pass after it.
pub proof fn lemma_settled_is_fixed(b: Board)
    requires
        well_formed(b),
        is_settled(b),
    ensures
        apply_all(b) == b,
        apply_all(apply_all(b)) == b,
{
    lemma_settled_is_fixed_upto(b, 81);
}

proof fn lemma_apply_upto_chain(b: Board, n: nat, m: nat)
    requires
        well_formed(b),
        n <= m <= 81,
    ensures
        refines(apply_upto(b, m), apply_upto(b, n)),
        well_formed(apply_upto(b, m)),
        well_formed(apply_upto(b, n)),
    decreases m - n,
{
    lemma_apply_upto_refines(b, n);
    lemma_apply_upto_refines(b, m);
    if n < m {
        lemma_apply_upto_chain(b, n, (m - 1) as nat);
        lemma_apply_at_refines(apply_upto(b, (m - 1) as nat), (m - 1) / 9, (m - 1) % 9);
        lemma_refines_transitive(apply_upto(b, m), apply_upto(b, (m - 1) as nat), apply_upto(b, n));
    } else {
        assert forall|i: int, j: int| #[trigger] on_board(i, j) implies apply_upto(b, m)[i][j].subset_of(
            apply_upto(b, n)[i][j],
        ) by {}
    }
}

/// A board that a pass leaves unchanged is settled.
pub proof fn lemma_fixed_is_settled(b: Board)
    requires
        well_formed(b),
        apply_all(b) == b,
    ensures
        is_settled(b),
{
    assert forall|r: int, c: int, i: int, j: int| #[trigger]
        is_peer(r, c, i, j) && b[r][c].len() == 1 implies !b[i][j].contains(sole(b[r][c])) by {
        let k = (9 * r + c) as nat;
        lemma_apply_upto_chain(b, k, 81);
        lemma_apply_upto_chain(b, k + 1, 81);
        lemma_apply_upto_refines(b, k);
        lemma_apply_upto_refines(b, k + 1);
        lemma_refines_antisymmetric(apply_upto(b, k), b);
        lemma_refines_antisymmetric(apply_upto(b, k + 1), b);
        assert(apply_upto(b, k + 1) == apply_at(apply_upto(b, k), r, c));
        assert(apply_at(b, r, c)[i][j] == b[i][j]);
    }
}

/// Propagation from one cell neither loses nor adds a solution.
pub proof fn lemma_apply_at_keeps_solutions(b: Board, r: int, c: int, s: Board)
    requires
        well_formed(b),
        on_board(r, c),
    ensures
        solves(s, b) <==> solves(s, apply_at(b, r, c)),
{
    lemma_apply_at_refines(b, r, c);
    let a = apply_at(b, r, c);
    if solves(s, a) {
        lemma_refines_transitive(s, a, b);
    }
    if solves(s, b) && b[r][c].len() == 1 {
        let v = sole(b[r][c]);
        lemma_sole(b[r][c]);
        assert(s[r][c].len() == 1);
        lemma_sole(s[r][c]);
        assert(s[r][c].subset_of(b[r][c]));
        assert(b[r][c].contains(sole(s[r][c])));
        assert(sole(s[r][c]) == v);
        assert forall|i: int, j: int| #[trigger] on_board(i, j) implies s[i][j].subset_of(
            a[i][j],
        ) by {
            assert(s[i][j].subset_of(b[i][j]));
            if is_peer(r, c, i, j) {
                assert(!s[i][j].contains(sole(s[r][c])));
            }
        }
    }
}

proof fn lemma_apply_upto_keeps_solutions(b: Board, n: nat, s: Board)
    requires
        well_formed(b),
        n <= 81,
    ensures
        solves(s, b) <==> solves(s, apply_upto(b, n)),
    decreases n,
{
    if n > 0 {
        lemma_apply_upto_keeps_solutions(b, (n - 1) as nat, s);
        lemma_apply_upto_refines(b, (n - 1) as nat);
        lemma_apply_at_keeps_solutions(apply_upto(b, (n - 1) as nat), (n - 1) / 9, (n - 1) % 9, s);
    }
}

/// A pass of propagation neither loses nor adds a solution.
pub proof fn lemma_apply_all_keeps_solutions(b: Board, s: Board)
    requires
        well_formed(b),
    ensures
        solves(s, b) <==> solves(s, apply_all(b)),
{
    lemma_apply_upto_keeps_solutions(b, 81, s);
}

/// Propagation to the end yields a well-formed board that refines the one it
/// started from and that a further pass leaves unchanged.
pub proof fn lemma_propagate_fully(b: Board)
    requires
        well_formed(b),
    ensures
        well_formed(propagate_fully(b)),
        refines(propagate_fully(b), b),
        apply_all(propagate_fully(b)) == propagate_fully(b),
        apply_all(apply_all(propagate_fully(b))) == propagate_fully(b),
        is_settled(propagate_fully(b)),
    decreases total(b),
{
    if apply_all(b) == b {
        lemma_fixed_is_settled(b);
        assert forall|i: int, j: int| #[trigger] on_board(i, j) implies b[i][j].subset_of(
            b[i][j],
        ) by {}
    } else {
        lemma_pass_makes_progress(b);
        lemma_propagate_fully(apply_all(b));
        lemma_refines_transitive(propagate_fully(b), apply_all(b), b);
    }
}

/// Propagation to the end neither loses nor adds a solution.
pub proof fn lemma_propagate_fully_keeps_solutions(b: Board, s: Board)
    requires
        well_formed(b),
    ensures
        solves(s, b) <==> solves(s, propagate_fully(b)),
    decreases total(b),
{
    if apply_all(b) != b {
        lemma_pass_makes_progress(b);
        lemma_apply_all_keeps_solutions(b, s);
        lemma_propagate_fully_keeps_solutions(apply_all(b), s);
    }
}

} // verus!
