//! The search: propagate, then branch on the most constrained open cell and
//! try its candidates in ascending order.

use crate::board::{
    houses_filled, in_range, is_complete, is_impossible, is_solution,
    lemma_refines_in_range, lemma_refines_total, lemma_refines_transitive,
    lemma_solution_fills_houses, lemma_with_cell, on_board, refines, solvable, solves, total,
    well_formed, with_cell, Board,
};
use crate::cell::{candidates, lemma_only, lemma_sole, only, sole, strictly_ascending};
use crate::grid::Grid;
use crate::propagate::{
    lemma_propagate_fully, lemma_propagate_fully_keeps_solutions, lemma_settled_is_fixed,
    propagate_fully,
};
use crate::select::is_most_constrained;
use vstd::prelude::*;
use vstd::set_lib::lemma_len_subset;

verus! {

/// The board `b` with cell `(r, c)` fixed to the value `v`.
pub open spec fn pin(b: Board, r: int, c: int, v: i32) -> Board {
    with_cell(b, r, c, only(v))
}

/// The cell on which the search branches.
pub open spec fn branch_cell(b: Board) -> (int, int) {
    choose|r: int, c: int| is_most_constrained(b, r, c)
}

/// What the search returns for the puzzle `b`.
///
/// The board is propagated to the end. If it is then complete, it is the
/// answer; if some cell is left without a candidate, there is none. Otherwise
/// the candidates of the branch cell are tried smallest first, and the first
/// that leads to an answer gives it. The same puzzle thus always has the same
/// answer, also where it has several solutions.
pub open spec fn search(b: Board) -> Option<Board>
    decreases total(b), 2nat, 0nat,
    when well_formed(b)
    via search_decreases
{
    let p = propagate_fully(b);
    if is_complete(p) {
        Some(p)
    } else if is_impossible(p) {
        None
    } else {
        let (r, c) = branch_cell(p);
        try_above(p, r, c, i32::MIN as int)
    }
}

/// What the search returns when it tries, smallest first, the candidates
/// from `low` upwards of the open cell `(r, c)` of the propagated board `p`.
pub open spec fn try_above(p: Board, r: int, c: int, low: int) -> Option<Board>
    decreases total(p), 1nat, i32::MAX + 1 - low,
    when well_formed(p) && on_board(r, c) && p[r][c].len() >= 2
    via try_above_decreases
{
    if low > i32::MAX {
        None
    } else if i32::MIN <= low && p[r][c].contains(low as i32) {
        match search(pin(p, r, c, low as i32)) {
            Some(s) => Some(s),
            None => try_above(p, r, c, low + 1),
        }
    } else {
        try_above(p, r, c, low + 1)
    }
}

#[via_fn]
proof fn search_decreases(b: Board) {
    let p = propagate_fully(b);
    lemma_propagate_fully(b);
    lemma_refines_total(p, b);
    if !is_complete(p) && !is_impossible(p) {
        lemma_branch_cell(p);
    }
}

#[via_fn]
proof fn try_above_decreases(p: Board, r: int, c: int, low: int) {
    if i32::MIN <= low <= i32::MAX {
        lemma_pin(p, r, c, low as i32);
    }
}

/// A board that is neither complete nor impossible has a branch cell.
pub proof fn lemma_branch_cell(b: Board)
    requires
        well_formed(b),
        !is_complete(b),
        !is_impossible(b),
    ensures
        is_most_constrained(b, branch_cell(b).0, branch_cell(b).1),
{
    let (r0, c0) = choose|r: int, c: int| #[trigger] on_board(r, c) && b[r][c].len() != 1;
    assert(on_board(r0, c0) && b[r0][c0].len() >= 2);
    lemma_least_open_cell(b, 81);
    let (r, c) = choose|r: int, c: int|
        on_board(r, c) && 9 * r + c < 81 && #[trigger] most_constrained_upto(b, r, c, 81);
    assert(is_most_constrained(b, r, c)) by {
        assert forall|i: int, j: int| #[trigger] on_board(i, j) && b[i][j].len() >= 2 implies b[r][c].len()
            < b[i][j].len() || (b[r][c].len() == b[i][j].len() && 9 * r + c <= 9 * i + j) by {
            assert(9 * i + j < 81);
        }
    }
}

/// Among the first `n` cells, if any is open, one is the most constrained.
proof fn lemma_least_open_cell(b: Board, n: nat)
    requires
        n <= 81,
    ensures
        (forall|i: int, j: int| #[trigger] on_board(i, j) && 9 * i + j < n ==> b[i][j].len() < 2)
            || exists|r: int, c: int|
            on_board(r, c) && 9 * r + c < n && #[trigger] most_constrained_upto(b, r, c, n as int),
    decreases n,
{
    if n > 0 {
        lemma_least_open_cell(b, (n - 1) as nat);
        let k = n - 1;
        let (x, y) = (k / 9, k % 9);
        assert(on_board(x, y));
        if forall|i: int, j: int| #[trigger] on_board(i, j) && 9 * i + j < k ==> b[i][j].len() < 2 {
            if b[x][y].len() >= 2 {
                assert(most_constrained_upto(b, x, y, n as int));
            }
        } else {
            let (r, c) = choose|r: int, c: int|
                on_board(r, c) && 9 * r + c < k && #[trigger] most_constrained_upto(b, r, c, k);
            if b[x][y].len() >= 2 && b[x][y].len() < b[r][c].len() {
                assert(most_constrained_upto(b, x, y, n as int));
            } else {
                assert(most_constrained_upto(b, r, c, n as int));
            }
        }
    }
}

/// Whether `(r, c)` is the most constrained open cell of the first `n`.
pub open spec fn most_constrained_upto(b: Board, r: int, c: int, n: int) -> bool {
    &&& b[r][c].len() >= 2
    &&& forall|i: int, j: int| #[trigger]
        on_board(i, j) && 9 * i + j < n && b[i][j].len() >= 2 ==> b[r][c].len() < b[i][j].len()
            || (b[r][c].len() == b[i][j].len() && 9 * r + c <= 9 * i + j)
}

/// Only one cell is the most constrained.
pub proof fn lemma_most_constrained_unique(b: Board, r: int, c: int, i: int, j: int)
    requires
        is_most_constrained(b, r, c),
        is_most_constrained(b, i, j),
    ensures
        r == i,
        c == j,
{
}

/// Fixing an open cell to one value keeps the board well formed, refines it
/// if the value was a candidate, and lowers the number of candidates.
pub proof fn lemma_pin(b: Board, r: int, c: int, v: i32)
    requires
        well_formed(b),
        on_board(r, c),
        b[r][c].len() >= 2,
    ensures
        well_formed(pin(b, r, c, v)),
        total(pin(b, r, c, v)) < total(b),
        b[r][c].contains(v) ==> refines(pin(b, r, c, v), b),
{
    lemma_only(v);
    lemma_with_cell(b, r, c, only(v));
    assert forall|i: int, j: int| #[trigger] on_board(i, j) && b[r][c].contains(v) implies pin(
        b,
        r,
        c,
        v,
    )[i][j].subset_of(b[i][j]) by {}
}

/// Candidates are skipped in no other way than by trying them: from `low`
/// and from `high` upwards the search returns the same if the cell has no
/// candidate from `low` up to `high`.
pub proof fn lemma_try_above_skips(p: Board, r: int, c: int, low: int, high: int)
    requires
        well_formed(p),
        on_board(r, c),
        p[r][c].len() >= 2,
        low <= high,
        forall|v: i32| low <= v < high ==> !p[r][c].contains(v),
    ensures
        try_above(p, r, c, low) == try_above(p, r, c, high),
    decreases high - low,
{
    if low < high {
        lemma_try_above_skips(p, r, c, low + 1, high);
        if low > i32::MAX {
            lemma_try_above_past(p, r, c, low + 1);
        }
    }
}

proof fn lemma_try_above_past(p: Board, r: int, c: int, low: int)
    requires
        well_formed(p),
        on_board(r, c),
        p[r][c].len() >= 2,
        low > i32::MAX,
    ensures
        try_above(p, r, c, low) is None,
{
}

/// Whatever the search returns is a solution of the puzzle it was given.
pub proof fn lemma_search_sound(b: Board)
    requires
        well_formed(b),
    ensures
        search(b) matches Some(s) ==> solves(s, b),
    decreases total(b), 2nat, 0nat,
{
    let p = propagate_fully(b);
    lemma_propagate_fully(b);
    lemma_refines_total(p, b);
    if is_complete(p) {
    } else if is_impossible(p) {
    } else {
        lemma_branch_cell(p);
        let (r, c) = branch_cell(p);
        lemma_try_above_sound(p, r, c, i32::MIN as int);
        if let Some(s) = search(b) {
            lemma_refines_transitive(s, p, b);
        }
    }
}

/// Whatever the search returns after branching is a solution of the board
/// that it branched on.
pub proof fn lemma_try_above_sound(p: Board, r: int, c: int, low: int)
    requires
        well_formed(p),
        on_board(r, c),
        p[r][c].len() >= 2,
    ensures
        try_above(p, r, c, low) matches Some(s) ==> solves(s, p),
    decreases total(p), 1nat, i32::MAX + 1 - low,
{
    if low > i32::MAX {
    } else if i32::MIN <= low && p[r][c].contains(low as i32) {
        let next = pin(p, r, c, low as i32);
        lemma_pin(p, r, c, low as i32);
        lemma_search_sound(next);
        if let Some(s) = search(next) {
            lemma_refines_transitive(s, next, p);
        } else {
            lemma_try_above_sound(p, r, c, low + 1);
        }
    } else {
        lemma_try_above_sound(p, r, c, low + 1);
    }
}

/// A solution of a board also solves the board with one cell fixed to the
/// value that the solution has there.
pub proof fn lemma_solution_survives_pin(s: Board, p: Board, r: int, c: int)
    requires
        well_formed(p),
        on_board(r, c),
        solves(s, p),
    ensures
        p[r][c].contains(sole(s[r][c])),
        solves(s, pin(p, r, c, sole(s[r][c]))),
{
    let w = sole(s[r][c]);
    assert(s[r][c].len() == 1 && s[r][c].finite());
    lemma_sole(s[r][c]);
    assert(s[r][c].subset_of(p[r][c]));
    lemma_only(w);
    lemma_with_cell(p, r, c, only(w));
    assert forall|i: int, j: int| #[trigger] on_board(i, j) implies s[i][j].subset_of(
        pin(p, r, c, w)[i][j],
    ) by {
        assert(s[i][j].subset_of(p[i][j]));
    }
}

/// The search misses no solution: where it returns nothing, nothing solves
/// the puzzle.
pub proof fn lemma_search_complete(b: Board, s: Board)
    requires
        well_formed(b),
        search(b) is None,
    ensures
        !solves(s, b),
    decreases total(b), 2nat, 0nat,
{
    let p = propagate_fully(b);
    lemma_propagate_fully(b);
    lemma_propagate_fully_keeps_solutions(b, s);
    lemma_refines_total(p, b);
    if solves(s, p) {
        if is_impossible(p) {
            let (r, c) = choose|r: int, c: int| #[trigger] on_board(r, c) && p[r][c].len() == 0;
            assert(s[r][c].subset_of(p[r][c]));
            assert(s[r][c].len() == 1);
            lemma_len_subset(s[r][c], p[r][c]);
        } else {
            lemma_branch_cell(p);
            let (r, c) = branch_cell(p);
            lemma_solution_survives_pin(s, p, r, c);
            lemma_try_above_complete(p, r, c, i32::MIN as int, sole(s[r][c]), s);
        }
    }
}

/// Branching misses no solution: where trying the candidates from `low`
/// upwards returns nothing, nothing solves the board with the cell fixed to
/// any of them.
pub proof fn lemma_try_above_complete(p: Board, r: int, c: int, low: int, w: i32, s: Board)
    requires
        well_formed(p),
        on_board(r, c),
        p[r][c].len() >= 2,
        try_above(p, r, c, low) is None,
        low <= w,
        p[r][c].contains(w),
    ensures
        !solves(s, pin(p, r, c, w)),
    decreases total(p), 1nat, i32::MAX + 1 - low,
{
    if low == w {
        lemma_pin(p, r, c, w);
        lemma_search_complete(pin(p, r, c, w), s);
    } else {
        lemma_try_above_complete(p, r, c, low + 1, w, s);
    }
}

/// A board that is a solution already is what the search returns for it.
pub proof fn lemma_search_keeps_solution(b: Board)
    requires
        is_solution(b),
    ensures
        search(b) == Some(b),
{
    lemma_settled_is_fixed(b);
}

/// Where a puzzle has exactly one solution, the search returns it.
pub proof fn lemma_search_finds_the_only_solution(b: Board, s: Board)
    requires
        well_formed(b),
        solves(s, b),
        forall|t: Board| solves(t, b) ==> t == s,
    ensures
        search(b) == Some(s),
{
    lemma_search_sound(b);
    if search(b) is None {
        lemma_search_complete(b, s);
    }
}

impl Grid {
    /// Searches for a solution of the puzzle.
    ///
    /// The grid itself is left as it is: the search works on copies. A
    /// returned grid assigns every cell a value that was a candidate for it
    /// and gives no two cells of a row, a column or a block the same value.
    /// `None` means that the puzzle has no solution.
    pub fn solve(&self) -> (result: Option<Self>)
        ensures
            match result {
                Some(solution) => {
                    &&& search(self@) == Some(solution@)
                    &&& solves(solution@, self@)
                    &&& in_range(self@) ==> in_range(solution@) && houses_filled(solution@)
                    &&& is_solution(self@) ==> solution@ == self@
                },
                None => search(self@) is None && !solvable(self@),
            },
        decreases total(self@),
    {
        proof {
            self.lemma_well_formed();
            lemma_propagate_fully(self@);
            lemma_search_sound(self@);
            if is_solution(self@) {
                lemma_search_keeps_solution(self@);
            }
            if let Some(s) = search(self@) {
                if in_range(self@) {
                    lemma_refines_in_range(s, self@);
                    lemma_solution_fills_houses(s);
                }
            }
            assert forall|s: Board| search(self@) is None implies !solves(s, self@) by {
                lemma_search_complete(self@, s);
            }
        }
        let mut puzzle = self.clone();
        puzzle.propagate();
        if puzzle.complete() {
            return Some(puzzle);
        }
        if puzzle.is_impossible() {
            return None;
        }
        let ghost p = puzzle@;
        proof {
            lemma_refines_total(p, self@);
            lemma_branch_cell(p);
        }
        match puzzle.most_constrained_variable() {
            None => {
                proof {
                    let (r, c) = branch_cell(p);
                    assert(on_board(r, c));
                }
                None
            },
            Some((row, col)) => {
                proof {
                    lemma_most_constrained_unique(
                        p,
                        row as int,
                        col as int,
                        branch_cell(p).0,
                        branch_cell(p).1,
                    );
                }
                let options = candidates(&puzzle.data[row][col]);
                let ghost mut low: int = i32::MIN as int;
                let mut k: usize = 0;
                while k < options.len()
                    invariant
                        k <= options.len(),
                        row < 9,
                        col < 9,
                        puzzle@ == p,
                        well_formed(p),
                        well_formed(self@),
                        search(self@) matches Some(s) ==> solves(s, self@) && (in_range(self@)
                            ==> in_range(s) && houses_filled(s)) && (is_solution(self@) ==> s
                            == self@),
                        p[row as int][col as int].len() >= 2,
                        total(p) <= total(self@),
                        options@.to_set() == p[row as int][col as int],
                        strictly_ascending(options@),
                        i32::MIN <= low,
                        k > 0 ==> low == options@[k - 1] + 1,
                        k == 0 ==> low == i32::MIN,
                        try_above(p, row as int, col as int, low) == search(self@),
                    decreases options.len() - k,
                {
                    let value = options[k];
                    proof {
                        assert(on_board(row as int, col as int));
                        assert(options@.to_set().contains(options@[k as int]));
                        assert forall|v: i32| low <= v < value implies !p[row as int][col as int].contains(
                            v,
                        ) by {
                            if options@.to_set().contains(v) {
                                let n = choose|n: int| 0 <= n < options@.len() && options@[n] == v;
                                if n < k {
                                    assert(options@[n] <= options@[k - 1]);
                                } else if n > k {
                                    assert(options@[k as int] < options@[n]);
                                }
                            }
                        }
                        lemma_try_above_skips(p, row as int, col as int, low, value as int);
                        lemma_pin(p, row as int, col as int, value);
                    }
                    let mut next = puzzle.clone();
                    next.data[row][col].clear();
                    next.data[row][col].insert(value);
                    assert(next@ =~~= pin(p, row as int, col as int, value));
                    let possible_solution = next.solve();
                    if possible_solution.is_some() {
                        return possible_solution;
                    }
                    proof {
                        low = value + 1;
                    }
                    k = k + 1;
                }
                proof {
                    assert forall|v: i32| low <= v < i32::MAX + 1 implies !p[row as int][col as int].contains(
                        v,
                    ) by {
                        if options@.to_set().contains(v) {
                            let n = choose|n: int| 0 <= n < options@.len() && options@[n] == v;
                            if n < k - 1 {
                                assert(options@[n] < options@[k - 1]);
                            }
                        }
                    }
                    lemma_try_above_skips(p, row as int, col as int, low, i32::MAX + 1);
                }
                None
            },
        }
    }
}

} // verus!
