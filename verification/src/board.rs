//! The mathematical model of a puzzle: a 9x9 board of candidate sets, the
//! peer relation between its cells, and what it means to solve it.

use crate::cell::{all_digits, lemma_all_digits, lemma_sole, sole};
use vstd::prelude::*;
use vstd::set_lib::{lemma_len_subset, lemma_subset_equality};

verus! {

/// Nine rows of nine candidate sets.
pub type Board = Seq<Seq<Set<i32>>>;

/// The three kinds of group in which a value may occur only once.
pub enum House {
    Row,
    Column,
    Block,
}

/// Whether `(r, c)` names a cell.
pub open spec fn on_board(r: int, c: int) -> bool {
    0 <= r < 9 && 0 <= c < 9
}

/// A board has nine rows of nine cells, each a finite set.
pub open spec fn well_formed(b: Board) -> bool {
    &&& b.len() == 9
    &&& forall|r: int| 0 <= r < 9 ==> (#[trigger] b[r]).len() == 9
    &&& forall|r: int, c: int| #[trigger] on_board(r, c) ==> b[r][c].finite()
}

/// Every candidate on the board is a digit from 1 to 9.
pub open spec fn in_range(b: Board) -> bool {
    forall|r: int, c: int| #[trigger] on_board(r, c) ==> b[r][c].subset_of(all_digits())
}

/// The board on which every digit is a candidate of every cell.
pub open spec fn blank() -> Board {
    Seq::new(9, |r: int| Seq::new(9, |c: int| all_digits()))
}

/// The board `b` with cell `(r, c)` replaced by `s`.
pub open spec fn with_cell(b: Board, r: int, c: int, s: Set<i32>) -> Board {
    b.update(r, b[r].update(c, s))
}

/// Every cell is assigned.
pub open spec fn is_complete(b: Board) -> bool {
    forall|r: int, c: int| #[trigger] on_board(r, c) ==> b[r][c].len() == 1
}

/// Some cell has no candidate left.
pub open spec fn is_impossible(b: Board) -> bool {
    exists|r: int, c: int| #[trigger] on_board(r, c) && b[r][c].len() == 0
}

/// Cell by cell, `a` keeps only candidates that `b` has.
pub open spec fn refines(a: Board, b: Board) -> bool {
    forall|r: int, c: int| #[trigger] on_board(r, c) ==> a[r][c].subset_of(b[r][c])
}

/// The first row or column of the block that holds row or column `k`.
pub open spec fn block_anchor(k: int) -> int {
    k - k % 3
}

/// Whether `(i, j)` is another cell in the house of kind `h` around `(r, c)`.
pub open spec fn shares(h: House, r: int, c: int, i: int, j: int) -> bool {
    &&& i != r || j != c
    &&& match h {
        House::Row => i == r,
        House::Column => j == c,
        House::Block => block_anchor(i) == block_anchor(r) && block_anchor(j) == block_anchor(c),
    }
}

/// Two distinct cells are peers when they share a row, a column or a block.
pub open spec fn is_peer(r: int, c: int, i: int, j: int) -> bool {
    &&& on_board(r, c)
    &&& on_board(i, j)
    &&& (shares(House::Row, r, c, i, j) || shares(House::Column, r, c, i, j) || shares(
        House::Block,
        r,
        c,
        i,
        j,
    ))
}

/// No assigned cell has its value among the candidates of a peer.
pub open spec fn is_settled(b: Board) -> bool {
    forall|r: int, c: int, i: int, j: int|
        #[trigger] is_peer(r, c, i, j) && b[r][c].len() == 1 ==> !b[i][j].contains(sole(b[r][c]))
}

/// A solution assigns every cell and gives no two peers the same value.
pub open spec fn is_solution(s: Board) -> bool {
    &&& well_formed(s)
    &&& is_complete(s)
    &&& is_settled(s)
}

/// A solution of the puzzle `b` picks the value of each cell among the
/// candidates `b` has for it.
pub open spec fn solves(s: Board, b: Board) -> bool {
    is_solution(s) && refines(s, b)
}

/// Whether the puzzle has a solution at all.
pub open spec fn solvable(b: Board) -> bool {
    exists|s: Board| solves(s, b)
}

/// The cell with number `k`, where the cells are numbered row by row from 0.
pub open spec fn nth_cell(b: Board, k: int) -> Set<i32> {
    b[k / 9][k % 9]
}

/// The `k`-th of the nine cells of the house of kind `h` that holds `(r, c)`.
pub open spec fn house_cell(h: House, r: int, c: int, k: int) -> (int, int) {
    match h {
        House::Row => (r, k),
        House::Column => (k, c),
        House::Block => (block_anchor(r) + k / 3, block_anchor(c) + k % 3),
    }
}

/// The nine values that a complete board has in the house of kind `h` that
/// holds `(r, c)`.
pub open spec fn house_values(s: Board, h: House, r: int, c: int) -> Seq<i32> {
    Seq::new(9, |k: int| sole(s[house_cell(h, r, c, k).0][house_cell(h, r, c, k).1]))
}

/// Every row, every column and every block holds each digit from 1 to 9
/// exactly once.
pub open spec fn houses_filled(s: Board) -> bool {
    forall|h: House, r: int, c: int|
        on_board(r, c) ==> (#[trigger] house_values(s, h, r, c)).no_duplicates() && house_values(
            s,
            h,
            r,
            c,
        ).to_set() == all_digits()
}

/// The number of candidates in the first `n` cells, counted row by row.
pub open spec fn count_upto(b: Board, n: nat) -> nat
    decreases n,
{
    if n == 0 {
        0
    } else {
        count_upto(b, (n - 1) as nat) + nth_cell(b, n - 1).len()
    }
}

/// The number of candidates on the whole board.
pub open spec fn total(b: Board) -> nat {
    count_upto(b, 81)
}

/// Refinement is transitive.
pub proof fn lemma_refines_transitive(a: Board, b: Board, c: Board)
    requires
        refines(a, b),
        refines(b, c),
    ensures
        refines(a, c),
{
    assert forall|i: int, j: int| #[trigger] on_board(i, j) implies a[i][j].subset_of(c[i][j]) by {
        assert(a[i][j].subset_of(b[i][j]));
        assert(b[i][j].subset_of(c[i][j]));
    }
}

/// Two well-formed boards that refine each other are the same board.
pub proof fn lemma_refines_antisymmetric(a: Board, b: Board)
    requires
        well_formed(a),
        well_formed(b),
        refines(a, b),
        refines(b, a),
    ensures
        a == b,
{
    assert forall|i: int, j: int| 0 <= i < 9 && 0 <= j < 9 implies a[i][j] =~= b[i][j] by {
        assert(on_board(i, j));
    }
    assert(a =~~= b);
}

/// A board that refines another has, in any first `n` cells, no more
/// candidates than the other.
pub proof fn lemma_count_monotone(a: Board, b: Board, n: nat)
    requires
        well_formed(a),
        well_formed(b),
        refines(a, b),
        n <= 81,
    ensures
        count_upto(a, n) <= count_upto(b, n),
    decreases n,
{
    if n > 0 {
        lemma_count_monotone(a, b, (n - 1) as nat);
        assert(on_board((n - 1) / 9, (n - 1) % 9));
        lemma_len_subset(nth_cell(a, n - 1), nth_cell(b, n - 1));
    }
}

/// Refinement cannot raise the number of candidates.
pub proof fn lemma_refines_total(a: Board, b: Board)
    requires
        well_formed(a),
        well_formed(b),
        refines(a, b),
    ensures
        total(a) <= total(b),
{
    lemma_count_monotone(a, b, 81);
}

proof fn lemma_same_count_same_cells(a: Board, b: Board, n: nat)
    requires
        well_formed(a),
        well_formed(b),
        refines(a, b),
        n <= 81,
        count_upto(a, n) == count_upto(b, n),
    ensures
        forall|k: int| 0 <= k < n ==> #[trigger] nth_cell(a, k) == nth_cell(b, k),
    decreases n,
{
    if n > 0 {
        lemma_count_monotone(a, b, (n - 1) as nat);
        assert(on_board((n - 1) / 9, (n - 1) % 9));
        lemma_len_subset(nth_cell(a, n - 1), nth_cell(b, n - 1));
        lemma_subset_equality(nth_cell(a, n - 1), nth_cell(b, n - 1));
        lemma_same_count_same_cells(a, b, (n - 1) as nat);
    }
}

/// A board that refines another and has as many candidates is the same board.
pub proof fn lemma_refines_same_total(a: Board, b: Board)
    requires
        well_formed(a),
        well_formed(b),
        refines(a, b),
        total(a) == total(b),
    ensures
        a == b,
{
    lemma_same_count_same_cells(a, b, 81);
    assert forall|i: int, j: int| 0 <= i < 9 && 0 <= j < 9 implies a[i][j] == b[i][j] by {
        assert(nth_cell(a, 9 * i + j) == nth_cell(b, 9 * i + j));
    }
    assert(a =~~= b);
}

proof fn lemma_with_cell_count(b: Board, r: int, c: int, s: Set<i32>, n: nat)
    requires
        well_formed(b),
        on_board(r, c),
        n <= 81,
    ensures
        count_upto(with_cell(b, r, c, s), n) == if n > 9 * r + c {
            count_upto(b, n) - b[r][c].len() + s.len()
        } else {
            count_upto(b, n) as int
        },
    decreases n,
{
    if n > 0 {
        lemma_with_cell_count(b, r, c, s, (n - 1) as nat);
        let k = n - 1;
        assert(on_board(k / 9, k % 9));
        if k == 9 * r + c {
            assert(nth_cell(with_cell(b, r, c, s), k) == s);
            assert(nth_cell(b, k) == b[r][c]);
        } else {
            assert(nth_cell(with_cell(b, r, c, s), k) == nth_cell(b, k));
        }
    }
}

/// Replacing one cell changes the number of candidates by the difference in
/// the size of that cell, and keeps the board well formed.
pub proof fn lemma_with_cell(b: Board, r: int, c: int, s: Set<i32>)
    requires
        well_formed(b),
        on_board(r, c),
        s.finite(),
    ensures
        well_formed(with_cell(b, r, c, s)),
        total(with_cell(b, r, c, s)) == total(b) - b[r][c].len() + s.len(),
        with_cell(b, r, c, s)[r][c] == s,
        forall|i: int, j: int| #[trigger]
            on_board(i, j) && (i != r || j != c) ==> with_cell(b, r, c, s)[i][j] == b[i][j],
{
    lemma_with_cell_count(b, r, c, s, 81);
    let w = with_cell(b, r, c, s);
    assert forall|i: int, j: int| #[trigger] on_board(i, j) implies w[i][j].finite() by {
        assert(b[i][j].finite());
    }
}

/// In a solution whose values are digits, the nine values of any row, column
/// or block are the digits from 1 to 9, each once.
pub proof fn lemma_solution_fills_house(s: Board, h: House, r: int, c: int)
    requires
        is_solution(s),
        in_range(s),
        on_board(r, c),
    ensures
        house_values(s, h, r, c).no_duplicates(),
        house_values(s, h, r, c).to_set() == all_digits(),
{
    let values = house_values(s, h, r, c);
    assert forall|k: int| 0 <= k < 9 implies {
        let (i, j) = #[trigger] house_cell(h, r, c, k);
        on_board(i, j) && s[i][j].contains(values[k]) && all_digits().contains(values[k])
    } by {
        let (i, j) = house_cell(h, r, c, k);
        assert(on_board(i, j));
        lemma_sole(s[i][j]);
        assert(s[i][j].subset_of(all_digits()));
    }
    assert forall|m: int, n: int| 0 <= m < 9 && 0 <= n < 9 && m != n implies values[m]
        != values[n] by {
        let (i, j) = house_cell(h, r, c, m);
        let (x, y) = house_cell(h, r, c, n);
        assert(is_peer(i, j, x, y));
    }
    values.unique_seq_to_set();
    lemma_all_digits();
    assert(values.to_set().subset_of(all_digits())) by {
        assert forall|v: i32| values.to_set().contains(v) implies all_digits().contains(v) by {
            let k = choose|k: int| 0 <= k < values.len() && values[k] == v;
            assert(house_cell(h, r, c, k) == house_cell(h, r, c, k));
        }
    }
    lemma_subset_equality(values.to_set(), all_digits());
}

/// A solution whose values are digits has every digit exactly once in each
/// row, each column and each block.
pub proof fn lemma_solution_fills_houses(s: Board)
    requires
        is_solution(s),
        in_range(s),
    ensures
        houses_filled(s),
{
    assert forall|h: House, r: int, c: int| on_board(r, c) implies (#[trigger] house_values(
        s,
        h,
        r,
        c,
    )).no_duplicates() && house_values(s, h, r, c).to_set() == all_digits() by {
        lemma_solution_fills_house(s, h, r, c);
    }
}

/// What refines a board of digits is a board of digits.
pub proof fn lemma_refines_in_range(a: Board, b: Board)
    requires
        refines(a, b),
        in_range(b),
    ensures
        in_range(a),
{
    assert forall|i: int, j: int| #[trigger] on_board(i, j) implies a[i][j].subset_of(
        all_digits(),
    ) by {
        assert(a[i][j].subset_of(b[i][j]));
        assert(b[i][j].subset_of(all_digits()));
    }
}

} // verus!
