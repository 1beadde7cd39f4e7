//! The candidate set of one cell.

use std::collections::BTreeSet;
use vstd::prelude::*;
use vstd::seq_lib::seq_to_set_is_finite;
use vstd::std_specs::btree::{
    axiom_increasing_seq_meaning, axiom_spec_btree_keys_iter, spec_btree_keys_iter,
};
use vstd::std_specs::cmp::OrdSpec;
use vstd::std_specs::iter::IteratorSpec;

verus! {

/// The values that are still possible for one cell.
///
/// No candidate left means that the cell cannot be filled, exactly one that
/// the cell is assigned, two or more that it is still open.
pub type CellAssignment = BTreeSet<i32>;

/// The digits of the puzzle, 1 to 9.
pub open spec fn all_digits() -> Set<i32> {
    Set::new(|v: i32| 1 <= v <= 9)
}

/// The set that holds `v` and nothing else.
pub open spec fn only(v: i32) -> Set<i32> {
    Set::<i32>::empty().insert(v)
}

/// The value of an assigned cell: the one member of a set of size one.
pub open spec fn sole(s: Set<i32>) -> i32 {
    s.choose()
}

/// Whether `s` lists its members without repetition, smallest first.
pub open spec fn strictly_ascending(s: Seq<i32>) -> bool {
    forall|i: int, j: int| 0 <= i < j < s.len() ==> s[i] < s[j]
}

/// The candidate set of a tree set is finite.
pub proof fn lemma_cell_finite(cell: &CellAssignment)
    ensures
        cell@.finite(),
{
    axiom_spec_btree_keys_iter(cell);
    seq_to_set_is_finite(spec_btree_keys_iter(cell).remaining().unref());
}

/// What walking a tree set yields: each member once, smallest first.
pub proof fn lemma_walk(cell: &CellAssignment)
    ensures
        spec_btree_keys_iter(cell).remaining().unref().to_set() == cell@,
        spec_btree_keys_iter(cell).remaining().unref().len() == cell@.len(),
        strictly_ascending(spec_btree_keys_iter(cell).remaining().unref()),
{
    axiom_spec_btree_keys_iter(cell);
    let refs = spec_btree_keys_iter(cell).remaining();
    axiom_increasing_seq_meaning(refs);
    assert forall|i: int, j: int| 0 <= i < j < refs.len() implies refs.unref()[i]
        < refs.unref()[j] by {
        assert(OrdSpec::cmp_spec(&refs[i], &refs[j]) is Less);
    }
}

/// A finite set of size one holds its chosen member and nothing else.
pub proof fn lemma_sole(s: Set<i32>)
    requires
        s.finite(),
        s.len() == 1,
    ensures
        s == only(sole(s)),
        s.contains(sole(s)),
{
    Set::lemma_is_singleton(s);
    assert(s.contains(s.choose()));
    assert(s =~= only(sole(s)));
}

/// The set of one value has size one, and that value is its sole member.
pub proof fn lemma_only(v: i32)
    ensures
        only(v).finite(),
        only(v).len() == 1,
        sole(only(v)) == v,
{
    lemma_sole(only(v));
}

/// The nine digits form a finite set of size nine.
pub proof fn lemma_all_digits()
    ensures
        all_digits().finite(),
        all_digits().len() == 9,
{
    let s = Set::<i32>::empty().insert(1).insert(2).insert(3).insert(4).insert(5).insert(6).insert(
        7,
    ).insert(8).insert(9);
    assert(s =~= all_digits());
}

/// The cell of which nothing is known yet: every digit is a candidate.
pub fn empty_cell() -> (cell: CellAssignment)
    ensures
        cell@ == all_digits(),
{
    let mut cell: BTreeSet<i32> = BTreeSet::new();
    let mut i: i32 = 1;
    while i <= 9
        invariant
            1 <= i <= 10,
            cell@ == Set::<i32>::new(|v: i32| 1 <= v < i),
        decreases 10 - i,
    {
        cell.insert(i);
        i = i + 1;
    }
    cell
}

/// The cell that is fixed to `v`.
pub fn singleton(v: i32) -> (cell: CellAssignment)
    ensures
        cell@ == only(v),
{
    let mut cell: BTreeSet<i32> = BTreeSet::new();
    cell.insert(v);
    cell
}

/// A cell is assigned when exactly one candidate is left.
pub fn is_assigned(cell: &CellAssignment) -> (assigned: bool)
    ensures
        assigned == (cell@.len() == 1),
{
    cell.len() == 1
}

/// A cell is determined when at most one candidate is left: it is assigned,
/// or it cannot be filled at all.
pub fn is_determined(cell: &CellAssignment) -> (determined: bool)
    ensures
        determined == (cell@.len() <= 1),
{
    cell.len() <= 1
}

/// The candidates of a cell, smallest first.
pub fn candidates(cell: &CellAssignment) -> (list: Vec<i32>)
    ensures
        list@.to_set() == cell@,
        list@.len() == cell@.len(),
        strictly_ascending(list@),
{
    let ghost all = spec_btree_keys_iter(cell).remaining().unref();
    let mut list: Vec<i32> = Vec::new();
    for v in it: cell.iter()
        invariant
            it.seq().unref() == all,
            list@ == all.take(it.index()),
    {
        list.push(*v);
        assert(all.take(it.index() + 1) =~= all.take(it.index()).push(all[it.index()]));
    }
    proof {
        lemma_walk(cell);
        assert(list@ =~= all);
    }
    list
}

} // verus!
