//! The calls that the statistics make into std's sort and into itertools.

use crate::model::ascending;
use itertools::Itertools;
use vstd::prelude::*;

verus! {

/// No entry of `runs` has a larger count than `c`.
pub open spec fn top_count(runs: Seq<(i32, usize)>, c: usize) -> bool {
    forall|i: int| 0 <= i < runs.len() ==> runs[i].1 <= c
}

/// Relies on `slice::sort`: it puts the elements in ascending order and keeps
/// each of them.
#[verifier::external_body]
pub(crate) fn sort_ascending(v: &mut Vec<i32>)
    ensures
        ascending(final(v)@),
        final(v)@.to_multiset() == old(v)@.to_multiset(),
{
    v.sort();
}

/// Relies on itertools' `max_set_by_key`: every entry whose count is the
/// largest, in the order they stand in `runs` (empty for no entries).
#[verifier::external_body]
pub(crate) fn max_count_runs(runs: &Vec<(i32, usize)>) -> (r: Vec<(i32, usize)>)
    ensures
        r@ == runs@.filter(|e: (i32, usize)| top_count(runs@, e.1)),
{
    runs.iter().max_set_by_key(|e| e.1).into_iter().copied().collect()
}

} // verus!
