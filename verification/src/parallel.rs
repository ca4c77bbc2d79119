//! Data-parallel building blocks, run on rayon's worker pool.

use crate::rank::{rank_order, ranks_before, ScoredMatch};
use rayon::iter::{IntoParallelRefIterator, ParallelIterator};
use rayon::slice::ParallelSliceMut;
use vstd::prelude::*;

verus! {

/// `par_iter().map(f).collect()` of rayon on a slice: `f` is applied to every
/// element, on whatever worker thread, and the results are gathered in the
/// order of the elements they came from.
#[verifier::external_body]
pub(crate) fn par_map<T: Sync, U: Send, F: Fn(&T) -> U + Sync + Send>(items: &[T], f: F) -> (out:
    Vec<U>)
    requires
        forall|i: int| 0 <= i < items@.len() ==> call_requires(f, (&#[trigger] items@[i],)),
    ensures
        out@.len() == items@.len(),
        forall|i: int| 0 <= i < items@.len() ==> call_ensures(f, (&items@[i],), #[trigger] out@[i]),
{
    items.par_iter().map(f).collect()
}

/// `par_sort_unstable_by` of rayon with `rank_order` as the comparator, which
/// is a total order: the entries are rearranged, none lost or added, so that
/// no entry stands behind one that it ranks before.
#[verifier::external_body]
pub(crate) fn sort_by_rank(entries: &mut Vec<ScoredMatch>)
    ensures
        final(entries)@.to_multiset() == old(entries)@.to_multiset(),
        forall|a: int, b: int|
            0 <= a < b < final(entries)@.len() ==> !ranks_before(
                #[trigger] final(entries)@[b],
                #[trigger] final(entries)@[a],
            ),
{
    entries.par_sort_unstable_by(|first, second| rank_order(first, second));
}

} // verus!
