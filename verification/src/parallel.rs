//! Work that is handed out to threads item by item.
use rayon::iter::IntoParallelIterator;
use rayon::iter::ParallelIterator;
use vstd::prelude::*;

verus! {

/// Calls `f` for every index below `n`, on several threads, and collects what
/// it returned in the order of the indices.
///
/// The body is rayon's `into_par_iter` on a range, then `map` and `collect`
/// into a vector. What is taken on trust: the vector holds one item for each
/// index of the range, in order, and that item is what `f` returned for it.
#[verifier::external_body]
pub(crate) fn map_indices<R: Send, F: Fn(usize) -> R + Sync + Send>(n: usize, f: F) -> (items: Vec<R>)
    requires
        forall|i: usize| i < n ==> #[trigger] call_requires(f, (i,)),
    ensures
        items@.len() == n,
        forall|i: usize| i < n ==> call_ensures(f, (i,), #[trigger] items@[i as int]),
{
    (0..n).into_par_iter().map(f).collect()
}

} // verus!
