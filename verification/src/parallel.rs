//! Handing independent work items to the thread pool.

use rayon::iter::{IntoParallelIterator, ParallelIterator};
use vstd::prelude::*;

verus! {

/// Runs `work` on every index below `count` on the rayon thread pool.
///
/// Calls `rayon`'s `into_par_iter` on the range `0..count`, then `map` and
/// `collect` into a `Vec`. What is believed of them: each index is handed to
/// `work`, and the results come back in index order, whatever thread ran them. As
/// with every collection, memory for the results is taken for granted.
#[verifier::external_body]
pub(crate) fn map_indices<R: Send, F: Fn(usize) -> R + Sync + Send>(
    count: usize,
    work: F,
) -> (results: Vec<R>)
    requires
        forall|i: usize| i < count ==> call_requires(work, (i,)),
    ensures
        results@.len() == count,
        forall|i: int|
            0 <= i < count ==> call_ensures(work, (i as usize,), #[trigger] results@[i]),
{
    (0..count).into_par_iter().map(work).collect()
}

} // verus!
