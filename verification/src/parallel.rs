//! Work on the items of a vector, handed out to the worker threads.

use rayon::iter::IntoParallelRefIterator;
use rayon::iter::ParallelIterator;
use vstd::prelude::*;

verus! {

/// Applies `f` to every item of `items` on rayon's thread pool and collects
/// the results in the order of the items: `par_iter`, `map` and `collect` of
/// rayon, of which this contract claims that `f` is called on the items of the
/// vector, on nothing else, and that the result at each position was returned
/// by a call on the item at that position.
#[verifier::external_body]
pub(crate) fn par_map<T: Sync, U: Send, F: Fn(&T) -> U + Sync + Send>(items: &Vec<T>, f: F) -> (out:
    Vec<U>)
    requires
        forall|i: int| 0 <= i < items@.len() ==> call_requires(f, (&#[trigger] items@[i],)),
    ensures
        out@.len() == items@.len(),
        forall|i: int|
            0 <= i < items@.len() ==> call_ensures(f, (&items@[i],), #[trigger] out@[i]),
{
    items.par_iter().map(f).collect()
}

} // verus!
