//! The one place where chance enters: the choice of a first guess.

use rand::seq::SliceRandom;
use vstd::prelude::*;

verus! {

/// Calls `choose` of rand's `SliceRandom` on the thread's generator, which
/// returns nothing for an empty slice and otherwise one of its items. Which
/// item comes back is left open: two calls on one vector may differ.
#[verifier::external_body]
pub(crate) fn choose_one(items: &Vec<usize>) -> (picked: Option<usize>)
    ensures
        picked is None <==> items@.len() == 0,
        picked matches Some(x) ==> items@.contains(x),
{
    items.choose(&mut rand::thread_rng()).copied()
}

} // verus!
