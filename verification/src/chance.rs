//! The one source of chance: a uniform pick among equally good ways.

use vstd::prelude::*;
use rand::seq::SliceRandom;

verus! {

/// Picks one of `options` with `rand::seq::SliceRandom::choose`, drawing from
/// `rand::thread_rng()`. The contract claims what that method documents:
/// nothing is picked from an empty list, and what is picked from any other
/// list is one of its entries. Which entry comes back is left open.
#[verifier::external_body]
pub(crate) fn choose_one(options: &Vec<(u128, i64, i64)>) -> (pick: Option<(u128, i64, i64)>)
    ensures
        options@.len() == 0 ==> pick is None,
        options@.len() > 0 ==> pick is Some && options@.contains(pick->0),
{
    options.choose(&mut rand::thread_rng()).copied()
}

} // verus!
