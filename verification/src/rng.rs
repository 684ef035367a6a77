//! The engine's only source of randomness: thin trusted wrappers around the
//! `rand` crate. Everything proved about the engine holds for every outcome
//! these may produce.

use crate::names::views_of;
use rand::seq::SliceRandom;
use rand::Rng;
use vstd::prelude::*;

verus! {

/// Relies on `rand::seq::SliceRandom::shuffle`: a Fisher–Yates shuffle that
/// permutes the slice in place by swapping elements, so the multiset of
/// names is unchanged.
#[verifier::external_body]
pub(crate) fn shuffle_names(v: &mut Vec<String>)
    ensures
        views_of(final(v)@).to_multiset() == views_of(old(v)@).to_multiset(),
{
    v.shuffle(&mut rand::thread_rng());
}

/// Relies on `rand::Rng::gen_range`: a sample from the range `0..n`, which
/// is below `n`; the call panics only on an empty range, which `n > 0`
/// rules out.
#[verifier::external_body]
pub(crate) fn random_below(n: usize) -> (r: usize)
    requires
        n > 0,
    ensures
        r < n,
{
    rand::thread_rng().gen_range(0..n)
}

} // verus!
