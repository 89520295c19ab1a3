//! The random source threaded through shuffling and remainder distribution.
//!
//! Randomness is opaque: each wrapper states only what holds of every possible
//! outcome, so everything proved downstream holds whatever the source returns.

use vstd::prelude::*;
use crate::types::Competitor;
use crate::types::comps_view;
use crate::types::names_of;
use rand::Rng;
use rand::seq::SliceRandom;

verus! {

/// Declares rand's `StdRng` so the seedable random source can be threaded
/// through the library's functions; its state stays opaque.
#[verifier::external_type_specification]
#[verifier::external_body]
pub struct ExStdRng(rand::rngs::StdRng);

/// Relies on rand's `Rng::gen_range`: the sample lies in the given range, and
/// the call panics only on an empty range, which the precondition excludes.
#[verifier::external_body]
pub(crate) fn rng_below(rng: &mut rand::rngs::StdRng, n: u64) -> (r: u64)
    requires
        n >= 1,
    ensures
        r < n,
{
    rng.gen_range(0..n)
}

/// Relies on rand's `SliceRandom::shuffle`: it permutes the slice in place, so
/// the multiset of competitors — and hence of their names — is unchanged.
#[verifier::external_body]
pub(crate) fn shuffle_competitors(v: &mut Vec<Competitor>, rng: &mut rand::rngs::StdRng)
    ensures
        final(v)@.len() == old(v)@.len(),
        comps_view(final(v)@).to_multiset() == comps_view(old(v)@).to_multiset(),
        names_of(comps_view(final(v)@)).to_multiset() == names_of(comps_view(old(v)@)).to_multiset(),
{
    v.as_mut_slice().shuffle(rng)
}

} // verus!
