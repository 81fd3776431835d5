//! Trusted wrappers around the `rand` crate. Every verified caller states
//! what holds of every possible outcome, never of a particular one.
//! All three draw from `rand::thread_rng()`, which can abort on first use
//! if the operating system's entropy source is unavailable — an
//! environmental failure of the same kind as running out of memory.

use vstd::prelude::*;

use crate::rect_inventory::RectangleMetadata;

verus! {

/// Relies on rand::Rng::gen_range on rand::thread_rng(): a random index
/// drawn from 0..n, so always below n.
#[verifier::external_body]
pub(crate) fn rand_index(n: usize) -> (r: usize)
    requires
        n > 0,
    ensures
        r < n,
{
    rand::Rng::gen_range(&mut rand::thread_rng(), 0..n)
}

/// Relies on rand::Rng::gen::<bool> on rand::thread_rng(): a random draw
/// with no promised value.
#[verifier::external_body]
pub(crate) fn rand_bool() -> (r: bool) {
    rand::Rng::gen::<bool>(&mut rand::thread_rng())
}

/// Relies on rand::seq::SliceRandom::shuffle on rand::thread_rng(): the
/// slice is permuted in place, so it holds the same elements afterwards.
#[verifier::external_body]
pub(crate) fn shuffle_rects(v: &mut Vec<RectangleMetadata>)
    ensures
        final(v)@.to_multiset() == old(v)@.to_multiset(),
        final(v)@.len() == old(v)@.len(),
{
    rand::seq::SliceRandom::shuffle(v.as_mut_slice(), &mut rand::thread_rng())
}

} // verus!
