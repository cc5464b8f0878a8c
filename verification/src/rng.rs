//! Random draws, taken from the thread-local generator of the rand crate.

use vstd::prelude::*;

verus! {

/// Relies on rand's `Rng::gen_range` over `0..bound`: the draw lies below
/// the bound, which must be positive (an empty range panics).
#[verifier::external_body]
pub(crate) fn rand_u128_below(bound: u128) -> (r: u128)
    requires
        bound > 0,
    ensures
        r < bound,
{
    rand::Rng::gen_range(&mut rand::thread_rng(), 0..bound)
}

/// Relies on rand's `Rng::gen_range` over `0..bound`: the draw lies below
/// the bound, which must be positive (an empty range panics).
#[verifier::external_body]
pub(crate) fn rand_usize_below(bound: usize) -> (r: usize)
    requires
        bound > 0,
    ensures
        r < bound,
{
    rand::Rng::gen_range(&mut rand::thread_rng(), 0..bound)
}

} // verus!
