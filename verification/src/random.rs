//! The engine's single source of randomness, used once per division to draw
//! priority ranks.

use vstd::prelude::*;

verus! {

/// Relies on `rand::Rng::gen_range` over the generator returned by
/// `rand::thread_rng`: for the non-empty range `0..bound` it returns a value
/// of that range, and panics only on an empty range, which the precondition
/// rules out. Nothing more is assumed of a random draw: two calls with the
/// same bound may differ.
#[verifier::external_body]
pub(crate) fn random_below(bound: usize) -> (r: usize)
    requires
        bound >= 1,
    ensures
        r < bound,
{
    rand::Rng::gen_range(&mut rand::thread_rng(), 0..bound)
}

} // verus!
