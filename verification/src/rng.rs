//! The library's one source of randomness, used to pick a playout action and
//! a rollout child uniformly.

use vstd::prelude::*;
use rand::Rng;

verus! {

/// Relies on `rand::thread_rng` and `rand::Rng::gen_range` over the half-open
/// range `0..n`: for a non-empty range the sampled value lies within it, so
/// the result is strictly below `n`. Nothing more is assumed of the sample.
#[verifier::external_body]
pub(crate) fn random_below(n: usize) -> (r: usize)
    requires
        n > 0,
    ensures
        r < n,
{
    rand::thread_rng().gen_range(0..n)
}

} // verus!
