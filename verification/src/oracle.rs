//! The random source behind undirected decisions, from the `rand` crate.
//!
//! Nothing is claimed of a draw beyond the range it falls in.

use rand::Rng;
use vstd::prelude::*;

verus! {

/// Calls `Rng::gen_range(0, bound)` on the thread's generator: some index
/// below `bound`. The call panics on an empty range, so `bound` is positive.
#[verifier::external_body]
pub(crate) fn random_below(bound: usize) -> (pick: usize)
    requires
        bound > 0,
    ensures
        pick < bound,
{
    rand::thread_rng().gen_range(0, bound)
}

/// Calls `Rng::gen::<bool>` on the thread's generator: either truth value.
#[verifier::external_body]
pub(crate) fn random_polarity() -> (value: bool) {
    rand::thread_rng().gen()
}

} // verus!
