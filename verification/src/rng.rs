use vstd::prelude::*;

verus! {

/// Relies on `rand::random`: a fresh pseudo-random value on every call.
/// Nothing is promised of the result; every caller is verified for every
/// possible seed, so the randomness only shuffles equal-priority ties.
#[verifier::external_body]
pub(crate) fn draw_seed() -> u64 {
    rand::random::<u64>()
}

} // verus!
