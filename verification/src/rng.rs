//! Trusted wrappers over the `rand` crate: the only sources of randomness
//! the library uses. Nothing is promised of the drawn values beyond their
//! range, so every caller is verified for every outcome.

use vstd::prelude::*;
use rand::Rng;

verus! {

/// Relies on `rand::rngs::ThreadRng` through `Rng::gen::<u64>`: a fresh
/// 64-bit key. Nothing can be promised of the value.
#[verifier::external_body]
pub fn random_u64() -> u64 {
    rand::thread_rng().gen::<u64>()
}

/// Relies on `rand::Rng::gen_range` over `lo..hi`: a value in `[lo, hi)`.
/// The call panics on an empty range, which the precondition rules out.
#[verifier::external_body]
pub fn random_i64_in(lo: i64, hi: i64) -> (r: i64)
    requires
        lo < hi,
    ensures
        lo <= r < hi,
{
    rand::thread_rng().gen_range(lo..hi)
}

} // verus!
