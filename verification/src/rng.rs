//! Randomness sources. Nothing can be promised of the values drawn, so the
//! contracts state shape only; all logic that consumes the draws is verified
//! for every possible outcome.

use vstd::prelude::*;

use rand::RngCore;
use rand::SeedableRng;

verus! {

/// A seeded deterministic random generator of the rand crate, kept opaque.
#[verifier::external_type_specification]
#[verifier::external_body]
pub struct ExStdRng(rand::rngs::StdRng);

/// Relies on `rand::rngs::OsRng::fill_bytes`: fills the buffer in place,
/// leaving its length unchanged.
#[verifier::external_body]
pub fn os_random_bytes(n: usize) -> (r: Vec<u8>)
    ensures
        r@.len() == n,
{
    let mut v = vec![0u8; n];
    rand::rngs::OsRng.fill_bytes(&mut v);
    v
}

/// Relies on `rand::SeedableRng::seed_from_u64` to build a deterministic
/// generator from a seed.
#[verifier::external_body]
pub(crate) fn rng_from_seed(seed: u64) -> rand::rngs::StdRng {
    rand::rngs::StdRng::seed_from_u64(seed)
}

/// Relies on `rand::RngCore::next_u64`; the value drawn is arbitrary.
#[verifier::external_body]
pub(crate) fn rng_next_u64(rng: &mut rand::rngs::StdRng) -> u64 {
    rng.next_u64()
}

} // verus!
