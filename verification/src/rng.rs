//! The library's only source of nondeterminism: a pseudo-random generator used
//! to derive hash seeds and to pick eviction victims. Nothing is assumed about
//! the values it yields; every table contract holds for every outcome.

use vstd::prelude::*;

verus! {

#[verifier::external_type_specification]
#[verifier::external_body]
pub struct ExRng(fastrand::Rng);

/// Relies on fastrand::Rng::with_seed: builds a generator from the given seed.
#[verifier::external_body]
pub(crate) fn rng_with_seed(seed: u64) -> fastrand::Rng {
    fastrand::Rng::with_seed(seed)
}

/// Relies on fastrand::Rng::u64 over the unbounded range, which yields a
/// pseudo-random 64-bit value; nothing is assumed about the result.
#[verifier::external_body]
pub(crate) fn rng_u64(rng: &mut fastrand::Rng) -> u64 {
    rng.u64(..)
}

/// Relies on fastrand::Rng::usize over the unbounded range, which yields a
/// pseudo-random word; nothing is assumed about the result.
#[verifier::external_body]
pub(crate) fn rng_usize(rng: &mut fastrand::Rng) -> usize {
    rng.usize(..)
}

} // verus!
