use vstd::prelude::*;

verus! {

/// Declares rand's standard generator so index state can hold one; the
/// value is opaque to verification.
#[verifier::external_type_specification]
#[verifier::external_body]
pub struct ExStdRng(rand::rngs::StdRng);

/// Relies on rand::SeedableRng::seed_from_u64: a deterministic generator
/// built from the seed, so graph construction is reproducible in tests.
#[verifier::external_body]
pub(crate) fn rng_from_seed(seed: u64) -> rand::rngs::StdRng {
    <rand::rngs::StdRng as rand::SeedableRng>::seed_from_u64(seed)
}

/// Relies on rand::RngCore::next_u64: one draw of the generator.  Nothing
/// is promised of the value; callers must hold for every outcome.
#[verifier::external_body]
pub(crate) fn rng_next(rng: &mut rand::rngs::StdRng) -> u64 {
    rand::RngCore::next_u64(rng)
}

} // verus!
