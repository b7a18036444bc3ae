//! The seeded random generator that picks the polarity of a decision on a
//! variable with no saved phase.
use rand::rngs::StdRng;
use rand::{Rng, SeedableRng};
use vstd::prelude::*;

verus! {

#[verifier::external_type_specification]
#[verifier::external_body]
pub struct ExStdRng(StdRng);

/// Calls `StdRng::seed_from_u64`: a generator seeded from `seed`. Nothing
/// about the generator is claimed.
#[verifier::external_body]
pub(crate) fn seeded_rng(seed: u64) -> StdRng {
    StdRng::seed_from_u64(seed)
}

/// Calls `Rng::gen_ratio(1, 2)` on `rng`: true with a chance of one half,
/// drawn as `gen_bool` draws it for that chance. Nothing is claimed of
/// which value comes out.
#[verifier::external_body]
pub(crate) fn coin_flip(rng: &mut StdRng) -> bool {
    rng.gen_ratio(1, 2)
}

} // verus!
