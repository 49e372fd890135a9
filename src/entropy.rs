//! The source of randomness: a seedable generator of `rand`.

use vstd::prelude::*;
use rand::rngs::StdRng;
use rand::Rng;
use rand::SeedableRng;

verus! {

#[verifier::external_type_specification]
#[verifier::external_body]
pub struct ExStdRng(StdRng);

/// Relies on `SeedableRng::from_entropy` of `rand`: a generator seeded by
/// the operating system.
#[verifier::external_body]
pub(crate) fn from_entropy() -> (r: StdRng) {
    StdRng::from_entropy()
}

/// Relies on `Rng::gen` of `rand`: a uniformly drawn `u32`.
#[verifier::external_body]
pub(crate) fn random_u32(rng: &mut StdRng) -> (r: u32) {
    rng.gen::<u32>()
}

} // verus!
