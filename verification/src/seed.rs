use vstd::prelude::*;

use rand::RngExt;

verus! {

/// Relies on rand::rng and rand::Rng::random: a value drawn from the calling
/// thread's generator. Nothing is assumed about which value comes back.
#[verifier::external_body]
pub(crate) fn random_seed() -> u32 {
    rand::rng().random()
}

} // verus!
