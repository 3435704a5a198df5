//! The pseudo-random source that centroid seeding and the palette draw from.

use rand::rngs::StdRng;
use rand::Rng;
use vstd::prelude::*;

verus! {

/// `rand::rngs::StdRng`, the seedable generator that callers hand in. Its
/// state is opaque here.
#[verifier::external_type_specification]
#[verifier::external_body]
pub struct ExStdRng(StdRng);

/// Draws a number below `bound` by calling `rand::Rng::random_range` with the
/// range `0..bound`. Trusted: the call returns a value of the range; it
/// panics on an empty range, which `requires` leaves out. Which value comes
/// depends on the generator's state, so nothing more is stated.
#[verifier::external_body]
pub(crate) fn random_below(rng: &mut StdRng, bound: u64) -> (r: u64)
    requires
        bound > 0,
    ensures
        r < bound,
{
    rng.random_range(0..bound)
}

/// Draws a byte by calling `rand::Rng::random::<u8>`. Any byte may come.
#[verifier::external_body]
pub(crate) fn random_byte(rng: &mut StdRng) -> (r: u8) {
    rng.random::<u8>()
}

} // verus!
