//! The engine's single seam to the random number generator.
//!
//! Randomness is the only non-determinism in the engine, and it is injected:
//! callers construct and own the generator, and mine placement draws from it
//! through `sample_below`. Nothing is assumed of a draw beyond its range.

use vstd::prelude::*;

verus! {

/// The standard generator of the `rand` crate, declared so that verified code
/// can hold one and pass it along. Its internal state is opaque here; callers
/// seed it themselves (for example through `rand::SeedableRng`).
#[verifier::external_type_specification]
#[verifier::external_body]
pub struct ExStdRng(rand::rngs::StdRng);

/// Relies on `rand::Rng::gen_range` over the half-open range `0..bound`:
/// it panics only on an empty range, and otherwise returns a value of the
/// range. Nothing is assumed about which value comes back.
#[verifier::external_body]
pub(crate) fn sample_below(rng: &mut rand::rngs::StdRng, bound: usize) -> (r: usize)
    requires
        bound >= 1,
    ensures
        r < bound,
{
    rand::Rng::gen_range(rng, 0..bound)
}

} // verus!
