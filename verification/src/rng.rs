//! The engine's source of randomness.

use vstd::prelude::*;

verus! {

/// rand's standard generator.  It is the engine's only source of
/// randomness, handed in by the caller so that a fixed seed reproduces a
/// search.  Opaque to verification: nothing is assumed about the values it
/// produces beyond the contract of `rng_below`.
#[verifier::external_type_specification]
#[verifier::external_body]
pub struct ExStdRng(rand::rngs::StdRng);

/// Relies on rand's Rng::gen_range: a uniform sample from the nonempty
/// range `0..n` lies below `n`.  Nothing else is assumed of the value.
#[verifier::external_body]
pub(crate) fn rng_below(rng: &mut rand::rngs::StdRng, n: u64) -> (r: u64)
    requires
        n >= 1,
    ensures
        r < n,
{
    rand::Rng::gen_range(rng, 0..n)
}

} // verus!
