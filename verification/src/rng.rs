//! The random source: an explicit, caller-owned `StdRng` handed into every
//! sampling call, never a global one, so a fixed seed and a fixed call
//! sequence reproduce the same outputs.

use vstd::prelude::*;

verus! {

/// rand's standard generator, carried through the sampling calls as an opaque
/// value.
#[verifier::external_type_specification]
#[verifier::external_body]
pub struct ExStdRng(rand::rngs::StdRng);

/// Relies on rand's `Rng::gen_range` over the half-open range `0..n`: it
/// returns a value inside a non-empty range (and panics on an empty one,
/// which the precondition rules out). Nothing is assumed about which value
/// comes back, so callers are verified for every possible draw.
#[verifier::external_body]
pub(crate) fn rand_below(rng: &mut rand::rngs::StdRng, n: usize) -> (r: usize)
    requires
        n > 0,
    ensures
        r < n,
{
    rand::Rng::gen_range(rng, 0..n)
}

} // verus!
