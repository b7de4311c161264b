//! The random source that colours a fresh board.

use rand::rngs::StdRng;
use rand::Rng;
use vstd::prelude::*;

verus! {

/// The generator `rand::rngs::StdRng`, carried through as an opaque value.
#[verifier::external_type_specification]
#[verifier::external_body]
pub struct ExStdRng(rand::rngs::StdRng);

/// Calls `rand::Rng::gen_range` on the half-open range `0..k`.
///
/// Trusted: the call returns some value of that range, so one below `k`.
/// It panics on an empty range, which `k > 0` rules out. Nothing is said
/// about which value comes out.
#[verifier::external_body]
pub(crate) fn draw_below(rng: &mut StdRng, k: usize) -> (c: usize)
    requires
        k > 0,
    ensures
        c < k,
{
    rng.gen_range(0..k)
}

} // verus!
