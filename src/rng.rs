//! The random generator that every sampler draws from.
use vstd::prelude::*;
use rand::Rng;
use rand::SeedableRng;

verus! {

#[verifier::external_type_specification]
#[verifier::external_body]
pub struct ExStdRng(rand::rngs::StdRng);

/// Relies on `rand::Rng::gen_range` over `0..bound`: the value lies in the
/// half-open range, and the call panics only when the range is empty.
#[verifier::external_body]
pub(crate) fn draw_below(rng: &mut rand::rngs::StdRng, bound: i128) -> (r: i128)
    requires
        bound > 0,
    ensures
        0 <= r < bound,
{
    rng.gen_range(0..bound)
}

/// Relies on `rand::SeedableRng::from_entropy`: a generator seeded by the
/// operating system.
#[verifier::external_body]
pub(crate) fn fresh_rng() -> (r: rand::rngs::StdRng) {
    rand::rngs::StdRng::from_entropy()
}

} // verus!
