//! Source of random choices for the search.
//!
//! The search is deliberately randomized: it picks each receiver uniformly
//! among the valid candidates so that repeated runs spread over the valid
//! cycles. The generator is seedable, so a run can be reproduced exactly by
//! reusing its seed.

use vstd::prelude::*;

verus! {

#[verifier::external_type_specification]
#[verifier::external_body]
pub struct ExStdRng(rand::rngs::StdRng);

/// A seedable random source; the same seed always yields the same choices.
pub struct SearchRng {
    inner: rand::rngs::StdRng,
}

/// Relies on rand's `SeedableRng::seed_from_u64` to build a generator whose
/// output is a fixed function of the seed.
#[verifier::external_body]
fn seeded_generator(seed: u64) -> (r: SearchRng) {
    SearchRng { inner: <rand::rngs::StdRng as rand::SeedableRng>::seed_from_u64(seed) }
}

/// Relies on rand's `Rng::gen_range` over `0 .. bound`: the sample lies in
/// that range, and the call panics only on an empty range, which the
/// precondition rules out.
#[verifier::external_body]
pub(crate) fn random_below(rng: &mut SearchRng, bound: usize) -> (r: usize)
    requires
        bound >= 1,
    ensures
        r < bound,
{
    rand::Rng::gen_range(&mut rng.inner, 0..bound)
}

/// Relies on rand's `Rng::gen_ratio`: it panics only when the denominator is
/// zero or the ratio exceeds one, both ruled out here; a ratio of zero is
/// documented to always come back `false` and a ratio of one always `true`.
#[verifier::external_body]
pub(crate) fn random_ratio(rng: &mut SearchRng, numerator: u32, denominator: u32) -> (r: bool)
    requires
        denominator >= 1,
        numerator <= denominator,
    ensures
        numerator == 0 ==> !r,
        numerator == denominator ==> r,
{
    rand::Rng::gen_ratio(&mut rng.inner, numerator, denominator)
}

impl SearchRng {
    /// A generator that will make the same choices whenever it is built from
    /// the same seed.
    pub fn from_seed(seed: u64) -> SearchRng {
        seeded_generator(seed)
    }
}

} // verus!
