//! The seeded random stream that generation draws from.

use rand::rngs::StdRng;
use rand::Rng;
use rand::SeedableRng;
use vstd::prelude::*;

verus! {

#[verifier::external_type_specification]
#[verifier::external_body]
pub struct ExStdRng(StdRng);

/// Relies on `SeedableRng::seed_from_u64` for `StdRng`: a generator whose
/// whole stream is fixed by the seed.
#[verifier::external_body]
pub(crate) fn seeded(seed: u64) -> (r: StdRng) {
    StdRng::seed_from_u64(seed)
}

/// Relies on `Rng::gen_range` over an inclusive integer range: a value drawn
/// uniformly from `lo..=hi` (it panics on an empty range, which `requires`
/// leaves out).
#[verifier::external_body]
pub(crate) fn pick(rng: &mut StdRng, lo: usize, hi: usize) -> (r: usize)
    requires
        lo <= hi,
    ensures
        lo <= r <= hi,
{
    rng.gen_range(lo..=hi)
}

} // verus!
