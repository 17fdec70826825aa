//! The optimizer's source of random numbers.

use rand::rngs::OsRng;
use rand::rngs::StdRng;
use rand::Rng;
use rand::SeedableRng;
use vstd::prelude::*;

verus! {

#[verifier::external_type_specification]
#[verifier::external_body]
pub struct ExStdRng(rand::rngs::StdRng);

#[verifier::external_type_specification]
#[verifier::external_body]
pub struct ExRandError(rand::Error);

/// Draws an index below `bound` with `Rng::gen_range` on `0..bound`.
///
/// The index depends on the state of the source, so only its range is
/// stated. An empty range would make `gen_range` panic.
#[verifier::external_body]
pub(crate) fn draw_below(source: &mut StdRng, bound: usize) -> (drawn: usize)
    requires
        bound > 0,
    ensures
        drawn < bound,
{
    source.gen_range(0..bound)
}

/// Makes a source from a seed with `SeedableRng::seed_from_u64`.
#[verifier::external_body]
pub(crate) fn seeded_source(seed: u64) -> StdRng {
    StdRng::seed_from_u64(seed)
}

/// Makes a source seeded by the operating system, with
/// `SeedableRng::from_rng` on `OsRng`. It fails where the system has no
/// entropy to give.
#[verifier::external_body]
pub(crate) fn system_source() -> Result<StdRng, rand::Error> {
    StdRng::from_rng(OsRng)
}

} // verus!
