//! The crate's only source of randomness: tinyrand's recommended generator,
//! held behind a pair of thin wrappers. Nothing is assumed about the numbers
//! beyond their range, so every caller is verified for every outcome.

use vstd::prelude::*;

use tinyrand::{Rand, Seeded};

verus! {

/// tinyrand's `Wyrand` generator (its `StdRand`), declared so that verified
/// code can own one and pass it along. Verus sees nothing of its inside.
#[verifier::external_type_specification]
#[verifier::external_body]
pub struct ExWyrand(tinyrand::Wyrand);

/// Relies on tinyrand's `Seeded::seed` for `Wyrand`: builds a generator from
/// the given seed. No contract: which numbers come out is not specified.
#[verifier::external_body]
pub fn seeded_rng(seed: u64) -> tinyrand::StdRand {
    tinyrand::StdRand::seed(seed)
}

/// Relies on tinyrand's `Rand::next_lim_usize`: returns a uniformly drawn
/// value in `0 .. lim`, and panics on `lim == 0`, which the precondition
/// rules out. Nothing else is assumed of the result.
#[verifier::external_body]
pub fn rand_below(rng: &mut tinyrand::StdRand, lim: usize) -> (r: usize)
    requires
        lim > 0,
    ensures
        r < lim,
{
    rng.next_lim_usize(lim)
}

} // verus!
