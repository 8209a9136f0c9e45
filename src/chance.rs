//! The random draws that world generation and robot movement rely on.
use rand::rngs::StdRng;
use rand::{Rng, SeedableRng};
use vstd::prelude::*;

verus! {

/// The seeded generator from rand that world generation draws from.
#[verifier::external_type_specification]
#[verifier::external_body]
pub struct ExStdRng(StdRng);

/// Relies on rand's `SeedableRng::seed_from_u64` for `StdRng`: a generator
/// whose stream is fixed by the seed.
#[verifier::external_body]
pub(crate) fn seeded(seed: u64) -> StdRng {
    StdRng::seed_from_u64(seed)
}

/// Relies on rand's `Rng::gen_ratio`: true with probability
/// `numerator / denominator`. It panics when `denominator` is zero or below
/// `numerator`, which `requires` rules out.
#[verifier::external_body]
pub(crate) fn draw_ratio(rng: &mut StdRng, numerator: u32, denominator: u32) -> bool
    requires
        0 < denominator,
        numerator <= denominator,
{
    rng.gen_ratio(numerator, denominator)
}

/// Relies on rand's `Rng::gen_range` on `0..n` with a seeded generator: a value
/// below `n`. It panics on an empty range, which `requires` rules out.
#[verifier::external_body]
pub(crate) fn draw_below(rng: &mut StdRng, n: u32) -> (r: u32)
    requires
        0 < n,
    ensures
        r < n,
{
    rng.gen_range(0..n)
}

/// Relies on rand's `Rng::gen_range` on `0..n` with the thread-local
/// generator: a value below `n`. It panics on an empty range, which
/// `requires` rules out.
#[verifier::external_body]
pub(crate) fn random_below(n: usize) -> (r: usize)
    requires
        0 < n,
    ensures
        r < n,
{
    rand::thread_rng().gen_range(0..n)
}

} // verus!
