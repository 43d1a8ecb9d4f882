//! The seeded random source that the generators draw from.

use vstd::prelude::*;
use rand::Rng;
use rand::SeedableRng;
use rand::seq::SliceRandom;
use rand_chacha::ChaCha8Rng;

verus! {

#[verifier::external_type_specification]
#[verifier::external_body]
pub struct ExChaCha8Rng(ChaCha8Rng);

/// `rand::Rng::gen_range` on the half-open range `lo..hi` of `u32`. The crate
/// asserts that the range is not empty and returns a value inside it; which
/// value depends on the generator's state and is not stated.
#[verifier::external_body]
pub(crate) fn gen_range_u32(rng: &mut ChaCha8Rng, lo: u32, hi: u32) -> (r: u32)
    requires
        lo < hi,
    ensures
        lo <= r < hi,
{
    rng.gen_range(lo..hi)
}

/// `rand::Rng::gen_range` on the half-open range `lo..hi` of `usize`; as above.
#[verifier::external_body]
pub(crate) fn gen_range_usize(rng: &mut ChaCha8Rng, lo: usize, hi: usize) -> (r: usize)
    requires
        lo < hi,
    ensures
        lo <= r < hi,
{
    rng.gen_range(lo..hi)
}

/// `rand::Rng::gen_range` on the inclusive range `lo..=hi` of `u32`; the crate
/// asserts `lo <= hi` and returns a value inside the range.
#[verifier::external_body]
pub(crate) fn gen_range_incl_u32(rng: &mut ChaCha8Rng, lo: u32, hi: u32) -> (r: u32)
    requires
        lo <= hi,
    ensures
        lo <= r <= hi,
{
    rng.gen_range(lo..=hi)
}

/// `rand::Rng::gen_range` on the half-open range `lo..hi` of `i32`; as above.
#[verifier::external_body]
pub(crate) fn gen_range_i32(rng: &mut ChaCha8Rng, lo: i32, hi: i32) -> (r: i32)
    requires
        lo < hi,
    ensures
        lo <= r < hi,
{
    rng.gen_range(lo..hi)
}

/// `rand::Rng::gen_range` on the inclusive range `lo..=hi` of `i32`; as above.
#[verifier::external_body]
pub(crate) fn gen_range_incl_i32(rng: &mut ChaCha8Rng, lo: i32, hi: i32) -> (r: i32)
    requires
        lo <= hi,
    ensures
        lo <= r <= hi,
{
    rng.gen_range(lo..=hi)
}

/// `rand::seq::SliceRandom::choose` on a slice of positions: `None` for an
/// empty slice, otherwise one of its elements (which one depends on the
/// generator's state and is not stated).
#[verifier::external_body]
pub(crate) fn choose_position(rng: &mut ChaCha8Rng, positions: &[(i32, i32)]) -> (r: Option<(i32, i32)>)
    ensures
        positions@.len() == 0 <==> r is None,
        r matches Some(p) ==> positions@.contains(p),
{
    positions.choose(rng).copied()
}

/// `rand::Rng::gen_range` on the inclusive range `lo..=hi` of `usize`; as above.
#[verifier::external_body]
pub(crate) fn gen_range_incl_usize(rng: &mut ChaCha8Rng, lo: usize, hi: usize) -> (r: usize)
    requires
        lo <= hi,
    ensures
        lo <= r <= hi,
{
    rng.gen_range(lo..=hi)
}

/// `rand::Rng::gen_ratio`: `true` with chance `numerator / denominator`. The
/// crate panics when `denominator` is 0 or `numerator > denominator`; a ratio
/// of 1 always gives `true` and a numerator of 0 always `false` (the
/// Bernoulli sampler compares a drawn `u64` against 0). Otherwise which value
/// comes out depends on the generator's state and is not stated.
#[verifier::external_body]
pub(crate) fn gen_ratio(rng: &mut ChaCha8Rng, numerator: u32, denominator: u32) -> (b: bool)
    requires
        0 < denominator,
        numerator <= denominator,
    ensures
        numerator == denominator ==> b,
        numerator == 0 ==> !b,
{
    rng.gen_ratio(numerator, denominator)
}

/// `rand::SeedableRng::seed_from_u64` for `ChaCha8Rng`: a generator whose
/// whole stream is fixed by the seed. Nothing is stated of that stream.
#[verifier::external_body]
pub(crate) fn seeded_rng(seed: u64) -> (r: ChaCha8Rng)
{
    ChaCha8Rng::seed_from_u64(seed)
}

} // verus!
