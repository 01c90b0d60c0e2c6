use rand::rngs::StdRng;
use rand::seq::SliceRandom;
use rand::{RngExt, SeedableRng};
use std::ops::Range;
use vstd::prelude::*;

verus! {

/// The generator behind every random choice of the solver.
#[verifier::external_type_specification]
#[verifier::external_body]
pub struct ExStdRng(StdRng);

/// The generator that `StdRng::seed_from_u64` makes of `seed`.
pub uninterp spec fn seeded_generator(seed: u64) -> StdRng;

/// `StdRng::seed_from_u64`: the generator is a function of the seed alone
/// (the crate makes it reproducible), named `seeded_generator`. What stream
/// it yields is not stated, since the generator is opaque here.
#[verifier::external_body]
fn seeded_rng(seed: u64) -> (r: StdRng)
    ensures
        r == seeded_generator(seed),
{
    StdRng::seed_from_u64(seed)
}

/// `StdRng::from_rng` fed by `rand::rng()`: a generator seeded from the
/// thread-local generator. Nothing is stated of the generator.
#[verifier::external_body]
fn entropy_rng() -> StdRng {
    StdRng::from_rng(&mut rand::rng())
}

/// `RngExt::random_range` on `start..end`: a value in that range. The range
/// must not be empty, since the call panics on an empty range.
#[verifier::external_body]
pub(crate) fn random_in(rng: &mut StdRng, start: usize, end: usize) -> (r: usize)
    requires
        start < end,
    ensures
        start <= r < end,
{
    rng.random_range(start..end)
}

/// `RngExt::random_ratio`: `true` with chance `numerator / denominator`;
/// `true` for sure when they are equal and `false` for sure when `numerator`
/// is 0. The call panics when `denominator` is 0 or below `numerator`.
#[verifier::external_body]
pub(crate) fn random_ratio(rng: &mut StdRng, numerator: u32, denominator: u32) -> (r: bool)
    requires
        0 < denominator,
        numerator <= denominator,
    ensures
        numerator == denominator ==> r,
        numerator == 0 ==> !r,
{
    rng.random_ratio(numerator, denominator)
}

/// `SliceRandom::shuffle`: the same values, in an order chosen at random.
#[verifier::external_body]
pub(crate) fn shuffle_values(rng: &mut StdRng, values: &mut Vec<usize>)
    ensures
        final(values)@.len() == old(values)@.len(),
        final(values)@.to_multiset() == old(values)@.to_multiset(),
{
    values.shuffle(rng)
}

/// `rand::seq::index::sample`: `amount` distinct indices below `length`,
/// in an order chosen at random. The call panics when `amount > length`.
#[verifier::external_body]
pub(crate) fn sample_indices(rng: &mut StdRng, length: usize, amount: usize) -> (r: Vec<usize>)
    requires
        amount <= length,
    ensures
        r@.len() == amount,
        r@.no_duplicates(),
        forall|i: int| 0 <= i < r@.len() ==> #[trigger] r@[i] < length,
{
    rand::seq::index::sample(rng, length, amount).into_vec()
}

/// A generator seeded with `maybe_seed` when there is one, and from the
/// thread-local generator otherwise.
pub fn get_rng(maybe_seed: Option<u64>) -> (r: StdRng)
    ensures
        maybe_seed matches Some(seed) ==> r == seeded_generator(seed),
{
    if let Some(seed) = maybe_seed {
        seeded_rng(seed)
    } else {
        entropy_rng()
    }
}

/// Two distinct indices drawn at random from `range`: the first uniformly,
/// the second uniformly among the others.
pub fn select_idx_pair(rng: &mut StdRng, range: Range<usize>) -> (r: (usize, usize))
    requires
        range.start + 1 < range.end,
    ensures
        range.start <= r.0 < range.end,
        range.start <= r.1 < range.end,
        r.0 != r.1,
{
    let p1 = random_in(rng, range.start, range.end);
    let mut p2 = random_in(rng, range.start, range.end - 1);
    if p2 >= p1 {
        p2 += 1;
    }
    (p1, p2)
}

} // verus!
