use vstd::prelude::*;

verus! {

/// `rand::rngs::StdRng`, carried through as an opaque value.
#[verifier::external_type_specification]
#[verifier::external_body]
pub struct ExStdRng(rand::rngs::StdRng);

/// `SeedableRng::from_entropy` for `StdRng`: a generator seeded by the
/// operating system. Nothing is claimed of the generator. The call panics
/// where the operating system gives no entropy, which no argument decides.
#[verifier::external_body]
pub(crate) fn from_entropy() -> rand::rngs::StdRng {
    rand::SeedableRng::from_entropy()
}

/// `SeedableRng::seed_from_u64` for `StdRng`: a generator built from a seed.
/// Nothing is claimed of the generator.
#[verifier::external_body]
pub(crate) fn seed_from_u64(seed: u64) -> rand::rngs::StdRng {
    rand::SeedableRng::seed_from_u64(seed)
}

/// `RngCore::next_u64`: the next 64 bits of the stream. Any value may come.
#[verifier::external_body]
pub(crate) fn next_u64(rng: &mut rand::rngs::StdRng) -> u64 {
    rand::RngCore::next_u64(rng)
}

/// `Rng::gen_range` on the half-open range `0..bound`: the draw lies in the
/// range. The range must not be empty, since `gen_range` panics on an empty
/// one.
#[verifier::external_body]
pub(crate) fn gen_below(rng: &mut rand::rngs::StdRng, bound: u128) -> (r: u128)
    requires
        bound > 0,
    ensures
        r < bound,
{
    rand::Rng::gen_range(rng, 0..bound)
}

/// `Rng::gen_ratio`: a coin that shows `true` with probability
/// `numerator / denominator`. It always shows `true` when the two are equal
/// and never when the numerator is zero; it panics on a zero denominator and
/// on a numerator above the denominator.
#[verifier::external_body]
pub(crate) fn gen_ratio(rng: &mut rand::rngs::StdRng, numerator: u32, denominator: u32) -> (hit: bool)
    requires
        denominator > 0,
        numerator <= denominator,
    ensures
        numerator == denominator ==> hit,
        numerator == 0 ==> !hit,
{
    rand::Rng::gen_ratio(rng, numerator, denominator)
}

/// `rand::seq::index::sample`, with the result turned into a `Vec`: exactly
/// `amount` distinct indices below `length`, in no promised order. It panics
/// when `amount` exceeds `length`. For a `length` above `u32::MAX` it samples
/// by rejection, which asserts that `amount` is strictly below `length`.
#[verifier::external_body]
pub(crate) fn sample_indices(rng: &mut rand::rngs::StdRng, length: usize, amount: usize) -> (picks: Vec<usize>)
    requires
        amount <= length,
        amount < length || length <= 0xffff_ffff,
    ensures
        picks@.len() == amount,
        forall|i: int| 0 <= i < picks@.len() ==> picks@[i] < length,
        picks@.no_duplicates(),
{
    rand::seq::index::sample(rng, length, amount).into_vec()
}

} // verus!
