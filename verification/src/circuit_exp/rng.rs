//! Seeded random numbers from the ChaCha8 generator of `rand_chacha`.

use vstd::prelude::*;
use rand::Rng;
use rand::SeedableRng;
use rand::seq::SliceRandom;
use rand_chacha::ChaCha8Rng;

verus! {

#[verifier::external_type_specification]
#[verifier::external_body]
pub struct ExChaCha8Rng(ChaCha8Rng);

/// `SeedableRng::seed_from_u64` on `ChaCha8Rng`: a generator seeded from
/// `seed`. Nothing is stated of the stream it yields.
#[verifier::external_body]
pub(crate) fn seeded_rng(seed: u64) -> ChaCha8Rng {
    ChaCha8Rng::seed_from_u64(seed)
}

/// `Rng::gen::<i8>`: any `i8`.
#[verifier::external_body]
pub(crate) fn random_i8(rng: &mut ChaCha8Rng) -> i8 {
    rng.gen()
}

/// `Rng::gen::<u8>`: any `u8`.
#[verifier::external_body]
pub(crate) fn random_u8(rng: &mut ChaCha8Rng) -> u8 {
    rng.gen()
}

/// `Rng::gen_ratio(1, 2)`: a fair coin (the same draw as `gen_bool(0.5)`).
#[verifier::external_body]
pub(crate) fn fair_coin(rng: &mut ChaCha8Rng) -> bool {
    rng.gen_ratio(1, 2)
}

/// `Rng::gen_range(0..bound)` on `usize`: a value below `bound`; the range
/// must not be empty.
#[verifier::external_body]
pub(crate) fn random_below(rng: &mut ChaCha8Rng, bound: usize) -> (r: usize)
    requires
        bound > 0,
    ensures
        r < bound,
{
    rng.gen_range(0..bound)
}

/// `Rng::gen_range(0..bound)` on `u8`: a value below `bound`; the range must
/// not be empty.
#[verifier::external_body]
pub(crate) fn random_below_u8(rng: &mut ChaCha8Rng, bound: u8) -> (r: u8)
    requires
        bound > 0,
    ensures
        r < bound,
{
    rng.gen_range(0..bound)
}

/// `SliceRandom::shuffle`: the slice is permuted in place.
#[verifier::external_body]
pub(crate) fn shuffle<T>(items: &mut [T], rng: &mut ChaCha8Rng)
    ensures
        final(items)@.len() == old(items)@.len(),
        final(items)@.to_multiset() == old(items)@.to_multiset(),
{
    items.shuffle(rng)
}

} // verus!
