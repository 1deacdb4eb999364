//! The random source of a storage: a `SmallRng` of the `rand` crate.

use rand::rngs::SmallRng;
use rand::Rng;
use rand::SeedableRng;
use vstd::prelude::*;

verus! {

#[verifier::external_type_specification]
#[verifier::external_body]
pub struct ExSmallRng(SmallRng);

/// The seed of a generator made where the operating system gives no entropy.
pub const FALLBACK_SEED: u64 = 0x9e37_79b9_7f4a_7c15;

/// Makes a generator with `SmallRng::try_from_os_rng`, which seeds it from
/// the operating system's entropy source, and returns none where that source
/// fails. Nothing is claimed of the generator, nor of when there is one.
#[verifier::external_body]
pub(crate) fn os_seeded() -> (rng: Option<SmallRng>) {
    SmallRng::try_from_os_rng().ok()
}

/// Makes a generator with `SmallRng::seed_from_u64`. Nothing is claimed of
/// the generator that comes back.
#[verifier::external_body]
pub(crate) fn seeded(seed: u64) -> (rng: SmallRng) {
    SmallRng::seed_from_u64(seed)
}

/// Draws one word with `Rng::random::<u64>`, which advances the generator.
/// Nothing is claimed of the word: every value of `u64` may come back.
#[verifier::external_body]
pub(crate) fn next_word(rng: &mut SmallRng) -> (word: u64) {
    rng.random()
}

/// A generator for a new storage, seeded from the operating system's
/// entropy. Where there is none to be had it is seeded with `FALLBACK_SEED`:
/// the storage works as well, and its towers are then the same from run to
/// run.
pub(crate) fn fresh() -> (rng: SmallRng) {
    match os_seeded() {
        Some(rng) => rng,
        None => seeded(FALLBACK_SEED),
    }
}

} // verus!
