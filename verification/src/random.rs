//! The seeded random source of the generator and the draws taken from it.
//! A ChaCha generator keyed with a seed yields a fixed stream of 32-bit
//! words; its state is therefore fixed by the seed and by how many words
//! have been drawn, and so is every draw taken from it.
use vstd::prelude::*;
use rand::{ChaChaRng, Rng, SeedableRng};
use crate::unit_draw::UNIT_ONE_BITS;

verus! {

/// The ChaCha generator of `rand`, carried as an opaque value.
#[verifier::external_type_specification]
#[verifier::external_body]
pub struct ExChaChaRng(ChaChaRng);

/// A ChaCha generator together with the seed it was keyed with and the
/// number of 32-bit words drawn from it so far.
pub struct SeededGenerator {
    rng: ChaChaRng,
    seed: Ghost<Seq<u32>>,
    drawn: Ghost<nat>,
}

impl View for SeededGenerator {
    /// The seed and the number of words drawn, which fix the state.
    type V = (Seq<u32>, nat);

    closed spec fn view(&self) -> (Seq<u32>, nat) {
        (self.seed@, self.drawn@)
    }
}

/// What `Rng::gen_range(low, high)` on `i32` returns from the ChaCha
/// generator keyed with `seed` after `drawn` words, and how many words have
/// been drawn once it returns.
pub uninterp spec fn chacha_range_i32(seed: Seq<u32>, drawn: nat, low: i32, high: i32) -> (i32, nat);

/// What `Rng::gen::<bool>` returns from the ChaCha generator keyed with
/// `seed` after `drawn` words.
pub uninterp spec fn chacha_bool(seed: Seq<u32>, drawn: nat) -> bool;

/// The bit pattern of the double that `Rng::next_f64` returns from the
/// ChaCha generator keyed with `seed` after `drawn` words.
pub uninterp spec fn chacha_unit_bits(seed: Seq<u32>, drawn: nat) -> u64;

impl SeededGenerator {
    /// Calls `ChaChaRng::from_seed` of `rand`, which keys a fresh ChaCha
    /// generator with the given words; no word has been drawn from it.
    #[verifier::external_body]
    pub fn new(seed: &[u32]) -> (generator: SeededGenerator)
        ensures
            generator@ == (seed@, 0nat),
    {
        SeededGenerator { rng: ChaChaRng::from_seed(seed), seed: Ghost(seed@), drawn: Ghost(0) }
    }
}

/// Calls `Rng::gen_range` of `rand` on `i32`, which panics unless
/// `low < high` and otherwise returns a value of `[low, high)`, drawing words
/// until one falls in its acceptance zone. The value and the words drawn are
/// those that the seed and the words drawn before fix (`chacha_range_i32`).
#[verifier::external_body]
pub(crate) fn gen_range_i32(generator: &mut SeededGenerator, low: i32, high: i32) -> (value: i32)
    requires
        low < high,
    ensures
        value == chacha_range_i32(old(generator)@.0, old(generator)@.1, low, high).0,
        final(generator)@ == (
            old(generator)@.0,
            chacha_range_i32(old(generator)@.0, old(generator)@.1, low, high).1,
        ),
        low <= value < high,
{
    generator.rng.gen_range(low, high)
}

/// Calls `Rng::gen::<bool>` of `rand`, which draws one word (through
/// `gen::<u8>`). The coin is the one that the seed and the words drawn
/// before fix (`chacha_bool`).
#[verifier::external_body]
pub(crate) fn gen_coin(generator: &mut SeededGenerator) -> (coin: bool)
    ensures
        coin == chacha_bool(old(generator)@.0, old(generator)@.1),
        final(generator)@ == (old(generator)@.0, old(generator)@.1 + 1),
{
    generator.rng.gen::<bool>()
}

/// Calls `Rng::next_f64` of `rand` (what `Rng::gen` does for a double),
/// documented to return a double of `[0, 1)` and drawing two words (through
/// `next_u64`), and hands back that double's bit pattern, which is therefore
/// below the bit pattern of `1.0`. The double is the one that the seed and
/// the words drawn before fix (`chacha_unit_bits`).
#[verifier::external_body]
pub(crate) fn gen_unit_bits(generator: &mut SeededGenerator) -> (bits: u64)
    ensures
        bits == chacha_unit_bits(old(generator)@.0, old(generator)@.1),
        final(generator)@ == (old(generator)@.0, old(generator)@.1 + 2),
        bits < UNIT_ONE_BITS,
{
    generator.rng.next_f64().to_bits()
}

} // verus!
