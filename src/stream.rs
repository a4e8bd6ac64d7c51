use rand::Rng;
use rand::SeedableRng;
use rand_chacha::ChaCha8Rng;
use vstd::prelude::*;

verus! {

/// The `count` 64-bit words that ChaCha8, seeded from `seed` through
/// `seed_from_u64`, yields from the 32-bit word `position` of its stream on.
pub uninterp spec fn chacha8_words(seed: u64, position: u128, count: usize) -> Seq<u64>;

/// Relies on rand_chacha's `ChaCha8Rng`: `seed_from_u64` seeds it, `set_word_pos`
/// moves it to the 32-bit word `position`, and rand's `Rng::fill` on a `[u64]`
/// reads `count` words from there. The words depend on the arguments alone
/// (ChaCha8 is portable and seekable); `fill` panics only when the generator
/// reports a failure, which ChaCha never does.
#[verifier::external_body]
pub(crate) fn chacha8_stream(seed: u64, position: u128, count: usize) -> (words: Vec<u64>)
    ensures
        words@ == chacha8_words(seed, position, count),
        words@.len() == count,
{
    let mut rng = ChaCha8Rng::seed_from_u64(seed);
    rng.set_word_pos(position);
    let mut words = vec![0u64; count];
    rng.fill(&mut words[..]);
    words
}

/// Relies on `rand::random`: a seed drawn from rand's thread-local generator,
/// itself seeded by the operating system. Nothing is known of its value.
#[verifier::external_body]
pub(crate) fn entropy_seed() -> (seed: u64) {
    rand::random()
}

} // verus!
