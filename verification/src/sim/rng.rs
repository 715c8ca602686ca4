//! The match's random stream.
//!
//! The stream is the ChaCha generator with eight rounds, named by its seed and by how many
//! 32-bit words of it have been used: two plain numbers that say exactly where it stands.

use rand::{Rng, SeedableRng};
use rand_chacha::ChaCha8Rng;
use vstd::prelude::*;

verus! {

/// What a draw of a 64-bit integer from `lo..=hi` yields when `word` words of the stream
/// seeded with `seed` have been used, and how many have been used after it.
pub uninterp spec fn drawn_i64(seed: u64, word: u128, lo: i64, hi: i64) -> (i64, u128);

/// What a draw of a 32-bit integer from `lo..=hi` yields when `word` words of the stream
/// seeded with `seed` have been used, and how many have been used after it.
pub uninterp spec fn drawn_i32(seed: u64, word: u128, lo: i32, hi: i32) -> (i32, u128);

/// `rand::Rng::gen_range` over 64-bit integers, on a `rand_chacha::ChaCha8Rng` put by
/// `seed_from_u64` and `set_word_pos` where the stream stands. Claimed of it: the value lies
/// in the range asked for, and with the position after it depends on the four arguments
/// alone. Which value comes is left unsaid.
#[verifier::external_body]
fn gen_range_i64(seed: u64, word: u128, lo: i64, hi: i64) -> (r: (i64, u128))
    requires
        lo <= hi,
    ensures
        r == drawn_i64(seed, word, lo, hi),
        lo <= r.0 <= hi,
{
    let mut rng = ChaCha8Rng::seed_from_u64(seed);
    rng.set_word_pos(word);
    let v: i64 = rng.gen_range(lo..=hi);
    (v, rng.get_word_pos())
}

/// `rand::Rng::gen_range` over 32-bit integers, which uses up the stream differently from
/// the 64-bit one; on the same generator and with the same claims.
#[verifier::external_body]
fn gen_range_i32(seed: u64, word: u128, lo: i32, hi: i32) -> (r: (i32, u128))
    requires
        lo <= hi,
    ensures
        r == drawn_i32(seed, word, lo, hi),
        lo <= r.0 <= hi,
{
    let mut rng = ChaCha8Rng::seed_from_u64(seed);
    rng.set_word_pos(word);
    let v: i32 = rng.gen_range(lo..=hi);
    (v, rng.get_word_pos())
}

/// Where a match's random stream stands.
#[derive(Debug, Clone, Copy, PartialEq, Eq, Structural)]
pub struct MatchRng {
    pub seed: u64,
    pub word: u128,
}

impl MatchRng {
    /// The start of the stream seeded with `seed`.
    pub fn seed_from_u64(seed: u64) -> (r: Self)
        ensures
            r == (MatchRng { seed, word: 0 }),
    {
        MatchRng { seed, word: 0 }
    }

    /// Draw a 64-bit integer from `lo..=hi`.
    pub fn gen_range_i64(&mut self, lo: i64, hi: i64) -> (v: i64)
        requires
            lo <= hi,
        ensures
            (v, final(self).word) == drawn_i64(old(self).seed, old(self).word, lo, hi),
            final(self).seed == old(self).seed,
            lo <= v <= hi,
    {
        let (v, word) = gen_range_i64(self.seed, self.word, lo, hi);
        self.word = word;
        v
    }

    /// Draw a 32-bit integer from `lo..=hi`.
    pub fn gen_range_i32(&mut self, lo: i32, hi: i32) -> (v: i32)
        requires
            lo <= hi,
        ensures
            (v, final(self).word) == drawn_i32(old(self).seed, old(self).word, lo, hi),
            final(self).seed == old(self).seed,
            lo <= v <= hi,
    {
        let (v, word) = gen_range_i32(self.seed, self.word, lo, hi);
        self.word = word;
        v
    }
}
/// `rand::random`: a seed for a match that is to differ from all others. Nothing is claimed
/// of it.
#[verifier::external_body]
pub fn random_match_seed() -> (seed: u64) {
    rand::random()
}

} // verus!
