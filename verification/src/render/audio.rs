//! The counting side of the sound: noise, blocks, and beds that go round. What is heard is
//! not computed here.

use crate::render::wav::SAMPLE_RATE;
use vstd::prelude::*;

verus! {

/// Samples between two refreshes of a stream's coefficients.
pub const BLOCK: u32 = 64;

/// Where the noise starts.
pub const NOISE_SEED: u32 = 0x9E37_79B9;

/// The noise after a value.
pub open spec fn noise_after(x: u32) -> u32 {
    let a = x ^ (x << 13);
    let b = a ^ (a >> 17);
    b ^ (b << 5)
}

/// A source of noise.
#[derive(Debug, Clone, Copy, PartialEq, Eq, Structural)]
pub struct Noise {
    pub state: u32,
}

impl Noise {
    pub fn new() -> (n: Self)
        ensures
            n.state == NOISE_SEED,
    {
        Noise { state: NOISE_SEED }
    }

    /// The next value.
    pub fn white(&mut self) -> (x: u32)
        ensures
            x == noise_after(old(self).state),
            final(self).state == x,
    {
        let mut x: u32 = self.state;
        x = x ^ (x << 13);
        x = x ^ (x >> 17);
        x = x ^ (x << 5);
        self.state = x;
        x
    }
}

/// The noise never runs dry: only silence is followed by silence.
pub proof fn lemma_noise_never_dries(x: u32)
    requires
        x != 0,
    ensures
        noise_after(x) != 0,
{
    let a = x ^ (x << 13);
    assert(a != 0) by (bit_vector)
        requires
            x != 0,
            a == x ^ (x << 13),
    ;
    let b = a ^ (a >> 17);
    assert(b != 0) by (bit_vector)
        requires
            a != 0,
            b == a ^ (a >> 17),
    ;
    assert(b ^ (b << 5) != 0) by (bit_vector)
        requires
            b != 0,
    ;
}

/// Counts a stream's samples in blocks.
#[derive(Debug, Clone, Copy, PartialEq, Eq, Structural)]
pub struct BlockCount {
    pub left: u32,
}

impl BlockCount {
    /// One sample. Tells whether a block starts with it.
    pub fn tick(&mut self) -> (refresh: bool)
        ensures
            refresh == (old(self).left == 0),
            final(self).left == (if refresh {
                BLOCK - 1
            } else {
                old(self).left - 1
            }),
    {
        let refresh: bool = self.left == 0;
        if refresh {
            self.left = BLOCK;
        }
        self.left = self.left - 1;
        refresh
    }
}

/// The next sample of a bed: after the last comes the first.
pub fn next_cursor(cursor: usize, len: usize) -> (n: usize)
    requires
        cursor < len,
    ensures
        n == (cursor + 1) % len as int,
        n < len,
{
    if cursor + 1 == len {
        assert((cursor + 1) % len as int == 0) by (nonlinear_arith)
            requires
                cursor + 1 == len,
        ;
        0
    } else {
        assert((cursor + 1) % len as int == cursor + 1) by (nonlinear_arith)
            requires
                cursor + 1 < len,
        ;
        cursor + 1
    }
}

/// How much of a bed's end is blended into its beginning so that it goes round without a
/// seam: half a second, and at most a quarter of it.
pub fn seal_len(len: usize) -> (n: usize)
    ensures
        n == (if len / 4 < SAMPLE_RATE / 2 {
            (len / 4) as int
        } else {
            (SAMPLE_RATE / 2) as int
        }),
        n <= len,
{
    let half: usize = (SAMPLE_RATE / 2) as usize;
    if len / 4 < half {
        len / 4
    } else {
        half
    }
}

} // verus!
