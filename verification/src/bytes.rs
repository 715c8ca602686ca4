//! Little-endian integers in byte strings, and the byte hash the state digest uses.

use vstd::prelude::*;

verus! {

/// The `n` low bytes of `v`, least significant first.
pub open spec fn le(v: nat, n: nat) -> Seq<u8>
    decreases n,
{
    if n == 0 {
        Seq::empty()
    } else {
        seq![(v % 256) as u8] + le(v / 256, (n - 1) as nat)
    }
}

/// The number that a byte string spells, least significant byte first.
pub open spec fn le_value(s: Seq<u8>) -> nat
    decreases s.len(),
{
    if s.len() == 0 {
        0
    } else {
        s[0] as nat + 256 * le_value(s.skip(1))
    }
}

/// `256^n`.
pub open spec fn span(n: nat) -> nat
    decreases n,
{
    if n == 0 {
        1
    } else {
        256 * span((n - 1) as nat)
    }
}

/// A signed number as the unsigned one with the same `8 n` bits.
pub open spec fn twos(v: int, n: nat) -> nat {
    if v >= 0 {
        v as nat
    } else {
        (v + span(n)) as nat
    }
}

/// The signed number that an unsigned one of `n` bytes stands for.
pub open spec fn untwos(u: nat, n: nat) -> int {
    if 2 * u < span(n) {
        u as int
    } else {
        u - span(n)
    }
}

/// The spelling has the asked length and reads back as the number.
pub proof fn lemma_le_roundtrip(v: nat, n: nat)
    requires
        v < span(n),
    ensures
        le(v, n).len() == n,
        le_value(le(v, n)) == v,
    decreases n,
{
    if n > 0 {
        let rest = le(v / 256, (n - 1) as nat);
        lemma_le_roundtrip(v / 256, (n - 1) as nat);
        let s = le(v, n);
        assert(s.skip(1) =~= rest);
        assert(s[0] == (v % 256) as u8);
    }
}

pub proof fn lemma_le_len(v: nat, n: nat)
    ensures
        le(v, n).len() == n,
    decreases n,
{
    if n > 0 {
        lemma_le_len(v / 256, (n - 1) as nat);
    }
}

/// A byte string of length `n` spells a number below `256^n`.
pub proof fn lemma_le_value_bound(s: Seq<u8>)
    ensures
        le_value(s) < span(s.len()),
    decreases s.len(),
{
    if s.len() > 0 {
        lemma_le_value_bound(s.skip(1));
    }
}

pub proof fn lemma_spans()
    ensures
        span(1) == 0x100,
        span(2) == 0x1_0000,
        span(4) == 0x1_0000_0000,
        span(8) == 0x1_0000_0000_0000_0000,
{
    reveal_with_fuel(span, 9);
}

/// A signed number survives the trip through its unsigned form.
pub proof fn lemma_twos_roundtrip(v: int, n: nat)
    requires
        n > 0,
        -(span(n) / 2) <= v < span(n) / 2,
    ensures
        twos(v, n) < span(n),
        untwos(twos(v, n), n) == v,
{
    assert(span(n) % 2 == 0) by {
        assert(span(n) == 256 * span((n - 1) as nat));
    }
}

/// Append the `n` low bytes of `v`.
fn push_le(out: &mut Vec<u8>, v: u64, n: usize)
    ensures
        final(out)@ == old(out)@ + le(v as nat, n as nat),
{
    let mut rest: u64 = v;
    let mut i: usize = 0;
    let ghost start = out@;
    assert(start + le(v as nat, n as nat) =~= out@ + le(rest as nat, (n - i) as nat));
    while i < n
        invariant
            i <= n,
            start + le(v as nat, n as nat) == out@ + le(rest as nat, (n - i) as nat),
        decreases n - i,
    {
        let ghost before = out@;
        out.push((rest % 256) as u8);
        proof {
            let tail = le(rest as nat / 256, (n - i - 1) as nat);
            assert(before + le(rest as nat, (n - i) as nat) =~= out@ + tail);
        }
        rest = rest / 256;
        i = i + 1;
    }
    assert(out@ =~= start + le(v as nat, n as nat));
}

pub(crate) fn push_u32(out: &mut Vec<u8>, v: u32)
    ensures
        final(out)@ == old(out)@ + le(v as nat, 4),
{
    push_le(out, v as u64, 4);
}

pub(crate) fn push_u16(out: &mut Vec<u8>, v: u16)
    ensures
        final(out)@ == old(out)@ + le(v as nat, 2),
{
    push_le(out, v as u64, 2);
}

pub(crate) fn push_u64(out: &mut Vec<u8>, v: u64)
    ensures
        final(out)@ == old(out)@ + le(v as nat, 8),
{
    push_le(out, v, 8);
}

pub(crate) fn push_i64(out: &mut Vec<u8>, v: i64)
    ensures
        final(out)@ == old(out)@ + le(twos(v as int, 8), 8),
{
    proof {
        lemma_spans();
    }
    let u: u64 = if v >= 0 {
        v as u64
    } else {
        (v as i128 + 0x1_0000_0000_0000_0000) as u64
    };
    push_le(out, u, 8);
}

pub(crate) fn push_i32(out: &mut Vec<u8>, v: i32)
    ensures
        final(out)@ == old(out)@ + le(twos(v as int, 4), 4),
{
    proof {
        lemma_spans();
    }
    let u: u64 = if v >= 0 {
        v as u64
    } else {
        (v as i64 + 0x1_0000_0000) as u64
    };
    push_le(out, u, 4);
}

pub(crate) fn push_i16(out: &mut Vec<u8>, v: i16)
    ensures
        final(out)@ == old(out)@ + le(twos(v as int, 2), 2),
{
    proof {
        lemma_spans();
    }
    let u: u64 = if v >= 0 {
        v as u64
    } else {
        (v as i64 + 0x1_0000) as u64
    };
    push_le(out, u, 2);
}

/// Append all of `tail`.
pub(crate) fn push_all(out: &mut Vec<u8>, tail: &[u8])
    ensures
        final(out)@ == old(out)@ + tail@,
{
    let ghost start = out@;
    let mut i: usize = 0;
    assert(start + tail@.take(0) =~= start);
    while i < tail.len()
        invariant
            i <= tail.len(),
            out@ == start + tail@.take(i as int),
        decreases tail.len() - i,
    {
        out.push(tail[i]);
        i = i + 1;
        assert(out@ =~= start + tail@.take(i as int));
    }
    assert(tail@.take(tail@.len() as int) =~= tail@);
}

/// The number spelled by the `n` bytes of `buf` from `at` on.
pub(crate) fn read_le(buf: &[u8], at: usize, n: usize) -> (v: u64)
    requires
        n <= 8,
        at + n <= buf@.len(),
    ensures
        v == le_value(buf@.subrange(at as int, at + n)),
        v < span(n as nat),
{
    let mut v: u64 = 0;
    let mut i: usize = n;
    assert(at + n <= buf.len());
    proof {
        lemma_spans();
        assert(buf@.subrange(at + n, at + n) =~= Seq::<u8>::empty());
        lemma_span_monotone(0, 8);
    }
    while i > 0
        invariant
            i <= n <= 8,
            at + n <= buf.len(),
            buf.len() == buf@.len(),
            v == le_value(buf@.subrange(at + i, at + n)),
            v < span((n - i) as nat),
            span(8) == 0x1_0000_0000_0000_0000,
        decreases i,
    {
        i = i - 1;
        proof {
            let s = buf@.subrange(at + i, at + n);
            assert(s.skip(1) =~= buf@.subrange(at + i + 1, at + n));
            lemma_le_value_bound(s);
            lemma_span_monotone((n - i) as nat, 8);
        }
        v = buf[at + i] as u64 + 256 * v;
    }
    v
}

pub proof fn lemma_span_monotone(a: nat, b: nat)
    requires
        a <= b,
    ensures
        0 < span(a) <= span(b),
    decreases b,
{
    if a < b {
        lemma_span_monotone(a, (b - 1) as nat);
    } else if b > 0 {
        lemma_span_monotone((a - 1) as nat, (b - 1) as nat);
    }
}

/// The signed reading of an unsigned 64-bit number.
pub(crate) fn signed_64(u: u64) -> (v: i64)
    ensures
        v == untwos(u as nat, 8),
{
    proof {
        lemma_spans();
    }
    if u < 0x8000_0000_0000_0000 {
        u as i64
    } else {
        (u as i128 - 0x1_0000_0000_0000_0000) as i64
    }
}

/// The signed reading of an unsigned 32-bit number.
pub(crate) fn signed_32(u: u64) -> (v: i32)
    requires
        u < 0x1_0000_0000,
    ensures
        v == untwos(u as nat, 4),
{
    proof {
        lemma_spans();
    }
    if u < 0x8000_0000 {
        u as i32
    } else {
        (u as i64 - 0x1_0000_0000) as i32
    }
}

/// The signed reading of an unsigned 16-bit number.
pub(crate) fn signed_16(u: u64) -> (v: i16)
    requires
        u < 0x1_0000,
    ensures
        v == untwos(u as nat, 2),
{
    proof {
        lemma_spans();
    }
    if u < 0x8000 {
        u as i16
    } else {
        (u as i64 - 0x1_0000) as i16
    }
}

/// Where the byte hash starts.
pub const FNV_BASIS: u64 = 0xcbf2_9ce4_8422_2325;

/// What it multiplies by after each byte.
pub const FNV_PRIME: u64 = 0x0000_0100_0000_01b3;

/// One byte folded into the running hash.
pub open spec fn fnv_mix(h: u64, b: u8) -> u64 {
    ((h ^ (b as u64)) as nat * FNV_PRIME as nat % 0x1_0000_0000_0000_0000) as u64
}

/// A byte string folded into the running hash.
pub open spec fn fnv_fold(h: u64, s: Seq<u8>) -> u64
    decreases s.len(),
{
    if s.len() == 0 {
        h
    } else {
        fnv_mix(fnv_fold(h, s.drop_last()), s.last())
    }
}

/// Hashing two strings one after the other is hashing their concatenation.
pub proof fn lemma_fnv_concat(h: u64, a: Seq<u8>, b: Seq<u8>)
    ensures
        fnv_fold(h, a + b) == fnv_fold(fnv_fold(h, a), b),
    decreases b.len(),
{
    if b.len() == 0 {
        assert(a + b =~= a);
    } else {
        lemma_fnv_concat(h, a, b.drop_last());
        assert((a + b).drop_last() =~= a + b.drop_last());
        assert((a + b).last() == b.last());
    }
}

/// The 64-bit hash of a byte string.
pub(crate) fn fnv_hash(bytes: &[u8]) -> (h: u64)
    ensures
        h == fnv_fold(FNV_BASIS, bytes@),
{
    let mut h: u64 = FNV_BASIS;
    let mut i: usize = 0;
    assert(bytes@.take(0) =~= Seq::<u8>::empty());
    while i < bytes.len()
        invariant
            i <= bytes.len(),
            h == fnv_fold(FNV_BASIS, bytes@.take(i as int)),
        decreases bytes.len() - i,
    {
        let ghost before = h;
        h = (h ^ (bytes[i] as u64)).wrapping_mul(FNV_PRIME);
        proof {
            assert(h == fnv_mix(before, bytes@[i as int]));
            assert(bytes@.take(i + 1).drop_last() =~= bytes@.take(i as int));
            assert(bytes@.take(i + 1).last() == bytes@[i as int]);
        }
        i = i + 1;
    }
    assert(bytes@.take(bytes@.len() as int) =~= bytes@);
    h
}


/// The last byte counts most, and each byte before it a 256th of the next.
pub proof fn lemma_last_byte_counts_most(s: Seq<u8>, b: u8)
    ensures
        le_value(s.push(b)) == le_value(s) + span(s.len()) * b,
        le_value(seq![b]) == b,
        span(s.len() + 1) == 256 * span(s.len()),
    decreases s.len(),
{
    let t = seq![b];
    assert(t.skip(1) =~= Seq::empty());
    assert(le_value(t.skip(1)) == 0);
    assert(le_value(t) == b as nat + 256 * le_value(t.skip(1)));
    if s.len() == 0 {
        assert(s.push(b) =~= t);
        assert(1 * b == b) by (nonlinear_arith);
    } else {
        let r = s.skip(1);
        lemma_last_byte_counts_most(r, b);
        assert(s.push(b).skip(1) =~= r.push(b));
        assert(256 * (span(r.len()) * b) == (256 * span(r.len())) * b) by (nonlinear_arith);
        assert(span(s.len()) == 256 * span(r.len()));
    }
}

/// A byte goes into the hash before the product is taken: it counts as if it had stood in the
/// hash already.
pub proof fn lemma_byte_goes_in_first(h: u64, b: u8)
    ensures
        fnv_mix(h, b) == fnv_mix(h ^ (b as u64), 0),
        fnv_mix(h, 0) as nat == h as nat * FNV_PRIME as nat % 0x1_0000_0000_0000_0000,
{
    let x = h ^ (b as u64);
    assert(x ^ 0u64 == x) by (bit_vector);
    assert(h ^ 0u64 == h) by (bit_vector);
}

} // verus!
