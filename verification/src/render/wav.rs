//! Sound files: 16-bit mono PCM at one rate, and nothing else. A file in any other format is
//! refused rather than converted.

use crate::bytes::{
    le, le_value, lemma_le_len, lemma_le_roundtrip, lemma_le_value_bound, lemma_spans,
    lemma_twos_roundtrip, push_all, push_i16, push_u16, push_u32, read_le, signed_16, twos,
    untwos,
};
use crate::text::{decimal, push_decimal, push_text};
use vstd::prelude::*;

verus! {

/// Samples in a second.
pub const SAMPLE_RATE: u32 = 44_100;

/// Why a file is not taken.
#[derive(Debug, Clone, Copy, PartialEq, Eq, Structural)]
pub enum WavError {
    NotWave,
    TruncatedChunk,
    FmtTooShort,
    WrongFormat { format: u16, channels: u16, rate: u32, bits: u16 },
    DataBeforeFmt,
    NoData,
}

impl WavError {
    /// The error in words.
    pub open spec fn text_of(self) -> Seq<char> {
        match self {
            WavError::NotWave => "not a RIFF/WAVE file"@,
            WavError::TruncatedChunk => "truncated chunk"@,
            WavError::FmtTooShort => "fmt chunk too short"@,
            WavError::WrongFormat { format, channels, rate, bits } =>
                "need 16-bit mono PCM at "@ + decimal(SAMPLE_RATE as nat) + " Hz, got format "@
                    + decimal(format as nat) + ", "@ + decimal(channels as nat) + " ch, "@
                    + decimal(rate as nat) + " Hz, "@ + decimal(bits as nat) + " bit"@,
            WavError::DataBeforeFmt => "data chunk before fmt"@,
            WavError::NoData => "no data chunk"@,
        }
    }

    /// The error in words.
    pub fn text(self) -> (s: String)
        ensures
            s@ == self.text_of(),
    {
        let mut out = String::new();
        match self {
            WavError::NotWave => {
                push_text(&mut out, "not a RIFF/WAVE file");
            },
            WavError::TruncatedChunk => {
                push_text(&mut out, "truncated chunk");
            },
            WavError::FmtTooShort => {
                push_text(&mut out, "fmt chunk too short");
            },
            WavError::WrongFormat { format, channels, rate, bits } => {
                push_text(&mut out, "need 16-bit mono PCM at ");
                push_decimal(&mut out, SAMPLE_RATE as u64);
                push_text(&mut out, " Hz, got format ");
                push_decimal(&mut out, format as u64);
                push_text(&mut out, ", ");
                push_decimal(&mut out, channels as u64);
                push_text(&mut out, " ch, ");
                push_decimal(&mut out, rate as u64);
                push_text(&mut out, " Hz, ");
                push_decimal(&mut out, bits as u64);
                push_text(&mut out, " bit");
            },
            WavError::DataBeforeFmt => {
                push_text(&mut out, "data chunk before fmt");
            },
            WavError::NoData => {
                push_text(&mut out, "no data chunk");
            },
        }
        assert(out@ =~= self.text_of());
        out
    }
}

/// A field of a file.
pub open spec fn field(b: Seq<u8>, at: int, n: int) -> nat {
    le_value(b.subrange(at, at + n))
}

/// Four bytes stand at a place.
pub open spec fn tag_at(b: Seq<u8>, at: int, tag: Seq<u8>) -> bool {
    b.subrange(at, at + 4) == tag
}

/// `RIFF`.
pub open spec fn riff() -> Seq<u8> {
    seq![82, 73, 70, 70]
}

/// `WAVE`.
pub open spec fn wave() -> Seq<u8> {
    seq![87, 65, 86, 69]
}

/// `fmt `.
pub open spec fn fmt_tag() -> Seq<u8> {
    seq![102, 109, 116, 32]
}

/// `data`.
pub open spec fn data_tag() -> Seq<u8> {
    seq![100, 97, 116, 97]
}

/// The samples of a chunk; an odd last byte is dropped.
pub open spec fn samples(body: Seq<u8>) -> Seq<i16> {
    Seq::new(body.len() / 2, |i: int| untwos(field(body, 2 * i, 2), 2) as i16)
}

/// What the chunks from `off` on give: the samples of the first data chunk, once the one
/// format was seen. A chunk of odd size is padded by a byte.
pub open spec fn scan(b: Seq<u8>, off: int, seen: bool) -> Result<Seq<i16>, WavError>
    decreases b.len() + 2 - off,
{
    if off < 0 || off + 8 > b.len() {
        Err(WavError::NoData)
    } else {
        let sz = field(b, off + 4, 4) as int;
        let next = off + 8 + sz + sz % 2;
        if off + 8 + sz > b.len() {
            Err(WavError::TruncatedChunk)
        } else if tag_at(b, off, fmt_tag()) {
            if sz < 16 {
                Err(WavError::FmtTooShort)
            } else {
                let format = field(b, off + 8, 2);
                let channels = field(b, off + 10, 2);
                let rate = field(b, off + 12, 4);
                let bits = field(b, off + 22, 2);
                if format == 1 && channels == 1 && rate == SAMPLE_RATE && bits == 16 {
                    scan(b, next, true)
                } else {
                    Err(
                        WavError::WrongFormat {
                            format: format as u16,
                            channels: channels as u16,
                            rate: rate as u32,
                            bits: bits as u16,
                        },
                    )
                }
            }
        } else if tag_at(b, off, data_tag()) {
            if seen {
                Ok(samples(b.subrange(off + 8, off + 8 + sz)))
            } else {
                Err(WavError::DataBeforeFmt)
            }
        } else {
            scan(b, next, seen)
        }
    }
}

/// What a file holds.
pub open spec fn wav_of(b: Seq<u8>) -> Result<Seq<i16>, WavError> {
    if b.len() < 12 || !tag_at(b, 0, riff()) || !tag_at(b, 8, wave()) {
        Err(WavError::NotWave)
    } else {
        scan(b, 12, false)
    }
}

fn has_tag(b: &[u8], at: usize, t0: u8, t1: u8, t2: u8, t3: u8) -> (r: bool)
    requires
        at + 4 <= b@.len(),
    ensures
        r == tag_at(b@, at as int, seq![t0, t1, t2, t3]),
{
    let r: bool = b[at] == t0 && b[at + 1] == t1 && b[at + 2] == t2 && b[at + 3] == t3;
    proof {
        let s = b@.subrange(at as int, at + 4);
        let t = seq![t0, t1, t2, t3];
        assert(s[0] == b@[at as int] && s[1] == b@[at + 1] && s[2] == b@[at + 2] && s[3] == b@[at
            + 3]);
        assert(t[0] == t0 && t[1] == t1 && t[2] == t2 && t[3] == t3);
        if r {
            assert(s =~= t);
        }
    }
    r
}

fn read_samples(b: &[u8], from: usize, len: usize) -> (v: Vec<i16>)
    requires
        from + len <= b@.len(),
    ensures
        v@ == samples(b@.subrange(from as int, from + len)),
{
    let mut out: Vec<i16> = Vec::new();
    let ghost body = b@.subrange(from as int, from + len);
    let mut i: usize = 0;
    while i + 1 < len
        invariant
            i <= len,
            from + len <= b@.len(),
            b@.len() == b.len(),
            body == b@.subrange(from as int, from + len),
            i == 2 * out@.len(),
            forall|k: int| 0 <= k < out@.len() ==> out@[k] == #[trigger] samples(body)[k],
        decreases len - i,
    {
        proof {
            lemma_spans();
            assert(body.subrange(i as int, i + 2) =~= b@.subrange(from + i, from + i + 2));
        }
        let u: u64 = read_le(b, from + i, 2);
        out.push(signed_16(u));
        i = i + 2;
    }
    assert(out@ =~= samples(body));
    out
}

/// Read a file: 16-bit mono PCM at the one rate, or why not.
pub fn parse_mono_44k(b: &[u8]) -> (r: Result<Vec<i16>, WavError>)
    ensures
        match r {
            Ok(v) => wav_of(b@) == Ok::<Seq<i16>, WavError>(v@),
            Err(e) => wav_of(b@) == Err::<Seq<i16>, WavError>(e),
        },
{
    if b.len() < 12 || !has_tag(b, 0, 82, 73, 70, 70) || !has_tag(b, 8, 87, 65, 86, 69) {
        return Err(WavError::NotWave);
    }
    let len: usize = b.len();
    let mut off: usize = 12;
    let mut seen: bool = false;
    while off <= len && len - off >= 8
        invariant
            len == b@.len(),
            wav_of(b@) == scan(b@, off as int, seen),
        decreases len - off,
    {
        proof {
            lemma_spans();
            lemma_le_value_bound(b@.subrange(off + 4, off + 8));
        }
        let sz64: u64 = read_le(b, off + 4, 4);
        let room: usize = len - off - 8;
        if sz64 > room as u64 {
            return Err(WavError::TruncatedChunk);
        }
        let sz: usize = sz64 as usize;
        if has_tag(b, off, 102, 109, 116, 32) {
            if sz < 16 {
                return Err(WavError::FmtTooShort);
            }
            let format: u64 = read_le(b, off + 8, 2);
            let channels: u64 = read_le(b, off + 10, 2);
            let rate: u64 = read_le(b, off + 12, 4);
            let bits: u64 = read_le(b, off + 22, 2);
            if format != 1 || channels != 1 || rate != SAMPLE_RATE as u64 || bits != 16 {
                return Err(
                    WavError::WrongFormat {
                        format: format as u16,
                        channels: channels as u16,
                        rate: rate as u32,
                        bits: bits as u16,
                    },
                );
            }
            seen = true;
        } else if has_tag(b, off, 100, 97, 116, 97) {
            if !seen {
                return Err(WavError::DataBeforeFmt);
            }
            return Ok(read_samples(b, off + 8, sz));
        }
        if sz == room {
            assert(scan(b@, off + 8 + sz + sz % 2, seen) == Err::<Seq<i16>, WavError>(
                WavError::NoData,
            ));
            return Err(WavError::NoData);
        }
        off = off + 8 + sz + sz % 2;
    }
    Err(WavError::NoData)
}

/// The bytes of samples.
pub open spec fn pcm_bytes(pcm: Seq<i16>) -> Seq<u8>
    decreases pcm.len(),
{
    if pcm.len() == 0 {
        Seq::empty()
    } else {
        pcm_bytes(pcm.drop_last()) + le(twos(pcm.last() as int, 2), 2)
    }
}

/// The head of a file: everything before its samples.
pub open spec fn wav_head(data_len: nat) -> Seq<u8> {
    riff() + le(36 + data_len, 4) + wave() + fmt_tag() + le(16, 4) + le(1, 2) + le(1, 2) + le(
        SAMPLE_RATE as nat,
        4,
    ) + le(2 * SAMPLE_RATE as nat, 4) + le(2, 2) + le(16, 2) + data_tag() + le(data_len, 4)
}

/// The file of some samples.
pub open spec fn wav_file(pcm: Seq<i16>) -> Seq<u8> {
    wav_head(2 * pcm.len()) + pcm_bytes(pcm)
}

/// The most samples that a file can tell of.
pub const MAX_SAMPLES: usize = 2_147_483_629;

/// Write a file.
pub fn wav_bytes(pcm: &[i16]) -> (out: Vec<u8>)
    requires
        pcm@.len() <= MAX_SAMPLES,
    ensures
        out@ == wav_file(pcm@),
{
    let data_len: u32 = (pcm.len() as u64 * 2) as u32;
    let mut out: Vec<u8> = Vec::new();
    push_all(&mut out, &[82, 73, 70, 70]);
    push_u32(&mut out, 36 + data_len);
    push_all(&mut out, &[87, 65, 86, 69]);
    push_all(&mut out, &[102, 109, 116, 32]);
    push_u32(&mut out, 16);
    push_u16(&mut out, 1);
    push_u16(&mut out, 1);
    push_u32(&mut out, SAMPLE_RATE);
    push_u32(&mut out, 88_200);
    push_u16(&mut out, 2);
    push_u16(&mut out, 16);
    push_all(&mut out, &[100, 97, 116, 97]);
    push_u32(&mut out, data_len);
    assert(out@ =~= wav_head(2 * pcm@.len()));
    let ghost head = out@;
    let mut i: usize = 0;
    assert(out@ =~= head + pcm_bytes(pcm@.take(0)));
    while i < pcm.len()
        invariant
            i <= pcm@.len(),
            out@ == head + pcm_bytes(pcm@.take(i as int)),
        decreases pcm@.len() - i,
    {
        push_i16(&mut out, pcm[i]);
        proof {
            assert(pcm@.take(i + 1).drop_last() =~= pcm@.take(i as int));
            assert(pcm@.take(i + 1).last() == pcm@[i as int]);
            assert(out@ =~= head + pcm_bytes(pcm@.take(i + 1)));
        }
        i = i + 1;
    }
    assert(pcm@.take(i as int) =~= pcm@);
    out
}

proof fn lemma_pcm(pcm: Seq<i16>)
    ensures
        pcm_bytes(pcm).len() == 2 * pcm.len(),
        samples(pcm_bytes(pcm)) == pcm,
    decreases pcm.len(),
{
    let b = pcm_bytes(pcm);
    if pcm.len() > 0 {
        let d = pcm.drop_last();
        lemma_pcm(d);
        let a = pcm_bytes(d);
        let v = pcm.last();
        lemma_spans();
        lemma_twos_roundtrip(v as int, 2);
        lemma_le_roundtrip(twos(v as int, 2), 2);
        assert(b.subrange(2 * d.len() as int, 2 * d.len() as int + 2) =~= le(twos(v as int, 2), 2));
        assert forall|i: int| 0 <= i < pcm.len() implies samples(b)[i] == pcm[i] by {
            if i < d.len() {
                assert(b.subrange(2 * i, 2 * i + 2) =~= a.subrange(2 * i, 2 * i + 2));
                assert(samples(a)[i] == d[i]);
            }
        }
    }
    assert(samples(b) =~= pcm);
}

/// A file that was written reads back as the samples that went into it.
pub proof fn lemma_wav_roundtrip(pcm: Seq<i16>)
    requires
        pcm.len() <= MAX_SAMPLES,
    ensures
        wav_of(wav_file(pcm)) == Ok::<Seq<i16>, WavError>(pcm),
{
    let n = 2 * pcm.len();
    let b = wav_file(pcm);
    lemma_spans();
    lemma_pcm(pcm);
    lemma_le_len(36 + n, 4);
    lemma_le_roundtrip(16, 4);
    lemma_le_roundtrip(1, 2);
    lemma_le_roundtrip(SAMPLE_RATE as nat, 4);
    lemma_le_len(2 * SAMPLE_RATE as nat, 4);
    lemma_le_len(2, 2);
    lemma_le_roundtrip(16, 2);
    lemma_le_roundtrip(n, 4);
    assert(b.len() == 44 + n);
    assert(b.subrange(0, 4) =~= riff());
    assert(b.subrange(8, 12) =~= wave());
    assert(b.subrange(12, 16) =~= fmt_tag());
    assert(b.subrange(16, 20) =~= le(16, 4));
    assert(b.subrange(20, 22) =~= le(1, 2));
    assert(b.subrange(22, 24) =~= le(1, 2));
    assert(b.subrange(24, 28) =~= le(SAMPLE_RATE as nat, 4));
    assert(b.subrange(34, 36) =~= le(16, 2));
    assert(b.subrange(36, 40) =~= data_tag());
    assert(b.subrange(40, 44) =~= le(n, 4));
    assert(b.subrange(44, (44 + n) as int) =~= pcm_bytes(pcm));
    assert(data_tag()[0] != fmt_tag()[0]);
    assert(scan(b, 36, true) == Ok::<Seq<i16>, WavError>(pcm));
    assert(scan(b, 12, false) == scan(b, 36, true));
}

/// A sample as it is played again: scaled to the open range, toward zero.
pub open spec fn replayed(v: int) -> int {
    if v >= 0 {
        v * 32767 / 32768
    } else {
        -((-v) * 32767 / 32768)
    }
}

pub fn replay_sample(v: i16) -> (r: i16)
    ensures
        r == replayed(v as int),
{
    let x: i32 = v as i32;
    if x >= 0 {
        (x * 32767 / 32768) as i16
    } else {
        let y: i32 = (-x) * 32767 / 32768;
        (-y) as i16
    }
}

/// A chunk of another kind is passed over, with the byte that pads it where its size is odd;
/// the first data chunk after a format gives the samples, and one before it is an error.
pub proof fn lemma_other_chunks_are_passed_over(b: Seq<u8>, off: int, seen: bool, sz: int)
    requires
        0 <= off,
        off + 8 + sz <= b.len(),
        sz == field(b, off + 4, 4),
        b.subrange(off, off + 4) != fmt_tag(),
    ensures
        b.subrange(off, off + 4) != data_tag() && sz % 2 == 0 ==> scan(b, off, seen) == scan(
            b,
            off + 8 + sz,
            seen,
        ),
        b.subrange(off, off + 4) != data_tag() && sz % 2 == 1 ==> scan(b, off, seen) == scan(
            b,
            off + 9 + sz,
            seen,
        ),
        b.subrange(off, off + 4) == data_tag() && seen ==> scan(b, off, seen) == Ok::<
            Seq<i16>,
            WavError,
        >(samples(b.subrange(off + 8, off + 8 + sz))),
        b.subrange(off, off + 4) == data_tag() && !seen ==> scan(b, off, seen) == Err::<
            Seq<i16>,
            WavError,
        >(WavError::DataBeforeFmt),
{
}

} // verus!
