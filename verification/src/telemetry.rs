//! What a game reports to its collector, when it samples, and how a report reads.

use crate::bytes::{le, le_value, lemma_le_roundtrip, lemma_spans, push_all, push_u32};
use crate::server::host::{Server, ServerState};
use crate::sim::entities::Outcome;
use crate::sim::input::Input;
use crate::sim::round::{state_digest, Sim};
use crate::sim::world::TICK_HZ;
use crate::text::{
    chars_of, debug_of, debug_text, decimal, digit_char, fixed_digits, flush_right,
    hex_digit_value, hex_u64, hex_value, is_white, push_decimal, push_fixed, push_flush_right,
    push_hex_u64, push_signed, push_text, signed_decimal, string_of, texts, trim_chars, trimmed,
    trimmed_end, trimmed_start,
};
use vstd::prelude::*;
use vstd::string::*;
use vstd::utf8::{encode_utf8, is_ascii_chars, is_ascii_chars_encode_utf8};

verus! {

/// Ticks between two samples.
pub const TELEMETRY_TICK_EVERY: u64 = TICK_HZ;

/// Frames longer than this are refused.
pub const MAX_FRAME_LEN: usize = 65_536;

/// Sampled events queued at most.
pub const QUEUE_DEPTH: usize = 256;

/// How often a collector is dialed.
pub const DIAL_ATTEMPTS: u32 = 10;

/// How long is waited after a dial that failed, in milliseconds.
pub const DIAL_BACKOFF_MS: u64 = 500;

/// Whether a collector that `failed` dials did not reach is dialed again, and if so how long is
/// waited should that one fail too.
pub fn next_dial(failed: u32) -> (wait_ms: Option<u64>)
    ensures
        wait_ms == (if failed < 10 {
            Some(500u64)
        } else {
            None
        }),
{
    if failed < DIAL_ATTEMPTS {
        Some(DIAL_BACKOFF_MS)
    } else {
        None
    }
}

/// The first sampling boundary strictly after `now`: the one rule every driver advances its
/// watermark by.
pub fn next_sample_tick(now: u64) -> (t: u64)
    requires
        now <= u64::MAX - TELEMETRY_TICK_EVERY,
    ensures
        t > now,
        t % TELEMETRY_TICK_EVERY == 0,
        t <= now + TELEMETRY_TICK_EVERY,
{
    (now / TELEMETRY_TICK_EVERY + 1) * TELEMETRY_TICK_EVERY
}

/// There is one such boundary: between two neighboring ones lies none.
pub proof fn lemma_next_sample_is_first(now: u64, t: u64, other: u64)
    requires
        t > now,
        t % TELEMETRY_TICK_EVERY == 0,
        t <= now + TELEMETRY_TICK_EVERY,
        other > now,
        other % TELEMETRY_TICK_EVERY == 0,
    ensures
        t <= other,
{
    assert(t == 30 * (t / 30) && other == 30 * (other / 30));
}

/// One report.
#[derive(Debug, Clone)]
pub enum TelemetryEvent {
    RosterForming { live: usize, expect: usize },
    RosterAgreed { members: Vec<String>, roster_hash: u64, me: u8 },
    /// A roster change that did not happen.
    RosterFailed { reason: String },
    /// A rostered player left and the match goes on without them.
    Departed { player: u8, endpoint: String },
    /// A joiner was given a seat.
    Admitted { player: u8, endpoint: String, effective_tick: u64 },
    Tick { tick: u64, state_hash: u64, roster: usize },
    Input { tick: u64, strafe: i16, forward: i16, look: i16, buttons: u8 },
    RoundDecided { outcome: Outcome, tick: u64, state_hash: u64 },
    Fault { msg: String },
}

/// A report with its game and its time.
#[derive(Debug, Clone)]
pub struct Envelope {
    pub game_id: [u8; 32],
    pub wall_ms: u64,
    pub event: TelemetryEvent,
}

/// The outcome's name.
pub open spec fn outcome_text(o: Outcome) -> Seq<char> {
    match o {
        Outcome::Ongoing => "Ongoing"@,
        Outcome::Extracted => "Extracted (WON)"@,
        Outcome::Wiped => "Wiped (LOST)"@,
    }
}

pub fn outcome_str(o: Outcome) -> (s: &'static str)
    ensures
        s@ == outcome_text(o),
{
    match o {
        Outcome::Ongoing => "Ongoing",
        Outcome::Extracted => "Extracted (WON)",
        Outcome::Wiped => "Wiped (LOST)",
    }
}

/// Quoted texts with commas between.
pub open spec fn quoted_list(t: Seq<Seq<char>>) -> Seq<char>
    decreases t.len(),
{
    if t.len() == 0 {
        Seq::empty()
    } else if t.len() == 1 {
        debug_of(t[0])
    } else {
        quoted_list(t.drop_last()) + ", "@ + debug_of(t.last())
    }
}

fn push_quoted_list(out: &mut String, v: &Vec<String>)
    ensures
        final(out)@ == old(out)@ + quoted_list(texts(v@)),
{
    let ghost start = out@;
    let ghost t = texts(v@);
    let mut i: usize = 0;
    assert(t.take(0) =~= Seq::<Seq<char>>::empty());
    assert(start + quoted_list(t.take(0)) =~= start);
    while i < v.len()
        invariant
            i <= v@.len(),
            t == texts(v@),
            out@ == start + quoted_list(t.take(i as int)),
        decreases v@.len() - i,
    {
        proof {
            assert(t.take(i + 1).drop_last() =~= t.take(i as int));
            assert(t.take(i + 1).last() == v@[i as int]@);
        }
        if i > 0 {
            push_text(out, ", ");
        }
        let q = debug_text(v[i].as_str());
        push_text(out, q.as_str());
        i = i + 1;
        assert(out@ =~= start + quoted_list(t.take(i as int)));
    }
    assert(t.take(i as int) =~= t);
}

/// A number flush right in a field.
pub open spec fn right_decimal(v: int, width: nat) -> Seq<char> {
    flush_right(signed_decimal(v), width)
}

fn push_right(out: &mut String, v: i64, width: usize)
    ensures
        final(out)@ == old(out)@ + right_decimal(v as int, width as nat),
{
    let mut t = String::new();
    push_signed(&mut t, v);
    assert(t@ =~= signed_decimal(v as int));
    push_flush_right(out, t.as_str(), width);
}

fn push_right_u64(out: &mut String, v: u64, width: usize)
    ensures
        final(out)@ == old(out)@ + right_decimal(v as int, width as nat),
{
    let mut t = String::new();
    push_decimal(&mut t, v);
    assert(t@ =~= signed_decimal(v as int));
    push_flush_right(out, t.as_str(), width);
}

impl TelemetryEvent {
    /// The sampled events may be dropped under pressure; every other is critical.
    pub open spec fn sampled(self) -> bool {
        self is Tick || self is Input
    }

    /// How the event reads.
    pub open spec fn rendering(self) -> Seq<char> {
        match self {
            TelemetryEvent::RosterForming { live, expect } => "forming roster: "@ + decimal(
                live as nat,
            ) + "/"@ + decimal(expect as nat) + " live"@,
            TelemetryEvent::RosterAgreed { members, roster_hash, me } => "ROSTER AGREED: "@
                + decimal(members@.len()) + " player(s) ["@ + quoted_list(texts(members@))
                + "], me=P"@ + decimal(me as nat) + ", roster_hash="@ + hex_u64(roster_hash),
            TelemetryEvent::RosterFailed { reason } => "ROSTER FAILED: "@ + reason@,
            TelemetryEvent::Departed { player, endpoint } => "DEPARTED: P"@ + decimal(
                player as nat,
            ) + " ("@ + endpoint@ + ") — continuing without them"@,
            TelemetryEvent::Admitted { player, endpoint, effective_tick } => "ADMITTED: "@
                + endpoint@ + " as P"@ + decimal(player as nat) + ", effective at tick "@
                + decimal(effective_tick as nat),
            TelemetryEvent::Tick { tick, state_hash, roster } => "tick="@ + right_decimal(
                tick as int,
                6,
            ) + " hash="@ + hex_u64(state_hash) + " roster="@ + decimal(roster as nat),
            TelemetryEvent::Input { tick, strafe, forward, look, buttons } => "input@"@
                + right_decimal(tick as int, 6) + " strafe="@ + right_decimal(strafe as int, 5)
                + " fwd="@ + right_decimal(forward as int, 5) + " look="@ + right_decimal(
                look as int,
                5,
            ) + " btn=0x"@ + fixed_digits(buttons as nat, 16, 2),
            TelemetryEvent::RoundDecided { outcome, tick, state_hash } => "ROUND DECIDED: "@
                + outcome_text(outcome) + " @tick "@ + decimal(tick as nat) + " hash="@ + hex_u64(
                state_hash,
            ),
            TelemetryEvent::Fault { msg } => "FAULT: "@ + msg@,
        }
    }

    /// A sample of the world.
    pub fn tick(sim: &Sim, roster: usize) -> (e: Self)
        ensures
            e == (TelemetryEvent::Tick {
                tick: sim@.tick,
                state_hash: state_digest(sim@),
                roster,
            }),
    {
        TelemetryEvent::Tick { tick: sim.tick(), state_hash: sim.state_hash(), roster }
    }

    /// A sample of an input.
    pub fn input(tick: u64, input: Input) -> (e: Self)
        ensures
            e == (TelemetryEvent::Input {
                tick,
                strafe: input.move_strafe,
                forward: input.move_forward,
                look: input.look_yaw,
                buttons: input.buttons,
            }),
    {
        TelemetryEvent::Input {
            tick,
            strafe: input.move_strafe,
            forward: input.move_forward,
            look: input.look_yaw,
            buttons: input.buttons,
        }
    }

    /// The verdict of a decided round.
    pub fn round_decided(sim: &Sim) -> (e: Self)
        requires
            sim@.outcome != Outcome::Ongoing,
        ensures
            e == (TelemetryEvent::RoundDecided {
                outcome: sim@.outcome,
                tick: sim@.tick,
                state_hash: state_digest(sim@),
            }),
    {
        TelemetryEvent::RoundDecided {
            outcome: sim.outcome(),
            tick: sim.tick(),
            state_hash: sim.state_hash(),
        }
    }

    /// Whether the event may be dropped under pressure.
    pub fn is_sheddable(&self) -> (b: bool)
        ensures
            b == self.sampled(),
    {
        matches!(self, TelemetryEvent::Tick { .. } | TelemetryEvent::Input { .. })
    }

    /// The event as one line.
    pub fn render(&self) -> (s: String)
        ensures
            s@ == self.rendering(),
    {
        let mut out = String::new();
        match self {
            TelemetryEvent::RosterForming { live, expect } => {
                push_text(&mut out, "forming roster: ");
                push_decimal(&mut out, *live as u64);
                push_text(&mut out, "/");
                push_decimal(&mut out, *expect as u64);
                push_text(&mut out, " live");
            },
            TelemetryEvent::RosterAgreed { members, roster_hash, me } => {
                push_text(&mut out, "ROSTER AGREED: ");
                push_decimal(&mut out, members.len() as u64);
                push_text(&mut out, " player(s) [");
                push_quoted_list(&mut out, members);
                push_text(&mut out, "], me=P");
                push_decimal(&mut out, *me as u64);
                push_text(&mut out, ", roster_hash=");
                push_hex_u64(&mut out, *roster_hash);
            },
            TelemetryEvent::RosterFailed { reason } => {
                push_text(&mut out, "ROSTER FAILED: ");
                push_text(&mut out, reason.as_str());
            },
            TelemetryEvent::Departed { player, endpoint } => {
                push_text(&mut out, "DEPARTED: P");
                push_decimal(&mut out, *player as u64);
                push_text(&mut out, " (");
                push_text(&mut out, endpoint.as_str());
                push_text(&mut out, ") — continuing without them");
            },
            TelemetryEvent::Admitted { player, endpoint, effective_tick } => {
                push_text(&mut out, "ADMITTED: ");
                push_text(&mut out, endpoint.as_str());
                push_text(&mut out, " as P");
                push_decimal(&mut out, *player as u64);
                push_text(&mut out, ", effective at tick ");
                push_decimal(&mut out, *effective_tick);
            },
            TelemetryEvent::Tick { tick, state_hash, roster } => {
                push_text(&mut out, "tick=");
                push_right_u64(&mut out, *tick, 6);
                push_text(&mut out, " hash=");
                push_hex_u64(&mut out, *state_hash);
                push_text(&mut out, " roster=");
                push_decimal(&mut out, *roster as u64);
            },
            TelemetryEvent::Input { tick, strafe, forward, look, buttons } => {
                push_text(&mut out, "input@");
                push_right_u64(&mut out, *tick, 6);
                push_text(&mut out, " strafe=");
                push_right(&mut out, *strafe as i64, 5);
                push_text(&mut out, " fwd=");
                push_right(&mut out, *forward as i64, 5);
                push_text(&mut out, " look=");
                push_right(&mut out, *look as i64, 5);
                push_text(&mut out, " btn=0x");
                push_fixed(&mut out, *buttons as u64, 16, 2);
            },
            TelemetryEvent::RoundDecided { outcome, tick, state_hash } => {
                push_text(&mut out, "ROUND DECIDED: ");
                push_text(&mut out, outcome_str(*outcome));
                push_text(&mut out, " @tick ");
                push_decimal(&mut out, *tick);
                push_text(&mut out, " hash=");
                push_hex_u64(&mut out, *state_hash);
            },
            TelemetryEvent::Fault { msg } => {
                push_text(&mut out, "FAULT: ");
                push_text(&mut out, msg.as_str());
            },
        }
        assert(out@ =~= self.rendering());
        out
    }
}

/// The time of day, in UTC, to the millisecond.
pub open spec fn clock_text(wall_ms: u64) -> Seq<char> {
    let secs = wall_ms as nat / 1000;
    fixed_digits(secs / 3600 % 24, 10, 2) + ":"@ + fixed_digits(secs / 60 % 60, 10, 2) + ":"@
        + fixed_digits(secs % 60, 10, 2) + "."@ + fixed_digits(wall_ms as nat % 1000, 10, 3)
}

pub fn clock(wall_ms: u64) -> (s: String)
    ensures
        s@ == clock_text(wall_ms),
{
    let mut out = String::new();
    let secs: u64 = wall_ms / 1000;
    push_fixed(&mut out, (secs / 3600) % 24, 10, 2);
    push_text(&mut out, ":");
    push_fixed(&mut out, (secs / 60) % 60, 10, 2);
    push_text(&mut out, ":");
    push_fixed(&mut out, secs % 60, 10, 2);
    push_text(&mut out, ".");
    push_fixed(&mut out, wall_ms % 1000, 10, 3);
    assert(out@ =~= clock_text(wall_ms));
    out
}

/// Bytes as pairs of hexadecimal digits.
pub open spec fn hex_text(b: Seq<u8>) -> Seq<char>
    decreases b.len(),
{
    if b.len() == 0 {
        Seq::empty()
    } else {
        hex_text(b.drop_last()) + fixed_digits(b.last() as nat, 16, 2)
    }
}

/// A key as 64 hexadecimal digits.
pub fn encode_key_hex(key: &[u8; 32]) -> (s: String)
    ensures
        s@ == hex_text(key@),
{
    hex_prefix(key, 32)
}

/// The first four bytes of an id: how an id that is no key is shown.
pub fn hex8(id: &[u8; 32]) -> (s: String)
    ensures
        s@ == hex_text(id@.take(4)),
{
    hex_prefix(id, 4)
}

pub(crate) fn hex_prefix(id: &[u8; 32], n: usize) -> (s: String)
    requires
        n <= 32,
    ensures
        s@ == hex_text(id@.take(n as int)),
        n == 32 ==> s@ == hex_text(id@),
{
    let mut out = String::new();
    let mut i: usize = 0;
    assert(id@.take(0) =~= Seq::<u8>::empty());
    while i < n
        invariant
            i <= n <= 32,
            out@ == hex_text(id@.take(i as int)),
        decreases n - i,
    {
        proof {
            assert(id@.take(i + 1).drop_last() =~= id@.take(i as int));
            assert(id@.take(i + 1).last() == id@[i as int]);
        }
        push_fixed(&mut out, id[i] as u64, 16, 2);
        i = i + 1;
    }
    assert(n == 32 ==> id@.take(32) =~= id@);
    out
}

/// Why a text is no key.
#[derive(Debug, Clone, Copy, PartialEq, Eq, Structural)]
pub enum KeyHexError {
    /// Not 64 bytes long.
    Length { got: usize },
    /// The pair for this byte is not two hexadecimal digits.
    BadHex { byte: usize },
}

/// The byte that a pair of characters spells. A leading plus sign is no digit but is let
/// pass, as number parsing does.
pub open spec fn pair_value(a: u8, b: u8) -> Option<u8> {
    if a == 43 {
        hex_value(b)
    } else {
        match (hex_value(a), hex_value(b)) {
            (Some(x), Some(y)) => Some((16 * x + y) as u8),
            _ => None,
        }
    }
}

fn pair_byte(a: u8, b: u8) -> (r: Option<u8>)
    ensures
        r == pair_value(a, b),
{
    if a == 43 {
        return hex_digit_value(b);
    }
    match hex_digit_value(a) {
        Some(x) => match hex_digit_value(b) {
            Some(y) => Some(16 * x + y),
            None => None,
        },
        None => None,
    }
}

/// Pair `i` spells a byte.
pub open spec fn pair_ok(t: Seq<u8>, i: int) -> bool {
    pair_value(t[2 * i], t[2 * i + 1]) is Some
}

/// Pair `i` is the first that spells no byte.
pub open spec fn is_first_bad(t: Seq<u8>, i: int) -> bool {
    &&& 0 <= i < 32
    &&& !pair_ok(t, i)
    &&& forall|j: int| 0 <= j < i ==> #[trigger] pair_ok(t, j)
}

/// The key spelled by a text of 64 hexadecimal digits.
pub open spec fn key_of(t: Seq<u8>) -> Result<Seq<u8>, KeyHexError> {
    if t.len() != 64 {
        Err(KeyHexError::Length { got: t.len() as usize })
    } else if exists|i: int| is_first_bad(t, i) {
        Err(KeyHexError::BadHex { byte: (choose|i: int| is_first_bad(t, i)) as usize })
    } else {
        Ok(Seq::new(32, |i: int| pair_value(t[2 * i], t[2 * i + 1])->0))
    }
}

/// Read a key's text.
pub fn decode_key_hex(s: &str) -> (r: Result<[u8; 32], KeyHexError>)
    ensures
        match r {
            Ok(k) => key_of(s.spec_bytes()) == Ok::<Seq<u8>, KeyHexError>(k@),
            Err(e) => key_of(s.spec_bytes()) == Err::<Seq<u8>, KeyHexError>(e),
        },
{
    let v = s.as_bytes();
    let ghost t = v@;
    if v.len() != 64 {
        return Err(KeyHexError::Length { got: v.len() });
    }
    let mut out: [u8; 32] = [0u8; 32];
    let mut i: usize = 0;
    while i < 32
        invariant
            i <= 32,
            v@ == t,
            t == s.spec_bytes(),
            t.len() == 64,
            forall|j: int| 0 <= j < i ==> #[trigger] pair_ok(t, j),
            forall|j: int|
                0 <= j < i ==> #[trigger] out@[j] == pair_value(t[2 * j], t[2 * j + 1])->0,
        decreases 32 - i,
    {
        match pair_byte(v[2 * i], v[2 * i + 1]) {
            Some(b) => {
                assert(pair_ok(t, i as int));
                out[i] = b;
            },
            None => {
                proof {
                    assert(is_first_bad(t, i as int));
                    let c = choose|c: int| is_first_bad(t, c);
                    assert(is_first_bad(t, c));
                    assert(pair_ok(t, c) || c >= i);
                    assert(pair_ok(t, i as int) || i >= c);
                }
                return Err(KeyHexError::BadHex { byte: i });
            },
        }
        i = i + 1;
    }
    proof {
        assert forall|c: int| !is_first_bad(t, c) by {
            assert(0 <= c < 32 ==> pair_ok(t, c));
        }
        assert(out@ =~= Seq::new(32, |i: int| pair_value(t[2 * i], t[2 * i + 1])->0));
    }
    Ok(out)
}

/// Where a byte's two digits stand in a text of bytes.
proof fn lemma_hex_text_at(b: Seq<u8>, i: int)
    requires
        0 <= i < b.len(),
    ensures
        hex_text(b).len() == 2 * b.len(),
        hex_text(b)[2 * i] == digit_char((b[i] / 16) as nat),
        hex_text(b)[2 * i + 1] == digit_char((b[i] % 16) as nat),
    decreases b.len(),
{
    reveal_with_fuel(fixed_digits, 3);
    let d = b.drop_last();
    let tail = fixed_digits(b.last() as nat, 16, 2);
    assert(tail.len() == 2);
    assert(tail[0] == digit_char((b.last() / 16) as nat));
    assert(tail[1] == digit_char((b.last() % 16) as nat));
    if d.len() > 0 {
        lemma_hex_text_at(d, if i < d.len() {
            i
        } else {
            0
        });
        assert(i < d.len() ==> d[i] == b[i]);
    } else {
        assert(hex_text(d).len() == 0);
    }
    assert(hex_text(b) == hex_text(d) + tail);
}

/// Every digit of a text of bytes is a hexadecimal digit.
proof fn lemma_hex_text_digits(b: Seq<u8>)
    ensures
        hex_text(b).len() == 2 * b.len(),
        forall|k: int|
            0 <= k < 2 * b.len() ==> #[trigger] hex_text(b)[k] == digit_char(
                if k % 2 == 0 {
                    (b[k / 2] / 16) as nat
                } else {
                    (b[k / 2] % 16) as nat
                },
            ),
{
    if b.len() > 0 {
        lemma_hex_text_at(b, 0);
    }
    assert forall|k: int| 0 <= k < 2 * b.len() implies #[trigger] hex_text(b)[k] == digit_char(
        if k % 2 == 0 {
            (b[k / 2] / 16) as nat
        } else {
            (b[k / 2] % 16) as nat
        },
    ) by {
        lemma_hex_text_at(b, k / 2);
        assert(k == 2 * (k / 2) || k == 2 * (k / 2) + 1);
    }
}

/// A key written out reads back.
pub proof fn lemma_key_roundtrip(key: Seq<u8>)
    requires
        key.len() == 32,
    ensures
        key_of(encode_utf8(hex_text(key))) == Ok::<Seq<u8>, KeyHexError>(key),
{
    let c = hex_text(key);
    lemma_hex_text_digits(key);
    assert(is_ascii_chars(c));
    is_ascii_chars_encode_utf8(c);
    let t = encode_utf8(c);
    assert forall|i: int| 0 <= i < 32 implies #[trigger] pair_ok(t, i) && pair_value(
        t[2 * i],
        t[2 * i + 1],
    ) == Some(key[i]) by {
        assert(c[2 * i] as u8 == t[2 * i]);
        assert(c[2 * i + 1] as u8 == t[2 * i + 1]);
        assert((2 * i) / 2 == i && (2 * i + 1) / 2 == i);
    }
    assert forall|i: int| !is_first_bad(t, i) by {
        assert(0 <= i < 32 ==> pair_ok(t, i));
    }
    assert forall|i: int| 0 <= i < 32 implies pair_value(t[2 * i], t[2 * i + 1])->0 == key[i] by {
        assert(pair_ok(t, i));
    }
    assert(Seq::new(32, |i: int| pair_value(t[2 * i], t[2 * i + 1])->0) =~= key);
}

/// What a key's file holds.
pub open spec fn key_file(key: Seq<u8>) -> Seq<char> {
    hex_text(key) + "\n"@
}

/// Write a key's file.
pub fn key_text(key: &[u8; 32]) -> (s: String)
    ensures
        s@ == key_file(key@),
{
    let mut out = encode_key_hex(key);
    push_text(&mut out, "\n");
    out
}

/// Read a key's file: white space around the key does not matter.
pub fn key_from_text(text: &str) -> (r: Result<[u8; 32], KeyHexError>)
    ensures
        match r {
            Ok(k) => key_of(encode_utf8(trimmed(text@))) == Ok::<Seq<u8>, KeyHexError>(k@),
            Err(e) => key_of(encode_utf8(trimmed(text@))) == Err::<Seq<u8>, KeyHexError>(e),
        },
{
    let mut v = chars_of(text);
    trim_chars(&mut v);
    let t = string_of(v.as_slice());
    decode_key_hex(t.as_str())
}

/// A key's file gives back the key that was written to it.
pub proof fn lemma_key_file_reads_back(key: Seq<u8>)
    requires
        key.len() == 32,
    ensures
        key_of(encode_utf8(trimmed(key_file(key)))) == Ok::<Seq<u8>, KeyHexError>(key),
{
    let c = hex_text(key);
    let f = key_file(key);
    lemma_hex_text_digits(key);
    reveal_strlit("\n");
    assert(f[0] == c[0] && !is_white(f[0]));
    assert(trimmed_start(f) == f);
    assert(is_white(f.last()));
    assert(f.drop_last() =~= c);
    assert(c.last() == c[63] && !is_white(c.last()));
    assert(trimmed_end(c) == c);
    assert(trimmed_end(f) == trimmed_end(c));
    lemma_key_roundtrip(key);
}

/// Whether bytes are the id of an endpoint.
pub uninterp spec fn is_endpoint(id: Seq<u8>) -> bool;

/// `iroh::EndpointId::from_bytes`: whether it takes bytes for an id depends on the bytes
/// alone. Which bytes it takes, those of a point of its curve, is left unsaid.
#[verifier::external_body]
fn names_endpoint(id: &[u8; 32]) -> (b: bool)
    ensures
        b == is_endpoint(id@),
{
    iroh::EndpointId::from_bytes(id).is_ok()
}

/// The line that a collector prints of an event, given whether its source is an endpoint.
pub open spec fn line_text(env: Envelope, endpoint: bool) -> Seq<char> {
    "["@ + hex_text(
        env.game_id@.take(
            if endpoint {
                5
            } else {
                4
            },
        ),
    ) + "] "@ + clock_text(env.wall_ms) + " "@ + env.event.rendering()
}

/// The line of an event whose source was looked at.
pub fn line_from(env: &Envelope, endpoint: bool) -> (s: String)
    ensures
        s@ == line_text(*env, endpoint),
{
    let mut out = String::new();
    push_text(&mut out, "[");
    let src = if endpoint {
        hex_prefix(&env.game_id, 5)
    } else {
        hex8(&env.game_id)
    };
    push_text(&mut out, src.as_str());
    push_text(&mut out, "] ");
    let at = clock(env.wall_ms);
    push_text(&mut out, at.as_str());
    push_text(&mut out, " ");
    let what = env.event.render();
    push_text(&mut out, what.as_str());
    assert(out@ =~= line_text(*env, endpoint));
    out
}

/// The line that a collector prints of an event: where it came from, when, and what.
pub fn event_line(env: &Envelope) -> (s: String)
    ensures
        s@ == line_text(*env, is_endpoint(env.game_id@)),
{
    line_from(env, names_endpoint(&env.game_id))
}

/// The ids of several endpoints, cut down for people to read.
pub fn short_ids(ids: &[[u8; 32]]) -> (v: Vec<String>)
    ensures
        texts(v@) == Seq::new(ids@.len(), |i: int| hex_text(ids@[i]@.take(5))),
{
    let mut out: Vec<String> = Vec::new();
    let mut i: usize = 0;
    while i < ids.len()
        invariant
            i <= ids@.len(),
            out@.len() == i,
            forall|k: int| 0 <= k < i ==> (#[trigger] out@[k])@ == hex_text(ids@[k]@.take(5)),
        decreases ids@.len() - i,
    {
        out.push(hex_prefix(&ids[i], 5));
        i = i + 1;
    }
    assert(texts(out@) =~= Seq::new(ids@.len(), |i: int| hex_text(ids@[i]@.take(5))));
    out
}

/// Take the reports of chronic starvation as faults to report.
pub fn surface_starvation(server: &mut Server) -> (v: Vec<TelemetryEvent>)
    requires
        old(server).wf(),
    ensures
        v@.len() == old(server)@.reports.len(),
        forall|i: int|
            0 <= i < v@.len() ==> ((#[trigger] v@[i]) matches TelemetryEvent::Fault { msg } && msg@
                == old(server)@.reports[i].text_of()),
        final(server)@ == (ServerState { reports: Seq::empty(), ..old(server)@ }),
        final(server).wf(),
{
    let reports = server.take_starvation_reports();
    let mut out: Vec<TelemetryEvent> = Vec::new();
    let mut i: usize = 0;
    while i < reports.len()
        invariant
            i <= reports@.len(),
            out@.len() == i,
            forall|k: int|
                0 <= k < i ==> ((#[trigger] out@[k]) matches TelemetryEvent::Fault { msg } && msg@
                    == reports@[k].text_of()),
        decreases reports@.len() - i,
    {
        out.push(TelemetryEvent::Fault { msg: reports[i].text() });
        i = i + 1;
    }
    out
}

/// A report on a stream: its length, then its bytes.
pub open spec fn report_frame(body: Seq<u8>) -> Seq<u8> {
    le(body.len(), 4) + body
}

/// Frame a report; one that is too long is not sent.
pub fn frame_report(body: &[u8]) -> (r: Result<Vec<u8>, String>)
    ensures
        r is Ok <==> body@.len() <= MAX_FRAME_LEN,
        match r {
            Ok(f) => f@ == report_frame(body@),
            Err(e) => e@ == "telemetry frame too large"@,
        },
{
    if !frame_fits(body.len()) {
        return Err(String::from_str("telemetry frame too large"));
    }
    let mut out: Vec<u8> = Vec::new();
    push_u32(&mut out, body.len() as u32);
    push_all(&mut out, body);
    assert(out@ =~= report_frame(body@));
    Ok(out)
}

/// Whether a report of this length may follow; if not, what is wrong.
pub fn check_report_len(len: u32) -> (r: Result<(), String>)
    ensures
        r is Ok <==> len <= MAX_FRAME_LEN,
        r matches Err(e) ==> e@ == "telemetry frame "@ + decimal(len as nat) + " exceeds cap"@,
{
    if frame_fits(len as usize) {
        return Ok(());
    }
    let mut out = String::new();
    push_text(&mut out, "telemetry frame ");
    push_decimal(&mut out, len as u64);
    push_text(&mut out, " exceeds cap");
    assert(out@ =~= "telemetry frame "@ + decimal(len as nat) + " exceeds cap"@);
    Err(out)
}

/// A report that is sent is let through and reads back.
pub proof fn lemma_report_reads_back(body: Seq<u8>)
    requires
        body.len() <= MAX_FRAME_LEN,
    ensures
        ({
            let f = report_frame(body);
            &&& le_value(f.take(4)) == body.len()
            &&& f.skip(4) == body
        }),
{
    lemma_spans();
    lemma_le_roundtrip(body.len(), 4);
    let f = report_frame(body);
    assert(f.take(4) =~= le(body.len(), 4));
    assert(f.skip(4) =~= body);
}

/// Whether a frame of this length is let through.
pub fn frame_fits(len: usize) -> (b: bool)
    ensures
        b == (len <= MAX_FRAME_LEN),
{
    len <= MAX_FRAME_LEN
}

} // verus!
