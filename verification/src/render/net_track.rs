//! Samples of walkers and inputs: taken at a tenth of a second, sent off once a second.

use crate::sim::world::TICK_HZ;
use crate::text::{decimal, push_decimal, push_text};
use vstd::prelude::*;

verus! {

/// Ticks between two samples.
pub const SAMPLE_EVERY_TICKS: u64 = 3;

/// Ticks between two batches.
pub const EMIT_EVERY_TICKS: u64 = TICK_HZ;

/// The next multiple of `every` beyond a tick.
pub open spec fn next_mark(tick: u64, every: u64) -> int {
    (tick / every + 1) * every
}

/// What was sampled and not sent off yet.
#[derive(Debug)]
pub struct NetTrack {
    seen: u64,
    next_sample: u64,
    next_emit: u64,
    players: String,
    inputs: String,
}

/// The track by value.
pub struct TrackView {
    pub seen: u64,
    pub next_sample: u64,
    pub next_emit: u64,
    pub players: Seq<char>,
    pub inputs: Seq<char>,
}

impl View for NetTrack {
    type V = TrackView;

    closed spec fn view(&self) -> TrackView {
        TrackView {
            seen: self.seen,
            next_sample: self.next_sample,
            next_emit: self.next_emit,
            players: self.players@,
            inputs: self.inputs@,
        }
    }
}

/// The track at a tick: a tick below the last one means a new round, which starts over.
pub open spec fn track_at(s: TrackView, tick: u64) -> TrackView {
    if tick < s.seen {
        TrackView {
            seen: tick,
            next_sample: 0,
            next_emit: 0,
            players: Seq::empty(),
            inputs: Seq::empty(),
        }
    } else {
        TrackView { seen: tick, ..s }
    }
}

/// Samples with one more behind them.
pub open spec fn joined(buf: Seq<char>, s: Seq<char>) -> Seq<char> {
    if buf.len() == 0 {
        s
    } else {
        buf + ","@ + s
    }
}

/// The batches that are sent off.
#[derive(Debug)]
pub struct Batches {
    pub players: Option<String>,
    pub inputs: Option<String>,
}

/// A batch of samples, if there are any.
pub open spec fn batch(buf: Seq<char>) -> Option<Seq<char>> {
    if buf.len() == 0 {
        None
    } else {
        Some("["@ + buf + "]"@)
    }
}

/// What an optional text holds.
pub open spec fn text_in(s: Option<String>) -> Option<Seq<char>> {
    match s {
        Some(t) => Some(t@),
        None => None,
    }
}

/// The samples with the tick's behind them.
pub open spec fn sampled(s: TrackView, players: Option<Seq<char>>, input: Seq<char>) -> TrackView {
    TrackView {
        players: match players {
            Some(p) => if p.len() > 0 {
                joined(s.players, p)
            } else {
                s.players
            },
            None => s.players,
        },
        inputs: joined(s.inputs, input),
        ..s
    }
}

fn push_joined(buf: &mut String, s: &str)
    ensures
        final(buf)@ == joined(old(buf)@, s@),
{
    let ghost b = buf@;
    let n: usize = buf.as_str().unicode_len();
    if n > 0 {
        push_text(buf, ",");
    }
    push_text(buf, s);
    assert(buf@ =~= joined(b, s@));
}

fn take_batch(buf: &mut String) -> (r: Option<String>)
    ensures
        text_in(r) == batch(old(buf)@),
        final(buf)@.len() == 0,
{
    let ghost b = buf@;
    let n: usize = buf.as_str().unicode_len();
    if n == 0 {
        return None;
    }
    let mut out = String::new();
    push_text(&mut out, "[");
    push_text(&mut out, buf.as_str());
    push_text(&mut out, "]");
    *buf = String::new();
    assert(out@ =~= "["@ + b + "]"@);
    Some(out)
}

impl NetTrack {
    /// Nothing sampled.
    pub fn new() -> (t: Self)
        ensures
            t@ == (TrackView {
                seen: 0,
                next_sample: 0,
                next_emit: 0,
                players: Seq::empty(),
                inputs: Seq::empty(),
            }),
    {
        let t = NetTrack {
            seen: 0,
            next_sample: 0,
            next_emit: 0,
            players: String::new(),
            inputs: String::new(),
        };
        assert(t.players@ =~= Seq::empty());
        assert(t.inputs@ =~= Seq::empty());
        t
    }

    /// A tick went by. Tells whether it is to be sampled.
    pub fn due(&mut self, tick: u64) -> (b: bool)
        requires
            tick <= u64::MAX - SAMPLE_EVERY_TICKS,
        ensures
            b == (tick >= track_at(old(self)@, tick).next_sample),
            final(self)@ == (if b {
                TrackView {
                    next_sample: next_mark(tick, SAMPLE_EVERY_TICKS) as u64,
                    ..track_at(old(self)@, tick)
                }
            } else {
                track_at(old(self)@, tick)
            }),
    {
        if tick < self.seen {
            self.next_sample = 0;
            self.next_emit = 0;
            self.players = String::new();
            self.inputs = String::new();
            assert(self.players@ =~= Seq::empty());
            assert(self.inputs@ =~= Seq::empty());
        }
        self.seen = tick;
        if tick < self.next_sample {
            return false;
        }
        self.next_sample = (tick / SAMPLE_EVERY_TICKS + 1) * SAMPLE_EVERY_TICKS;
        true
    }

    /// Take in a tick's samples: the walkers', where this is the host, and the input's. Once
    /// a second all that was sampled is sent off.
    pub fn sample(&mut self, tick: u64, players: Option<&str>, input: &str) -> (b: Batches)
        requires
            tick <= u64::MAX - EMIT_EVERY_TICKS,
        ensures
            ({
                let s = sampled(
                    old(self)@,
                    match players {
                        Some(p) => Some(p@),
                        None => None,
                    },
                    input@,
                );
                if tick >= old(self)@.next_emit {
                    &&& final(self)@ == (TrackView {
                        next_emit: next_mark(tick, EMIT_EVERY_TICKS) as u64,
                        players: Seq::empty(),
                        inputs: Seq::empty(),
                        ..s
                    })
                    &&& text_in(b.players) == batch(s.players)
                    &&& text_in(b.inputs) == batch(s.inputs)
                } else {
                    &&& final(self)@ == s
                    &&& b.players is None
                    &&& b.inputs is None
                }
            }),
    {
        if let Some(p) = players {
            if p.unicode_len() > 0 {
                push_joined(&mut self.players, p);
            }
        }
        push_joined(&mut self.inputs, input);
        if tick < self.next_emit {
            return Batches { players: None, inputs: None };
        }
        self.next_emit = (tick / EMIT_EVERY_TICKS + 1) * EMIT_EVERY_TICKS;
        let bp = take_batch(&mut self.players);
        let bi = take_batch(&mut self.inputs);
        assert(self.players@ =~= Seq::empty());
        assert(self.inputs@ =~= Seq::empty());
        Batches { players: bp, inputs: bi }
    }
}

/// An input's sample. `moved` and `looked` are how far the sticks were, in words.
pub open spec fn input_json(
    t_ms: u64,
    tick: u64,
    player: u8,
    moved: Seq<char>,
    looked: Seq<char>,
    buttons: u8,
) -> Seq<char> {
    "{\"t\":"@ + decimal(t_ms as nat) + ",\"k\":"@ + decimal(tick as nat) + ",\"pl\":"@ + decimal(
        player as nat,
    ) + ",\"mv\":"@ + moved + ",\"lk\":"@ + looked + ",\"b\":"@ + decimal(buttons as nat) + "}"@
}

pub fn input_sample(t_ms: u64, tick: u64, player: u8, moved: &str, looked: &str, buttons: u8) -> (s:
    String)
    ensures
        s@ == input_json(t_ms, tick, player, moved@, looked@, buttons),
{
    let mut out = String::new();
    push_text(&mut out, "{\"t\":");
    push_decimal(&mut out, t_ms);
    push_text(&mut out, ",\"k\":");
    push_decimal(&mut out, tick);
    push_text(&mut out, ",\"pl\":");
    push_decimal(&mut out, player as u64);
    push_text(&mut out, ",\"mv\":");
    push_text(&mut out, moved);
    push_text(&mut out, ",\"lk\":");
    push_text(&mut out, looked);
    push_text(&mut out, ",\"b\":");
    push_decimal(&mut out, buttons as u64);
    push_text(&mut out, "}");
    assert(out@ =~= input_json(t_ms, tick, player, moved@, looked@, buttons));
    out
}

/// A walker's sample. Where it is, how fast it goes and how high, in words.
pub open spec fn walker_json(
    t_ms: u64,
    tick: u64,
    player: u8,
    at: (Seq<char>, Seq<char>, Seq<char>),
    speed: (Seq<char>, Seq<char>, Seq<char>),
    above: Seq<char>,
) -> Seq<char> {
    "{\"t\":"@ + decimal(t_ms as nat) + ",\"k\":"@ + decimal(tick as nat) + ",\"pl\":"@ + decimal(
        player as nat,
    ) + ",\"p\":["@ + at.0 + ","@ + at.1 + ","@ + at.2 + "],\"v\":["@ + speed.0 + ","@ + speed.1
        + ","@ + speed.2 + "],\"a\":"@ + above + "}"@
}

pub fn walker_sample(
    t_ms: u64,
    tick: u64,
    player: u8,
    at: (&str, &str, &str),
    speed: (&str, &str, &str),
    above: &str,
) -> (s: String)
    ensures
        s@ == walker_json(
            t_ms,
            tick,
            player,
            (at.0@, at.1@, at.2@),
            (speed.0@, speed.1@, speed.2@),
            above@,
        ),
{
    let mut out = String::new();
    push_text(&mut out, "{\"t\":");
    push_decimal(&mut out, t_ms);
    push_text(&mut out, ",\"k\":");
    push_decimal(&mut out, tick);
    push_text(&mut out, ",\"pl\":");
    push_decimal(&mut out, player as u64);
    push_text(&mut out, ",\"p\":[");
    push_text(&mut out, at.0);
    push_text(&mut out, ",");
    push_text(&mut out, at.1);
    push_text(&mut out, ",");
    push_text(&mut out, at.2);
    push_text(&mut out, "],\"v\":[");
    push_text(&mut out, speed.0);
    push_text(&mut out, ",");
    push_text(&mut out, speed.1);
    push_text(&mut out, ",");
    push_text(&mut out, speed.2);
    push_text(&mut out, "],\"a\":");
    push_text(&mut out, above);
    push_text(&mut out, "}");
    assert(out@ =~= walker_json(
        t_ms,
        tick,
        player,
        (at.0@, at.1@, at.2@),
        (speed.0@, speed.1@, speed.2@),
        above@,
    ));
    out
}

} // verus!
