//! The position trace: the world's position each tick and the origin of the picture, as
//! lines of text.

use crate::sim::geometry::Pos;
use crate::text::{decimal, push_decimal, push_signed, push_text, signed_decimal};
use vstd::prelude::*;

verus! {

/// The first line of a trace.
pub const TRACE_HEADER: &'static str = "# rl371 pos trace v1";

/// A tick's line.
pub open spec fn tick_text(tick: u64, pos: Pos, alt: i64) -> Seq<char> {
    "T,"@ + decimal(tick as nat) + ","@ + signed_decimal(pos.x as int) + ","@ + signed_decimal(
        pos.z as int,
    ) + ","@ + signed_decimal(alt as int)
}

/// The line of an origin that changed.
pub open spec fn origin_text(tick: u64, pos: Pos) -> Seq<char> {
    "O,"@ + decimal(tick as nat) + ","@ + signed_decimal(pos.x as int) + ","@ + signed_decimal(
        pos.z as int,
    )
}

/// The trace: the origin that it told last.
#[derive(Debug)]
pub struct Trace {
    pub origin: Option<Pos>,
}

impl Trace {
    /// The line of a tick.
    pub fn tick(&self, tick: u64, pos: Pos, alt: i64) -> (s: String)
        ensures
            s@ == tick_text(tick, pos, alt),
    {
        let mut out = String::new();
        push_text(&mut out, "T,");
        push_decimal(&mut out, tick);
        push_text(&mut out, ",");
        push_signed(&mut out, pos.x);
        push_text(&mut out, ",");
        push_signed(&mut out, pos.z);
        push_text(&mut out, ",");
        push_signed(&mut out, alt);
        assert(out@ =~= tick_text(tick, pos, alt));
        out
    }

    /// The line of a frame's origin, the first time and whenever it changed.
    pub fn origin(&mut self, tick: u64, origin: Pos) -> (r: Option<String>)
        ensures
            final(self).origin == Some(origin),
            match r {
                Some(s) => old(self).origin != Some(origin) && s@ == origin_text(tick, origin),
                None => old(self).origin == Some(origin),
            },
    {
        let same: bool = match self.origin {
            Some(p) => p.x == origin.x && p.z == origin.z,
            None => false,
        };
        if same {
            return None;
        }
        self.origin = Some(origin);
        let mut out = String::new();
        push_text(&mut out, "O,");
        push_decimal(&mut out, tick);
        push_text(&mut out, ",");
        push_signed(&mut out, origin.x);
        push_text(&mut out, ",");
        push_signed(&mut out, origin.z);
        assert(out@ =~= origin_text(tick, origin));
        Some(out)
    }
}

} // verus!
