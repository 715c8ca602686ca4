//! The wireframe overlay: off unless it is asked for.

use crate::text::chars_of;
use vstd::prelude::*;
use vstd::string::*;

verus! {

/// Which colliders are drawn.
#[derive(Debug, Clone, Copy, PartialEq, Eq, Structural)]
pub enum WireMode {
    Off,
    /// The crab's, at the scale at which it is drawn.
    Aligned,
    /// All, at the scale of the physics.
    Raw,
}

impl Default for WireMode {
    fn default() -> (m: Self)
        ensures
            m == WireMode::Off,
    {
        WireMode::Off
    }
}

/// The mode that a text names.
pub open spec fn mode_named(t: Seq<char>) -> Option<WireMode> {
    if t == "off"@ {
        Some(WireMode::Off)
    } else if t == "aligned"@ {
        Some(WireMode::Aligned)
    } else if t == "raw"@ {
        Some(WireMode::Raw)
    } else {
        None
    }
}

/// The name of a mode.
pub open spec fn mode_name(m: WireMode) -> Seq<char> {
    match m {
        WireMode::Off => "off"@,
        WireMode::Aligned => "aligned"@,
        WireMode::Raw => "raw"@,
    }
}

/// The mode after another.
pub open spec fn mode_after(m: WireMode) -> WireMode {
    match m {
        WireMode::Off => WireMode::Aligned,
        WireMode::Aligned => WireMode::Raw,
        WireMode::Raw => WireMode::Off,
    }
}

/// The label of a mode.
pub open spec fn mode_label(m: WireMode) -> Seq<char> {
    match m {
        WireMode::Off => ""@,
        WireMode::Aligned => "DEBUG WIREFRAME — aligned (crab colliders at render scale)"@,
        WireMode::Raw => "DEBUG WIREFRAME — RAW physics scale (~1 m arena, NOT aligned)"@,
    }
}

fn is_text(s: &str, t: &str) -> (b: bool)
    ensures
        b == (s@ == t@),
{
    let a = chars_of(s);
    let c = chars_of(t);
    if a.len() != c.len() {
        return false;
    }
    let mut i: usize = 0;
    while i < a.len()
        invariant
            i <= a@.len() == c@.len(),
            a@ == s@,
            c@ == t@,
            forall|k: int| 0 <= k < i ==> a@[k] == c@[k],
        decreases a@.len() - i,
    {
        if a[i] != c[i] {
            return false;
        }
        i = i + 1;
    }
    assert(s@ =~= t@);
    true
}

impl WireMode {
    /// The next mode: one key walks them all.
    pub fn next(self) -> (m: Self)
        ensures
            m == mode_after(self),
    {
        match self {
            WireMode::Off => WireMode::Aligned,
            WireMode::Aligned => WireMode::Raw,
            WireMode::Raw => WireMode::Off,
        }
    }

    /// The label in the corner.
    pub fn label(self) -> (s: &'static str)
        ensures
            s@ == mode_label(self),
    {
        match self {
            WireMode::Off => "",
            WireMode::Aligned => "DEBUG WIREFRAME — aligned (crab colliders at render scale)",
            WireMode::Raw => "DEBUG WIREFRAME — RAW physics scale (~1 m arena, NOT aligned)",
        }
    }

    /// The mode that a flag's value names, if it names one.
    pub fn parse(s: &str) -> (r: Option<Self>)
        ensures
            r == mode_named(s@),
    {
        if is_text(s, "off") {
            Some(WireMode::Off)
        } else if is_text(s, "aligned") {
            Some(WireMode::Aligned)
        } else if is_text(s, "raw") {
            Some(WireMode::Raw)
        } else {
            None
        }
    }

    /// The mode to start in, given the value of `RL_DEBUG_WIREFRAME` and whether
    /// `RL_DEBUG_COLLIDERS` is set. A value that names no mode counts as off.
    pub fn from_env(wireframe: Option<&str>, colliders: bool) -> (m: Self)
        ensures
            m == (match wireframe {
                Some(v) => match mode_named(v@) {
                    Some(k) => k,
                    None => WireMode::Off,
                },
                None => if colliders {
                    WireMode::Raw
                } else {
                    WireMode::Off
                },
            }),
    {
        match wireframe {
            Some(v) => match WireMode::parse(v) {
                Some(k) => k,
                None => WireMode::Off,
            },
            None => if colliders {
                WireMode::Raw
            } else {
                WireMode::Off
            },
        }
    }
}

/// Three presses of the key come back to where they started, by way of every mode.
pub proof fn lemma_modes_cycle(m: WireMode)
    ensures
        mode_after(mode_after(mode_after(m))) == m,
        mode_after(m) != m,
        mode_after(mode_after(m)) != m,
{
}

/// Every mode is named by its own name.
pub proof fn lemma_modes_named(m: WireMode)
    ensures
        mode_named(mode_name(m)) == Some(m),
{
    reveal_strlit("off");
    reveal_strlit("aligned");
    reveal_strlit("raw");
    assert("aligned"@.len() == 7 && "raw"@.len() == 3);
    assert("raw"@[0] == 'r');
    assert("off"@[0] == 'o');
}

} // verus!
