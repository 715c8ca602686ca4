//! Pictures of the game: scripted runs that are filmed, and the player's own shots.

use crate::client::VehicleKind;
use crate::render::codes::ChordDir;
use crate::render::driver::VehicleRequest;
use crate::text::{decimal, fixed_digits, push_decimal, push_fixed, push_text};
use vstd::prelude::*;
use vstd::string::*;

verus! {

/// A scripted pilot: it changes craft at given frames, and walks from a given frame on.
#[derive(Debug, Clone)]
pub struct PilotScript {
    toggle_at: Vec<u64>,
    walk_at: Option<u64>,
    frame: u64,
}

/// The script by value.
pub struct PilotScriptView {
    pub toggle_at: Seq<u64>,
    pub walk_at: Option<u64>,
    pub frame: u64,
}

impl View for PilotScript {
    type V = PilotScriptView;

    closed spec fn view(&self) -> PilotScriptView {
        PilotScriptView { toggle_at: self.toggle_at@, walk_at: self.walk_at, frame: self.frame }
    }
}

/// What is held down for the script.
#[derive(Debug, Clone, Copy, PartialEq, Eq, Structural)]
pub enum ScriptHold {
    Nothing,
    /// Fly forward.
    Fly,
    /// Walk in an arc.
    Walk,
}

/// What the script does in a frame.
#[derive(Debug, Clone, Copy, PartialEq, Eq, Structural)]
pub struct PilotOrders {
    pub request: Option<VehicleRequest>,
    pub hold: ScriptHold,
}

/// From foot to plane to ship to foot.
pub open spec fn toggled(v: Option<VehicleKind>) -> VehicleRequest {
    match v {
        None => VehicleRequest::Board(VehicleKind::Plane),
        Some(VehicleKind::Plane) => VehicleRequest::Board(VehicleKind::Ship),
        Some(VehicleKind::Ship) => VehicleRequest::Exit,
    }
}

fn has_frame(frames: &Vec<u64>, f: u64) -> (b: bool)
    ensures
        b == frames@.contains(f),
{
    let mut i: usize = 0;
    while i < frames.len()
        invariant
            i <= frames@.len(),
            forall|k: int| 0 <= k < i ==> frames@[k] != f,
        decreases frames@.len() - i,
    {
        if frames[i] == f {
            return true;
        }
        i = i + 1;
    }
    false
}

impl PilotScript {
    pub fn new(toggle_at: Vec<u64>, walk_at: Option<u64>) -> (s: Self)
        ensures
            s@ == (PilotScriptView { toggle_at: toggle_at@, walk_at, frame: 0 }),
    {
        PilotScript { toggle_at, walk_at, frame: 0 }
    }

    /// One frame of the script.
    pub fn drive(&mut self, vehicle: Option<VehicleKind>) -> (o: PilotOrders)
        requires
            old(self)@.frame < u64::MAX,
        ensures
            final(self)@ == (PilotScriptView {
                frame: (old(self)@.frame + 1) as u64,
                ..old(self)@
            }),
            o.request == (if old(self)@.toggle_at.contains(final(self)@.frame) {
                Some(toggled(vehicle))
            } else {
                None
            }),
            o.hold == (if vehicle is Some {
                ScriptHold::Fly
            } else if old(self)@.walk_at matches Some(at) && final(self)@.frame >= at {
                ScriptHold::Walk
            } else {
                ScriptHold::Nothing
            }),
    {
        self.frame = self.frame + 1;
        let request: Option<VehicleRequest> = if has_frame(&self.toggle_at, self.frame) {
            Some(
                match vehicle {
                    None => VehicleRequest::Board(VehicleKind::Plane),
                    Some(VehicleKind::Plane) => VehicleRequest::Board(VehicleKind::Ship),
                    Some(VehicleKind::Ship) => VehicleRequest::Exit,
                },
            )
        } else {
            None
        };
        let walking: bool = match self.walk_at {
            Some(at) => self.frame >= at,
            None => false,
        };
        let hold: ScriptHold = if vehicle.is_some() {
            ScriptHold::Fly
        } else if walking {
            ScriptHold::Walk
        } else {
            ScriptHold::Nothing
        };
        PilotOrders { request, hold }
    }
}

/// Scripted chords: when the modifier is held, and what is tapped when.
#[derive(Debug, Clone)]
pub struct ChordScript {
    holds: Vec<(u64, Option<u64>)>,
    taps: Vec<(u64, ChordDir)>,
    cycles: Vec<u64>,
    frame: u64,
}

/// The script by value.
pub struct ChordScriptView {
    pub holds: Seq<(u64, Option<u64>)>,
    pub taps: Seq<(u64, ChordDir)>,
    pub cycles: Seq<u64>,
    pub frame: u64,
}

impl View for ChordScript {
    type V = ChordScriptView;

    closed spec fn view(&self) -> ChordScriptView {
        ChordScriptView {
            holds: self.holds@,
            taps: self.taps@,
            cycles: self.cycles@,
            frame: self.frame,
        }
    }
}

/// A window is open at a frame; one without an end stays open.
pub open spec fn holding(w: (u64, Option<u64>), frame: u64) -> bool {
    frame >= w.0 && (w.1 matches Some(to) ==> frame < to)
}

/// The modifier is held at a frame.
pub open spec fn held_at(holds: Seq<(u64, Option<u64>)>, frame: u64) -> bool {
    exists|i: int| 0 <= i < holds.len() && holding(#[trigger] holds[i], frame)
}

/// What is tapped at a frame, in the order of the script.
pub open spec fn tapped_at(taps: Seq<(u64, ChordDir)>, frame: int) -> Seq<ChordDir>
    decreases taps.len(),
{
    if taps.len() == 0 {
        Seq::empty()
    } else if taps.last().0 == frame {
        tapped_at(taps.drop_last(), frame).push(taps.last().1)
    } else {
        tapped_at(taps.drop_last(), frame)
    }
}

/// A frame is among some.
pub open spec fn among(frames: Seq<u64>, f: int) -> bool {
    exists|i: int| 0 <= i < frames.len() && #[trigger] frames[i] == f
}

/// What the script does in a frame, in this order.
#[derive(Debug)]
pub struct ChordOrders {
    pub press_modifier: bool,
    pub release_modifier: bool,
    /// What was tapped in the frame before.
    pub release: Vec<ChordDir>,
    pub press: Vec<ChordDir>,
    pub release_cycle: bool,
    pub press_cycle: bool,
}

fn taps_of(taps: &Vec<(u64, ChordDir)>, frame: u64) -> (v: Vec<ChordDir>)
    ensures
        v@ == tapped_at(taps@, frame as int),
{
    let mut out: Vec<ChordDir> = Vec::new();
    let mut i: usize = 0;
    while i < taps.len()
        invariant
            i <= taps@.len(),
            out@ == tapped_at(taps@.take(i as int), frame as int),
        decreases taps@.len() - i,
    {
        proof {
            assert(taps@.take(i + 1).drop_last() =~= taps@.take(i as int));
            assert(taps@.take(i + 1).last() == taps@[i as int]);
        }
        if taps[i].0 == frame {
            out.push(taps[i].1);
        }
        i = i + 1;
    }
    assert(taps@.take(i as int) =~= taps@);
    out
}

impl ChordScript {
    pub fn new(hold_from: u64, release_at: Option<u64>, taps: Vec<(u64, ChordDir)>) -> (s: Self)
        ensures
            s@ == (ChordScriptView {
                holds: seq![(hold_from, release_at)],
                taps: taps@,
                cycles: Seq::empty(),
                frame: 0,
            }),
    {
        let mut holds: Vec<(u64, Option<u64>)> = Vec::new();
        holds.push((hold_from, release_at));
        let s = ChordScript { holds, taps, cycles: Vec::new(), frame: 0 };
        assert(s.holds@ =~= seq![(hold_from, release_at)]);
        assert(s.cycles@ =~= Seq::empty());
        s
    }

    /// More windows in which the modifier is held.
    pub fn with_holds(self, holds: Vec<(u64, Option<u64>)>) -> (s: Self)
        ensures
            s@ == (ChordScriptView { holds: self@.holds + holds@, ..self@ }),
    {
        let mut all = self.holds;
        let mut more = holds;
        all.append(&mut more);
        ChordScript { holds: all, taps: self.taps, cycles: self.cycles, frame: self.frame }
    }

    /// When the key that changes the layout is tapped.
    pub fn with_layout_cycles(self, cycles: Vec<u64>) -> (s: Self)
        ensures
            s@ == (ChordScriptView { cycles: cycles@, ..self@ }),
    {
        ChordScript { holds: self.holds, taps: self.taps, cycles, frame: self.frame }
    }

    /// One frame of the script. A tap lasts one frame, and what was tapped before is released
    /// before anything is pressed.
    pub fn drive(&mut self, modifier_down: bool) -> (o: ChordOrders)
        requires
            old(self)@.frame < u64::MAX,
        ensures
            final(self)@ == (ChordScriptView {
                frame: (old(self)@.frame + 1) as u64,
                ..old(self)@
            }),
            o.press_modifier == held_at(old(self)@.holds, final(self)@.frame),
            o.release_modifier == (!o.press_modifier && modifier_down),
            o.press@ == tapped_at(old(self)@.taps, final(self)@.frame as int),
            o.release@ == tapped_at(old(self)@.taps, old(self)@.frame as int),
            o.press_cycle == among(old(self)@.cycles, final(self)@.frame as int),
            o.release_cycle == among(old(self)@.cycles, old(self)@.frame as int),
    {
        let before: u64 = self.frame;
        self.frame = before + 1;
        let mut held: bool = false;
        let mut i: usize = 0;
        while i < self.holds.len()
            invariant
                i <= self.holds@.len(),
                held == exists|k: int| 0 <= k < i && holding(#[trigger] self.holds@[k], self.frame),
            decreases self.holds@.len() - i,
        {
            let w: (u64, Option<u64>) = self.holds[i];
            let open: bool = self.frame >= w.0 && match w.1 {
                Some(to) => self.frame < to,
                None => true,
            };
            assert(open == holding(self.holds@[i as int], self.frame));
            held = held || open;
            i = i + 1;
        }
        let press = taps_of(&self.taps, self.frame);
        let release = taps_of(&self.taps, before);
        let press_cycle: bool = has_frame(&self.cycles, self.frame);
        let release_cycle: bool = has_frame(&self.cycles, before);
        ChordOrders {
            press_modifier: held,
            release_modifier: !held && modifier_down,
            release,
            press,
            release_cycle,
            press_cycle,
        }
    }
}

/// What is filmed: when the picture has settled, and how many pictures are taken.
#[derive(Debug, Clone, Copy, PartialEq, Eq)]
pub struct ScreenshotConfig {
    pub settle: u32,
    pub width: u32,
    pub height: u32,
    /// How many pictures, and how many frames apart; one picture where there is none.
    pub anim: Option<(u32, u32)>,
}

/// What a frame does once the picture has settled.
#[derive(Debug, Clone, Copy, PartialEq, Eq, Structural)]
pub enum CaptureStep {
    Wait,
    /// The one picture.
    Single,
    /// A picture of a series; the last one ends it.
    Shot { shot: u32, last: bool },
}

/// The picture that a frame takes: of a series, one every so many frames.
pub open spec fn capture_step(c: ScreenshotConfig, frame: u32) -> CaptureStep {
    match c.anim {
        None => CaptureStep::Single,
        Some((count, every)) => {
            let e = if every == 0 {
                1
            } else {
                every as int
            };
            let since = frame - c.settle;
            if since % e != 0 {
                CaptureStep::Wait
            } else {
                CaptureStep::Shot { shot: (since / e) as u32, last: since / e + 1 >= count }
            }
        },
    }
}

impl ScreenshotConfig {
    pub fn new(settle: u32, width: u32, height: u32) -> (c: Self)
        ensures
            c == (ScreenshotConfig { settle, width, height, anim: None }),
    {
        ScreenshotConfig { settle, width, height, anim: None }
    }

    /// A series of pictures; a series of one is one picture.
    pub fn with_anim(self, anim: Option<(u32, u32)>) -> (c: Self)
        ensures
            c == (ScreenshotConfig {
                anim: match anim {
                    Some((count, every)) => if count > 1 {
                        anim
                    } else {
                        None
                    },
                    None => None,
                },
                ..self
            }),
    {
        let kept: Option<(u32, u32)> = match anim {
            Some((count, every)) => if count > 1 {
                Some((count, every))
            } else {
                None
            },
            None => None,
        };
        ScreenshotConfig { settle: self.settle, width: self.width, height: self.height, anim: kept }
    }

    /// What a frame does once the picture has settled.
    pub fn capture_when_settled(&self, frame: u32) -> (s: CaptureStep)
        requires
            self.settle <= frame,
        ensures
            s == capture_step(*self, frame),
    {
        match self.anim {
            None => CaptureStep::Single,
            Some((count, every)) => {
                let e: u32 = if every == 0 {
                    1
                } else {
                    every
                };
                let since: u32 = frame - self.settle;
                if since % e != 0 {
                    return CaptureStep::Wait;
                }
                let shot: u32 = since / e;
                CaptureStep::Shot { shot, last: shot as u64 + 1 >= count as u64 }
            },
        }
    }
}

/// The ending of a series' picture.
pub open spec fn shot_suffix(shot: u32) -> Seq<char> {
    (if shot < 10_000 {
        fixed_digits(shot as nat, 10, 4)
    } else {
        decimal(shot as nat)
    }) + ".png"@
}

pub fn shot_extension(shot: u32) -> (s: String)
    ensures
        s@ == shot_suffix(shot),
{
    let mut out = String::new();
    if shot < 10_000 {
        push_fixed(&mut out, shot as u64, 10, 4);
    } else {
        push_decimal(&mut out, shot as u64);
    }
    push_text(&mut out, ".png");
    assert(out@ =~= shot_suffix(shot));
    out
}

/// How long a shot's confirmation stays up.
pub const SHOT_FLASH_NANOS: u64 = 2_500_000_000;

/// The two sticks of a pad.
#[derive(Debug, Clone, Copy, PartialEq, Eq, Structural)]
pub struct StickClicks {
    pub left: bool,
    pub right: bool,
    pub left_fresh: bool,
    pub right_fresh: bool,
}

/// Both sticks are clicked, one of them just now.
pub open spec fn both_clicked(p: StickClicks) -> bool {
    (p.left_fresh && p.right) || (p.left && p.right_fresh)
}

/// Whether the player asked for a shot: the key, or both sticks of one pad.
pub fn chord_hit(key_fresh: bool, pads: &Vec<StickClicks>) -> (b: bool)
    ensures
        b == (key_fresh || exists|i: int|
            0 <= i < pads@.len() && both_clicked(#[trigger] pads@[i])),
{
    if key_fresh {
        return true;
    }
    let mut i: usize = 0;
    while i < pads.len()
        invariant
            i <= pads@.len(),
            forall|k: int| 0 <= k < i ==> !both_clicked(#[trigger] pads@[k]),
        decreases pads@.len() - i,
    {
        let p: StickClicks = pads[i];
        if (p.left_fresh && p.right) || (p.left && p.right_fresh) {
            assert(both_clicked(pads@[i as int]));
            return true;
        }
        i = i + 1;
    }
    false
}

/// What came of a shot: the file's name, or why there is none.
#[derive(Debug)]
pub enum ShotOutcome {
    Saved(String),
    Failed(String),
    /// There is nowhere to write to.
    NoHome,
}

/// What is said of a shot.
pub open spec fn shot_text(o: ShotOutcome) -> Seq<char> {
    match o {
        ShotOutcome::Saved(name) => "saved "@ + name@,
        ShotOutcome::Failed(e) => "screenshot failed: "@ + e@,
        ShotOutcome::NoHome => "screenshot: no HOME to write to"@,
    }
}

/// The line that confirms shots.
#[derive(Debug)]
pub struct ShotUx {
    flash: Option<(String, u64)>,
}

impl View for ShotUx {
    type V = Option<(Seq<char>, u64)>;

    closed spec fn view(&self) -> Option<(Seq<char>, u64)> {
        match self.flash {
            Some((t, left)) => Some((t@, left)),
            None => None,
        }
    }
}

impl ShotUx {
    /// No line.
    pub fn new() -> (u: Self)
        ensures
            u@ is None,
    {
        ShotUx { flash: None }
    }

    /// A shot came to something: say so.
    pub fn report(&mut self, o: &ShotOutcome)
        ensures
            final(self)@ == Some((shot_text(*o), SHOT_FLASH_NANOS)),
    {
        let mut out = String::new();
        match o {
            ShotOutcome::Saved(name) => {
                push_text(&mut out, "saved ");
                push_text(&mut out, name.as_str());
            },
            ShotOutcome::Failed(e) => {
                push_text(&mut out, "screenshot failed: ");
                push_text(&mut out, e.as_str());
            },
            ShotOutcome::NoHome => {
                push_text(&mut out, "screenshot: no HOME to write to");
            },
        }
        assert(out@ =~= shot_text(*o));
        self.flash = Some((out, SHOT_FLASH_NANOS));
    }

    /// Time goes by.
    pub fn fade(&mut self, delta_nanos: u64)
        ensures
            final(self)@ == crate::render::voice::faded(old(self)@, delta_nanos),
    {
        let f = self.flash.take();
        if let Some((t, left)) = f {
            if left > delta_nanos {
                self.flash = Some((t, left - delta_nanos));
            }
        }
    }

    /// The line, if there is one.
    pub fn line(&self) -> (r: Option<&str>)
        ensures
            match r {
                Some(s) => self@ matches Some((t, left)) && s@ == t,
                None => self@ is None,
            },
    {
        match &self.flash {
            Some((t, _)) => Some(t.as_str()),
            None => None,
        }
    }
}

} // verus!
