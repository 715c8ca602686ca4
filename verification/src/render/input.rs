//! What is pressed: keys, pads and chords made into one frame's controls. The sticks and the
//! mouse are not here.

use crate::client::VehicleKind;
use crate::render::driver::{PendingTaps, VehicleRequest};
use vstd::prelude::*;

verus! {

/// The keys that are down.
#[derive(Debug, Clone, Copy, PartialEq, Eq, Structural)]
pub struct KeysHeld {
    pub forward: bool,
    pub back: bool,
    pub right: bool,
    pub left: bool,
    pub extract: bool,
    pub sprint: bool,
    pub jump: bool,
    pub slide: bool,
    pub rudder_left: bool,
    pub rudder_right: bool,
    pub throttle_up: bool,
    pub throttle_down: bool,
    pub match_velocity: bool,
    /// The left mouse button.
    pub mouse_left: bool,
}

/// The buttons of a pad that are down.
#[derive(Debug, Clone, Copy, PartialEq, Eq, Structural)]
pub struct PadHeld {
    pub up: bool,
    pub down: bool,
    pub right: bool,
    pub left: bool,
    pub extract: bool,
    pub sprint: bool,
    pub jump: bool,
    pub slide: bool,
    pub left_bumper: bool,
    pub right_bumper: bool,
    pub match_velocity: bool,
}

/// The chords that were played this frame.
#[derive(Debug, Clone, Copy, PartialEq, Eq, Structural)]
pub struct ChordsPlayed {
    pub board_plane: bool,
    pub board_ship: bool,
    pub exit: bool,
    pub restart: bool,
}

/// A frame's controls.
#[derive(Debug, Clone, Copy, PartialEq, Eq, Structural)]
pub struct Gathered {
    /// Steps to the right and forward, before the sticks are added.
    pub strafe: i64,
    pub forward: i64,
    pub action: bool,
    pub sprint: bool,
    pub jump: bool,
    pub slide: bool,
    pub left_bumper: bool,
    pub right_bumper: bool,
    pub match_velocity: bool,
    /// The keys of a craft: rudder and throttle.
    pub rudder: i64,
    pub throttle: i64,
    pub vehicle: Option<VehicleRequest>,
    pub restart: bool,
}

/// One for a press, and nothing for none.
pub open spec fn one(b: bool) -> int {
    if b {
        1
    } else {
        0
    }
}

/// The pads' steps forward.
pub open spec fn pads_forward(pads: Seq<PadHeld>) -> int
    decreases pads.len(),
{
    if pads.len() == 0 {
        0
    } else {
        pads_forward(pads.drop_last()) + one(pads.last().up) - one(pads.last().down)
    }
}

/// The pads' steps to the right.
pub open spec fn pads_strafe(pads: Seq<PadHeld>) -> int
    decreases pads.len(),
{
    if pads.len() == 0 {
        0
    } else {
        pads_strafe(pads.drop_last()) + one(pads.last().right) - one(pads.last().left)
    }
}

/// What either of two pads holds.
pub open spec fn either(a: PadHeld, b: PadHeld) -> PadHeld {
    PadHeld {
        up: a.up || b.up,
        down: a.down || b.down,
        right: a.right || b.right,
        left: a.left || b.left,
        extract: a.extract || b.extract,
        sprint: a.sprint || b.sprint,
        jump: a.jump || b.jump,
        slide: a.slide || b.slide,
        left_bumper: a.left_bumper || b.left_bumper,
        right_bumper: a.right_bumper || b.right_bumper,
        match_velocity: a.match_velocity || b.match_velocity,
    }
}

/// No button is down.
pub open spec fn hands_off() -> PadHeld {
    PadHeld {
        up: false,
        down: false,
        right: false,
        left: false,
        extract: false,
        sprint: false,
        jump: false,
        slide: false,
        left_bumper: false,
        right_bumper: false,
        match_velocity: false,
    }
}

/// What any of the pads holds.
pub open spec fn any_pad(pads: Seq<PadHeld>) -> PadHeld
    decreases pads.len(),
{
    if pads.len() == 0 {
        hands_off()
    } else {
        either(any_pad(pads.drop_last()), pads.last())
    }
}

/// The craft that was asked for: the last of the chords counts.
pub open spec fn asked(c: ChordsPlayed) -> Option<VehicleRequest> {
    if c.exit {
        Some(VehicleRequest::Exit)
    } else if c.board_ship {
        Some(VehicleRequest::Board(VehicleKind::Ship))
    } else if c.board_plane {
        Some(VehicleRequest::Board(VehicleKind::Plane))
    } else {
        None
    }
}

/// A frame's controls: while a chord is typed the keys and pads that type it do not move, and
/// while a take is reviewed the pads' buttons that keep or discard it neither jump nor slide
/// nor brake.
pub open spec fn gathering(
    typing: bool,
    reviewing: bool,
    k: KeysHeld,
    pads: Seq<PadHeld>,
    c: ChordsPlayed,
) -> Gathered {
    Gathered {
        strafe: if typing {
            0
        } else {
            (one(k.right) - one(k.left) + pads_strafe(pads)) as i64
        },
        forward: if typing {
            0
        } else {
            (one(k.forward) - one(k.back) + pads_forward(pads)) as i64
        },
        action: k.extract || k.mouse_left || any_pad(pads).extract,
        sprint: k.sprint || any_pad(pads).sprint,
        jump: k.jump || (!reviewing && any_pad(pads).jump),
        slide: k.slide || (!reviewing && any_pad(pads).slide),
        left_bumper: any_pad(pads).left_bumper,
        right_bumper: any_pad(pads).right_bumper,
        match_velocity: k.match_velocity || (!reviewing && any_pad(pads).match_velocity),
        rudder: if typing {
            0
        } else {
            (one(k.rudder_right) - one(k.rudder_left)) as i64
        },
        throttle: if typing {
            0
        } else {
            (one(k.throttle_up) - one(k.throttle_down)) as i64
        },
        vehicle: asked(c),
        restart: c.restart,
    }
}

fn step(plus: bool, minus: bool) -> (s: i64)
    ensures
        s == one(plus) - one(minus),
        -1 <= s <= 1,
{
    let p: i64 = if plus {
        1
    } else {
        0
    };
    let m: i64 = if minus {
        1
    } else {
        0
    };
    p - m
}

fn either_pad(a: PadHeld, b: PadHeld) -> (r: PadHeld)
    ensures
        r == either(a, b),
{
    PadHeld {
        up: a.up || b.up,
        down: a.down || b.down,
        right: a.right || b.right,
        left: a.left || b.left,
        extract: a.extract || b.extract,
        sprint: a.sprint || b.sprint,
        jump: a.jump || b.jump,
        slide: a.slide || b.slide,
        left_bumper: a.left_bumper || b.left_bumper,
        right_bumper: a.right_bumper || b.right_bumper,
        match_velocity: a.match_velocity || b.match_velocity,
    }
}

fn merge_pads(pads: &Vec<PadHeld>) -> (any: PadHeld)
    ensures
        any == any_pad(pads@),
{
    let mut any = PadHeld {
        up: false,
        down: false,
        right: false,
        left: false,
        extract: false,
        sprint: false,
        jump: false,
        slide: false,
        left_bumper: false,
        right_bumper: false,
        match_velocity: false,
    };
    let mut i: usize = 0;
    while i < pads.len()
        invariant
            i <= pads@.len(),
            any == any_pad(pads@.take(i as int)),
        decreases pads@.len() - i,
    {
        proof {
            assert(pads@.take(i + 1).drop_last() =~= pads@.take(i as int));
            assert(pads@.take(i + 1).last() == pads@[i as int]);
        }
        any = either_pad(any, pads[i]);
        i = i + 1;
    }
    assert(pads@.take(i as int) =~= pads@);
    any
}

fn forward_steps(pads: &Vec<PadHeld>) -> (s: i64)
    requires
        pads@.len() < 0x3fff_ffff_ffff_ffff,
    ensures
        s == pads_forward(pads@),
        -0x3fff_ffff_ffff_ffff < s < 0x3fff_ffff_ffff_ffff,
{
    let mut s: i64 = 0;
    let mut i: usize = 0;
    while i < pads.len()
        invariant
            i <= pads@.len() < 0x3fff_ffff_ffff_ffff,
            s <= i,
            s + i >= 0,
            s == pads_forward(pads@.take(i as int)),
        decreases pads@.len() - i,
    {
        proof {
            assert(pads@.take(i + 1).drop_last() =~= pads@.take(i as int));
            assert(pads@.take(i + 1).last() == pads@[i as int]);
        }
        s = s + step(pads[i].up, pads[i].down);
        i = i + 1;
    }
    assert(pads@.take(i as int) =~= pads@);
    s
}

fn strafe_steps(pads: &Vec<PadHeld>) -> (s: i64)
    requires
        pads@.len() < 0x3fff_ffff_ffff_ffff,
    ensures
        s == pads_strafe(pads@),
        -0x3fff_ffff_ffff_ffff < s < 0x3fff_ffff_ffff_ffff,
{
    let mut s: i64 = 0;
    let mut i: usize = 0;
    while i < pads.len()
        invariant
            i <= pads@.len() < 0x3fff_ffff_ffff_ffff,
            s <= i,
            s + i >= 0,
            s == pads_strafe(pads@.take(i as int)),
        decreases pads@.len() - i,
    {
        proof {
            assert(pads@.take(i + 1).drop_last() =~= pads@.take(i as int));
            assert(pads@.take(i + 1).last() == pads@[i as int]);
        }
        s = s + step(pads[i].right, pads[i].left);
        i = i + 1;
    }
    assert(pads@.take(i as int) =~= pads@);
    s
}

/// Gather a frame's controls.
pub fn gather_input(
    typing: bool,
    reviewing: bool,
    k: &KeysHeld,
    pads: &Vec<PadHeld>,
    c: &ChordsPlayed,
) -> (g: Gathered)
    requires
        pads@.len() < 0x3fff_ffff_ffff_ffff,
    ensures
        g == gathering(typing, reviewing, *k, pads@, *c),
{
    let forward: i64 = forward_steps(pads);
    let strafe: i64 = strafe_steps(pads);
    let any: PadHeld = merge_pads(pads);
    let vehicle: Option<VehicleRequest> = if c.exit {
        Some(VehicleRequest::Exit)
    } else if c.board_ship {
        Some(VehicleRequest::Board(VehicleKind::Ship))
    } else if c.board_plane {
        Some(VehicleRequest::Board(VehicleKind::Plane))
    } else {
        None
    };
    Gathered {
        strafe: if typing {
            0
        } else {
            step(k.right, k.left) + strafe
        },
        forward: if typing {
            0
        } else {
            step(k.forward, k.back) + forward
        },
        action: k.extract || k.mouse_left || any.extract,
        sprint: k.sprint || any.sprint,
        jump: k.jump || (!reviewing && any.jump),
        slide: k.slide || (!reviewing && any.slide),
        left_bumper: any.left_bumper,
        right_bumper: any.right_bumper,
        match_velocity: k.match_velocity || (!reviewing && any.match_velocity),
        rudder: if typing {
            0
        } else {
            step(k.rudder_right, k.rudder_left)
        },
        throttle: if typing {
            0
        } else {
            step(k.throttle_up, k.throttle_down)
        },
        vehicle,
        restart: c.restart,
    }
}

/// The craft that is asked for until a tick carries it out: a later request takes the place
/// of an earlier one.
pub fn remember(
    taps: &mut PendingTaps,
    vehicle: &mut Option<VehicleRequest>,
    g: &Gathered,
)
    ensures
        *final(taps) == (PendingTaps {
            action: old(taps).action || g.action,
            restart: old(taps).restart || g.restart,
        }),
        *final(vehicle) == (match g.vehicle {
            Some(v) => Some(v),
            None => *old(vehicle),
        }),
{
    taps.action = taps.action || g.action;
    taps.restart = taps.restart || g.restart;
    if g.vehicle.is_some() {
        *vehicle = g.vehicle;
    }
}

/// While a chord is typed nobody walks or steers by the keys that type it.
pub proof fn lemma_typing_does_not_move(
    reviewing: bool,
    k: KeysHeld,
    pads: Seq<PadHeld>,
    c: ChordsPlayed,
)
    ensures
        gathering(true, reviewing, k, pads, c).strafe == 0,
        gathering(true, reviewing, k, pads, c).forward == 0,
        gathering(true, reviewing, k, pads, c).rudder == 0,
        gathering(true, reviewing, k, pads, c).throttle == 0,
{
}

/// The keys with each way exchanged for its opposite.
pub open spec fn reversed(k: KeysHeld) -> KeysHeld {
    KeysHeld {
        forward: k.back,
        back: k.forward,
        right: k.left,
        left: k.right,
        rudder_left: k.rudder_right,
        rudder_right: k.rudder_left,
        throttle_up: k.throttle_down,
        throttle_down: k.throttle_up,
        ..k
    }
}

/// A pad with each way exchanged for its opposite.
pub open spec fn reversed_pad(p: PadHeld) -> PadHeld {
    PadHeld { up: p.down, down: p.up, right: p.left, left: p.right, ..p }
}

/// Opposite keys are opposite: on no pads, exchanging each way for its opposite negates every
/// axis and leaves every button; both ways together are none; and one alone is one step, to
/// the front, to the right, to the right and up.
pub proof fn lemma_opposite_keys(
    typing: bool,
    reviewing: bool,
    k: KeysHeld,
    c: ChordsPlayed,
)
    ensures
        ({
            let g = gathering(typing, reviewing, k, Seq::empty(), c);
            let r = gathering(typing, reviewing, reversed(k), Seq::empty(), c);
            &&& r == (Gathered {
                strafe: r.strafe,
                forward: r.forward,
                rudder: r.rudder,
                throttle: r.throttle,
                ..g
            })
            &&& g.forward + r.forward == 0
            &&& g.strafe + r.strafe == 0
            &&& g.rudder + r.rudder == 0
            &&& g.throttle + r.throttle == 0
            &&& (k.forward == k.back ==> g.forward == 0)
            &&& (k.right == k.left ==> g.strafe == 0)
            &&& (k.rudder_right == k.rudder_left ==> g.rudder == 0)
            &&& (k.throttle_up == k.throttle_down ==> g.throttle == 0)
            &&& (!typing && k.forward && !k.back ==> g.forward == 1)
            &&& (!typing && k.right && !k.left ==> g.strafe == 1)
            &&& (!typing && k.rudder_right && !k.rudder_left ==> g.rudder == 1)
            &&& (!typing && k.throttle_up && !k.throttle_down ==> g.throttle == 1)
        }),
{
}

/// The pads' steps are as many as the pads at most.
proof fn lemma_pads_bounded(pads: Seq<PadHeld>)
    ensures
        -(pads.len() as int) <= pads_forward(pads) <= pads.len(),
        -(pads.len() as int) <= pads_strafe(pads) <= pads.len(),
    decreases pads.len(),
{
    if pads.len() > 0 {
        lemma_pads_bounded(pads.drop_last());
    }
}

/// One more pad adds its own step: to the front for up, to the back for down, to the right and
/// to the left, none for both of two opposites, whatever the keys and the other pads do; and
/// it steers no craft. Nothing moves while a chord is typed.
pub proof fn lemma_each_pad_adds_its_step(
    typing: bool,
    reviewing: bool,
    k: KeysHeld,
    pads: Seq<PadHeld>,
    p: PadHeld,
    c: ChordsPlayed,
)
    requires
        pads.len() < 0x3fff_ffff_ffff_fffe,
    ensures
        ({
            let g = gathering(typing, reviewing, k, pads, c);
            let h = gathering(typing, reviewing, k, pads.push(p), c);
            let back = gathering(typing, reviewing, k, pads.push(reversed_pad(p)), c);
            &&& (!typing && p.up && !p.down ==> h.forward == g.forward + 1)
            &&& (!typing && p.down && !p.up ==> h.forward == g.forward - 1)
            &&& (!typing && p.right && !p.left ==> h.strafe == g.strafe + 1)
            &&& (!typing && p.left && !p.right ==> h.strafe == g.strafe - 1)
            &&& (typing || p.up == p.down ==> h.forward == g.forward)
            &&& (typing || p.right == p.left ==> h.strafe == g.strafe)
            &&& h.forward + back.forward == 2 * g.forward
            &&& h.strafe + back.strafe == 2 * g.strafe
            &&& h.rudder == g.rudder
            &&& h.throttle == g.throttle
            &&& h.vehicle == g.vehicle
            &&& h.restart == g.restart
        }),
{
    lemma_pads_bounded(pads);
    lemma_pad_pushed(pads, p);
    lemma_pad_pushed(pads, reversed_pad(p));
}

proof fn lemma_pad_pushed(pads: Seq<PadHeld>, p: PadHeld)
    ensures
        pads_forward(pads.push(p)) == pads_forward(pads) + one(p.up) - one(p.down),
        pads_strafe(pads.push(p)) == pads_strafe(pads) + one(p.right) - one(p.left),
{
    let q = pads.push(p);
    assert(q.drop_last() =~= pads);
    assert(q.last() == p);
}

/// The keys' steps do not depend on the pads, nor the pads' on the keys: together they add up.
pub proof fn lemma_keys_and_pads_add_up(
    typing: bool,
    reviewing: bool,
    k: KeysHeld,
    none: KeysHeld,
    pads: Seq<PadHeld>,
    c: ChordsPlayed,
)
    requires
        pads.len() < 0x3fff_ffff_ffff_ffff,
        none.forward == none.back,
        none.right == none.left,
    ensures
        ({
            let both = gathering(typing, reviewing, k, pads, c);
            let keys = gathering(typing, reviewing, k, Seq::empty(), c);
            let held = gathering(typing, reviewing, none, pads, c);
            &&& both.forward == keys.forward + held.forward
            &&& both.strafe == keys.strafe + held.strafe
        }),
{
    lemma_pads_bounded(pads);
}

/// What any pad holds is held: each button of the pads together is down exactly if it is on
/// one of them.
pub proof fn lemma_any_pad(pads: Seq<PadHeld>)
    ensures
        any_pad(pads).extract <==> exists|i: int| 0 <= i < pads.len() && (#[trigger] pads[i]).extract,
        any_pad(pads).sprint <==> exists|i: int| 0 <= i < pads.len() && (#[trigger] pads[i]).sprint,
        any_pad(pads).jump <==> exists|i: int| 0 <= i < pads.len() && (#[trigger] pads[i]).jump,
        any_pad(pads).slide <==> exists|i: int| 0 <= i < pads.len() && (#[trigger] pads[i]).slide,
        any_pad(pads).left_bumper <==> exists|i: int|
            0 <= i < pads.len() && (#[trigger] pads[i]).left_bumper,
        any_pad(pads).right_bumper <==> exists|i: int|
            0 <= i < pads.len() && (#[trigger] pads[i]).right_bumper,
        any_pad(pads).match_velocity <==> exists|i: int|
            0 <= i < pads.len() && (#[trigger] pads[i]).match_velocity,
    decreases pads.len(),
{
    if pads.len() > 0 {
        let d = pads.drop_last();
        let n = pads.len() - 1;
        lemma_any_pad(d);
        assert(pads.last() == pads[n]);
        assert forall|i: int| 0 <= i < d.len() implies d[i] == pads[i] by {}
        if any_pad(d).extract {
            let i = choose|i: int| 0 <= i < d.len() && (#[trigger] d[i]).extract;
            assert(pads[i].extract);
        }
        if any_pad(d).sprint {
            let i = choose|i: int| 0 <= i < d.len() && (#[trigger] d[i]).sprint;
            assert(pads[i].sprint);
        }
        if any_pad(d).jump {
            let i = choose|i: int| 0 <= i < d.len() && (#[trigger] d[i]).jump;
            assert(pads[i].jump);
        }
        if any_pad(d).slide {
            let i = choose|i: int| 0 <= i < d.len() && (#[trigger] d[i]).slide;
            assert(pads[i].slide);
        }
        if any_pad(d).left_bumper {
            let i = choose|i: int| 0 <= i < d.len() && (#[trigger] d[i]).left_bumper;
            assert(pads[i].left_bumper);
        }
        if any_pad(d).right_bumper {
            let i = choose|i: int| 0 <= i < d.len() && (#[trigger] d[i]).right_bumper;
            assert(pads[i].right_bumper);
        }
        if any_pad(d).match_velocity {
            let i = choose|i: int| 0 <= i < d.len() && (#[trigger] d[i]).match_velocity;
            assert(pads[i].match_velocity);
        }
        assert forall|i: int| 0 <= i < pads.len() && i != n implies pads[i] == d[i] by {}
    }
}

/// A button counts if its key is down or some pad's is, whether or not a chord is typed; while
/// a take is reviewed the pads neither jump nor slide nor brake, and everything else goes on.
pub proof fn lemma_buttons_of_a_frame(
    typing: bool,
    reviewing: bool,
    k: KeysHeld,
    pads: Seq<PadHeld>,
    c: ChordsPlayed,
)
    ensures
        ({
            let g = gathering(typing, reviewing, k, pads, c);
            &&& (g.action <==> k.extract || k.mouse_left || exists|i: int|
                0 <= i < pads.len() && (#[trigger] pads[i]).extract)
            &&& (g.sprint <==> k.sprint || exists|i: int|
                0 <= i < pads.len() && (#[trigger] pads[i]).sprint)
            &&& (g.jump <==> k.jump || (!reviewing && exists|i: int|
                0 <= i < pads.len() && (#[trigger] pads[i]).jump))
            &&& (g.slide <==> k.slide || (!reviewing && exists|i: int|
                0 <= i < pads.len() && (#[trigger] pads[i]).slide))
            &&& (g.match_velocity <==> k.match_velocity || (!reviewing && exists|i: int|
                0 <= i < pads.len() && (#[trigger] pads[i]).match_velocity))
            &&& (g.left_bumper <==> exists|i: int|
                0 <= i < pads.len() && (#[trigger] pads[i]).left_bumper)
            &&& (g.right_bumper <==> exists|i: int|
                0 <= i < pads.len() && (#[trigger] pads[i]).right_bumper)
            &&& (g.restart <==> c.restart)
        }),
{
    lemma_any_pad(pads);
}

/// A craft is asked for exactly if one of its chords was played: leaving goes before boarding
/// and the ship before the plane; and who boards anything asked for just that.
pub proof fn lemma_craft_asked_for(
    typing: bool,
    reviewing: bool,
    k: KeysHeld,
    pads: Seq<PadHeld>,
    c: ChordsPlayed,
)
    ensures
        ({
            let v = gathering(typing, reviewing, k, pads, c).vehicle;
            &&& (v is None <==> !c.exit && !c.board_ship && !c.board_plane)
            &&& (v == Some(VehicleRequest::Exit) <==> c.exit)
            &&& (v == Some(VehicleRequest::Board(VehicleKind::Ship)) <==> c.board_ship && !c.exit)
            &&& (v == Some(VehicleRequest::Board(VehicleKind::Plane)) <==> c.board_plane
                && !c.board_ship && !c.exit)
        }),
{
}

} // verus!
