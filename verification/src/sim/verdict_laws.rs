//! What becomes of the players in a step, and how a round is decided.

use crate::player_map::{lookup, seat_index, seated, PlayerId};
use crate::sim::buttons;
use crate::sim::entities::{
    claw_touches, some_claw_touches, ClawPose, Outcome, PilotPose, Player, PoseView,
};
use crate::sim::geometry::{
    dist2, lemma_segment_param_is_nearest, norm2, segment_gap2, segment_param, segment_point,
    trunc_div, Pos,
};
use crate::sim::input::{pressing, Input};
use crate::sim::layout_laws::lemma_length_of_difference;
use crate::sim::round::{
    advanced, is_nearest_living, predicted, restart_edge, stepped, RoundState,
};
use crate::sim::world::{
    CLAW_DOWN_BUFFER, EXTRACT_RADIUS, PLAYER_HEIGHT_FP, STARTUP_GRACE_TICKS,
};
use vstd::prelude::*;

verus! {

/// A round that was on is won by a step exactly if somebody is out after it, whoever is down
/// by then, and lost exactly if there are players and all are down; else it is still on.
pub proof fn lemma_verdict_follows_the_statuses(
    s: RoundState,
    inputs: Seq<(PlayerId, Input)>,
    crabs: Seq<PoseView>,
    pilots: Seq<(PlayerId, PilotPose)>,
)
    requires
        s.outcome == Outcome::Ongoing,
        !restart_edge(s, inputs),
    ensures
        ({
            let t = stepped(s, inputs, crabs, pilots);
            &&& (t.outcome is Extracted <==> exists|i: int|
                0 <= i < t.players.len() && (#[trigger] t.players[i]).1.status is Extracted)
            &&& (t.outcome is Wiped <==> t.players.len() > 0 && forall|i: int|
                0 <= i < t.players.len() ==> (#[trigger] t.players[i]).1.status is Downed)
            &&& (t.outcome is Ongoing <==> (forall|i: int|
                0 <= i < t.players.len() ==> !((#[trigger] t.players[i]).1.status is Extracted)) && (
            t.players.len() == 0 || exists|i: int|
                0 <= i < t.players.len() && (#[trigger] t.players[i]).1.status is Alive))
        }),
{
    let t = stepped(s, inputs, crabs, pilots);
    if exists|i: int| 0 <= i < t.players.len() && (#[trigger] t.players[i]).1.status is Extracted {
        let i = choose|i: int|
            0 <= i < t.players.len() && (#[trigger] t.players[i]).1.status is Extracted;
        assert(!(t.players[i].1.status is Downed));
    } else if t.players.len() > 0 {
        if exists|i: int| 0 <= i < t.players.len() && !((#[trigger] t.players[i]).1.status is Downed) {
            let i = choose|i: int|
                0 <= i < t.players.len() && !((#[trigger] t.players[i]).1.status is Downed);
            assert(t.players[i].1.status is Alive);
        } else {
            assert(t.players[0].1.status is Downed);
        }
    }
}

/// What a step makes of each player of a round that is on: it keeps its seat; a pilot is where
/// its craft is and faces as it does, the living walk, the others lie still. Down is whoever
/// was, or was alive and on foot where a claw touches, with the grace over; out is whoever
/// was, or was alive, is not down, presses ACTION and is no farther from the objective than
/// its radius.
pub proof fn lemma_what_becomes_of_a_player(
    s: RoundState,
    inputs: Seq<(PlayerId, Input)>,
    crabs: Seq<PoseView>,
    pilots: Seq<(PlayerId, PilotPose)>,
    k: int,
)
    requires
        s.outcome == Outcome::Ongoing,
        !restart_edge(s, inputs),
        s.tick < u64::MAX,
        0 <= k < s.players.len(),
        seated(inputs, s.players[k].0),
    ensures
        ({
            let t = stepped(s, inputs, crabs, pilots);
            let (id, p) = s.players[k];
            let q = t.players[k].1;
            let i = lookup(inputs, id)->0;
            &&& t.players.len() == s.players.len()
            &&& t.players[k].0 == id
            &&& (seated(pilots, id) ==> q.pos == (lookup(pilots, id)->0).pos && q.yaw == (lookup(
                pilots,
                id,
            )->0).yaw)
            &&& (!seated(pilots, id) && p.status is Alive ==> q.pos == advanced(p, i).pos && q.yaw
                == advanced(p, i).yaw)
            &&& (!seated(pilots, id) && !(p.status is Alive) ==> q.pos == p.pos && q.yaw == p.yaw)
            &&& (q.status is Downed <==> p.status is Downed || (p.status is Alive && !seated(
                pilots,
                id,
            ) && s.tick >= s.round_start + STARTUP_GRACE_TICKS && some_claw_touches(crabs, q.pos)))
            &&& (q.status is Extracted <==> p.status is Extracted || (p.status is Alive && !(
            q.status is Downed) && pressing(i, buttons::ACTION) && dist2(q.pos, s.extraction.pos)
                <= EXTRACT_RADIUS * EXTRACT_RADIUS))
            &&& (q.status is Alive ==> p.status is Alive)
        }),
{
}

/// What else a step does, without a restart: the crabs stand where they were told, the tick is
/// counted, and whether RESTART is held is remembered; the objective, the roster, the layout
/// and the random stream stay.
pub proof fn lemma_what_a_step_leaves(
    s: RoundState,
    inputs: Seq<(PlayerId, Input)>,
    crabs: Seq<PoseView>,
    pilots: Seq<(PlayerId, PilotPose)>,
)
    requires
        !restart_edge(s, inputs),
        s.tick < u64::MAX,
    ensures
        ({
            let t = stepped(s, inputs, crabs, pilots);
            &&& t.tick == s.tick + 1
            &&& t.crabs.len() == crabs.len()
            &&& forall|c: int|
                0 <= c < crabs.len() ==> (#[trigger] t.crabs[c]).pos == crabs[c].pos && t.crabs[c].yaw
                    == crabs[c].yaw
            &&& (t.restart_held <==> exists|k: int|
                0 <= k < inputs.len() && pressing((#[trigger] inputs[k]).1, buttons::RESTART))
            &&& t.extraction == s.extraction
            &&& t.roster == s.roster
            &&& t.frame == s.frame
            &&& t.rng == s.rng
            &&& t.round_start == s.round_start
            &&& t.crab_count == s.crab_count
        }),
{
}

/// A round restarts in a step exactly if somebody presses RESTART and nobody held it in the
/// step before.
pub proof fn lemma_restart_takes_a_fresh_press(
    s: RoundState,
    before: Seq<(PlayerId, Input)>,
    crabs: Seq<PoseView>,
    pilots: Seq<(PlayerId, PilotPose)>,
    inputs: Seq<(PlayerId, Input)>,
)
    ensures
        restart_edge(stepped(s, before, crabs, pilots), inputs) <==> {
            &&& exists|k: int|
                0 <= k < inputs.len() && pressing((#[trigger] inputs[k]).1, buttons::RESTART)
            &&& !exists|k: int|
                0 <= k < before.len() && pressing((#[trigger] before[k]).1, buttons::RESTART)
        },
{
}

/// A prediction walks one living player of a round that is on, as a step would, and touches
/// nothing else; otherwise it does nothing.
pub proof fn lemma_prediction_moves_one(s: RoundState, id: PlayerId, i: Input, k: int)
    requires
        0 <= k < s.players.len(),
    ensures
        ({
            let t = predicted(s, id, i);
            let p = s.players[k].1;
            let walks = s.outcome is Ongoing && seated(s.players, id) && k == seat_index(
                s.players,
                id,
            ) && p.status is Alive;
            &&& t == (RoundState { players: t.players, ..s })
            &&& t.players.len() == s.players.len()
            &&& t.players[k].0 == s.players[k].0
            &&& (walks ==> t.players[k].1 == advanced(p, i))
            &&& (!walks ==> t.players[k] == s.players[k])
        }),
{
}

/// The height band of a claw meets a player's: some height from the ground to a player's
/// height lies within the claw's reach of some height between its ends.
pub open spec fn bands_meet(c: ClawPose) -> bool {
    exists|h: int, e: int| #[trigger] bands_meet_at(c, h, e)
}

/// The height `h` of a player and the height `e` of a claw lie within its reach.
pub open spec fn bands_meet_at(c: ClawPose, h: int, e: int) -> bool {
    &&& 0 <= h <= PLAYER_HEIGHT_FP
    &&& (c.a_y <= e <= c.b_y || c.b_y <= e <= c.a_y)
    &&& -(c.radius + CLAW_DOWN_BUFFER) <= h - e <= c.radius + CLAW_DOWN_BUFFER
}

/// Whom a claw touches, its height band meets.
pub proof fn lemma_touch_takes_height(c: ClawPose, p: Pos)
    requires
        c.radius + CLAW_DOWN_BUFFER >= 0,
        claw_touches(c, p),
    ensures
        bands_meet(c),
{
    let reach = c.radius + CLAW_DOWN_BUFFER;
    let (low, high) = if c.a_y < c.b_y {
        (c.a_y as int, c.b_y as int)
    } else {
        (c.b_y as int, c.a_y as int)
    };
    let h: int = if high < 0 {
        0
    } else if low > PLAYER_HEIGHT_FP {
        PLAYER_HEIGHT_FP as int
    } else if low > 0 {
        low
    } else {
        0
    };
    let e = if high < 0 {
        high
    } else if low > h {
        low
    } else {
        h
    };
    assert(bands_meet_at(c, h, e));
}

/// Height is a gate and nothing more: of two claws over the same ground whose height bands
/// both meet a player's, one touches whoever the other does; and one whose band does not meet
/// touches nobody.
pub proof fn lemma_height_is_a_gate(c: ClawPose, d: ClawPose, p: Pos)
    requires
        c.radius + CLAW_DOWN_BUFFER >= 0,
        d.a == c.a,
        d.b == c.b,
        d.radius == c.radius,
        bands_meet(c),
    ensures
        bands_meet(d) ==> claw_touches(c, p) == claw_touches(d, p),
        !bands_meet(d) ==> !claw_touches(d, p),
{
    let (h, e) = choose|h: int, e: int| bands_meet_at(c, h, e);
    assert(bands_meet_at(c, h, e));
    if bands_meet(d) {
        let (g, f) = choose|h: int, e: int| bands_meet_at(d, h, e);
        assert(bands_meet_at(d, g, f));
    } else if claw_touches(d, p) {
        lemma_touch_takes_height(d, p);
    }
}

/// What the ground point of a segment misses of the nearest one.
proof fn lemma_segment_rounding(a: Pos, b: Pos, p: Pos)
    requires
        norm2(b.x - a.x, b.z - a.z) > 0,
    ensures
        ({
            let dx = b.x - a.x;
            let dz = b.z - a.z;
            let l = norm2(dx, dz);
            let t = segment_param(a, b, p);
            let near = segment_point(a, b, p);
            let ex = l * (near.0 - a.x) - dx * t;
            let ez = l * (near.1 - a.z) - dz * t;
            &&& -l < ex < l
            &&& -l < ez < l
        }),
{
    let l = norm2(b.x - a.x, b.z - a.z);
    let t = segment_param(a, b, p);
    lemma_quotient_near((b.x - a.x) * t, l);
    lemma_quotient_near((b.z - a.z) * t, l);
}

proof fn lemma_quotient_near(v: int, l: int)
    requires
        l > 0,
    ensures
        -l < l * trunc_div(v, l) - v < l,
{
    if v >= 0 {
        assert(l * (v / l) <= v < l * (v / l) + l) by (nonlinear_arith)
            requires
                l > 0,
        ;
    } else {
        let w = -v;
        assert(l * (w / l) <= w < l * (w / l) + l) by (nonlinear_arith)
            requires
                l > 0,
        ;
        assert(l * (-(w / l)) == -(l * (w / l))) by (nonlinear_arith);
    }
}

/// A claw is a capsule: it touches whoever stands two grid units inside its reach of any point
/// of its segment, at the fraction `k` of its squared length, and nobody who stands two
/// outside its reach of every one; given that the heights meet.
pub proof fn lemma_claw_is_a_capsule(c: ClawPose, p: Pos, k: int)
    requires
        bands_meet(c),
        c.radius + CLAW_DOWN_BUFFER >= 2,
        norm2(c.b.x - c.a.x, c.b.z - c.a.z) > 0,
        0 <= k <= norm2(c.b.x - c.a.x, c.b.z - c.a.z),
    ensures
        ({
            let l = norm2(c.b.x - c.a.x, c.b.z - c.a.z);
            let inside = l * (c.radius + CLAW_DOWN_BUFFER - 2);
            let outside = l * (c.radius + CLAW_DOWN_BUFFER + 2);
            &&& (segment_gap2(c.a, c.b, p, k) <= inside * inside ==> claw_touches(c, p))
            &&& (claw_touches(c, p) ==> exists|j: int|
                0 <= j <= l && #[trigger] segment_gap2(c.a, c.b, p, j) <= outside * outside)
        }),
{
    let (h, e) = choose|h: int, e: int| bands_meet_at(c, h, e);
    assert(bands_meet_at(c, h, e));
    let dx = c.b.x - c.a.x;
    let dz = c.b.z - c.a.z;
    let wx = p.x - c.a.x;
    let wz = p.z - c.a.z;
    let l = norm2(dx, dz);
    let reach = c.radius + CLAW_DOWN_BUFFER;
    let t = segment_param(c.a, c.b, p);
    let near = segment_point(c.a, c.b, p);
    lemma_segment_rounding(c.a, c.b, p);
    lemma_segment_param_is_nearest(c.a, c.b, p, k);
    let ex = l * (near.0 - c.a.x) - dx * t;
    let ez = l * (near.1 - c.a.z) - dz * t;
    let two = 2 * l;
    assert(norm2(ex, ez) <= two * two) by (nonlinear_arith)
        requires
            -l < ex < l,
            -l < ez < l,
            two == 2 * l,
            norm2(ex, ez) == ex * ex + ez * ez,
    ;
    let u = (l * wx - dx * t, l * wz - dz * t);
    let gx = p.x - near.0;
    let gz = p.z - near.1;
    assert(l * gx == u.0 - ex) by (nonlinear_arith)
        requires
            ex == l * (near.0 - c.a.x) - dx * t,
            u.0 == l * wx - dx * t,
            wx == p.x - c.a.x,
            gx == p.x - near.0,
    ;
    assert(l * gz == u.1 - ez) by (nonlinear_arith)
        requires
            ez == l * (near.1 - c.a.z) - dz * t,
            u.1 == l * wz - dz * t,
            wz == p.z - c.a.z,
            gz == p.z - near.1,
    ;
    let g2 = norm2(gx, gz);
    assert(norm2(l * gx, l * gz) == (l * l) * g2) by (nonlinear_arith)
        requires
            g2 == gx * gx + gz * gz,
            norm2(l * gx, l * gz) == (l * gx) * (l * gx) + (l * gz) * (l * gz),
    ;
    let inside = l * (reach - 2);
    let outside = l * (reach + 2);
    let full = l * reach;
    assert(inside >= 0 && inside + two == full && full + two == outside && full >= 0)
        by (nonlinear_arith)
        requires
            l > 0,
            reach >= 2,
            inside == l * (reach - 2),
            outside == l * (reach + 2),
            full == l * reach,
            two == 2 * l,
    ;
    assert(full * full == (l * l) * (reach * reach)) by (nonlinear_arith)
        requires
            full == l * reach,
    ;
    assert(l * l > 0) by (nonlinear_arith)
        requires
            l > 0,
    ;
    if segment_gap2(c.a, c.b, p, k) <= inside * inside {
        lemma_length_of_difference(u, (ex, ez), inside, two);
        assert(g2 <= reach * reach) by (nonlinear_arith)
            requires
                l * l > 0,
                (l * l) * g2 <= (l * l) * (reach * reach),
        ;
    }
    if claw_touches(c, p) {
        assert((l * l) * g2 <= (l * l) * (reach * reach)) by (nonlinear_arith)
            requires
                l * l > 0,
                g2 <= reach * reach,
        ;
        let back = (-ex, -ez);
        assert(norm2(back.0, back.1) == norm2(ex, ez)) by (nonlinear_arith)
            requires
                back == (-ex, -ez),
                norm2(back.0, back.1) == back.0 * back.0 + back.1 * back.1,
                norm2(ex, ez) == ex * ex + ez * ez,
        ;
        lemma_length_of_difference((l * gx, l * gz), back, full, two);
        assert(segment_gap2(c.a, c.b, p, t) <= outside * outside);
    }
}

/// A claw whose two ends lie over one spot is a disc there.
pub proof fn lemma_claw_without_length_is_a_disc(c: ClawPose, p: Pos)
    requires
        bands_meet(c),
        c.b == c.a,
    ensures
        claw_touches(c, p) <==> dist2(p, c.a) <= (c.radius + CLAW_DOWN_BUFFER) * (c.radius
            + CLAW_DOWN_BUFFER),
{
    let (h, e) = choose|h: int, e: int| bands_meet_at(c, h, e);
    assert(bands_meet_at(c, h, e));
    assert(0int * 0int == 0) by (nonlinear_arith);
}

/// A player is touched by the crabs exactly if one of all their claws touches it.
pub proof fn lemma_any_claw_touches(crabs: Seq<PoseView>, i: int, j: int, p: Pos)
    requires
        0 <= i < crabs.len(),
        0 <= j < crabs[i].claws.len(),
    ensures
        claw_touches(crabs[i].claws[j], p) ==> some_claw_touches(crabs, p),
        some_claw_touches(crabs, p) ==> exists|a: int, b: int|
            0 <= a < crabs.len() && 0 <= b < crabs[a].claws.len() && claw_touches(
                #[trigger] crabs[a].claws[b],
                p,
            ),
{
}

/// The living player nearest to a spot is alive, no living one is nearer, and of equally near
/// ones it comes first; there is one whenever anybody lives.
pub proof fn lemma_nearest_living(players: Seq<(PlayerId, Player)>, c: Pos, j: int) -> (k: int)
    requires
        0 <= j < players.len(),
        players[j].1.status is Alive,
    ensures
        is_nearest_living(players, c, k),
        forall|n: int, i: int|
            #![trigger is_nearest_living(players, c, n), players[i]]
            is_nearest_living(players, c, n) && 0 <= i < players.len()
                && players[i].1.status is Alive ==> {
                &&& players[n].1.status is Alive
                &&& dist2(players[n].1.pos, c) <= dist2(players[i].1.pos, c)
                &&& dist2(players[n].1.pos, c) == dist2(players[i].1.pos, c) ==> n <= i
            },
    decreases dist2(players[j].1.pos, c), j,
{
    if exists|i: int|
        0 <= i < players.len() && (#[trigger] players[i]).1.status is Alive && dist2(
            players[i].1.pos,
            c,
        ) < dist2(players[j].1.pos, c) {
        let i = choose|i: int|
            0 <= i < players.len() && (#[trigger] players[i]).1.status is Alive && dist2(
                players[i].1.pos,
                c,
            ) < dist2(players[j].1.pos, c);
        lemma_square_grows(players[i].1.pos, c);
        lemma_nearest_living(players, c, i)
    } else if exists|i: int|
        0 <= i < j && (#[trigger] players[i]).1.status is Alive && dist2(players[i].1.pos, c)
            == dist2(players[j].1.pos, c) {
        let i = choose|i: int|
            0 <= i < j && (#[trigger] players[i]).1.status is Alive && dist2(players[i].1.pos, c)
                == dist2(players[j].1.pos, c);
        lemma_square_grows(players[i].1.pos, c);
        lemma_nearest_living(players, c, i)
    } else {
        j
    }
}

/// No distance is negative.
proof fn lemma_square_grows(a: Pos, b: Pos)
    ensures
        dist2(a, b) >= 0,
{
    let x = a.x - b.x;
    let z = a.z - b.z;
    assert(x * x >= 0 && z * z >= 0) by (nonlinear_arith);
}

} // verus!
