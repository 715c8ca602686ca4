//! What holds of a client's round, frame by frame.
use crate::client::{PilotIntent, VehicleKind};
use crate::player_map::{lookup, seated, PlayerId};
use crate::render::articulation::CrabArticulation;
use crate::render::driver::{
    boardings, due_count, intent_of, nonfinite_text, offender_text, pack_msgs, rescue_texts,
    status_edges, taken, vehicle_after, FlightControl, LocalVehicle, RescueStats, StatusEdge,
    VehicleRequest, JITTER_BUF_MAX, JITTER_BUF_TARGET,
};
use crate::render::pose::{pushed, Pose, WINDOW};
use crate::sim::entities::{Player, PlayerStatus};
use crate::sim::input::Input;
use vstd::prelude::*;

verus! {

/// A tick takes a snapshot exactly if one waits; one only while no more wait than the buffer
/// is to hold, and else all but the few it aims for.
pub proof fn lemma_jitter_takes_what_waits(buffered: nat)
    ensures
        taken(buffered) <= buffered,
        taken(buffered) == 0 <==> buffered == 0,
        1 <= buffered <= JITTER_BUF_MAX ==> taken(buffered) == 1,
        buffered > JITTER_BUF_MAX ==> taken(buffered) + JITTER_BUF_TARGET == buffered,
{
}

/// Whoever asks to leave is on foot; whoever asks for a craft flies it, if it flew already or
/// may board; whoever asks for nothing, or may not, stays as it is.
pub proof fn lemma_vehicle_requests(
    v: LocalVehicle,
    request: Option<VehicleRequest>,
    may_board: bool,
    kind: VehicleKind,
)
    ensures
        request == Some(VehicleRequest::Exit) ==> vehicle_after(v, request, may_board) is OnFoot,
        request is None ==> vehicle_after(v, request, may_board) == v,
        request == Some(VehicleRequest::Board(kind)) && (may_board || v is Flying)
            ==> vehicle_after(v, request, may_board) == LocalVehicle::Flying(kind),
        request == Some(VehicleRequest::Board(kind)) && !may_board && v is OnFoot ==> vehicle_after(
            v,
            request,
            may_board,
        ) == v,
{
}

/// An intent is of the craft that is flown and carries its sticks as they are; two controls of
/// one craft with the same intent are the same.
pub proof fn lemma_intent_carries_the_controls(a: FlightControl, b: FlightControl)
    ensures
        match a {
            FlightControl::Plane(p) => {
                let i = intent_of(a);
                &&& i.kind is Plane
                &&& i.throttle_trim == p.throttle_trim
                &&& i.pitch == p.pitch
                &&& i.roll == p.roll
                &&& i.yaw == p.yaw
                &&& !i.match_velocity
                &&& i.thrust@ =~= seq![0u32, 0u32, 0u32]
            },
            FlightControl::Ship(s) => {
                let i = intent_of(a);
                &&& i.kind is Ship
                &&& i.thrust == s.thrust
                &&& i.pitch == s.pitch
                &&& i.roll == s.roll
                &&& i.yaw == s.yaw
                &&& i.match_velocity == s.match_velocity
                &&& i.throttle_trim == 0
            },
        },
        intent_of(a) == intent_of(b) ==> a == b,
{
}

/// A pack is driven by one message each: everybody on the roster but the driver is sent for,
/// in the order of the roster, on foot, with the same input of the same tick.
pub proof fn lemma_pack_is_sent_for(
    roster: Seq<PlayerId>,
    me: PlayerId,
    issue_tick: u64,
    bot: Input,
    id: PlayerId,
)
    ensures
        ({
            let m = pack_msgs(roster, me, issue_tick, bot);
            &&& forall|k: int|
                0 <= k < m.len() ==> {
                    &&& (#[trigger] m[k]).pid != me
                    &&& roster.contains(m[k].pid)
                    &&& m[k].msg.issue_tick == issue_tick
                    &&& m[k].msg.input == bot
                    &&& m[k].msg.pilot is None
                }
            &&& (roster.contains(id) && id != me ==> exists|k: int|
                0 <= k < m.len() && (#[trigger] m[k]).pid == id)
            &&& m.len() <= roster.len()
        }),
    decreases roster.len(),
{
    let m = pack_msgs(roster, me, issue_tick, bot);
    if roster.len() > 0 {
        let d = roster.drop_last();
        lemma_pack_is_sent_for(d, me, issue_tick, bot, id);
        let md = pack_msgs(d, me, issue_tick, bot);
        assert(roster[roster.len() - 1] == roster.last());
        assert forall|k: int| 0 <= k < m.len() implies {
            &&& (#[trigger] m[k]).pid != me
            &&& roster.contains(m[k].pid)
            &&& m[k].msg.issue_tick == issue_tick
            &&& m[k].msg.input == bot
            &&& m[k].msg.pilot is None
        } by {
            if k < md.len() {
                assert(m[k] == md[k]);
                assert(d.contains(md[k].pid));
                let i = choose|i: int| 0 <= i < d.len() && d[i] == md[k].pid;
                assert(roster[i] == md[k].pid);
            }
        }
        if roster.contains(id) && id != me {
            if id == roster.last() {
                assert(m[m.len() - 1].pid == id);
            } else {
                let i = choose|i: int| 0 <= i < roster.len() && roster[i] == id;
                assert(d[i] == id);
                let k = choose|k: int| 0 <= k < md.len() && (#[trigger] md[k]).pid == id;
                assert(m[k].pid == id);
            }
        }
    }
}

/// The articulations that are due are those up to the first that is later than the tick.
pub proof fn lemma_due_are_the_past(arts: Seq<CrabArticulation>, tick: u64, i: int)
    ensures
        due_count(arts, tick) <= arts.len(),
        0 <= i < due_count(arts, tick) ==> arts[i].tick <= tick,
        due_count(arts, tick) < arts.len() ==> arts[due_count(arts, tick) as int].tick > tick,
    decreases arts.len(),
{
    if arts.len() > 0 && arts[0].tick <= tick {
        lemma_due_are_the_past(arts.skip(1), tick, i - 1);
        if 0 < i < arts.len() {
            assert(arts.skip(1)[i - 1] == arts[i]);
        }
        let n = due_count(arts.skip(1), tick);
        assert(due_count(arts, tick) == 1 + n);
        if n < arts.skip(1).len() {
            assert(arts.skip(1)[n as int] == arts[n as int + 1]);
        }
    }
}

/// Every pilot who is in the world is commanded, with its own intent, where it stands now and
/// where it stood before, or now if it was not there; and nobody else is.
pub proof fn lemma_pilots_are_commanded(
    intents: Seq<(PlayerId, PilotIntent)>,
    players: Seq<(PlayerId, Player)>,
    before: Seq<(PlayerId, Player)>,
    i: int,
)
    ensures
        ({
            let b = boardings(intents, players, before);
            &&& b.len() <= intents.len()
            &&& forall|k: int|
                0 <= k < b.len() ==> {
                    let c = #[trigger] b[k];
                    &&& lookup(players, c.pilot) == Some(c.now)
                    &&& (seated(before, c.pilot) ==> lookup(before, c.pilot) == Some(c.prev))
                    &&& (lookup(before, c.pilot) is None ==> c.prev == c.now)
                    &&& intents.contains((c.pilot, c.intent))
                }
            &&& (0 <= i < intents.len() && lookup(players, intents[i].0) is Some ==> exists|k: int|
                0 <= k < b.len() && (#[trigger] b[k]).pilot == intents[i].0 && b[k].intent
                    == intents[i].1)
        }),
    decreases intents.len(),
{
    let b = boardings(intents, players, before);
    if intents.len() > 0 {
        let d = intents.drop_last();
        lemma_pilots_are_commanded(d, players, before, i);
        let bd = boardings(d, players, before);
        assert(intents[intents.len() - 1] == intents.last());
        assert forall|k: int| 0 <= k < b.len() implies {
            let c = #[trigger] b[k];
            &&& lookup(players, c.pilot) == Some(c.now)
            &&& (seated(before, c.pilot) ==> lookup(before, c.pilot) == Some(c.prev))
            &&& (lookup(before, c.pilot) is None ==> c.prev == c.now)
            &&& intents.contains((c.pilot, c.intent))
        } by {
            if k < bd.len() {
                assert(b[k] == bd[k]);
                assert(d.contains((bd[k].pilot, bd[k].intent)));
                let j = choose|j: int| 0 <= j < d.len() && d[j] == (bd[k].pilot, bd[k].intent);
                assert(intents[j] == d[j]);
            }
        }
        if 0 <= i < intents.len() && lookup(players, intents[i].0) is Some {
            if i < d.len() {
                assert(d[i] == intents[i]);
                let k = choose|k: int|
                    0 <= k < bd.len() && (#[trigger] bd[k]).pilot == intents[i].0 && bd[k].intent
                        == intents[i].1;
                assert(b[k] == bd[k]);
            } else {
                assert(b[b.len() - 1].pilot == intents[i].0);
            }
        }
    }
}

/// A change of status is told exactly of those who were seen with another one, from that to
/// the new.
pub proof fn lemma_edges_are_changes(
    seen: Seq<(PlayerId, PlayerStatus)>,
    players: Seq<(PlayerId, Player)>,
    i: int,
)
    ensures
        ({
            let e = status_edges(seen, players);
            &&& forall|k: int|
                0 <= k < e.len() ==> {
                    &&& lookup(seen, (#[trigger] e[k]).pid) == Some(e[k].from)
                    &&& e[k].from != e[k].to
                }
            &&& (0 <= i < players.len() && lookup(seen, players[i].0) is Some && lookup(
                seen,
                players[i].0,
            )->0 != players[i].1.status ==> e.contains(
                StatusEdge {
                    pid: players[i].0,
                    from: lookup(seen, players[i].0)->0,
                    to: players[i].1.status,
                },
            ))
        }),
    decreases players.len(),
{
    let e = status_edges(seen, players);
    if players.len() > 0 {
        let d = players.drop_last();
        lemma_edges_are_changes(seen, d, i);
        let ed = status_edges(seen, d);
        assert forall|k: int| 0 <= k < e.len() implies {
            &&& lookup(seen, (#[trigger] e[k]).pid) == Some(e[k].from)
            &&& e[k].from != e[k].to
        } by {
            if k < ed.len() {
                assert(e[k] == ed[k]);
            }
        }
        if 0 <= i < players.len() && lookup(seen, players[i].0) is Some && lookup(
            seen,
            players[i].0,
        )->0 != players[i].1.status {
            let x = StatusEdge {
                pid: players[i].0,
                from: lookup(seen, players[i].0)->0,
                to: players[i].1.status,
            };
            if i < d.len() {
                assert(ed.contains(x));
                let k = choose|k: int| 0 <= k < ed.len() && ed[k] == x;
                assert(e[k] == x);
            } else {
                assert(e[e.len() - 1] == x);
            }
        }
    }
}

/// One line is told for each reason that crabs were rescued for, and none for any other; a body
/// is named only where there was one reason.
pub proof fn lemma_rescues_are_told(s: RescueStats)
    ensures
        rescue_texts(s).len() == (if s.since_nonfinite > 0 {
            1int
        } else {
            0
        }) + (if s.since_below_terrain > 0 {
            1int
        } else {
            0
        }) + (if s.since_buried > 0 {
            1int
        } else {
            0
        }),
        rescue_texts(s).len() != 1 ==> offender_text(s).len() == 0,
        s.last_body is None ==> offender_text(s).len() == 0,
        s.since_nonfinite > 0 ==> rescue_texts(s)[0] == nonfinite_text(
            s.since_nonfinite,
            offender_text(s),
        ),
{
}

/// A window holds the newest pose last. One that is later than all and no jump comes behind
/// the ones before, of which the oldest goes where there are too many; any other starts over.
pub proof fn lemma_window_holds_the_newest(
    w: Seq<(u64, Pose)>,
    tick: u64,
    p: Pose,
    jumped: bool,
    i: int,
)
    requires
        w.len() <= WINDOW,
    ensures
        ({
            let r = pushed(w, tick, p, jumped);
            let follows = w.len() == 0 || (tick > w.last().0 && !jumped);
            &&& r.last() == (tick, p)
            &&& r.len() <= WINDOW
            &&& (!follows ==> r.len() == 1)
            &&& (follows && w.len() < WINDOW ==> r.len() == w.len() + 1)
            &&& (follows && w.len() == WINDOW ==> r.len() == WINDOW)
            &&& (0 <= i < r.len() - 1 ==> r[i] == w[w.len() - (r.len() - 1) + i])
        }),
{
}

} // verus!
