//! What a server makes of what it is sent, tick by tick.
use crate::client::{PilotIntent, TickMsg};
use crate::player_map::{
    ascending, lemma_kept, lemma_lookup_at, lemma_put, lemma_without, lookup, put, seat_index,
    seated, strictly_ascending, PlayerId,
};
use crate::roster::{lemma_change_applies_from_its_tick, lemma_roster_at_ascending, roster_at};
use crate::server::host::{
    assembled, current_roster, filed, fill_starved, fill_tallies, gone, joined, left, lemma_joined,
    lemma_mirrored, mirrored, next_assemble, remote_recorded, server_wf, stream_for, synced,
    tick_opened, with_admission, with_departure, world_after, ServerState, JOIN_LEAD,
};
use crate::server::starvation::{
    closed_window, report_due, StarvationReport, StarvationTally, STARVATION_REPORT_CAP,
    STARVATION_REPORT_COOLDOWN, STARVATION_REPORT_THRESHOLD, STARVATION_WINDOW,
};
use crate::server::stream::{consumed, fill_of, next_fresh, recorded};
use crate::sim::buttons;
use crate::sim::entities::{PilotPose, Player};
use crate::sim::input::pressing;
use crate::sim::round::{restart_edge, with_joiner, RoundState};
use crate::sim::world::TICK_HZ;
use vstd::prelude::*;

verus! {

/// Who says that it walks pilots nothing; who says how it flies does so from then on, if it
/// flew already or is in the world and not out of the round; and nobody else is touched.
pub proof fn lemma_intent_filed(
    intents: Seq<(PlayerId, PilotIntent)>,
    sim: RoundState,
    pid: PlayerId,
    pilot: Option<PilotIntent>,
    id: PlayerId,
)
    requires
        ascending(intents),
    ensures
        ({
            let f = filed(intents, sim, pid, pilot);
            let boards = seated(intents, pid) || (seated(sim.players, pid) && !(lookup(
                sim.players,
                pid,
            )->0.status is Extracted));
            &&& (pilot is None ==> !seated(f, pid))
            &&& (pilot is Some && boards ==> lookup(f, pid) == pilot)
            &&& (pilot is Some && !boards ==> f == intents && !seated(f, pid))
            &&& (id != pid ==> lookup(f, id) == lookup(intents, id))
            &&& ascending(f)
        }),
{
    lemma_without(intents, pid);
    if let Some(i) = pilot {
        lemma_put(intents, pid, i);
    }
}

/// A delivery of the host's own or a stranger's changes nothing. Any other goes into its
/// sender's stream and no other, and moves its sender's intent, and no other, if it was news;
/// nothing else changes.
pub proof fn lemma_delivery(s: ServerState, from: PlayerId, msg: TickMsg, id: PlayerId)
    requires
        server_wf(s),
    ensures
        ({
            let t = remote_recorded(s, from, msg);
            let heard = from != s.me && current_roster(s).contains(from);
            let news = msg.issue_tick >= next_fresh(stream_for(s, from));
            &&& (!heard ==> t == s)
            &&& (heard ==> stream_for(t, from) == recorded(stream_for(s, from), msg))
            &&& (id != from ==> lookup(t.streams, id) == lookup(s.streams, id))
            &&& (id != from ==> lookup(t.intents, id) == lookup(s.intents, id))
            &&& (!news ==> t.intents == s.intents)
            &&& (heard && news && msg.pilot is None ==> !seated(t.intents, from))
            &&& (heard && news && msg.pilot is Some && seated(s.intents, from) ==> lookup(
                t.intents,
                from,
            ) == msg.pilot)
            &&& t == (ServerState { streams: t.streams, intents: t.intents, ..s })
        }),
{
    lemma_put(s.streams, from, recorded(stream_for(s, from), msg));
    lemma_intent_filed(s.intents, s.sim, from, msg.pilot, id);
}

/// What a rostered player's input of an assembled tick is made of: of the host what it says,
/// of anybody else what its stream fills the tick with. On foot it is that; in a craft nothing
/// of it but RESTART. Who is in a craft is whoever was, the host as it says now, and of those
/// the rostered.
pub proof fn lemma_assembled_input(s: ServerState, local: TickMsg, id: PlayerId, bit: u8)
    requires
        server_wf(s),
        roster_at(s.roster, s.sim.tick).contains(id),
    ensures
        ({
            let a = assembled(s, local);
            let got = lookup(a.pending->0.inputs, id);
            let sent = if id == s.me {
                local.input
            } else {
                fill_of(stream_for(s, id))
            };
            let flies = seated(a.intents, id);
            &&& got is Some
            &&& (!flies ==> got->0 == sent)
            &&& (flies ==> {
                &&& got->0.move_strafe == 0
                &&& got->0.move_forward == 0
                &&& got->0.look_yaw == 0
                &&& (pressing(got->0, bit) <==> pressing(sent, buttons::RESTART) && bit
                    & buttons::RESTART != 0)
            })
            &&& (id != s.me ==> lookup(a.intents, id) == lookup(s.intents, id))
            &&& (id == s.me && local.pilot is None ==> !flies)
            &&& (id == s.me && flies ==> lookup(a.intents, id) == local.pilot)
        }),
{
    let a = assembled(s, local);
    let o = tick_opened(s, local);
    let ids = roster_at(s.roster, s.sim.tick);
    let inputs = a.pending->0.inputs;
    lemma_roster_at_ascending(s.roster, s.sim.tick);
    let i = choose|i: int| 0 <= i < ids.len() && ids[i] == id;
    assert forall|x: int, y: int| 0 <= x < y < inputs.len() implies (#[trigger] inputs[x]).0.0 < (
    #[trigger] inputs[y]).0.0 by {
        assert(ids[x].0 < ids[y].0);
    }
    assert(inputs[i].0 == id);
    lemma_lookup_at(inputs, i);
    let f = filed(s.intents, s.sim, s.me, local.pilot);
    lemma_intent_filed(s.intents, s.sim, s.me, local.pilot, id);
    lemma_kept(f, ids);
    assert(lookup(a.intents, id) == lookup(f, id));
    let sent = if id == s.me {
        local.input
    } else {
        fill_of(stream_for(s, id))
    };
    let b = sent.buttons;
    assert((b & 2) & bit != 0 <==> b & 2 != 0 && bit & 2 != 0) by (bit_vector);
}

/// Assembling a tick takes one step of the stream of every rostered player who has one, and
/// leaves every other as it was.
pub proof fn lemma_assembly_takes_one_each(s: ServerState, local: TickMsg, id: PlayerId)
    requires
        server_wf(s),
        s.pending is None,
    ensures
        ({
            let a = assembled(s, local);
            &&& (roster_at(s.roster, s.sim.tick).contains(id) ==> stream_for(a, id) == consumed(
                stream_for(s, id),
            ))
            &&& (!roster_at(s.roster, s.sim.tick).contains(id) ==> stream_for(a, id) == stream_for(
                s,
                id,
            ))
            &&& a.sim == s.sim
            &&& a.roster == s.roster
            &&& a.me == s.me
        }),
{
    let a = assembled(s, local);
    let f = a.streams;
    assert forall|x: int, y: int| 0 <= x < y < f.len() implies (#[trigger] f[x]).0.0 < (
    #[trigger] f[y]).0.0 by {
        assert(s.streams[x].0.0 < s.streams[y].0.0);
    }
    if seated(s.streams, id) {
        let k = seat_index(s.streams, id);
        lemma_lookup_at(s.streams, k);
        assert(f[k].0 == id);
        lemma_lookup_at(f, k);
    } else if seated(f, id) {
        let k = seat_index(f, id);
        assert(s.streams[k].0 == id);
    }
}

/// Everybody in the world and on the roster stays as they are when the world is brought in
/// line; and nothing but who is in it changes.
pub proof fn lemma_mirror_moves_nobody(sim: RoundState, ids: Seq<PlayerId>, id: PlayerId)
    requires
        ascending(sim.players),
        seated(sim.players, id),
        ids.contains(id),
    ensures
        lookup(mirrored(sim, ids).players, id) == lookup(sim.players, id),
        mirrored(sim, ids) == (RoundState {
            players: mirrored(sim, ids).players,
            roster: mirrored(sim, ids).roster,
            ..sim
        }),
{
    lemma_joined_stays(sim, ids, id);
    let j = joined(sim, ids);
    lemma_joined(sim, ids);
    let g = gone(j.players, ids);
    lemma_gone_spares(j.players, ids, id);
    lemma_left_stays(j, g, id);
}

proof fn lemma_joined_stays(sim: RoundState, ids: Seq<PlayerId>, id: PlayerId)
    requires
        ascending(sim.players),
        seated(sim.players, id),
    ensures
        ascending(joined(sim, ids).players),
        lookup(joined(sim, ids).players, id) == lookup(sim.players, id),
        seated(joined(sim, ids).players, id),
        joined(sim, ids) == (RoundState {
            players: joined(sim, ids).players,
            roster: joined(sim, ids).roster,
            ..sim
        }),
    decreases ids.len(),
{
    lemma_joined(sim, ids);
    if ids.len() > 0 {
        lemma_joined_stays(sim, ids.drop_last(), id);
        lemma_joined(sim, ids.drop_last());
        let j = joined(sim, ids.drop_last());
        let pid = ids.last();
        if !seated(j.players, pid) {
            let v = choose|v: Player| #[trigger]
                put(j.players, pid, v) == with_joiner(j, pid).players;
            lemma_put(j.players, pid, v);
        }
    }
}

proof fn lemma_gone_spares(players: Seq<(PlayerId, Player)>, ids: Seq<PlayerId>, id: PlayerId)
    requires
        ids.contains(id),
    ensures
        !gone(players, ids).contains(id),
    decreases players.len(),
{
    if players.len() > 0 {
        lemma_gone_spares(players.drop_last(), ids, id);
        let g = gone(players.drop_last(), ids);
        let r = gone(players, ids);
        if r.contains(id) {
            let i = choose|i: int| 0 <= i < r.len() && r[i] == id;
            if i < g.len() {
                assert(g[i] == id);
            }
        }
    }
}

proof fn lemma_left_stays(sim: RoundState, list: Seq<PlayerId>, id: PlayerId)
    requires
        ascending(sim.players),
        !list.contains(id),
    ensures
        ascending(left(sim, list).players),
        lookup(left(sim, list).players, id) == lookup(sim.players, id),
        left(sim, list) == (RoundState {
            players: left(sim, list).players,
            roster: left(sim, list).roster,
            ..sim
        }),
    decreases list.len(),
{
    if list.len() > 0 {
        let d = list.drop_last();
        assert(!d.contains(id)) by {
            if d.contains(id) {
                let i = choose|i: int| 0 <= i < d.len() && d[i] == id;
                assert(list[i] == id);
            }
        }
        assert(list[list.len() - 1] == list.last());
        lemma_left_stays(sim, d, id);
        lemma_without(left(sim, d).players, list.last());
    }
}

/// A step without poses leaves every crab where it stood and facing as it did, and claws
/// nobody.
pub proof fn lemma_unfed_crabs_stand(
    s: ServerState,
    pilots: Seq<(PlayerId, PilotPose)>,
    c: int,
)
    requires
        server_wf(s),
        s.pending is Some,
        !restart_edge(synced(s), s.pending->0.inputs),
        0 <= c < s.sim.crabs.len(),
    ensures
        world_after(s, Seq::empty(), pilots).crabs.len() == s.sim.crabs.len(),
        world_after(s, Seq::empty(), pilots).crabs[c] == s.sim.crabs[c],
{
    lemma_mirrored(s.sim, roster_at(s.roster, s.sim.tick));
}

/// A change of the roster lands on the first tick that can have it: not before the next one
/// to be assembled, for a joiner with its lead, nor before the tick after the last change; and
/// the roster of every earlier tick stays.
pub proof fn lemma_changes_land_as_soon_as_they_can(s: ServerState, pid: PlayerId, tick: u64)
    requires
        server_wf(s),
        s.roster.last().0 < u64::MAX,
        next_assemble(s) + JOIN_LEAD <= u64::MAX,
    ensures
        ({
            let a = with_admission(s, pid);
            let at = a.roster.last().0;
            let first = next_assemble(s) + JOIN_LEAD;
            &&& at >= first && at > s.roster.last().0
            &&& (at == first || at == s.roster.last().0 + 1)
            &&& (tick < at ==> roster_at(a.roster, tick) == roster_at(s.roster, tick))
            &&& a == (ServerState { roster: a.roster, ..s })
        }),
        current_roster(s).contains(pid) ==> ({
            let d = with_departure(s, pid);
            let at = d.roster.last().0;
            let first = next_assemble(s);
            &&& at >= first && at > s.roster.last().0
            &&& (at == first || at == s.roster.last().0 + 1)
            &&& (tick < at ==> roster_at(d.roster, tick) == roster_at(s.roster, tick))
        }),
        !current_roster(s).contains(pid) ==> with_departure(s, pid) == s,
{
    let a = with_admission(s, pid);
    let x = a.roster.last();
    lemma_change_applies_from_its_tick(s.roster, x.0, x.1, tick);
    let d = with_departure(s, pid);
    if current_roster(s).contains(pid) {
        let y = d.roster.last();
        lemma_change_applies_from_its_tick(s.roster, y.0, y.1, tick);
    }
}

/// Counting a tick's starved: each rostered remote player whose stream filled nothing has one
/// more, and nobody else does; no cooldown moves.
pub proof fn lemma_each_starved_counts_once(
    s: ServerState,
    t: Seq<(PlayerId, StarvationTally)>,
    ids: Seq<PlayerId>,
    id: PlayerId,
)
    requires
        ascending(t),
        strictly_ascending(ids),
        seated(t, id) ==> lookup(t, id)->0.starved_in_window < u64::MAX,
    ensures
        ascending(fill_tallies(s, t, ids)),
        ({
            let was = match lookup(t, id) {
                Some(v) => v,
                None => StarvationTally { starved_in_window: 0, last_report: None },
            };
            let now = lookup(fill_tallies(s, t, ids), id);
            &&& (ids.contains(id) && fill_starved(s, id) ==> {
                &&& now is Some
                &&& now->0.starved_in_window == was.starved_in_window + 1
                &&& now->0.last_report == was.last_report
            })
            &&& (!(ids.contains(id) && fill_starved(s, id)) ==> now == lookup(t, id))
        }),
    decreases ids.len(),
{
    if ids.len() > 0 {
        let d = ids.drop_last();
        let last = ids.last();
        crate::roster::lemma_ascending_drop_last(ids);
        lemma_each_starved_counts_once(s, t, d, id);
        let td = fill_tallies(s, t, d);
        assert(d.contains(id) <==> ids.contains(id) && id != last);
        assert(ids[ids.len() - 1] == last);
        let tally = match lookup(td, last) {
            Some(v) => v,
            None => StarvationTally { starved_in_window: 0, last_report: None },
        };
        lemma_put(
            td,
            last,
            StarvationTally {
                starved_in_window: (tally.starved_in_window + 1) as u64,
                ..tally
            },
        );
    }
}

/// Whoever starved for the threshold or longer in the window that closes is reported, with
/// how often, unless its last report is younger than the cooldown or the reports have run out
/// of room.
pub proof fn lemma_chronic_is_reported(
    t: Seq<(PlayerId, StarvationTally)>,
    reports: Seq<StarvationReport>,
    tick: u64,
    i: int,
)
    requires
        0 <= i < t.len(),
        t[i].1.starved_in_window >= STARVATION_REPORT_THRESHOLD,
        t[i].1.last_report matches Some(t0) ==> tick - t0 >= STARVATION_REPORT_COOLDOWN,
        reports.len() + t.len() <= STARVATION_REPORT_CAP,
    ensures
        exists|k: int|
            reports.len() <= k < closed_window(t, reports, tick).1.len()
                && #[trigger] closed_window(t, reports, tick).1[k] == (StarvationReport {
                pid: t[i].0,
                starved: t[i].1.starved_in_window,
                window: STARVATION_WINDOW,
                tick,
            }),
    decreases t.len(),
{
    lemma_reports_grow(t.drop_last(), reports, tick);
    let pr = closed_window(t.drop_last(), reports, tick).1;
    let r = closed_window(t, reports, tick).1;
    if i < t.len() - 1 {
        lemma_chronic_is_reported(t.drop_last(), reports, tick, i);
        let k = choose|k: int|
            reports.len() <= k < pr.len() && #[trigger] pr[k] == (StarvationReport {
                pid: t[i].0,
                starved: t[i].1.starved_in_window,
                window: STARVATION_WINDOW,
                tick,
            });
        assert(r[k] == pr[k]);
    } else {
        assert(report_due(t.last().1, tick));
        assert(r[pr.len() as int].pid == t[i].0);
    }
}

proof fn lemma_reports_grow(
    t: Seq<(PlayerId, StarvationTally)>,
    reports: Seq<StarvationReport>,
    tick: u64,
)
    ensures
        reports.len() <= closed_window(t, reports, tick).1.len() <= reports.len() + t.len(),
    decreases t.len(),
{
    if t.len() > 0 {
        lemma_reports_grow(t.drop_last(), reports, tick);
    }
}

/// A window of starvation is a second; a player is chronic who starves for half of it, and
/// nobody is reported more often than every ten windows.
pub proof fn lemma_starvation_is_measured_in_seconds()
    ensures
        STARVATION_WINDOW == TICK_HZ,
        2 * STARVATION_REPORT_THRESHOLD == STARVATION_WINDOW,
        STARVATION_REPORT_COOLDOWN == 10 * STARVATION_WINDOW,
{
}

} // verus!
