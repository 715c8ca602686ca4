//! What holds of every server.

use crate::client::TickMsg;
use crate::player_map::{
    ascending, kept, lemma_entries_unique, lemma_kept, lemma_lookup_at, lemma_put, lemma_without,
    lookup, seat_index, seated, seats, strictly_ascending, PlayerId,
};
use crate::roster::{
    lemma_ascending_unique, lemma_change_applies_from_its_tick, lemma_with_id, roster_at,
};
use crate::server::host::{
    assembled, change_tick, current_roster, filed, fill_input, fill_mark, fill_starved, gone,
    is_lowest_free, joined, left, lemma_fill_marks_lookup, lemma_joined, lemma_mirrored, mirrored,
    next_assemble, server_wf, snapshot_after, step_poses, stream_for, synced, tick_opened,
    with_admission, with_departure, world_after, ServerState,
};
use crate::server::starvation::{
    closed_window, lemma_closed_window, window_fill, STARVATION_REPORT_COOLDOWN,
    STARVATION_REPORT_THRESHOLD, STARVATION_WINDOW,
};
use crate::server::stream::consumed;
use crate::sim::buttons;
use crate::sim::entities::{PilotPose, PoseView};
use crate::sim::input::{held, lemma_hold, lemma_pilot_mask, neutral, pressing};
use crate::sim::laws::{
    crewed, lemma_idle_player_stays, lemma_joins_and_departures_keep_the_crew,
    lemma_step_keeps_seats, lemma_step_keeps_the_crew,
};
use crate::sim::round::{lemma_minus, minus, restart_edge, round_fits, round_wf, RoundState};
use crate::sim::trig::{wrapped, TURN};
use crate::sim::world::STARTUP_GRACE_TICKS;
use crate::snapshot::{
    lemma_snapshot_roundtrip, snapshot_bytes, snapshot_of, SnapshotDecodeError, SnapshotView,
};
use vstd::prelude::*;

verus! {

/// The host never waits: whatever its remote players have or have not sent, the assembled
/// tick holds an input for every rostered player, and the world's tick is the one assembled.
pub proof fn lemma_host_never_waits(s: ServerState, local: TickMsg, id: PlayerId)
    requires
        server_wf(s),
    ensures
        assembled(s, local).pending is Some,
        assembled(s, local).pending->0.tick == s.sim.tick,
        roster_at(s.roster, s.sim.tick).contains(id) ==> seated(
            assembled(s, local).pending->0.inputs,
            id,
        ),
{
    let ids = roster_at(s.roster, s.sim.tick);
    let p = assembled(s, local).pending->0.inputs;
    if ids.contains(id) {
        let i = choose|i: int| 0 <= i < ids.len() && ids[i] == id;
        assert(p[i].0 == id);
    }
}

/// A silent player who never sent anything plays neutral.
pub proof fn lemma_silent_player_is_neutral(s: ServerState, local: TickMsg, id: PlayerId)
    requires
        id != s.me,
        !seated(s.streams, id),
        !seated(s.intents, id),
    ensures
        fill_input(s, local, id) == neutral(),
        fill_starved(s, id),
        fill_mark(s, local, id) is None,
{
}

/// A starved player holds its last move axes, and fires no button and no turn again.
pub proof fn lemma_starved_player_holds(s: ServerState, local: TickMsg, id: PlayerId, bit: u8)
    requires
        id != s.me,
        seated(s.streams, id),
        fill_starved(s, id),
        !seated(s.intents, id),
    ensures
        fill_input(s, local, id) == held(stream_for(s, id).held),
        !pressing(fill_input(s, local, id), bit),
        fill_input(s, local, id).look_yaw == 0,
{
    lemma_hold(stream_for(s, id).held, bit);
}

/// Whatever a piloting player's client sent, at most RESTART of its foot input goes in.
pub proof fn lemma_pilot_walks_nowhere(s: ServerState, local: TickMsg, id: PlayerId)
    requires
        seated(s.intents, id),
    ensures
        fill_input(s, local, id).move_strafe == 0,
        fill_input(s, local, id).move_forward == 0,
        fill_input(s, local, id).look_yaw == 0,
        !pressing(fill_input(s, local, id), buttons::ACTION),
{
    let base = if id == s.me {
        local.input
    } else {
        match lookup(s.streams, id) {
            Some(st) => crate::server::stream::fill_of(st),
            None => neutral(),
        }
    };
    lemma_pilot_mask(base);
}

/// The watermark that an assembled tick carries for a rostered remote player is its stream's
/// after that tick, if anything of it was ever consumed.
pub proof fn lemma_watermark_follows_consumption(s: ServerState, local: TickMsg, id: PlayerId)
    requires
        server_wf(s),
        roster_at(s.roster, s.sim.tick).contains(id),
        id != s.me,
    ensures
        lookup(assembled(s, local).pending->0.input_next, id) == (if seated(s.streams, id)
            && consumed(stream_for(s, id)).input_next > 0 {
            Some(consumed(stream_for(s, id)).input_next)
        } else {
            None
        }),
{
    crate::roster::lemma_roster_at_ascending(s.roster, s.sim.tick);
    lemma_fill_marks_lookup(
        tick_opened(s, local),
        local,
        roster_at(s.roster, s.sim.tick),
        id,
    );
}

/// A player without a stream, such as one that departed while a later change was pending, has
/// no watermark and gets no stream by being filled.
pub proof fn lemma_departed_is_not_resurrected(s: ServerState, local: TickMsg, id: PlayerId)
    requires
        server_wf(s),
        id != s.me,
        !seated(s.streams, id),
    ensures
        !seated(assembled(s, local).streams, id),
        !seated(assembled(s, local).pending->0.input_next, id),
{
    crate::roster::lemma_roster_at_ascending(s.roster, s.sim.tick);
    let ids = roster_at(s.roster, s.sim.tick);
    lemma_fill_marks_lookup(tick_opened(s, local), local, ids, id);
    let a = assembled(s, local);
    if seated(a.streams, id) {
        let i = seat_index(a.streams, id);
        assert(s.streams[i].0 == id);
    }
    if seated(a.pending->0.input_next, id) {
        assert(lookup(a.pending->0.input_next, id) is Some);
    }
}

/// Admission gives the lowest free seat, leaves every seat there is alone, and takes effect
/// at least the lead ahead and strictly after every change before it.
pub proof fn lemma_admission_renumbers_nobody(s: ServerState, pid: PlayerId)
    requires
        server_wf(s),
        is_lowest_free(current_roster(s), pid),
        s.roster.last().0 < u64::MAX,
        next_assemble(s) + crate::server::host::JOIN_LEAD <= u64::MAX,
    ensures
        forall|id: PlayerId| #[trigger]
            current_roster(with_admission(s, pid)).contains(id) <==> current_roster(s).contains(id)
                || id == pid,
        with_admission(s, pid).roster.last().0 >= next_assemble(s) + crate::server::host::JOIN_LEAD,
        with_admission(s, pid).roster.last().0 > s.roster.last().0,
{
    lemma_with_id(current_roster(s), pid);
}

/// From the tick a departure takes effect on, until the next change, the player is off the
/// roster; its stream and its intent are gone at once; nobody else is touched.
pub proof fn lemma_departure(s: ServerState, pid: PlayerId, tick: u64)
    requires
        server_wf(s),
        current_roster(s).contains(pid),
        s.roster.last().0 < u64::MAX,
        tick >= change_tick(s, next_assemble(s)),
    ensures
        !roster_at(with_departure(s, pid).roster, tick).contains(pid),
        forall|id: PlayerId| #[trigger]
            roster_at(with_departure(s, pid).roster, tick).contains(id) <==> current_roster(
                s,
            ).contains(id) && id != pid,
        !seated(with_departure(s, pid).streams, pid),
        !seated(with_departure(s, pid).intents, pid),
{
    let at = change_tick(s, next_assemble(s)) as u64;
    lemma_change_applies_from_its_tick(s.roster, at, minus(current_roster(s), pid), tick);
    lemma_minus(current_roster(s), pid);
    lemma_without(s.streams, pid);
    lemma_without(s.intents, pid);
}

/// A second report of the same departure is no news.
pub proof fn lemma_departure_is_idempotent(s: ServerState, pid: PlayerId)
    requires
        server_wf(s),
        s.roster.last().0 < u64::MAX,
    ensures
        with_departure(with_departure(s, pid), pid) == with_departure(s, pid),
{
    lemma_minus(current_roster(s), pid);
}

/// Every report of a window is of a rostered remote player, names a chronic count of a full
/// window at most, and comes no sooner after the player's last one than the cooldown.
pub proof fn lemma_reports_are_chronic_and_cooled(s: ServerState, local: TickMsg, k: int)
    requires
        server_wf(s),
        s.pending is None,
        s.reports.len() <= k < assembled(s, local).reports.len(),
    ensures
        ({
            let r = assembled(s, local).reports[k];
            &&& r.tick == s.sim.tick
            &&& r.tick % STARVATION_WINDOW == 0
            &&& r.window == STARVATION_WINDOW
            &&& STARVATION_REPORT_THRESHOLD <= r.starved <= STARVATION_WINDOW
            &&& r.pid != s.me
            &&& roster_at(s.roster, s.sim.tick).contains(r.pid)
            &&& lookup(s.starvation, r.pid) is Some
            &&& (lookup(s.starvation, r.pid)->0.last_report matches Some(t0) ==> r.tick - t0
                >= STARVATION_REPORT_COOLDOWN)
        }),
{
    let ids = roster_at(s.roster, s.sim.tick);
    let t = kept(s.starvation, ids);
    lemma_kept(s.starvation, ids);
    assert forall|i: int| 0 <= i < t.len() implies ((#[trigger] t[i]).1.last_report matches Some(
        t0,
    ) ==> t0 <= s.sim.tick) by {
        lemma_lookup_at(t, i);
        assert(ids.contains(t[i].0));
        assert(lookup(t, t[i].0) == lookup(s.starvation, t[i].0));
        let j = seat_index(s.starvation, t[i].0);
        assert(s.starvation[j].1 == t[i].1);
    }
    lemma_closed_window(t, s.reports, s.sim.tick);
    let r = assembled(s, local).reports[k];
    assert(r == closed_window(t, s.reports, s.sim.tick).1[k]);
    assert(lookup(t, r.pid) is Some);
    assert(seated(t, r.pid));
    assert(lookup(t, r.pid) == lookup(s.starvation, r.pid));
    let j = seat_index(s.starvation, r.pid);
    assert(s.starvation[j].1.starved_in_window <= window_fill(s.sim.tick));
    assert(s.starvation[j].0 == r.pid);
}

/// After a step without a restart, in the shipped world are exactly the players rostered at
/// its tick: joiners from their effective tick on, the departed no more.
pub proof fn lemma_world_follows_roster(
    s: ServerState,
    crabs: Seq<PoseView>,
    pilots: Seq<(PlayerId, PilotPose)>,
    id: PlayerId,
)
    requires
        server_wf(s),
        s.pending is Some,
        !restart_edge(synced(s), s.pending->0.inputs),
    ensures
        seated(snapshot_after(s, crabs, pilots).players, id) <==> roster_at(
            s.roster,
            s.sim.tick,
        ).contains(id),
{
    let m = synced(s);
    lemma_mirrored(s.sim, roster_at(s.roster, s.sim.tick));
    lemma_step_keeps_seats(
        m,
        s.pending->0.inputs,
        crate::server::host::step_poses(m, crabs),
        kept(pilots, seats(s.intents)),
        id,
    );
    assert(seated(m.players, id) <==> roster_at(s.roster, s.sim.tick).contains(id));
}

/// Spawning joiners and removing the departed keeps the crew.
pub proof fn lemma_mirror_keeps_the_crew(sim: RoundState, ids: Seq<PlayerId>)
    requires
        ascending(sim.players),
        crewed(sim),
        strictly_ascending(ids),
    ensures
        crewed(mirrored(sim, ids)),
        mirrored(sim, ids).roster == ids,
{
    lemma_joined_crew(sim, ids);
    let j = joined(sim, ids);
    lemma_left_crew(j, gone(j.players, ids));
    lemma_mirrored(sim, ids);
    let m = mirrored(sim, ids);
    let s = seats(m.players);
    assert forall|i: int, k: int| 0 <= i < k < s.len() implies (#[trigger] s[i]).0 < (
    #[trigger] s[k]).0 by {
        assert(m.players[i].0.0 < m.players[k].0.0);
    }
    assert forall|id: PlayerId| #[trigger] s.contains(id) <==> ids.contains(id) by {
        assert(seated(m.players, id) <==> ids.contains(id));
        if s.contains(id) {
            let i = choose|i: int| 0 <= i < s.len() && s[i] == id;
            assert(m.players[i].0 == id);
        }
        if seated(m.players, id) {
            let i = seat_index(m.players, id);
            assert(s[i] == id);
        }
    }
    lemma_ascending_unique(s, ids);
}

proof fn lemma_joined_crew(sim: RoundState, ids: Seq<PlayerId>)
    requires
        ascending(sim.players),
        crewed(sim),
    ensures
        ascending(joined(sim, ids).players),
        crewed(joined(sim, ids)),
    decreases ids.len(),
{
    if ids.len() > 0 {
        lemma_joined_crew(sim, ids.drop_last());
        lemma_joins_and_departures_keep_the_crew(joined(sim, ids.drop_last()), ids.last());
    }
    lemma_joined(sim, ids);
}

proof fn lemma_left_crew(sim: RoundState, list: Seq<PlayerId>)
    requires
        ascending(sim.players),
        crewed(sim),
    ensures
        ascending(left(sim, list).players),
        crewed(left(sim, list)),
    decreases list.len(),
{
    if list.len() > 0 {
        let l = left(sim, list.drop_last());
        lemma_left_crew(sim, list.drop_last());
        lemma_joins_and_departures_keep_the_crew(l, list.last());
        lemma_without(l.players, list.last());
    }
}

/// In the shipped world are exactly the players rostered at its tick, in seat order, and its
/// tick is the next, a restart included; and a server whose world was crewed stays so. Every
/// match opens crewed.
pub proof fn lemma_shipped_seats_are_the_roster(
    s: ServerState,
    crabs: Seq<PoseView>,
    pilots: Seq<(PlayerId, PilotPose)>,
)
    requires
        server_wf(s),
        s.pending is Some,
        crewed(s.sim),
    ensures
        seats(snapshot_after(s, crabs, pilots).players) == roster_at(s.roster, s.sim.tick),
        snapshot_after(s, crabs, pilots).roster == roster_at(s.roster, s.sim.tick),
        snapshot_after(s, crabs, pilots).tick == s.sim.tick + 1,
        crewed(world_after(s, crabs, pilots)),
{
    let ids = roster_at(s.roster, s.sim.tick);
    crate::roster::lemma_roster_at_ascending(s.roster, s.sim.tick);
    lemma_mirror_keeps_the_crew(s.sim, ids);
    lemma_mirrored(s.sim, ids);
    let m = synced(s);
    lemma_step_keeps_the_crew(
        m,
        s.pending->0.inputs,
        step_poses(m, crabs),
        kept(pilots, seats(s.intents)),
    );
}

/// The watermark that the shipped snapshot carries for a rostered host is the tick after the
/// one assembled.
pub proof fn lemma_host_watermark(
    s: ServerState,
    local: TickMsg,
    crabs: Seq<PoseView>,
    pilots: Seq<(PlayerId, PilotPose)>,
)
    requires
        server_wf(s),
        s.pending is None,
        local.issue_tick == s.sim.tick,
        roster_at(s.roster, s.sim.tick).contains(s.me),
    ensures
        lookup(snapshot_after(assembled(s, local), crabs, pilots).input_next, s.me) == Some(
            (s.sim.tick + 1) as u64,
        ),
{
    crate::roster::lemma_roster_at_ascending(s.roster, s.sim.tick);
    lemma_fill_marks_lookup(
        tick_opened(s, local),
        local,
        roster_at(s.roster, s.sim.tick),
        s.me,
    );
}

/// Craft poses of players who do not pilot have no effect on a step.
pub proof fn lemma_poses_need_an_intent(
    s: ServerState,
    crabs: Seq<PoseView>,
    pilots: Seq<(PlayerId, PilotPose)>,
)
    requires
        ascending(pilots),
    ensures
        world_after(s, crabs, pilots) == world_after(s, crabs, kept(pilots, seats(s.intents))),
{
    let ids = seats(s.intents);
    let k = kept(pilots, ids);
    lemma_kept(pilots, ids);
    lemma_kept(k, ids);
    assert forall|id: PlayerId| #[trigger] lookup(kept(k, ids), id) == lookup(k, id) by {
        assert(lookup(k, id) == (if ids.contains(id) {
            lookup(pilots, id)
        } else {
            None
        }));
    }
    lemma_entries_unique(kept(k, ids), k);
}

/// A player who pilots, and for whom no craft pose comes, is left by the step where it was and
/// facing as it did, and is not extracted by it, whatever its client sent; unless the round
/// restarts.
pub proof fn lemma_pilot_without_a_pose_stays(
    s: ServerState,
    local: TickMsg,
    crabs: Seq<PoseView>,
    pilots: Seq<(PlayerId, PilotPose)>,
    id: PlayerId,
)
    requires
        server_wf(s),
        s.pending is None,
        ascending(pilots),
        seated(assembled(s, local).intents, id),
        !seated(pilots, id),
        !restart_edge(synced(assembled(s, local)), assembled(s, local).pending->0.inputs),
    ensures
        ({
            let a = assembled(s, local);
            let before = lookup(synced(a).players, id);
            let after = lookup(world_after(a, crabs, pilots).players, id);
            &&& before is Some
            &&& after is Some
            &&& after->0.pos == before->0.pos
            &&& wrapped(after->0.yaw as int) == wrapped(before->0.yaw as int)
            &&& (0 <= before->0.yaw < TURN ==> after->0.yaw == before->0.yaw)
            &&& (after->0.status is Extracted ==> before->0.status is Extracted)
        }),
{
    let a = assembled(s, local);
    let o = tick_opened(s, local);
    let ids = roster_at(s.roster, s.sim.tick);
    let m = synced(a);
    let inputs = a.pending->0.inputs;
    let flown = kept(pilots, seats(a.intents));
    crate::roster::lemma_roster_at_ascending(s.roster, s.sim.tick);
    lemma_mirrored(s.sim, ids);
    assert(seated(o.intents, id));
    lemma_intents_are_rostered(s, local, id);
    assert(seated(m.players, id));
    let k = seat_index(m.players, id);
    lemma_lookup_at(m.players, k);
    assert forall|x: int, y: int| 0 <= x < y < inputs.len() implies (#[trigger] inputs[x]).0.0 < (
    #[trigger] inputs[y]).0.0 by {
        assert(ids[x].0 < ids[y].0);
    }
    let at = choose|i: int| 0 <= i < ids.len() && ids[i] == id;
    assert(inputs[at].0 == id);
    lemma_lookup_at(inputs, at);
    let i = fill_input(o, local, id);
    lemma_pilot_walks_nowhere(o, local, id);
    lemma_kept(pilots, seats(a.intents));
    assert(lookup(flown, id) is None);
    let poses = step_poses(m, crabs);
    let w = world_after(a, crabs, pilots);
    lemma_idle_player_stays(
        m.players[k].1,
        i,
        poses,
        m.tick + 1 > m.round_start + STARTUP_GRACE_TICKS,
        m.extraction.pos,
    );
    assert forall|x: int, y: int| 0 <= x < y < w.players.len() implies (
    #[trigger] w.players[x]).0.0 < (#[trigger] w.players[y]).0.0 by {
        assert(m.players[x].0.0 < m.players[y].0.0);
    }
    assert(w.players[k].0 == id);
    lemma_lookup_at(w.players, k);
}

/// Whoever pilots in an assembled tick is rostered.
proof fn lemma_intents_are_rostered(s: ServerState, local: TickMsg, id: PlayerId)
    requires
        server_wf(s),
        seated(tick_opened(s, local).intents, id),
    ensures
        roster_at(s.roster, s.sim.tick).contains(id),
{
    let f = filed(s.intents, s.sim, s.me, local.pilot);
    let ids = roster_at(s.roster, s.sim.tick);
    match local.pilot {
        Some(i) => {
            lemma_put(s.intents, s.me, i);
        },
        None => {
            lemma_without(s.intents, s.me);
        },
    }
    lemma_kept(f, ids);
    let k = seat_index(kept(f, ids), id);
    assert(ids.contains(kept(f, ids)[k].0));
}

/// What a server ships after a step is read back as the world it then holds, with the
/// watermarks of the tick assembled.
pub proof fn lemma_shipped_snapshot_reads_back(
    s: ServerState,
    crabs: Seq<PoseView>,
    pilots: Seq<(PlayerId, PilotPose)>,
)
    requires
        server_wf(s),
        s.pending is Some,
        round_wf(world_after(s, crabs, pilots)),
        round_fits(world_after(s, crabs, pilots)),
        1 <= world_after(s, crabs, pilots).crabs.len() <= u32::MAX,
    ensures
        snapshot_of(snapshot_bytes(snapshot_after(s, crabs, pilots))) == Ok::<
            SnapshotView,
            SnapshotDecodeError,
        >(snapshot_after(s, crabs, pilots)),
{
    let v = snapshot_after(s, crabs, pilots);
    lemma_seat_count(v.players);
    lemma_seat_count(v.input_next);
    lemma_snapshot_roundtrip(v);
}

/// A map has at most one entry per seat.
proof fn lemma_seat_count<V>(m: Seq<(PlayerId, V)>)
    requires
        ascending(m),
    ensures
        m.len() <= 256,
{
    let s = seats(m);
    assert forall|i: int, j: int| 0 <= i < j < s.len() implies (#[trigger] s[i]).0 < (
    #[trigger] s[j]).0 by {
        assert(m[i].0.0 < m[j].0.0);
    }
    crate::roster::lemma_ascending_len(s);
}

/// The lowest free seat is free, and below no other that is.
pub proof fn lemma_lowest_seat_is_lowest(ids: Seq<PlayerId>, id: PlayerId, other: PlayerId)
    requires
        is_lowest_free(ids, id),
        !ids.contains(other),
    ensures
        !ids.contains(id),
        id.0 <= other.0,
{
    if other.0 < id.0 {
        assert(ids.contains(PlayerId(other.0)));
    }
}

} // verus!
