//! The host's tick loop: assemble, step, ship; admit and drop players on the way.

use crate::client::{PeerMsg, PilotIntent, TickMsg};
use crate::player_map::{
    ascending, contains_id, kept, lemma_kept, lemma_lookup_at, lemma_put, lemma_without, lookup,
    put, seat_index, seated, seats, strictly_ascending, without, PlayerId, PlayerMap,
};
use crate::roster::{
    in_order, lemma_change_applies_from_its_tick, lemma_in_order, lemma_roster_at_ascending,
    lemma_with_id, roster_at, well_scheduled, with_id, RosterSchedule,
};
use crate::server::admission::Admission;
use crate::server::starvation::{
    close_window, closed_window, count_starved, counted, lemma_closed_window, lemma_counted,
    lemma_only_reports_start_cooldowns, newly_reported, tallies_ok, window_fill, StarvationReport,
    StarvationTally, STARVATION_REPORT_CAP, STARVATION_WINDOW,
};
use crate::server::stream::{
    consumed, fill_of, fresh_stream, is_starved, lemma_consumed_wf, lemma_recorded_wf,
    lemma_states_lookup, lemma_states_put, lemma_states_without, next_fresh, recorded,
    stream_states, stream_wf, InputStream, StreamState,
};
use crate::sim::entities::{
    crab_poses_in_world, pos_in_world, pose_views, Crab, CrabPose, Externals,
    PilotPose, Player, PoseView,
};
use crate::sim::input::{masked, neutral, Input};
use crate::sim::round::{
    adopting, inputs_complete, lemma_minus, lemma_without_player, minus, players_within, restart_edge, round_fits, round_in_world,
    round_wf, snapshot_view, stepped, with_joiner, without_player, RoundState, Sim,
};
use crate::sim::spawn::{stream_settles, SETTLING_PARTY};
use crate::sim::world::{REACH, STRIDE};
use crate::snapshot::{snapshot_bytes, CoreSnapshot, SnapshotView};
use vstd::prelude::*;

verus! {

/// Ticks between admitting a joiner and its seat taking effect: headroom for the welcome to
/// reach it, and strictly ahead of the tick being assembled.
pub const JOIN_LEAD: u64 = 3;

/// One assembled, not yet stepped tick.
pub struct PendingState {
    pub tick: u64,
    pub inputs: Seq<(PlayerId, Input)>,
    /// Per player, the first issue tick not consumed into this tick; players of whom nothing
    /// was consumed yet have none.
    pub input_next: Seq<(PlayerId, u64)>,
}

/// What a server holds.
pub struct ServerState {
    /// The host's own seat: its input paces the match and never streams.
    pub me: PlayerId,
    pub roster: Seq<(u64, Seq<PlayerId>)>,
    pub streams: Seq<(PlayerId, StreamState)>,
    /// Who pilots, and how.
    pub intents: Seq<(PlayerId, PilotIntent)>,
    pub sim: RoundState,
    pub starvation: Seq<(PlayerId, StarvationTally)>,
    pub reports: Seq<StarvationReport>,
    pub pending: Option<PendingState>,
}

/// The tick that comes up for assembly.
pub open spec fn next_assemble(s: ServerState) -> int {
    s.sim.tick + (if s.pending is Some {
        1int
    } else {
        0int
    })
}

/// The latest roster.
pub open spec fn current_roster(s: ServerState) -> Seq<PlayerId> {
    s.roster.last().1
}

/// Everything in order: streams belong to rostered remote players, counts are within the
/// window, the host is neither counted nor reported, and an assembled tick covers exactly its
/// roster.
pub open spec fn server_wf(s: ServerState) -> bool {
    &&& well_scheduled(s.roster)
    &&& ascending(s.streams)
    &&& forall|i: int|
        0 <= i < s.streams.len() ==> stream_wf((#[trigger] s.streams[i]).1) && s.streams[i].0 != s.me
            && current_roster(s).contains(s.streams[i].0)
    &&& ascending(s.intents)
    &&& round_wf(s.sim)
    &&& round_fits(s.sim)
    &&& tallies_ok(
        s.starvation,
        window_fill(next_assemble(s) as u64),
        next_assemble(s) as u64,
    )
    &&& !seated(s.starvation, s.me)
    &&& s.reports.len() <= STARVATION_REPORT_CAP
    &&& forall|k: int| 0 <= k < s.reports.len() ==> (#[trigger] s.reports[k]).pid != s.me
    &&& (s.pending matches Some(p) ==> {
        &&& p.tick == s.sim.tick < u64::MAX
        &&& ascending(p.inputs)
        &&& ascending(p.input_next)
        &&& seats(p.inputs) == roster_at(s.roster, s.sim.tick)
    })
}

/// The intents after `pid` said how it moves: on foot clears its intent; boarding takes a
/// status that may board, unless it is in a craft already.
pub open spec fn filed(
    intents: Seq<(PlayerId, PilotIntent)>,
    sim: RoundState,
    pid: PlayerId,
    pilot: Option<PilotIntent>,
) -> Seq<(PlayerId, PilotIntent)> {
    match pilot {
        Some(intent) => if seated(intents, pid) || (lookup(sim.players, pid) matches Some(p) && (
        p.status is Alive || p.status is Downed)) {
            put(intents, pid, intent)
        } else {
            intents
        },
        None => without(intents, pid),
    }
}

/// The stream of seat `id`, fresh if it has none.
pub open spec fn stream_for(s: ServerState, id: PlayerId) -> StreamState {
    match lookup(s.streams, id) {
        Some(st) => st,
        None => fresh_stream(),
    }
}

/// The state after a remote delivery: dropped if it is the host's or a stranger's; else
/// recorded, and if it was news, its intent filed.
pub open spec fn remote_recorded(s: ServerState, from: PlayerId, msg: TickMsg) -> ServerState {
    if from == s.me || !current_roster(s).contains(from) {
        s
    } else {
        let st = stream_for(s, from);
        ServerState {
            streams: put(s.streams, from, recorded(st, msg)),
            intents: if msg.issue_tick >= next_fresh(st) {
                filed(s.intents, s.sim, from, msg.pilot)
            } else {
                s.intents
            },
            ..s
        }
    }
}

/// The state after several deliveries, in order.
pub open spec fn all_recorded(s: ServerState, early: Seq<PeerMsg>) -> ServerState
    decreases early.len(),
{
    if early.len() == 0 {
        s
    } else {
        let e = early.last();
        remote_recorded(all_recorded(s, early.drop_last()), e.pid, e.msg)
    }
}

/// Seat `id`'s input for the tick: the host's own, the stream's next or its hold, or neutral
/// where nothing ever came; masked while it pilots.
pub open spec fn fill_input(s: ServerState, local: TickMsg, id: PlayerId) -> Input {
    let base = if id == s.me {
        local.input
    } else {
        match lookup(s.streams, id) {
            Some(st) => fill_of(st),
            None => neutral(),
        }
    };
    if seated(s.intents, id) {
        masked(base)
    } else {
        base
    }
}

/// Seat `id`'s watermark after the tick, if anything of it was ever consumed.
pub open spec fn fill_mark(s: ServerState, local: TickMsg, id: PlayerId) -> Option<u64> {
    if id == s.me {
        Some((local.issue_tick + 1) as u64)
    } else {
        match lookup(s.streams, id) {
            Some(st) => if consumed(st).input_next > 0 {
                Some(consumed(st).input_next)
            } else {
                None
            },
            None => None,
        }
    }
}

/// Seat `id` contributes nothing of its own to the tick.
pub open spec fn fill_starved(s: ServerState, id: PlayerId) -> bool {
    id != s.me && (match lookup(s.streams, id) {
        Some(st) => is_starved(st),
        None => true,
    })
}

/// The inputs of a tick, one per rostered seat.
pub open spec fn fill_inputs(s: ServerState, local: TickMsg, ids: Seq<PlayerId>) -> Seq<
    (PlayerId, Input),
> {
    Seq::new(ids.len(), |i: int| (ids[i], fill_input(s, local, ids[i])))
}

/// The watermarks of a tick.
pub open spec fn fill_marks(s: ServerState, local: TickMsg, ids: Seq<PlayerId>) -> Seq<
    (PlayerId, u64),
>
    decreases ids.len(),
{
    if ids.len() == 0 {
        Seq::empty()
    } else {
        match fill_mark(s, local, ids.last()) {
            Some(n) => fill_marks(s, local, ids.drop_last()).push((ids.last(), n)),
            None => fill_marks(s, local, ids.drop_last()),
        }
    }
}

/// The tallies after the starved seats of a tick are counted.
pub open spec fn fill_tallies(
    s: ServerState,
    t: Seq<(PlayerId, StarvationTally)>,
    ids: Seq<PlayerId>,
) -> Seq<(PlayerId, StarvationTally)>
    decreases ids.len(),
{
    if ids.len() == 0 {
        t
    } else if fill_starved(s, ids.last()) {
        counted(fill_tallies(s, t, ids.drop_last()), ids.last())
    } else {
        fill_tallies(s, t, ids.drop_last())
    }
}

/// The streams after the rostered ones filled a tick.
pub open spec fn fill_streams(s: ServerState, ids: Seq<PlayerId>) -> Seq<(PlayerId, StreamState)> {
    Seq::new(
        s.streams.len(),
        |i: int|
            (
                s.streams[i].0,
                if ids.contains(s.streams[i].0) {
                    consumed(s.streams[i].1)
                } else {
                    s.streams[i].1
                },
            ),
    )
}

/// The state on the way to an assembled tick: the host's intent filed, the intents of whoever
/// is not rostered dropped, and a window that ends here closed.
pub open spec fn tick_opened(s: ServerState, local: TickMsg) -> ServerState {
    let tick = s.sim.tick;
    let ids = roster_at(s.roster, tick);
    let intents = kept(filed(s.intents, s.sim, s.me, local.pilot), ids);
    if tick % STARVATION_WINDOW == 0 {
        let (t, r) = closed_window(kept(s.starvation, ids), s.reports, tick);
        ServerState { intents, starvation: t, reports: r, ..s }
    } else {
        ServerState { intents, ..s }
    }
}

/// The state with its next tick assembled.
pub open spec fn assembled(s: ServerState, local: TickMsg) -> ServerState {
    let o = tick_opened(s, local);
    let ids = roster_at(s.roster, s.sim.tick);
    ServerState {
        streams: fill_streams(o, ids),
        starvation: fill_tallies(o, o.starvation, ids),
        pending: Some(
            PendingState {
                tick: s.sim.tick,
                inputs: fill_inputs(o, local, ids),
                input_next: fill_marks(o, local, ids),
            },
        ),
        ..o
    }
}

/// The world with everybody of `ids` spawned.
pub open spec fn joined(sim: RoundState, ids: Seq<PlayerId>) -> RoundState
    decreases ids.len(),
{
    if ids.len() == 0 {
        sim
    } else {
        with_joiner(joined(sim, ids.drop_last()), ids.last())
    }
}

/// Whoever is in the world and not in `ids`.
pub open spec fn gone(players: Seq<(PlayerId, Player)>, ids: Seq<PlayerId>) -> Seq<PlayerId>
    decreases players.len(),
{
    if players.len() == 0 {
        Seq::empty()
    } else if ids.contains(players.last().0) {
        gone(players.drop_last(), ids)
    } else {
        gone(players.drop_last(), ids).push(players.last().0)
    }
}

/// The world without everybody of `list`.
pub open spec fn left(sim: RoundState, list: Seq<PlayerId>) -> RoundState
    decreases list.len(),
{
    if list.len() == 0 {
        sim
    } else {
        without_player(left(sim, list.drop_last()), list.last())
    }
}

/// The world brought in line with a roster: joiners spawned, the departed gone.
pub open spec fn mirrored(sim: RoundState, ids: Seq<PlayerId>) -> RoundState {
    let j = joined(sim, ids);
    left(j, gone(j.players, ids))
}

/// The crabs where they stand, without claws.
pub open spec fn standing(crabs: Seq<Crab>) -> Seq<PoseView> {
    Seq::new(
        crabs.len(),
        |i: int| PoseView { pos: crabs[i].pos, yaw: crabs[i].yaw, claws: Seq::empty() },
    )
}

/// The poses a step runs with: those fed, or everybody standing where none are.
pub open spec fn step_poses(sim: RoundState, crabs: Seq<PoseView>) -> Seq<PoseView> {
    if crabs.len() == 0 {
        standing(sim.crabs)
    } else {
        crabs
    }
}

/// The world in line with the roster of its tick.
pub open spec fn synced(s: ServerState) -> RoundState {
    mirrored(s.sim, roster_at(s.roster, s.sim.tick))
}

/// The world after the assembled tick.
pub open spec fn world_after(
    s: ServerState,
    crabs: Seq<PoseView>,
    pilots: Seq<(PlayerId, PilotPose)>,
) -> RoundState {
    let m = synced(s);
    stepped(m, s.pending->0.inputs, step_poses(m, crabs), kept(pilots, seats(s.intents)))
}

/// The snapshot that ships with it.
pub open spec fn snapshot_after(
    s: ServerState,
    crabs: Seq<PoseView>,
    pilots: Seq<(PlayerId, PilotPose)>,
) -> SnapshotView {
    SnapshotView {
        input_next: s.pending->0.input_next,
        ..snapshot_view(world_after(s, crabs, pilots))
    }
}

/// If the assembled tick restarts the round, its next layout settles.
pub open spec fn restart_settles(s: ServerState) -> bool {
    let m = synced(s);
    restart_edge(m, s.pending->0.inputs) ==> stream_settles(m.rng, m.roster, m.crab_count)
}

/// The host after a tick that could not be stepped: where only its restart's layout is to
/// blame, the world has been brought in line with its roster.
pub open spec fn not_stepped(s: ServerState, crabs: nat) -> ServerState {
    if s.pending is Some && (crabs == 0 || crabs == s.sim.crabs.len()) {
        ServerState { sim: synced(s), ..s }
    } else {
        s
    }
}

/// The lowest seat nobody has.
pub open spec fn is_lowest_free(ids: Seq<PlayerId>, id: PlayerId) -> bool {
    &&& !ids.contains(id)
    &&& forall|k: u8| k < id.0 ==> #[trigger] ids.contains(PlayerId(k))
}

/// When a change that may land no earlier than `floor` takes effect.
pub open spec fn change_tick(s: ServerState, floor: int) -> int {
    if floor > s.roster.last().0 {
        floor
    } else {
        s.roster.last().0 + 1
    }
}

/// The state with seat `pid` admitted.
pub open spec fn with_admission(s: ServerState, pid: PlayerId) -> ServerState {
    let at = change_tick(s, next_assemble(s) + JOIN_LEAD) as u64;
    ServerState { roster: s.roster.push((at, with_id(current_roster(s), pid))), ..s }
}

/// The state with seat `pid` departed: off the roster as soon as a change can land, its
/// stream and its intent gone at once.
pub open spec fn with_departure(s: ServerState, pid: PlayerId) -> ServerState {
    if !current_roster(s).contains(pid) {
        s
    } else {
        let at = change_tick(s, next_assemble(s)) as u64;
        ServerState {
            roster: s.roster.push((at, minus(current_roster(s), pid))),
            streams: without(s.streams, pid),
            intents: without(s.intents, pid),
            ..s
        }
    }
}

#[derive(Debug, Clone)]
struct PendingTick {
    tick: u64,
    inputs: PlayerMap<Input>,
    input_next: PlayerMap<u64>,
}

impl PendingTick {
    spec fn state(&self) -> PendingState {
        PendingState { tick: self.tick, inputs: self.inputs@, input_next: self.input_next@ }
    }
}

/// A step's product: the snapshot to ship, and whether the round restarted.
#[derive(Debug, Clone, PartialEq, Eq)]
pub struct SteppedTick {
    pub snapshot: Vec<u8>,
    pub restarted: bool,
}

/// The authoritative match server.
#[derive(Debug, Clone)]
pub struct Server {
    me: PlayerId,
    roster: RosterSchedule,
    streams: PlayerMap<InputStream>,
    pilot_intents: PlayerMap<PilotIntent>,
    sim: Sim,
    starvation: PlayerMap<StarvationTally>,
    starvation_reports: Vec<StarvationReport>,
    pending: Option<PendingTick>,
}

impl View for Server {
    type V = ServerState;

    closed spec fn view(&self) -> ServerState {
        ServerState {
            me: self.me,
            roster: self.roster@,
            streams: stream_states(self.streams@),
            intents: self.pilot_intents@,
            sim: self.sim@,
            starvation: self.starvation@,
            reports: self.starvation_reports@,
            pending: match self.pending {
                Some(p) => Some(p.state()),
                None => None,
            },
        }
    }
}

fn copy_ids(ids: &[PlayerId]) -> (v: Vec<PlayerId>)
    ensures
        v@ == ids@,
{
    let mut v: Vec<PlayerId> = Vec::new();
    let mut i: usize = 0;
    while i < ids.len()
        invariant
            i <= ids@.len(),
            v@ == ids@.take(i as int),
        decreases ids@.len() - i,
    {
        v.push(ids[i]);
        i = i + 1;
        assert(v@ =~= ids@.take(i as int));
    }
    assert(v@ =~= ids@);
    v
}

/// The seats of a map, ascending.
fn seats_of<V>(m: &PlayerMap<V>) -> (v: Vec<PlayerId>)
    ensures
        v@ == seats(m@),
{
    let mut v: Vec<PlayerId> = Vec::new();
    let mut i: usize = 0;
    while i < m.len()
        invariant
            i <= m@.len(),
            v@ == seats(m@).take(i as int),
        decreases m@.len() - i,
    {
        v.push(m.key_at(i));
        i = i + 1;
        assert(v@ =~= seats(m@).take(i as int));
    }
    assert(v@ =~= seats(m@));
    v
}

/// Counting the starved of a tick: nobody is counted but rostered remote players, and no
/// cooldown moves.
pub proof fn lemma_fill_tallies(
    s: ServerState,
    t: Seq<(PlayerId, StarvationTally)>,
    ids: Seq<PlayerId>,
)
    requires
        ascending(t),
    ensures
        ascending(fill_tallies(s, t, ids)),
        forall|k: PlayerId| #[trigger]
            seated(t, k) ==> seated(fill_tallies(s, t, ids), k) && lookup(
                fill_tallies(s, t, ids),
                k,
            )->0.last_report == lookup(t, k)->0.last_report,
        forall|k: PlayerId|
            !seated(t, k) && #[trigger] seated(fill_tallies(s, t, ids), k) ==> k != s.me
                && ids.contains(k) && lookup(fill_tallies(s, t, ids), k)->0.last_report is None,
    decreases ids.len(),
{
    if ids.len() > 0 {
        let d = ids.drop_last();
        let id = ids.last();
        lemma_fill_tallies(s, t, d);
        let td = fill_tallies(s, t, d);
        assert(ids[ids.len() - 1] == id);
        assert forall|k: PlayerId| d.contains(k) implies ids.contains(k) by {
            let i = choose|i: int| 0 <= i < d.len() && d[i] == k;
            assert(ids[i] == k);
        }
        if fill_starved(s, id) {
            let tally = match lookup(td, id) {
                Some(v) => v,
                None => StarvationTally { starved_in_window: 0, last_report: None },
            };
            let v = StarvationTally {
                starved_in_window: (tally.starved_in_window + 1) as u64,
                ..tally
            };
            lemma_put(td, id, v);
            assert(fill_tallies(s, t, ids) == put(td, id, v));
            assert forall|k: PlayerId| #[trigger] seated(t, k) implies seated(
                put(td, id, v),
                k,
            ) && lookup(put(td, id, v), k)->0.last_report == lookup(t, k)->0.last_report by {
                assert(seated(td, k));
                if k != id {
                    assert(lookup(put(td, id, v), k) == lookup(td, k));
                }
            }
            assert forall|k: PlayerId|
                !seated(t, k) && #[trigger] seated(put(td, id, v), k) implies k != s.me
                && ids.contains(k) && lookup(put(td, id, v), k)->0.last_report is None by {
                if k != id {
                    assert(lookup(put(td, id, v), k) == lookup(td, k));
                    assert(seated(td, k));
                } else if seated(td, k) {
                    assert(lookup(td, k)->0.last_report is None);
                }
            }
        }
    }
}

/// The tallies and reports of an assembled tick: who was counted stays so with its cooldown
/// unless it is reported or off the roster; who comes in is a rostered remote player; and
/// every report names one that was counted and is rostered.
pub proof fn lemma_assembled_tallies(s: ServerState, local: TickMsg, pid: PlayerId)
    requires
        server_wf(s),
        s.pending is None,
    ensures
        ({
            let a = assembled(s, local);
            let ids = roster_at(s.roster, s.sim.tick);
            let reported = newly_reported(s.reports, a.reports, pid);
            &&& ascending(a.starvation)
            &&& reported ==> {
                &&& ids.contains(pid)
                &&& seated(s.starvation, pid)
                &&& seated(a.starvation, pid)
                &&& lookup(a.starvation, pid)->0.last_report == Some(s.sim.tick)
            }
            &&& !reported && seated(s.starvation, pid) && ids.contains(pid) ==> {
                &&& seated(a.starvation, pid)
                &&& lookup(a.starvation, pid)->0.last_report == lookup(
                    s.starvation,
                    pid,
                )->0.last_report
            }
            &&& !seated(s.starvation, pid) && seated(a.starvation, pid) ==> pid != s.me
                && ids.contains(pid)
            &&& s.reports.len() <= a.reports.len()
            &&& a.reports.take(s.reports.len() as int) == s.reports
        }),
{
    let a = assembled(s, local);
    let o = tick_opened(s, local);
    let ids = roster_at(s.roster, s.sim.tick);
    let tick = s.sim.tick;
    if tick % STARVATION_WINDOW == 0 {
        let t = kept(s.starvation, ids);
        lemma_kept(s.starvation, ids);
        assert forall|i: int| 0 <= i < t.len() implies ((#[trigger] t[i]).1.last_report matches Some(
            t0,
        ) ==> t0 <= tick) by {
            lemma_lookup_at(t, i);
            assert(ids.contains(t[i].0));
            assert(lookup(t, t[i].0) == lookup(s.starvation, t[i].0));
            let j = seat_index(s.starvation, t[i].0);
            assert(s.starvation[j].1 == t[i].1);
        }
        lemma_closed_window(t, s.reports, tick);
        lemma_only_reports_start_cooldowns(t, s.reports, tick);
        let (ct, cr) = closed_window(t, s.reports, tick);
        assert(o.starvation == ct && o.reports == cr);
        if seated(t, pid) {
            let i = seat_index(t, pid);
            lemma_lookup_at(t, i);
            assert(ct[i].0 == pid);
            lemma_lookup_at(ct, i);
        }
        if seated(ct, pid) {
            let i = seat_index(ct, pid);
            assert(t[i].0 == pid);
            lemma_lookup_at(t, i);
        }
        if newly_reported(s.reports, cr, pid) {
            let k = choose|k: int| s.reports.len() <= k < cr.len() && (#[trigger] cr[k]).pid == pid;
            assert(lookup(t, cr[k].pid) is Some);
        }
        assert(lookup(t, pid) == (if ids.contains(pid) {
            lookup(s.starvation, pid)
        } else {
            None
        }));
    } else {
        assert(a.reports.take(s.reports.len() as int) =~= s.reports);
    }
    lemma_fill_tallies(o, o.starvation, ids);
}


/// The streams map is in order, seat for seat with its states.
proof fn lemma_streams_ascending(s: Seq<(PlayerId, InputStream)>)
    ensures
        ascending(stream_states(s)) ==> ascending(s),
{
    let v = stream_states(s);
    if ascending(v) {
        assert forall|i: int, j: int| 0 <= i < j < s.len() implies (#[trigger] s[i]).0.0 < (
        #[trigger] s[j]).0.0 by {
            assert(v[i].0.0 < v[j].0.0);
        }
    }
}

/// A roster change that lands after the tick leaves that tick's roster alone.
proof fn lemma_roster_pushed(s: ServerState, at: u64, ids: Seq<PlayerId>)
    requires
        server_wf(s),
        strictly_ascending(ids),
        at > s.roster.last().0,
        at >= next_assemble(s),
    ensures
        well_scheduled(s.roster.push((at, ids))),
        s.pending is Some ==> roster_at(s.roster.push((at, ids)), s.sim.tick) == roster_at(
            s.roster,
            s.sim.tick,
        ),
{
    let p = s.roster.push((at, ids));
    lemma_change_applies_from_its_tick(s.roster, at, ids, s.sim.tick);
    assert forall|i: int, j: int| 0 <= i < j < p.len() implies (#[trigger] p[i]).0 < (
    #[trigger] p[j]).0 by {
        if j == s.roster.len() && i < s.roster.len() - 1 {
            assert(s.roster[i].0 < s.roster[s.roster.len() - 1].0);
        } else if j < s.roster.len() {
            assert(s.roster[i].0 < s.roster[j].0);
        }
    }
    assert forall|i: int| 0 <= i < p.len() implies strictly_ascending((#[trigger] p[i]).1) by {
        if i < s.roster.len() {
            assert(strictly_ascending(s.roster[i].1));
        }
    }
}

/// An ascending list is its own ordering.
proof fn lemma_in_order_self(s: Seq<PlayerId>)
    requires
        strictly_ascending(s),
    ensures
        in_order(s) == s,
{
    assert(crate::roster::lists_in_order(s, s));
    lemma_in_order(s, s);
}

/// Adding a seat at the end orders as adding it in its place.
proof fn lemma_in_order_pushed(s: Seq<PlayerId>, id: PlayerId)
    requires
        strictly_ascending(s),
    ensures
        in_order(s.push(id)) == with_id(s, id),
{
    lemma_with_id(s, id);
    let r = with_id(s, id);
    let t = s.push(id);
    assert forall|k: PlayerId| #[trigger] r.contains(k) <==> t.contains(k) by {
        assert(r.contains(k) <==> s.contains(k) || k == id);
        if s.contains(k) {
            let i = choose|i: int| 0 <= i < s.len() && s[i] == k;
            assert(t[i] == k);
        }
        if k == id {
            assert(t[s.len() as int] == k);
        }
        if t.contains(k) && k != id {
            let i = choose|i: int| 0 <= i < t.len() && t[i] == k;
            assert(s[i] == k);
        }
    }
    assert(crate::roster::lists_in_order(r, t));
    lemma_in_order(t, r);
}

/// After the joiners are spawned, everybody there was there or is a joiner.
pub proof fn lemma_joined(sim: RoundState, ids: Seq<PlayerId>)
    requires
        ascending(sim.players),
    ensures
        forall|k: PlayerId|
            #[trigger] seated(joined(sim, ids).players, k) <==> seated(sim.players, k)
                || ids.contains(k),
        joined(sim, ids).tick == sim.tick,
        joined(sim, ids).crabs == sim.crabs,
        joined(sim, ids).crab_count == sim.crab_count,
        ascending(joined(sim, ids).players),
    decreases ids.len(),
{
    if ids.len() > 0 {
        let d = ids.drop_last();
        let id = ids.last();
        lemma_joined(sim, d);
        let j = joined(sim, d);
        let r = joined(sim, ids);
        if !seated(j.players, id) {
            lemma_put(j.players, id, lookup(r.players, id)->0);
            let v = choose|v: Player| #[trigger] put(j.players, id, v) == r.players;
            lemma_put(j.players, id, v);
        }
        assert forall|k: PlayerId|
            #[trigger] seated(r.players, k) <==> seated(sim.players, k) || ids.contains(k) by {
            assert(seated(j.players, k) <==> seated(sim.players, k) || d.contains(k));
            if d.contains(k) {
                let i = choose|i: int| 0 <= i < d.len() && d[i] == k;
                assert(ids[i] == k);
            }
            if ids.contains(k) && k != id {
                let i = choose|i: int| 0 <= i < ids.len() && ids[i] == k;
                assert(d[i] == k);
            }
            if k == id {
                assert(ids[ids.len() - 1] == k);
            }
            if !seated(j.players, id) && k != id {
                assert(lookup(r.players, k) == lookup(j.players, k));
            }
        }
    }
}

/// The list of the gone holds exactly those in the world who are not rostered.
proof fn lemma_gone(players: Seq<(PlayerId, Player)>, ids: Seq<PlayerId>)
    ensures
        forall|k: PlayerId|
            #[trigger] gone(players, ids).contains(k) <==> seated(players, k) && !ids.contains(k),
    decreases players.len(),
{
    let g = gone(players, ids);
    if players.len() > 0 {
        let d = players.drop_last();
        lemma_gone(d, ids);
        let gd = gone(d, ids);
        assert forall|k: PlayerId|
            #[trigger] g.contains(k) <==> seated(players, k) && !ids.contains(k) by {
            assert(gd.contains(k) <==> seated(d, k) && !ids.contains(k));
            if seated(d, k) {
                let i = seat_index(d, k);
                assert(players[i] == d[i]);
            }
            if seated(players, k) && k != players.last().0 {
                let i = seat_index(players, k);
                assert(d[i] == players[i]);
            }
            if k == players.last().0 {
                assert(players[players.len() - 1].0 == k);
                if !ids.contains(k) {
                    assert(g[g.len() - 1] == k);
                }
            }
            if gd.contains(k) && g.len() > gd.len() {
                let i = choose|i: int| 0 <= i < gd.len() && gd[i] == k;
                assert(g[i] == k);
            }
            if g.contains(k) {
                let i = choose|i: int| 0 <= i < g.len() && g[i] == k;
                if i < gd.len() {
                    assert(gd[i] == k);
                }
            }
        }
    }
}

/// Removing a list of players removes just them.
proof fn lemma_left(sim: RoundState, list: Seq<PlayerId>)
    requires
        ascending(sim.players),
    ensures
        ascending(left(sim, list).players),
        round_wf(sim) ==> round_wf(left(sim, list)),
        round_wf(sim) && round_fits(sim) ==> round_fits(left(sim, list)),
        round_wf(sim) && round_in_world(sim) ==> round_in_world(left(sim, list)),
        forall|k: PlayerId|
            #[trigger] seated(left(sim, list).players, k) <==> seated(sim.players, k)
                && !list.contains(k),
        left(sim, list).tick == sim.tick,
        left(sim, list).crabs == sim.crabs,
        left(sim, list).crab_count == sim.crab_count,
    decreases list.len(),
{
    if list.len() > 0 {
        let d = list.drop_last();
        let id = list.last();
        lemma_left(sim, d);
        let l = left(sim, d);
        let r = left(sim, list);
        if round_wf(sim) {
            lemma_without_player(l, id);
        }
        lemma_without(l.players, id);
        assert forall|k: PlayerId|
            #[trigger] seated(r.players, k) <==> seated(sim.players, k) && !list.contains(k) by {
            assert(seated(l.players, k) <==> seated(sim.players, k) && !d.contains(k));
            if d.contains(k) {
                let i = choose|i: int| 0 <= i < d.len() && d[i] == k;
                assert(list[i] == k);
            }
            if list.contains(k) && k != id {
                let i = choose|i: int| 0 <= i < list.len() && list[i] == k;
                assert(d[i] == k);
            }
            if k == id {
                assert(list[list.len() - 1] == k);
            } else {
                assert(lookup(r.players, k) == lookup(l.players, k));
            }
        }
    }
}

/// In a mirrored world are exactly the rostered players.
pub proof fn lemma_mirrored(sim: RoundState, ids: Seq<PlayerId>)
    requires
        ascending(sim.players),
    ensures
        forall|k: PlayerId| #[trigger] seated(mirrored(sim, ids).players, k) <==> ids.contains(k),
        ascending(mirrored(sim, ids).players),
        mirrored(sim, ids).tick == sim.tick,
        mirrored(sim, ids).crabs == sim.crabs,
        mirrored(sim, ids).crab_count == sim.crab_count,
{
    let j = joined(sim, ids);
    lemma_joined(sim, ids);
    lemma_gone(j.players, ids);
    lemma_left(j, gone(j.players, ids));
    assert forall|k: PlayerId| #[trigger] seated(mirrored(sim, ids).players, k) <==> ids.contains(
        k,
    ) by {
        assert(seated(j.players, k) <==> seated(sim.players, k) || ids.contains(k));
        assert(gone(j.players, ids).contains(k) <==> seated(j.players, k) && !ids.contains(k));
    }
}

impl Server {
    pub open spec fn wf(&self) -> bool {
        server_wf(self@)
    }

    /// What the fields hold when the view is well formed.
    proof fn lemma_fields(&self)
        requires
            self.wf(),
        ensures
            self.roster.wf(),
            self.streams.wf(),
            self.pilot_intents.wf(),
            self.sim.wf(),
            self.sim.fits(),
            self.starvation.wf(),
            self.pending matches Some(p) ==> p.inputs.wf() && p.input_next.wf(),
    {
        lemma_streams_ascending(self.streams@);
    }

    /// A server of `sim`'s round, hosted by `me`.
    pub fn new(me: PlayerId, roster: &[PlayerId], sim: Sim) -> (s: Self)
        requires
            roster@.contains(me),
            sim.wf(),
            sim.fits(),
        ensures
            s.wf(),
            s@ == (ServerState {
                me,
                roster: seq![(0u64, in_order(roster@))],
                streams: Seq::empty(),
                intents: Seq::empty(),
                sim: sim@,
                starvation: Seq::empty(),
                reports: Seq::empty(),
                pending: None,
            }),
    {
        let s = Server {
            me,
            roster: RosterSchedule::frozen(roster),
            streams: PlayerMap::new(),
            pilot_intents: PlayerMap::new(),
            sim,
            starvation: PlayerMap::new(),
            starvation_reports: Vec::new(),
            pending: None,
        };
        assert(s@.streams =~= Seq::empty());
        s
    }

    /// The world this server owns.
    pub fn sim(&self) -> (r: &Sim)
        ensures
            r@ == self@.sim,
    {
        &self.sim
    }

    /// Whether a tick is assembled and waits to be stepped.
    pub fn next_tick_ready(&self) -> (b: bool)
        ensures
            b == (self@.pending is Some),
    {
        self.pending.is_some()
    }

    /// The tick that comes up for assembly.
    fn next_assemble(&self) -> (t: u64)
        requires
            self.wf(),
        ensures
            t == next_assemble(self@),
    {
        if self.pending.is_some() {
            self.sim.tick() + 1
        } else {
            self.sim.tick()
        }
    }

    /// Take in how a player moves.
    pub fn file_intent(&mut self, pid: PlayerId, pilot: Option<PilotIntent>)
        requires
            old(self).wf(),
        ensures
            final(self)@ == (ServerState {
                intents: filed(old(self)@.intents, old(self)@.sim, pid, pilot),
                ..old(self)@
            }),
            final(self).wf(),
    {
        proof {
            self.lemma_fields();
        }
        match pilot {
            Some(intent) => {
                let may_board: bool = self.pilot_intents.contains_key(pid) || match self.sim.player(
                    pid,
                ) {
                    Some(p) => p.status.may_board(),
                    None => false,
                };
                if may_board {
                    self.pilot_intents.insert(pid, intent);
                }
            },
            None => {
                self.pilot_intents.remove(pid);
            },
        }
    }

    /// File one remote player's input. `from` is the authenticated sender. The host's own and
    /// a stranger's are dropped; a stale one changes nothing.
    pub fn record_remote(&mut self, from: PlayerId, msg: TickMsg)
        requires
            old(self).wf(),
            msg.issue_tick < u64::MAX,
        ensures
            final(self)@ == remote_recorded(old(self)@, from, msg),
            final(self).wf(),
    {
        proof {
            self.lemma_fields();
        }
        if from == self.me || !contains_id(self.roster.current(), from) {
            return;
        }
        let ghost start = self@;
        proof {
            lemma_states_lookup(self.streams@, from);
        }
        let mut stream = match self.streams.position(from) {
            Some(i) => self.streams.replace_at(i, InputStream::new()),
            None => InputStream::new(),
        };
        let ghost st = stream_for(start, from);
        proof {
            if seated(start.streams, from) {
                let i = seat_index(start.streams, from);
                assert(stream_wf(start.streams[i].1));
            }
            lemma_recorded_wf(st, msg);
        }
        let accepted: bool = stream.record(msg);
        let ghost rec = stream;
        proof {
            lemma_states_put(self.streams@, from, stream);
            lemma_put(self.streams@, from, stream);
            lemma_put(start.streams, from, rec@);
            crate::player_map::lemma_put_order(start.streams, from, rec@);
            if seated(start.streams, from) {
                lemma_put_over(start.streams, from, fresh_stream(), rec@);
                assert(stream_states(self.streams@) =~= put(start.streams, from, fresh_stream()));
            }
        }
        self.streams.insert(from, stream);
        proof {
            assert(stream_states(self.streams@) == put(start.streams, from, rec@));
            let after = stream_states(self.streams@);
            let at = crate::player_map::put_at(start.streams, from);
            assert forall|i: int| 0 <= i < after.len() implies stream_wf((#[trigger] after[i]).1)
                && after[i].0 != start.me && current_roster(start).contains(after[i].0) by {
                if i < at {
                    assert(after[i] == start.streams[i]);
                } else if i > at {
                    if after.len() == start.streams.len() {
                        assert(after[i] == start.streams[i]);
                    } else {
                        assert(after[i] == start.streams[i - 1]);
                    }
                }
            }
            assert(self@ == (ServerState { streams: after, ..start }));
        }
        if accepted {
            self.file_intent(from, msg.pilot);
        }
    }

    /// File inputs that came before this server served, in order.
    pub fn seed_early(&mut self, early: &[PeerMsg])
        requires
            old(self).wf(),
            forall|i: int| 0 <= i < early@.len() ==> (#[trigger] early@[i]).msg.issue_tick < u64::MAX,
        ensures
            final(self)@ == all_recorded(old(self)@, early@),
            final(self).wf(),
    {
        let ghost start = self@;
        let mut i: usize = 0;
        assert(early@.take(0) =~= Seq::<PeerMsg>::empty());
        while i < early.len()
            invariant
                i <= early@.len(),
                self.wf(),
                self@ == all_recorded(start, early@.take(i as int)),
                forall|k: int|
                    0 <= k < early@.len() ==> (#[trigger] early@[k]).msg.issue_tick < u64::MAX,
            decreases early@.len() - i,
        {
            proof {
                assert(early@.take(i + 1).drop_last() =~= early@.take(i as int));
                assert(early@.take(i + 1).last() == early@[i as int]);
            }
            self.record_remote(early[i].pid, early[i].msg);
            i = i + 1;
        }
        assert(early@.take(i as int) =~= early@);
    }

    /// Take the pending reports of chronic starvation.
    pub fn take_starvation_reports(&mut self) -> (v: Vec<StarvationReport>)
        requires
            old(self).wf(),
        ensures
            v@ == old(self)@.reports,
            final(self)@ == (ServerState { reports: Seq::empty(), ..old(self)@ }),
            final(self).wf(),
    {
        let mut v: Vec<StarvationReport> = Vec::new();
        std::mem::swap(&mut v, &mut self.starvation_reports);
        v
    }
}

/// Writing a seat twice leaves the second value.
proof fn lemma_put_over<V>(s: Seq<(PlayerId, V)>, id: PlayerId, a: V, b: V)
    requires
        ascending(s),
    ensures
        put(put(s, id, a), id, b) == put(s, id, b),
        seated(s, id) ==> put(s, id, a) == s.update(seat_index(s, id), (id, a)),
{
    crate::player_map::lemma_put_order(s, id, a);
    crate::player_map::lemma_put_order(s, id, b);
    let p = put(s, id, a);
    crate::player_map::lemma_put_order(p, id, b);
    crate::player_map::lemma_put(s, id, a);
    crate::player_map::lemma_put(s, id, b);
    crate::player_map::lemma_put(p, id, b);
    assert forall|k: PlayerId| #[trigger] lookup(put(p, id, b), k) == lookup(put(s, id, b), k) by {
        if k != id {
            assert(lookup(p, k) == lookup(s, k));
        }
    }
    crate::player_map::lemma_entries_unique(put(p, id, b), put(s, id, b));
    if seated(s, id) {
        lemma_lookup_at(s, crate::player_map::put_at(s, id));
    }
}

/// The watermarks ascend and belong to the seats filled.
proof fn lemma_fill_marks(s: ServerState, local: TickMsg, ids: Seq<PlayerId>)
    requires
        strictly_ascending(ids),
    ensures
        ascending(fill_marks(s, local, ids)),
        forall|i: int|
            0 <= i < fill_marks(s, local, ids).len() ==> ids.contains(
                (#[trigger] fill_marks(s, local, ids)[i]).0,
            ),
    decreases ids.len(),
{
    let m = fill_marks(s, local, ids);
    if ids.len() > 0 {
        let d = ids.drop_last();
        crate::roster::lemma_ascending_drop_last(ids);
        lemma_fill_marks(s, local, d);
        let md = fill_marks(s, local, d);
        assert forall|i: int| 0 <= i < md.len() implies (#[trigger] md[i]).0.0 < ids.last().0 by {
            assert(d.contains(md[i].0));
            let k = choose|k: int| 0 <= k < d.len() && d[k] == md[i].0;
            assert(ids[k].0 < ids[ids.len() - 1].0);
        }
        assert forall|i: int| 0 <= i < m.len() implies ids.contains((#[trigger] m[i]).0) by {
            if i < md.len() {
                assert(d.contains(md[i].0));
            } else {
                assert(ids[ids.len() - 1] == m[i].0);
            }
        }
    }
}

/// A seat's watermark, if it has one, is its last one in the list of marks.
pub proof fn lemma_fill_marks_lookup(s: ServerState, local: TickMsg, ids: Seq<PlayerId>, id: PlayerId)
    requires
        strictly_ascending(ids),
    ensures
        lookup(fill_marks(s, local, ids), id) == (if ids.contains(id) {
            fill_mark(s, local, id)
        } else {
            None
        }),
    decreases ids.len(),
{
    let m = fill_marks(s, local, ids);
    lemma_fill_marks(s, local, ids);
    if ids.len() > 0 {
        let d = ids.drop_last();
        crate::roster::lemma_ascending_drop_last(ids);
        lemma_fill_marks(s, local, d);
        lemma_fill_marks_lookup(s, local, d, id);
        let md = fill_marks(s, local, d);
        assert(d.contains(id) <==> ids.contains(id) && id != ids.last());
        if id == ids.last() {
            assert(ids[ids.len() - 1] == id);
            if fill_mark(s, local, id) is Some {
                lemma_lookup_at(m, m.len() - 1);
            }
        } else if fill_mark(s, local, ids.last()) is Some {
            if seated(md, id) {
                let i = seat_index(md, id);
                assert(m[i] == md[i]);
                lemma_lookup_at(m, i);
                lemma_lookup_at(md, i);
            }
            if seated(m, id) {
                let i = seat_index(m, id);
                assert(md[i] == m[i]);
            }
        }
    } else if seated(m, id) {
        assert(false);
    }
}

impl Server {
    /// Fill the tick's inputs from the streams of the rostered players.
    fn fill(&mut self, ids: &[PlayerId], local: TickMsg, base: Ghost<int>) -> (r: (
        PlayerMap<Input>,
        PlayerMap<u64>,
    ))
        requires
            old(self).streams.wf(),
            old(self).pilot_intents.wf(),
            old(self).starvation.wf(),
            strictly_ascending(ids@),
            local.issue_tick < u64::MAX,
            forall|i: int|
                0 <= i < old(self)@.streams.len() ==> stream_wf((#[trigger] old(self)@.streams[i]).1)
                    && old(self)@.streams[i].0 != old(self)@.me,
            0 <= base@ < 0x1_0000,
            tallies_ok(old(self)@.starvation, base@, old(self)@.sim.tick),
        ensures
            r.0.wf(),
            r.1.wf(),
            r.0@ == fill_inputs(old(self)@, local, ids@),
            r.1@ == fill_marks(old(self)@, local, ids@),
            final(self)@ == (ServerState {
                streams: fill_streams(old(self)@, ids@),
                starvation: fill_tallies(old(self)@, old(self)@.starvation, ids@),
                ..old(self)@
            }),
            tallies_ok(final(self)@.starvation, base@ + 1, old(self)@.sim.tick),
            final(self).streams.wf(),
            final(self).pending == old(self).pending,
    {
        let ghost o = self@;
        let mut inputs: PlayerMap<Input> = PlayerMap::new();
        let mut marks: PlayerMap<u64> = PlayerMap::new();
        let mut i: usize = 0;
        proof {
            assert(ids@.take(0) =~= Seq::<PlayerId>::empty());
            assert(inputs@ =~= fill_inputs(o, local, ids@.take(0)));
            assert(stream_states(self.streams@) =~= fill_streams(o, ids@.take(0)));
        }
        while i < ids.len()
            invariant
                i <= ids@.len(),
                strictly_ascending(ids@),
                local.issue_tick < u64::MAX,
                self@ == (ServerState {
                    streams: fill_streams(o, ids@.take(i as int)),
                    starvation: fill_tallies(o, o.starvation, ids@.take(i as int)),
                    ..o
                }),
                self.streams.wf(),
                self.pilot_intents.wf(),
                self.starvation.wf(),
                self.pending == old(self).pending,
                inputs.wf(),
                marks.wf(),
                inputs@ == fill_inputs(o, local, ids@.take(i as int)),
                marks@ == fill_marks(o, local, ids@.take(i as int)),
                0 <= base@ < 0x1_0000,
                tallies_ok(self.starvation@, base@ + 1, o.sim.tick),
                tallies_ok(o.starvation, base@, o.sim.tick),
                forall|k: int|
                    i <= k < ids@.len() ==> lookup(self.starvation@, #[trigger] ids@[k]) == lookup(
                        o.starvation,
                        ids@[k],
                    ),
                forall|k: int|
                    0 <= k < o.streams.len() ==> stream_wf((#[trigger] o.streams[k]).1)
                        && o.streams[k].0 != o.me,
                ascending(o.streams),
            decreases ids@.len() - i,
        {
            let pid = ids[i];
            let ghost done = ids@.take(i as int);
            let ghost next = ids@.take(i + 1);
            proof {
                assert(next.drop_last() =~= done);
                assert(next.last() == pid);
                assert(!done.contains(pid)) by {
                    if done.contains(pid) {
                        let k = choose|k: int| 0 <= k < done.len() && done[k] == pid;
                        assert(ids@[k].0 < ids@[i as int].0);
                    }
                }
                if inputs@.len() > 0 {
                    assert(inputs@.last().0 == ids@[i - 1]);
                    assert(ids@[i - 1].0 < ids@[i as int].0);
                }
                lemma_ascending_take(ids@, i as int);
                lemma_fill_marks(o, local, done);
                if marks@.len() > 0 {
                    assert(done.contains(marks@[marks@.len() - 1].0));
                    let k = choose|k: int| 0 <= k < done.len() && done[k] == marks@.last().0;
                    assert(ids@[k].0 < ids@[i as int].0);
                }
                lemma_fill_lookup(o, done, pid);
                lemma_fill_step(o, done, next, pid);
                lemma_states_lookup(self.streams@, pid);
            }
            let mut base_input = local.input;
            if pid == self.me {
                marks.insert(pid, local.issue_tick + 1);
                proof {
                    if seated(o.streams, pid) {
                        let k = seat_index(o.streams, pid);
                        assert(o.streams[k].0 != o.me);
                    }
                    assert(stream_states(self.streams@) =~= fill_streams(o, next));
                }
            } else {
                let starved: bool = match self.streams.position(pid) {
                    Some(k) => {
                        let ghost before = self.streams@;
                        let mut st = self.streams.replace_at(k, InputStream::new());
                        proof {
                            assert(fill_streams(o, done)[k as int] == (pid, st@));
                            assert(o.streams[k as int].1 == st@);
                        }
                        let (inp, starved) = st.consume();
                        base_input = inp;
                        if st.input_next() > 0 {
                            marks.insert(pid, st.input_next());
                        }
                        self.streams.replace_at(k, st);
                        proof {
                            assert(stream_states(self.streams@) =~= fill_streams(o, next));
                        }
                        starved
                    },
                    None => {
                        base_input = Input::default();
                        proof {
                            assert(stream_states(self.streams@) =~= fill_streams(o, next));
                        }
                        true
                    },
                };
                if starved {
                    proof {
                        assert(lookup(self.starvation@, ids@[i as int]) == lookup(
                            o.starvation,
                            ids@[i as int],
                        ));
                        if seated(o.starvation, pid) {
                            let k = seat_index(o.starvation, pid);
                            assert(o.starvation[k].1.starved_in_window <= base@);
                        }
                        lemma_counted(self.starvation@, pid, base@ + 1, o.sim.tick);
                    }
                    count_starved(&mut self.starvation, pid);
                }
            }
            let input = if self.pilot_intents.contains_key(pid) {
                base_input.pilot_masked()
            } else {
                base_input
            };
            inputs.insert(pid, input);
            proof {
                assert(input == fill_input(o, local, pid));
                assert(inputs@ =~= fill_inputs(o, local, next));
                assert(marks@ =~= fill_marks(o, local, next));
                assert forall|k: int| i + 1 <= k < ids@.len() implies lookup(
                    self.starvation@,
                    #[trigger] ids@[k],
                ) == lookup(o.starvation, ids@[k]) by {
                    assert(ids@[i as int].0 < ids@[k].0);
                }
            }
            i = i + 1;
        }
        assert(ids@.take(i as int) =~= ids@);
        (inputs, marks)
    }
}

proof fn lemma_ascending_take(s: Seq<PlayerId>, n: int)
    requires
        strictly_ascending(s),
        0 <= n <= s.len(),
    ensures
        strictly_ascending(s.take(n)),
{
    let t = s.take(n);
    assert forall|i: int, j: int| 0 <= i < j < t.len() implies (#[trigger] t[i]).0 < (
    #[trigger] t[j]).0 by {
        assert(s[i].0 < s[j].0);
    }
}

/// Before its turn, a seat's stream is as it was.
proof fn lemma_fill_lookup(o: ServerState, done: Seq<PlayerId>, pid: PlayerId)
    requires
        ascending(o.streams),
        !done.contains(pid),
    ensures
        seated(fill_streams(o, done), pid) == seated(o.streams, pid),
        seated(o.streams, pid) ==> seat_index(fill_streams(o, done), pid) == seat_index(
            o.streams,
            pid,
        ),
        lookup(fill_streams(o, done), pid) == lookup(o.streams, pid),
        ascending(fill_streams(o, done)),
{
    let f = fill_streams(o, done);
    assert forall|i: int, j: int| 0 <= i < j < f.len() implies (#[trigger] f[i]).0.0 < (
    #[trigger] f[j]).0.0 by {
        assert(o.streams[i].0.0 < o.streams[j].0.0);
    }
    if seated(o.streams, pid) {
        let i = seat_index(o.streams, pid);
        assert(f[i].0 == pid);
        lemma_lookup_at(f, i);
    }
    if seated(f, pid) {
        let i = seat_index(f, pid);
        assert(o.streams[i].0 == pid);
    }
}

/// A seat's turn changes its own stream only.
proof fn lemma_fill_step(o: ServerState, done: Seq<PlayerId>, next: Seq<PlayerId>, pid: PlayerId)
    requires
        ascending(o.streams),
        next.len() > 0,
        next.drop_last() == done,
        next.last() == pid,
    ensures
        forall|i: int|
            0 <= i < o.streams.len() && o.streams[i].0 != pid ==> #[trigger] fill_streams(
                o,
                next,
            )[i] == fill_streams(o, done)[i],
        forall|i: int|
            0 <= i < o.streams.len() && o.streams[i].0 == pid ==> #[trigger] fill_streams(
                o,
                next,
            )[i] == (pid, consumed(o.streams[i].1)),
        seated(o.streams, pid) ==> forall|i: int|
            0 <= i < o.streams.len() && (#[trigger] o.streams[i]).0 == pid ==> i == seat_index(
                o.streams,
                pid,
            ),
{
    assert forall|k: PlayerId| k != pid implies #[trigger] next.contains(k) == done.contains(k) by {
        if done.contains(k) {
            let i = choose|i: int| 0 <= i < done.len() && done[i] == k;
            assert(next[i] == k);
        }
        if next.contains(k) {
            let i = choose|i: int| 0 <= i < next.len() && next[i] == k;
            assert(done[i] == k);
        }
    }
    assert(next[next.len() - 1] == pid);
    assert(next.contains(pid));
    assert forall|i: int|
        0 <= i < o.streams.len() && o.streams[i].0 != pid implies #[trigger] fill_streams(o, next)[i]
        == fill_streams(o, done)[i] by {
        assert(next.contains(o.streams[i].0) == done.contains(o.streams[i].0));
    }
    assert forall|i: int| 0 <= i < o.streams.len() && (#[trigger] o.streams[i]).0 == pid implies i
        == seat_index(o.streams, pid) by {
        lemma_lookup_at(o.streams, i);
    }
}

impl Server {
    /// Assemble the next tick from the host's own input, now: every other rostered player
    /// contributes its stream's next input or a hold, and nothing waits.
    pub fn advance(&mut self, local: TickMsg)
        requires
            old(self).wf(),
            old(self)@.pending is None,
            local.issue_tick == old(self)@.sim.tick,
            local.issue_tick < u64::MAX,
        ensures
            final(self)@ == assembled(old(self)@, local),
            final(self).wf(),
    {
        let ghost start = self@;
        proof {
            self.lemma_fields();
            lemma_roster_at_ascending(start.roster, start.sim.tick);
        }
        let tick: u64 = self.sim.tick();
        self.file_intent(self.me, local.pilot);
        proof {
            self.lemma_fields();
        }
        let ids = copy_ids(self.roster.at(tick));
        self.pilot_intents.keep_only(ids.as_slice());
        let ghost base: int = if tick % STARVATION_WINDOW == 0 {
            0
        } else {
            window_fill(tick)
        };
        if tick % STARVATION_WINDOW == 0 {
            proof {
                lemma_kept(start.starvation, ids@);
                let k = kept(start.starvation, ids@);
                assert forall|i: int| 0 <= i < k.len() implies ((#[trigger] k[i]).1.last_report matches Some(
                    t0,
                ) ==> t0 <= tick) by {
                    lemma_lookup_at(k, i);
                    let id = k[i].0;
                    assert(ids@.contains(id));
                    assert(lookup(k, id) == lookup(start.starvation, id));
                    let j = seat_index(start.starvation, id);
                    assert(start.starvation[j].1 == k[i].1);
                }
                lemma_closed_window(k, start.reports, tick);
            }
            self.starvation.keep_only(ids.as_slice());
            close_window(&mut self.starvation, &mut self.starvation_reports, tick);
        }
        proof {
            assert(self@ == tick_opened(start, local));
        }
        let (inputs, input_next) = self.fill(ids.as_slice(), local, Ghost(base));
        let ghost o = tick_opened(start, local);
        self.pending = Some(PendingTick { tick, inputs, input_next });
        proof {
            assert(self@ == assembled(start, local));
            assert(seats(self@.pending->0.inputs) =~= ids@);
            assert(window_fill((tick + 1) as u64) == base + 1);
            lemma_assembled_tallies(start, local, start.me);
            assert forall|k: int| 0 <= k < self@.reports.len() implies (
            #[trigger] self@.reports[k]).pid != start.me by {
                if k < start.reports.len() {
                    assert(self@.reports.take(start.reports.len() as int)[k] == start.reports[k]);
                } else if self@.reports[k].pid == start.me {
                    assert(newly_reported(start.reports, self@.reports, start.me));
                }
            }
            let f = self@.streams;
            assert forall|i: int| 0 <= i < f.len() implies stream_wf((#[trigger] f[i]).1) && f[i].0
                != start.me && current_roster(start).contains(f[i].0) by {
                assert(stream_wf(start.streams[i].1));
                lemma_consumed_wf(start.streams[i].1);
            }
            assert forall|i: int, j: int| 0 <= i < j < f.len() implies (#[trigger] f[i]).0.0 < (
            #[trigger] f[j]).0.0 by {
                assert(start.streams[i].0.0 < start.streams[j].0.0);
            }
        }
    }

    /// Bring the world in line with the roster of its tick.
    fn mirror_roster(&mut self)
        requires
            old(self).wf(),
        ensures
            final(self)@ == (ServerState { sim: synced(old(self)@), ..old(self)@ }),
            final(self).wf(),
            forall|k: PlayerId|
                #[trigger] seated(final(self)@.sim.players, k) <==> roster_at(
                    old(self)@.roster,
                    old(self)@.sim.tick,
                ).contains(k),
            final(self)@.sim.tick == old(self)@.sim.tick,
            final(self)@.sim.crabs == old(self)@.sim.crabs,
            round_in_world(old(self)@.sim) ==> round_in_world(final(self)@.sim),
            final(self).pending == old(self).pending,
    {
        let ghost start = self@;
        proof {
            self.lemma_fields();
        }
        let tick: u64 = self.sim.tick();
        let ids = copy_ids(self.roster.at(tick));
        let mut i: usize = 0;
        assert(ids@.take(0) =~= Seq::<PlayerId>::empty());
        while i < ids.len()
            invariant
                i <= ids@.len(),
                self.sim.wf(),
                self.sim.fits(),
                round_in_world(start.sim) ==> self.sim.in_world(),
                self.sim@ == joined(start.sim, ids@.take(i as int)),
                self@ == (ServerState { sim: self.sim@, ..start }),
                self.pending == old(self).pending,
            decreases ids@.len() - i,
        {
            proof {
                assert(ids@.take(i + 1).drop_last() =~= ids@.take(i as int));
                assert(ids@.take(i + 1).last() == ids@[i as int]);
            }
            if !self.sim.has_player(ids[i]) {
                self.sim.spawn_joining_player(ids[i]);
            }
            i = i + 1;
        }
        assert(ids@.take(i as int) =~= ids@);
        let ghost j = joined(start.sim, ids@);
        proof {
            lemma_mirrored(start.sim, ids@);
        }
        let players = self.sim.players();
        let mut departed: Vec<PlayerId> = Vec::new();
        let mut k: usize = 0;
        assert(players@.take(0) =~= Seq::<(PlayerId, Player)>::empty());
        while k < players.len()
            invariant
                k <= players@.len(),
                departed@ == gone(players@.take(k as int), ids@),
            decreases players@.len() - k,
        {
            proof {
                assert(players@.take(k + 1).drop_last() =~= players@.take(k as int));
                assert(players@.take(k + 1).last() == players@[k as int]);
            }
            if !contains_id(ids.as_slice(), players[k].0) {
                departed.push(players[k].0);
            }
            k = k + 1;
        }
        assert(players@.take(k as int) =~= players@);
        let mut d: usize = 0;
        assert(departed@.take(0) =~= Seq::<PlayerId>::empty());
        while d < departed.len()
            invariant
                d <= departed@.len(),
                self.sim.wf(),
                self.sim.fits(),
                round_in_world(start.sim) ==> self.sim.in_world(),
                self.sim@ == left(j, departed@.take(d as int)),
                self@ == (ServerState { sim: self.sim@, ..start }),
                self.pending == old(self).pending,
            decreases departed@.len() - d,
        {
            proof {
                assert(departed@.take(d + 1).drop_last() =~= departed@.take(d as int));
                assert(departed@.take(d + 1).last() == departed@[d as int]);
            }
            self.sim.despawn_departed_player(departed[d]);
            d = d + 1;
        }
        assert(departed@.take(d as int) =~= departed@);
        assert(self@.sim == synced(start));
    }

    /// Every crab at its current pose, without claws.
    fn standing_poses(&self) -> (v: Vec<CrabPose>)
        ensures
            pose_views(v@) == standing(self@.sim.crabs),
            v@.len() == self@.sim.crabs.len(),
    {
        let mut v: Vec<CrabPose> = Vec::new();
        let crabs = self.sim.crabs();
        let mut i: usize = 0;
        while i < crabs.len()
            invariant
                i <= crabs@.len(),
                crabs@ == self.sim@.crabs,
                v@.len() == i,
                forall|k: int| 0 <= k < i ==> #[trigger] pose_views(v@)[k] == standing(crabs@)[k],
            decreases crabs@.len() - i,
        {
            let claws: Vec<crate::sim::entities::ClawPose> = Vec::new();
            assert(claws@ =~= Seq::empty());
            let ghost before = v@;
            v.push(CrabPose { pos: crabs[i].pos, yaw: crabs[i].yaw, claws });
            assert forall|k: int| 0 <= k < i + 1 implies #[trigger] pose_views(v@)[k] == standing(
                crabs@,
            )[k] by {
                if k < i {
                    assert(pose_views(before)[k] == standing(crabs@)[k]);
                    assert(v@[k] == before[k]);
                }
            }
            i = i + 1;
        }
        assert(pose_views(v@) =~= standing(crabs@));
        v
    }

    /// Step the assembled tick and ship its snapshot. Without crab poses the crabs stand;
    /// craft poses count only for players who filed an intent.
    pub fn step_next(&mut self, crabs: &[CrabPose], pilots: PlayerMap<PilotPose>) -> (r: SteppedTick)
        requires
            old(self).wf(),
            old(self)@.pending is Some,
            round_in_world(old(self)@.sim),
            crabs@.len() == 0 || crabs@.len() == old(self)@.sim.crabs.len(),
            crab_poses_in_world(pose_views(crabs@)),
            pilots.wf(),
            forall|i: int|
                0 <= i < pilots@.len() ==> pos_in_world((#[trigger] pilots@[i]).1.pos),
            restart_settles(old(self)@),
        ensures
            final(self)@ == (ServerState {
                sim: world_after(old(self)@, pose_views(crabs@), pilots@),
                pending: None,
                ..old(self)@
            }),
            r.snapshot@ == snapshot_bytes(
                snapshot_after(old(self)@, pose_views(crabs@), pilots@),
            ),
            r.restarted == restart_edge(synced(old(self)@), old(self)@.pending->0.inputs),
            final(self).wf(),
            r.restarted || players_within(synced(old(self)@).players, REACH - STRIDE)
                ==> round_in_world(final(self)@.sim),
    {
        let ghost start = self@;
        self.mirror_roster();
        proof {
            self.lemma_fields();
        }
        let pending = self.pending.take().unwrap();
        let ghost m = self.sim@;
        let mut pilots = pilots;
        let ghost fed = pilots@;
        let aboard = seats_of(&self.pilot_intents);
        pilots.keep_only(aboard.as_slice());
        proof {
            lemma_kept(fed, aboard@);
            let k = kept(fed, aboard@);
            assert forall|i: int| 0 <= i < k.len() implies pos_in_world(
                (#[trigger] k[i]).1.pos,
            ) by {
                lemma_lookup_at(k, i);
                assert(aboard@.contains(k[i].0));
                assert(lookup(k, k[i].0) == lookup(fed, k[i].0));
                let j = seat_index(fed, k[i].0);
                assert(fed[j].1 == k[i].1);
            }
            assert(inputs_complete(m, pending.inputs@)) by {
                assert forall|i: int| 0 <= i < m.players.len() implies seated(
                    pending.inputs@,
                    (#[trigger] m.players[i]).0,
                ) by {
                    let id = m.players[i].0;
                    assert(seated(m.players, id));
                    let ids = roster_at(start.roster, start.sim.tick);
                    assert(ids.contains(id));
                    let q = choose|q: int| 0 <= q < ids.len() && ids[q] == id;
                    assert(seats(pending.inputs@)[q] == id);
                    assert(pending.inputs@[q].0 == id);
                }
            }
        }
        let standing_crabs = self.standing_poses();
        let poses: &[CrabPose] = if crabs.len() == 0 {
            standing_crabs.as_slice()
        } else {
            crabs
        };
        proof {
            assert(pose_views(poses@) == step_poses(m, pose_views(crabs@)));
            assert(crab_poses_in_world(pose_views(poses@))) by {
                if crabs@.len() == 0 {
                    assert forall|i: int| 0 <= i < standing(m.crabs).len() implies pos_in_world(
                        (#[trigger] standing(m.crabs)[i]).pos,
                    ) by {
                        assert(pos_in_world(m.crabs[i].pos));
                    }
                }
            }
        }
        let restarted: bool = self.sim.step(
            &pending.inputs,
            Externals { crabs: poses, pilots: Some(&pilots) },
        );
        let mut snapshot = self.sim.core_snapshot();
        snapshot.input_next = pending.input_next;
        proof {
            assert(snapshot@ == snapshot_after(start, pose_views(crabs@), fed));
            assert(self@.sim.tick == start.sim.tick + 1);
        }
        SteppedTick { snapshot: snapshot.to_bytes(), restarted }
    }

    /// Step the assembled tick if there is one and it can be: crab poses are for every crab or
    /// for none, and a restart finds a layout that settles. Otherwise
    /// nothing is stepped; a world whose restart does not settle is still brought in line with
    /// its roster.
    pub fn try_step_next(&mut self, crabs: &[CrabPose], pilots: PlayerMap<PilotPose>) -> (r: Option<
        SteppedTick,
    >)
        requires
            old(self).wf(),
            round_in_world(old(self)@.sim),
            crab_poses_in_world(pose_views(crabs@)),
            pilots.wf(),
            forall|i: int|
                0 <= i < pilots@.len() ==> pos_in_world((#[trigger] pilots@[i]).1.pos),
        ensures
            r is Some <==> {
                &&& old(self)@.pending is Some
                &&& (crabs@.len() == 0 || crabs@.len() == old(self)@.sim.crabs.len())
                &&& restart_settles(old(self)@)
            },
            old(self)@.pending is Some && (crabs@.len() == 0 || crabs@.len() == old(self)@.sim.crabs.len())
                && synced(old(self)@).roster.len() <= SETTLING_PARTY ==> r is Some,
            match r {
                Some(t) => {
                    &&& final(self)@ == (ServerState {
                        sim: world_after(old(self)@, pose_views(crabs@), pilots@),
                        pending: None,
                        ..old(self)@
                    })
                    &&& t.snapshot@ == snapshot_bytes(
                        snapshot_after(old(self)@, pose_views(crabs@), pilots@),
                    )
                    &&& t.restarted == restart_edge(
                        synced(old(self)@),
                        old(self)@.pending->0.inputs,
                    )
                },
                None => final(self)@ == not_stepped(old(self)@, crabs@.len()),
            },
            final(self).wf(),
            r is None || r->0.restarted || players_within(
                synced(old(self)@).players,
                REACH - STRIDE,
            ) ==> round_in_world(final(self)@.sim),
    {
        let ghost start = self@;
        if crabs.len() != 0 && crabs.len() != self.sim.crabs().len() {
            return None;
        }
        match &self.pending {
            None => {
                return None;
            },
            Some(_) => {},
        }
        self.mirror_roster();
        proof {
            self.lemma_fields();
        }
        let ready: bool = match &self.pending {
            Some(p) => self.sim.restart_is_settled(&p.inputs),
            None => false,
        };
        if !ready {
            return None;
        }
        proof {
            lemma_mirror_again(start);
        }
        Some(self.step_next(crabs, pilots))
    }
}

/// A world in line with its roster stays as it is when it is brought in line again.
proof fn lemma_mirror_again(s: ServerState)
    requires
        server_wf(s),
        server_wf(ServerState { sim: synced(s), ..s }),
        forall|k: PlayerId|
            #[trigger] seated(synced(s).players, k) <==> roster_at(s.roster, s.sim.tick).contains(k),
        synced(s).tick == s.sim.tick,
    ensures
        synced(ServerState { sim: synced(s), ..s }) == synced(s),
{
    let m = synced(s);
    let ids = roster_at(s.roster, s.sim.tick);
    lemma_joined_nobody(m, ids, ids.len() as int);
    assert(ids.take(ids.len() as int) =~= ids);
    lemma_gone(m.players, ids);
    let g = gone(m.players, ids);
    if g.len() > 0 {
        assert(g.contains(g[0]));
        assert(seated(m.players, g[0]));
    }
}

proof fn lemma_joined_nobody(m: RoundState, ids: Seq<PlayerId>, n: int)
    requires
        0 <= n <= ids.len(),
        forall|k: PlayerId| #[trigger] seated(m.players, k) <==> ids.contains(k),
    ensures
        joined(m, ids.take(n)) == m,
    decreases n,
{
    if n > 0 {
        lemma_joined_nobody(m, ids, n - 1);
        assert(ids.take(n).drop_last() =~= ids.take(n - 1));
        assert(ids.take(n).last() == ids[n - 1]);
        assert(ids.contains(ids[n - 1]));
        assert(seated(m.players, ids[n - 1]));
    }
}

impl Server {
    /// The latest roster.
    pub fn roster(&self) -> (ids: &[PlayerId])
        requires
            self.wf(),
        ensures
            ids@ == current_roster(self@),
    {
        proof {
            self.lemma_fields();
        }
        self.roster.current()
    }

    /// The lowest seat nobody on the latest roster has.
    fn lowest_free_pid(&self) -> (id: PlayerId)
        requires
            self.wf(),
            current_roster(self@).len() < 256,
        ensures
            is_lowest_free(current_roster(self@), id),
    {
        proof {
            self.lemma_fields();
        }
        let ids = self.roster.current();
        let mut k: u8 = 0;
        while contains_id(ids, PlayerId(k))
            invariant
                ids@ == current_roster(self@),
                strictly_ascending(ids@),
                ids@.len() < 256,
                forall|j: u8| j < k ==> #[trigger] ids@.contains(PlayerId(j)),
            decreases 256 - k,
        {
            proof {
                if k == 255 {
                    lemma_full_roster(ids@, 255);
                }
            }
            k = k + 1;
        }
        PlayerId(k)
    }

    /// Give the lowest free seat to a joiner, from a few ticks ahead on. Nobody else's seat
    /// changes.
    pub fn admit_joiner(&mut self) -> (a: Admission)
        requires
            old(self).wf(),
            current_roster(old(self)@).len() < 256,
            old(self)@.roster.last().0 < u64::MAX,
            next_assemble(old(self)@) + JOIN_LEAD <= u64::MAX,
        ensures
            is_lowest_free(current_roster(old(self)@), a.pid),
            a.effective_tick == change_tick(
                old(self)@,
                next_assemble(old(self)@) + JOIN_LEAD,
            ),
            a.roster@ == with_id(current_roster(old(self)@), a.pid),
            final(self)@ == with_admission(old(self)@, a.pid),
            final(self).wf(),
    {
        let ghost start = self@;
        proof {
            self.lemma_fields();
        }
        let pid = self.lowest_free_pid();
        let effective_tick: u64 = self.roster.earliest_change_at(self.next_assemble() + JOIN_LEAD);
        let mut roster = copy_ids(self.roster.current());
        let ghost cur = roster@;
        roster.push(pid);
        proof {
            lemma_in_order_pushed(cur, pid);
            lemma_with_id(cur, pid);
            lemma_roster_pushed(start, effective_tick, with_id(cur, pid));
        }
        self.roster.schedule_change(effective_tick, roster.as_slice());
        proof {
            assert(self@ == with_admission(start, pid));
            assert forall|i: int| 0 <= i < self@.streams.len() implies stream_wf(
                (#[trigger] self@.streams[i]).1,
            ) && self@.streams[i].0 != self@.me && current_roster(self@).contains(
                self@.streams[i].0,
            ) by {
                assert(cur.contains(start.streams[i].0));
                assert(with_id(cur, pid).contains(start.streams[i].0));
            }
            assert(roster_at(self@.roster, effective_tick) == with_id(cur, pid));
        }
        Admission { pid, effective_tick, roster: copy_ids(self.roster.at(effective_tick)) }
    }

    /// Drop a departed player: off the roster as soon as a change can land, its stream and
    /// craft gone at once. A seat nobody has is no news.
    pub fn depart(&mut self, pid: PlayerId)
        requires
            old(self).wf(),
            old(self)@.roster.last().0 < u64::MAX,
        ensures
            final(self)@ == with_departure(old(self)@, pid),
            final(self).wf(),
    {
        let ghost start = self@;
        proof {
            self.lemma_fields();
        }
        let current = copy_ids(self.roster.current());
        if !contains_id(current.as_slice(), pid) {
            return;
        }
        let mut remaining: Vec<PlayerId> = Vec::new();
        let mut i: usize = 0;
        assert(current@.take(0) =~= Seq::<PlayerId>::empty());
        while i < current.len()
            invariant
                i <= current@.len(),
                remaining@ == minus(current@.take(i as int), pid),
            decreases current@.len() - i,
        {
            proof {
                assert(current@.take(i + 1).drop_last() =~= current@.take(i as int));
                assert(current@.take(i + 1).last() == current@[i as int]);
            }
            if current[i] != pid {
                remaining.push(current[i]);
            }
            i = i + 1;
        }
        assert(current@.take(i as int) =~= current@);
        let effective_tick: u64 = self.roster.earliest_change_at(self.next_assemble());
        proof {
            lemma_minus(current@, pid);
            lemma_in_order_self(remaining@);
            lemma_roster_pushed(start, effective_tick, remaining@);
            lemma_states_without(self.streams@, pid);
            lemma_without(start.streams, pid);
            lemma_without(start.intents, pid);
        }
        self.roster.schedule_change(effective_tick, remaining.as_slice());
        self.streams.remove(pid);
        self.pilot_intents.remove(pid);
        proof {
            assert(self@ == with_departure(start, pid));
            let f = self@.streams;
            assert forall|k: int| 0 <= k < f.len() implies stream_wf((#[trigger] f[k]).1) && f[k].0
                != start.me && current_roster(self@).contains(f[k].0) by {
                assert(seated(f, f[k].0));
                if seated(start.streams, pid) {
                    let at = seat_index(start.streams, pid);
                    let k0 = if k < at {
                        k
                    } else {
                        k + 1
                    };
                    assert(f[k] == start.streams[k0]);
                    assert(f[k].0 != pid) by {
                        assert(!seated(f, pid));
                    }
                } else {
                    assert(f[k] == start.streams[k]);
                    assert(f[k].0 != pid);
                }
                assert(current@.contains(f[k].0));
                assert(minus(current@, pid).contains(f[k].0));
            }
        }
    }

    /// Who pilots, and how.
    pub fn pilot_intents(&self) -> (m: &PlayerMap<PilotIntent>)
        requires
            self.wf(),
        ensures
            m@ == self@.intents,
            m.wf(),
    {
        &self.pilot_intents
    }

    /// A player's queued, not yet consumed inputs.
    pub fn queued(&self, pid: PlayerId) -> (v: Vec<TickMsg>)
        requires
            self.wf(),
        ensures
            v@ == stream_for(self@, pid).queue,
    {
        proof {
            self.lemma_fields();
            lemma_states_lookup(self.streams@, pid);
        }
        match self.streams.get(pid) {
            Some(s) => s.queued(),
            None => {
                let v: Vec<TickMsg> = Vec::new();
                assert(v@ =~= Seq::empty());
                v
            },
        }
    }

    /// A player's input in the assembled tick.
    pub fn assembled_input(&self, pid: PlayerId) -> (r: Option<Input>)
        requires
            self.wf(),
        ensures
            r == (match self@.pending {
                Some(p) => lookup(p.inputs, pid),
                None => None,
            }),
    {
        proof {
            self.lemma_fields();
        }
        match &self.pending {
            Some(p) => match p.inputs.get(pid) {
                Some(i) => Some(*i),
                None => None,
            },
            None => None,
        }
    }

    /// Put the world into the state of a snapshot of its own tick, between two ticks.
    pub fn restore_world(&mut self, snapshot: CoreSnapshot)
        requires
            old(self).wf(),
            old(self)@.pending is None,
            snapshot.wf(),
            snapshot@.tick == old(self)@.sim.tick,
            round_fits(adopting(old(self)@.sim, snapshot@)),
        ensures
            final(self)@ == (ServerState {
                sim: adopting(old(self)@.sim, snapshot@),
                ..old(self)@
            }),
            final(self).wf(),
    {
        proof {
            self.lemma_fields();
        }
        self.sim.apply_core_snapshot(snapshot);
    }
}

/// An ascending list that holds every seat up to `k` is longer than `k`.
proof fn lemma_full_roster(ids: Seq<PlayerId>, k: u8)
    requires
        strictly_ascending(ids),
        forall|j: u8| j <= k ==> #[trigger] ids.contains(PlayerId(j)),
    ensures
        ids.len() > k,
{
    lemma_seat_position(ids, k);
}

/// The seat after all those below it stands at no lower a place than its number.
proof fn lemma_seat_position(ids: Seq<PlayerId>, k: u8) -> (p: int)
    requires
        strictly_ascending(ids),
        forall|j: u8| j <= k ==> #[trigger] ids.contains(PlayerId(j)),
    ensures
        k <= p < ids.len(),
        ids[p] == PlayerId(k),
    decreases k,
{
    assert(ids.contains(PlayerId(k)));
    let p = choose|p: int| 0 <= p < ids.len() && ids[p] == PlayerId(k);
    if k > 0 {
        let q = lemma_seat_position(ids, (k - 1) as u8);
        if p <= q {
            if p < q {
                assert(ids[p].0 < ids[q].0);
            }
        }
    }
    p
}

} // verus!
