//! What holds over a whole run of a server: any calls, in any order, of any number.

use crate::client::TickMsg;
use crate::player_map::{lookup, seat_index, seated, seats, PlayerId};
use crate::roster::{lemma_with_id, roster_at};
use crate::server::host::{
    assembled, current_roster, is_lowest_free, lemma_assembled_tallies, lemma_mirrored,
    not_stepped, remote_recorded, server_wf, snapshot_after, with_admission, with_departure, world_after, ServerState,
};
use crate::server::laws::{
    lemma_departed_is_not_resurrected, lemma_host_watermark, lemma_mirror_keeps_the_crew,
    lemma_reports_are_chronic_and_cooled, lemma_shipped_seats_are_the_roster,
    lemma_shipped_snapshot_reads_back,
};
use crate::server::starvation::{
    newly_reported, STARVATION_REPORT_CAP, STARVATION_REPORT_COOLDOWN, STARVATION_REPORT_THRESHOLD,
    STARVATION_WINDOW,
};
use crate::sim::entities::{PilotPose, PoseView};
use crate::sim::laws::{crewed, lemma_opening_is_crewed};
use crate::sim::round::{lemma_minus, snapshot_view, Sim};
use crate::snapshot::{snapshot_bytes, snapshot_of, SnapshotDecodeError, SnapshotView};
use vstd::prelude::*;

verus! {

/// One call of a server.
pub enum Move {
    /// A remote delivery is recorded.
    Record { from: PlayerId, msg: TickMsg },
    /// The next tick is assembled.
    Assemble { local: TickMsg },
    /// The assembled tick is stepped.
    Step { crabs: Seq<PoseView>, pilots: Seq<(PlayerId, PilotPose)> },
    /// A step was tried with this many crab poses, and could not be made.
    Balk { crabs: nat },
    /// A joiner is admitted.
    Admit { pid: PlayerId },
    /// A player departs.
    Depart { pid: PlayerId },
    /// The reports are drained.
    Drain,
}

/// The call can be made.
pub open spec fn may_move(s: ServerState, m: Move) -> bool {
    match m {
        Move::Assemble { local } => s.pending is None && local.issue_tick == s.sim.tick,
        Move::Step { crabs, pilots } => s.pending is Some,
        Move::Admit { pid } => is_lowest_free(current_roster(s), pid),
        _ => true,
    }
}

/// The state after the call.
pub open spec fn moved(s: ServerState, m: Move) -> ServerState {
    match m {
        Move::Record { from, msg } => remote_recorded(s, from, msg),
        Move::Assemble { local } => assembled(s, local),
        Move::Step { crabs, pilots } => ServerState {
            sim: world_after(s, crabs, pilots),
            pending: None,
            ..s
        },
        Move::Balk { crabs } => not_stepped(s, crabs),
        Move::Admit { pid } => with_admission(s, pid),
        Move::Depart { pid } => with_departure(s, pid),
        Move::Drain => ServerState { reports: Seq::empty(), ..s },
    }
}

/// The states of a server, one before the first call and one after each.
pub open spec fn is_run(states: Seq<ServerState>, moves: Seq<Move>) -> bool {
    &&& states.len() == moves.len() + 1
    &&& forall|i: int| 0 <= i < states.len() ==> server_wf(#[trigger] states[i])
    &&& forall|i: int|
        0 <= i < moves.len() ==> may_move(states[i], #[trigger] moves[i]) && states[i + 1] == moved(
            states[i],
            moves[i],
        )
}

/// Whenever a tick is assembled from call `i` to call `j`, `pid` is on its roster.
pub open spec fn rostered_throughout(
    states: Seq<ServerState>,
    moves: Seq<Move>,
    pid: PlayerId,
    i: int,
    j: int,
) -> bool {
    forall|x: int|
        i <= x <= j && (#[trigger] moves[x]) is Assemble ==> roster_at(
            states[x].roster,
            states[x].sim.tick,
        ).contains(pid)
}

/// Call `i` reports `pid`.
pub open spec fn reports_at(
    states: Seq<ServerState>,
    moves: Seq<Move>,
    pid: PlayerId,
    i: int,
) -> bool {
    moves[i] is Assemble && newly_reported(states[i].reports, states[i + 1].reports, pid)
}

/// Once a player is reported, and while it is rostered, its cooldown counts from that report
/// or a later one.
proof fn lemma_cooldown_lasts(
    states: Seq<ServerState>,
    moves: Seq<Move>,
    pid: PlayerId,
    i: int,
    x: int,
)
    requires
        is_run(states, moves),
        0 <= i < x <= moves.len(),
        reports_at(states, moves, pid, i),
        rostered_throughout(states, moves, pid, i, x - 1),
    ensures
        seated(states[x].starvation, pid),
        lookup(states[x].starvation, pid)->0.last_report matches Some(t) && t
            >= states[i].sim.tick,
    decreases x,
{
    let y = x - 1;
    assert(server_wf(states[y]));
    assert(may_move(states[y], moves[y]) && states[y + 1] == moved(states[y], moves[y]));
    if y > i {
        lemma_cooldown_lasts(states, moves, pid, i, y);
    }
    match moves[y] {
        Move::Assemble { local } => {
            assert(roster_at(states[y].roster, states[y].sim.tick).contains(pid));
            lemma_assembled_tallies(states[y], local, pid);
            if y > i && newly_reported(states[y].reports, states[y + 1].reports, pid) {
                let k = choose|k: int|
                    states[y].reports.len() <= k < states[y + 1].reports.len() && (
                    #[trigger] states[y + 1].reports[k]).pid == pid;
                lemma_reports_are_chronic_and_cooled(states[y], local, k);
            }
        },
        _ => {},
    }
}

/// Two reports of one player who was rostered throughout lie a cooldown apart, however the
/// server was called in between.
pub proof fn lemma_reports_lie_apart(
    states: Seq<ServerState>,
    moves: Seq<Move>,
    pid: PlayerId,
    i: int,
    j: int,
)
    requires
        is_run(states, moves),
        0 <= i < j < moves.len(),
        reports_at(states, moves, pid, i),
        reports_at(states, moves, pid, j),
        rostered_throughout(states, moves, pid, i, j),
    ensures
        states[j].sim.tick - states[i].sim.tick >= STARVATION_REPORT_COOLDOWN,
{
    lemma_cooldown_lasts(states, moves, pid, i, j);
    assert(server_wf(states[j]));
    assert(may_move(states[j], moves[j]) && states[j + 1] == moved(states[j], moves[j]));
    let local = moves[j]->local;
    let k = choose|k: int|
        states[j].reports.len() <= k < states[j + 1].reports.len() && (
        #[trigger] states[j + 1].reports[k]).pid == pid;
    lemma_reports_are_chronic_and_cooled(states[j], local, k);
}

/// Every report that a server holds, whatever was asked of it since it was new, is of a remote
/// player and of a chronic count within one full window.
pub proof fn lemma_every_report_is_chronic(
    states: Seq<ServerState>,
    moves: Seq<Move>,
    j: int,
    k: int,
)
    requires
        is_run(states, moves),
        states[0].reports.len() == 0,
        0 <= j < states.len(),
        0 <= k < states[j].reports.len(),
    ensures
        ({
            let r = states[j].reports[k];
            &&& r.pid != states[j].me
            &&& r.window == STARVATION_WINDOW
            &&& r.tick % STARVATION_WINDOW == 0
            &&& STARVATION_REPORT_THRESHOLD <= r.starved <= STARVATION_WINDOW
            &&& states[j].reports.len() <= STARVATION_REPORT_CAP
        }),
    decreases j,
{
    assert(server_wf(states[j]));
    if j > 0 {
        let y = j - 1;
        assert(server_wf(states[y]));
        assert(may_move(states[y], moves[y]) && states[y + 1] == moved(states[y], moves[y]));
        match moves[y] {
            Move::Assemble { local } => {
                if k < states[y].reports.len() {
                    lemma_every_report_is_chronic(states, moves, y, k);
                    lemma_assembled_tallies(states[y], local, states[y].me);
                    assert(states[j].reports.take(states[y].reports.len() as int)[k]
                        == states[j].reports[k]);
                } else {
                    lemma_reports_are_chronic_and_cooled(states[y], local, k);
                }
            },
            Move::Drain => {},
            _ => {
                lemma_every_report_is_chronic(states, moves, y, k);
            },
        }
    }
}

/// Whoever is neither rostered nor has a stream stays so through a call that does not admit
/// them.
proof fn lemma_absence_lasts(s: ServerState, m: Move, pid: PlayerId)
    requires
        server_wf(s),
        server_wf(moved(s, m)),
        may_move(s, m),
        m != (Move::Admit { pid }),
        !current_roster(s).contains(pid),
        pid != s.me,
    ensures
        !current_roster(moved(s, m)).contains(pid),
        moved(s, m).me == s.me,
{
    match m {
        Move::Admit { pid: other } => {
            lemma_with_id(current_roster(s), other);
        },
        Move::Depart { pid: other } => {
            lemma_minus(current_roster(s), other);
        },
        _ => {},
    }
}

/// A departed player is neither rostered nor has a stream, and no tick assembled from then on
/// carries a watermark of it, until its seat is given again.
pub proof fn lemma_departed_until_readmitted(
    states: Seq<ServerState>,
    moves: Seq<Move>,
    pid: PlayerId,
    i: int,
    j: int,
)
    requires
        is_run(states, moves),
        0 <= i < j <= moves.len(),
        pid != states[i].me,
        moves[i] == (Move::Depart { pid }),
        forall|x: int| i < x < j ==> (#[trigger] moves[x]) != (Move::Admit { pid }),
    ensures
        !current_roster(states[j]).contains(pid),
        !seated(states[j].streams, pid),
        states[j].me == states[i].me,
        moves[j - 1] is Assemble ==> !seated(states[j].pending->0.input_next, pid),
    decreases j,
{
    let y = j - 1;
    assert(server_wf(states[y]) && server_wf(states[j]));
    assert(may_move(states[y], moves[y]) && states[y + 1] == moved(states[y], moves[y]));
    if y == i {
        lemma_minus(current_roster(states[i]), pid);
    } else {
        lemma_departed_until_readmitted(states, moves, pid, i, y);
        lemma_absence_lasts(states[y], moves[y], pid);
        if let Move::Assemble { local } = moves[y] {
            lemma_departed_is_not_resurrected(states[y], local, pid);
        }
    }
    if seated(states[j].streams, pid) {
        let k = seat_index(states[j].streams, pid);
        assert(states[j].streams[k].0 == pid);
    }
}

/// The watermark of the host in the tick assembled, if one is: the tick after.
pub open spec fn host_marked(s: ServerState) -> bool {
    s.pending is Some && roster_at(s.roster, s.sim.tick).contains(s.me) ==> lookup(
        s.pending->0.input_next,
        s.me,
    ) == Some((s.sim.tick + 1) as u64)
}

/// Through any call a crewed world stays so, its crabs stay as many as they were, and a
/// rostered host is marked in the tick assembled.
proof fn lemma_call_keeps_the_crew(s: ServerState, m: Move)
    requires
        server_wf(s),
        server_wf(moved(s, m)),
        may_move(s, m),
        crewed(s.sim),
        host_marked(s),
    ensures
        crewed(moved(s, m).sim),
        moved(s, m).sim.crab_count == s.sim.crab_count,
        host_marked(moved(s, m)),
{
    let t = moved(s, m);
    let ids = roster_at(s.roster, s.sim.tick);
    crate::roster::lemma_roster_at_ascending(s.roster, s.sim.tick);
    match m {
        Move::Assemble { local } => {
            if ids.contains(s.me) {
                lemma_host_watermark(s, local, Seq::empty(), Seq::empty());
            }
        },
        Move::Step { crabs, pilots } => {
            lemma_shipped_seats_are_the_roster(s, crabs, pilots);
            lemma_mirrored(s.sim, ids);
        },
        Move::Balk { crabs } => {
            lemma_mirror_keeps_the_crew(s.sim, ids);
            lemma_mirrored(s.sim, ids);
        },
        Move::Record { from, msg } => {
            assert(t.pending == s.pending && t.sim == s.sim && t.roster == s.roster);
        },
        _ => {
            assert(t.pending == s.pending && t.sim == s.sim);
            if s.pending is Some {
                assert(roster_at(t.roster, t.sim.tick) == seats(s.pending->0.inputs));
            }
        },
    }
}

/// A server of a match as it opened keeps its world crewed, with as many crabs, whatever is
/// asked of it.
pub proof fn lemma_crewed_throughout(states: Seq<ServerState>, moves: Seq<Move>, j: int)
    requires
        is_run(states, moves),
        crewed(states[0].sim),
        states[0].pending is None,
        0 <= j < states.len(),
    ensures
        crewed(states[j].sim),
        states[j].sim.crab_count == states[0].sim.crab_count,
        host_marked(states[j]),
    decreases j,
{
    if j > 0 {
        let y = j - 1;
        lemma_crewed_throughout(states, moves, y);
        assert(server_wf(states[y]) && server_wf(states[j]));
        assert(may_move(states[y], moves[y]) && states[y + 1] == moved(states[y], moves[y]));
        lemma_call_keeps_the_crew(states[y], moves[y]);
    }
}

/// What a server ships, over its whole run: from a match as it opened on, whatever was asked
/// of the server since, the snapshot of every step holds exactly the players rostered at the
/// tick stepped, in seat order, and the same roster; its tick is the one after; the watermark
/// of a rostered host is that tick too; and whoever reads the bytes has the world that the
/// server then holds.
pub proof fn lemma_every_snapshot_shipped(
    states: Seq<ServerState>,
    moves: Seq<Move>,
    seed: u64,
    players: Seq<PlayerId>,
    crabs: nat,
    i: int,
)
    requires
        is_run(states, moves),
        states[0].sim == Sim::opening(seed, players, crabs),
        states[0].pending is None,
        1 <= crabs <= u32::MAX,
        0 <= i < moves.len(),
        moves[i] is Step,
    ensures
        ({
            let s = states[i];
            let v = snapshot_after(s, moves[i]->Step_crabs, moves[i]->pilots);
            &&& seats(v.players) == roster_at(s.roster, s.sim.tick)
            &&& v.roster == roster_at(s.roster, s.sim.tick)
            &&& v.tick == s.sim.tick + 1
            &&& v.crabs.len() == crabs
            &&& (roster_at(s.roster, s.sim.tick).contains(s.me) ==> lookup(v.input_next, s.me)
                == Some(v.tick))
            &&& v == (SnapshotView {
                input_next: s.pending->0.input_next,
                ..snapshot_view(states[i + 1].sim)
            })
            &&& snapshot_of(snapshot_bytes(v)) == Ok::<SnapshotView, SnapshotDecodeError>(v)
        }),
{
    let s = states[i];
    let poses = moves[i]->Step_crabs;
    let pilots = moves[i]->pilots;
    lemma_opening_is_crewed(seed, players, crabs);
    lemma_crewed_throughout(states, moves, i);
    lemma_crewed_throughout(states, moves, i + 1);
    assert(server_wf(s) && server_wf(states[i + 1]));
    assert(may_move(s, moves[i]) && states[i + 1] == moved(s, moves[i]));
    lemma_shipped_seats_are_the_roster(s, poses, pilots);
    lemma_shipped_snapshot_reads_back(s, poses, pilots);
}

} // verus!
