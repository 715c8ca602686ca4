//! What holds of every round.

use crate::bytes::{fnv_fold, le, lemma_le_len, twos, FNV_BASIS};
use crate::player_map::{
    ascending, lemma_lookup_at, lemma_put, lemma_without, lookup, put, seat_index, seated, seats,
    strictly_ascending, PlayerId,
};
use crate::roster::{lemma_ascending_unique, lemma_order_independent, lemma_with_id};
use crate::sim::buttons;
use crate::sim::entities::{pos_in_world, some_claw_touches, Outcome, PilotPose, Player, PoseView};
use crate::sim::geometry::{dist2, in_disc};
use crate::sim::input::{neutral, pressing, Input};
use crate::sim::round::{
    adopting, advanced, lemma_minus, lemma_step_widens, players_within, predicted, restart_edge,
    restart_pressed, settled_outcome, snapshot_view, state_bytes, state_digest, stepped, ticked_player,
    with_joiner, without_player, RoundState, Sim,
};
use crate::sim::layout_laws::lemma_party_settles;
use crate::sim::spawn::{
    drawn_frame, drawn_jitters, frame_ok, layout_crabs, lemma_layout_clearance, party,
    stream_settles, SETTLING_PARTY,
};
use crate::sim::trig::{cos_of, sin_of, wrapped, TURN};
use crate::sim::world::{
    EXTRACT_RADIUS, MIN_CRAB_SPAWN_DISTANCE, REACH, STARTUP_GRACE_TICKS, STRIDE, WORLD_LIMIT,
};
use crate::snapshot::{
    count_bytes, crabs_bytes, lemma_crabs_len, lemma_players_len, objective_begins, players_bytes,
    pos_bytes, roster_bytes, snapshot_bytes, watermarks_bytes,
};
use vstd::prelude::*;

verus! {

/// The order the players are listed in does not matter to how a match opens.
pub proof fn lemma_opening_ignores_order(seed: u64, a: Seq<PlayerId>, b: Seq<PlayerId>, crabs: nat)
    requires
        forall|id: PlayerId| #[trigger] a.contains(id) <==> b.contains(id),
    ensures
        Sim::opening(seed, a, crabs) == Sim::opening(seed, b, crabs),
{
    lemma_order_independent(a, b);
}

/// Every step counts one tick, a restart included: the tick never rewinds.
pub proof fn lemma_tick_advances(
    s: RoundState,
    inputs: Seq<(PlayerId, Input)>,
    crabs: Seq<PoseView>,
    pilots: Seq<(PlayerId, PilotPose)>,
)
    requires
        s.tick < u64::MAX,
    ensures
        stepped(s, inputs, crabs, pilots).tick == s.tick + 1,
{
}

/// A decided round stands still: without a restart nobody moves, no status changes and the
/// verdict stays.
pub proof fn lemma_decided_round_is_frozen(
    s: RoundState,
    inputs: Seq<(PlayerId, Input)>,
    crabs: Seq<PoseView>,
    pilots: Seq<(PlayerId, PilotPose)>,
)
    requires
        s.outcome != Outcome::Ongoing,
        !restart_edge(s, inputs),
    ensures
        ({
            let t = stepped(s, inputs, crabs, pilots);
            &&& t.players == s.players
            &&& t.extraction == s.extraction
            &&& t.outcome == s.outcome
            &&& t.frame == s.frame
            &&& t.roster == s.roster
            &&& t.rng == s.rng
        }),
{
}

/// Holding RESTART restarts once: the step after a press sees no edge until it is let go.
pub proof fn lemma_restart_is_edge_triggered(
    s: RoundState,
    inputs: Seq<(PlayerId, Input)>,
    crabs: Seq<PoseView>,
    pilots: Seq<(PlayerId, PilotPose)>,
    later: Seq<(PlayerId, Input)>,
)
    requires
        restart_pressed(inputs),
    ensures
        !restart_edge(stepped(s, inputs, crabs, pilots), later),
{
}

/// After a step on which nobody pressed RESTART, the next press restarts.
pub proof fn lemma_release_rearms_restart(
    s: RoundState,
    inputs: Seq<(PlayerId, Input)>,
    crabs: Seq<PoseView>,
    pilots: Seq<(PlayerId, PilotPose)>,
    later: Seq<(PlayerId, Input)>,
)
    requires
        !restart_pressed(inputs),
        restart_pressed(later),
    ensures
        restart_edge(stepped(s, inputs, crabs, pilots), later),
{
}

/// A restart, decided round or not, opens a new one for the whole roster: everybody alive on
/// a freshly drawn spawn line, as many crabs as before, and the grace starting over.
pub proof fn lemma_restart_reopens(
    s: RoundState,
    inputs: Seq<(PlayerId, Input)>,
    crabs: Seq<PoseView>,
    pilots: Seq<(PlayerId, PilotPose)>,
)
    requires
        restart_edge(s, inputs),
        s.tick < u64::MAX,
    ensures
        ({
            let t = stepped(s, inputs, crabs, pilots);
            &&& t.outcome == Outcome::Ongoing
            &&& t.round_start == s.tick + 1
            &&& t.frame == drawn_frame(s.rng.seed, s.rng.word).0
            &&& t.players == party(t.frame, s.roster)
            &&& forall|i: int|
                0 <= i < t.players.len() ==> (#[trigger] t.players[i]).1.status is Alive
        }),
{
}

/// Claw contact is the one way down: whoever goes down in a step stood on foot, touched by a
/// claw, with the round's grace over.
pub proof fn lemma_only_claws_down(
    p: Player,
    i: Input,
    craft: Option<PilotPose>,
    crabs: Seq<PoseView>,
    armed: bool,
    ex: crate::sim::geometry::Pos,
)
    requires
        !(p.status is Downed),
        ticked_player(p, i, craft, crabs, armed, ex).status is Downed,
    ensures
        p.status is Alive,
        armed,
        craft is None,
        some_claw_touches(crabs, advanced(p, i).pos),
{
}

/// During the startup grace, and after a restart's, nobody goes down.
pub proof fn lemma_grace_protects(
    s: RoundState,
    inputs: Seq<(PlayerId, Input)>,
    crabs: Seq<PoseView>,
    pilots: Seq<(PlayerId, PilotPose)>,
    k: int,
)
    requires
        s.tick < s.round_start + STARTUP_GRACE_TICKS,
        s.tick < u64::MAX,
        !restart_edge(s, inputs),
        0 <= k < s.players.len(),
        !(s.players[k].1.status is Downed),
    ensures
        k < stepped(s, inputs, crabs, pilots).players.len(),
        stepped(s, inputs, crabs, pilots).players[k].0 == s.players[k].0,
        !(stepped(s, inputs, crabs, pilots).players[k].1.status is Downed),
{
}

/// A piloting player is where its craft is and no claw downs it.
pub proof fn lemma_pilot_rides_and_is_safe(
    p: Player,
    i: Input,
    craft: PilotPose,
    crabs: Seq<PoseView>,
    armed: bool,
    ex: crate::sim::geometry::Pos,
)
    ensures
        ({
            let r = ticked_player(p, i, Some(craft), crabs, armed, ex);
            &&& r.pos == craft.pos
            &&& r.yaw == craft.yaw
            &&& (r.status is Downed ==> p.status is Downed)
        }),
{
}

/// The downed and the extracted stay so until a restart.
pub proof fn lemma_status_is_final(
    p: Player,
    i: Input,
    craft: Option<PilotPose>,
    crabs: Seq<PoseView>,
    armed: bool,
    ex: crate::sim::geometry::Pos,
)
    requires
        !(p.status is Alive),
    ensures
        ticked_player(p, i, craft, crabs, armed, ex).status == p.status,
{
}

/// Extraction takes ACTION within the objective's radius, by a living player.
pub proof fn lemma_extraction_takes_action_at_the_point(
    p: Player,
    i: Input,
    craft: Option<PilotPose>,
    crabs: Seq<PoseView>,
    armed: bool,
    ex: crate::sim::geometry::Pos,
)
    requires
        !(p.status is Extracted),
        ticked_player(p, i, craft, crabs, armed, ex).status is Extracted,
    ensures
        p.status is Alive,
        pressing(i, buttons::ACTION),
        in_disc(
            ticked_player(p, i, craft, crabs, armed, ex).pos,
            ex,
            EXTRACT_RADIUS as int,
        ),
{
}

/// A client's prediction of its own avatar is what the step makes of it, as long as the
/// player walks, lives through the step and the round goes on.
pub proof fn lemma_prediction_matches_step(
    s: RoundState,
    inputs: Seq<(PlayerId, Input)>,
    crabs: Seq<PoseView>,
    pilots: Seq<(PlayerId, PilotPose)>,
    id: PlayerId,
)
    requires
        ascending(s.players),
        s.outcome == Outcome::Ongoing,
        !restart_edge(s, inputs),
        seated(s.players, id),
        seated(inputs, id),
        !seated(pilots, id),
    ensures
        ({
            let i = lookup(inputs, id)->0;
            let p = lookup(predicted(s, id, i).players, id);
            let q = lookup(stepped(s, inputs, crabs, pilots).players, id);
            &&& p is Some
            &&& q is Some
            &&& p->0.pos == q->0.pos
            &&& p->0.yaw == q->0.yaw
        }),
{
    let i = lookup(inputs, id)->0;
    let k = seat_index(s.players, id);
    lemma_lookup_at(s.players, k);
    let a = predicted(s, id, i).players;
    assert forall|x: int, y: int| 0 <= x < y < a.len() implies (#[trigger] a[x]).0.0 < (
    #[trigger] a[y]).0.0 by {
        assert(s.players[x].0.0 < s.players[y].0.0);
    }
    assert(a[k].0 == id);
    lemma_lookup_at(a, k);
    let b = stepped(s, inputs, crabs, pilots).players;
    assert forall|x: int, y: int| 0 <= x < y < b.len() implies (#[trigger] b[x]).0.0 < (
    #[trigger] b[y]).0.0 by {
        assert(s.players[x].0.0 < s.players[y].0.0);
    }
    assert(b[k].0 == id);
    lemma_lookup_at(b, k);
}

/// Predicting an absent player changes nothing.
pub proof fn lemma_predicting_nobody(s: RoundState, id: PlayerId, i: Input)
    requires
        !seated(s.players, id),
    ensures
        predicted(s, id, i) == s,
{
}

/// Hands off the controls, a player stands still.
pub proof fn lemma_neutral_stands_still(p: Player)
    requires
        0 <= p.yaw < TURN,
    ensures
        advanced(p, neutral()) == p,
{
    let yaw = wrapped(p.yaw as int);
    assert(yaw == p.yaw);
    let sn = sin_of(yaw);
    let cs = cos_of(yaw);
    assert(sn * 0 == 0 && cs * 0 == 0) by (nonlinear_arith);
}

/// A step keeps everybody's seat: without a restart nobody enters or leaves.
pub proof fn lemma_step_keeps_seats(
    s: RoundState,
    inputs: Seq<(PlayerId, Input)>,
    crabs: Seq<PoseView>,
    pilots: Seq<(PlayerId, PilotPose)>,
    id: PlayerId,
)
    requires
        !restart_edge(s, inputs),
    ensures
        seated(stepped(s, inputs, crabs, pilots).players, id) == seated(s.players, id),
{
    let t = stepped(s, inputs, crabs, pilots);
    if seated(s.players, id) {
        let i = seat_index(s.players, id);
        assert(t.players[i].0 == id);
    }
    if seated(t.players, id) {
        let i = seat_index(t.players, id);
        assert(s.players[i].0 == id);
    }
}

/// A client that adopts a host's snapshot has the host's digest, roster and crab count,
/// whatever it held before.
pub proof fn lemma_adopting_reproduces_the_host(host: RoundState, client: RoundState)
    ensures
        state_digest(adopting(client, snapshot_view(host))) == state_digest(host),
        adopting(client, snapshot_view(host)).roster == host.roster,
        adopting(client, snapshot_view(host)).crab_count == host.crabs.len(),
        snapshot_view(adopting(client, snapshot_view(host))) == snapshot_view(host),
{
}

/// The digest covers what a snapshot ships and nothing else: the random stream, the restart
/// latch, the grace anchor, the spawn frame and the roster do not move it.
pub proof fn lemma_digest_ignores_host_private_state(a: RoundState, b: RoundState)
    requires
        a.tick == b.tick,
        a.players == b.players,
        a.crabs == b.crabs,
        a.extraction == b.extraction,
        a.outcome == b.outcome,
    ensures
        state_digest(a) == state_digest(b),
{
}

/// A round still on has nobody extracted and, if anybody is in it, somebody not down.
pub proof fn lemma_ongoing_means(players: Seq<(PlayerId, Player)>)
    requires
        settled_outcome(players) == Outcome::Ongoing,
    ensures
        forall|i: int| 0 <= i < players.len() ==> !((#[trigger] players[i]).1.status is Extracted),
        players.len() > 0 ==> exists|i: int|
            0 <= i < players.len() && (#[trigger] players[i]).1.status is Alive,
{
    if players.len() > 0 {
        let i = choose|i: int|
            0 <= i < players.len() && !((#[trigger] players[i]).1.status is Downed);
        assert(players[i].1.status is Alive);
    }
}

/// A player whose input neither walks nor turns nor acts, and who has no craft pose, is left
/// where it was and facing as it did, and is not extracted.
pub proof fn lemma_idle_player_stays(
    p: Player,
    i: Input,
    crabs: Seq<PoseView>,
    armed: bool,
    ex: crate::sim::geometry::Pos,
)
    requires
        i.move_strafe == 0,
        i.move_forward == 0,
        i.look_yaw == 0,
        !pressing(i, buttons::ACTION),
    ensures
        ({
            let r = ticked_player(p, i, None, crabs, armed, ex);
            &&& r.pos == p.pos
            &&& wrapped(r.yaw as int) == wrapped(p.yaw as int)
            &&& (0 <= p.yaw < TURN ==> r.yaw == p.yaw)
            &&& (r.status is Extracted ==> p.status is Extracted)
        }),
{
    let yaw = wrapped(p.yaw as int);
    let sn = sin_of(yaw);
    let cs = cos_of(yaw);
    assert(sn * 0 == 0 && cs * 0 == 0) by (nonlinear_arith);
}

/// Those in the world are those a layout is drawn for.
pub open spec fn crewed(s: RoundState) -> bool {
    seats(s.players) == s.roster
}

/// A party is seated as it is listed.
pub proof fn lemma_party_is_crew(f: crate::sim::spawn::SpawnFrame, ids: Seq<PlayerId>)
    ensures
        seats(party(f, ids)) == ids,
{
    assert(seats(party(f, ids)) =~= ids);
}

/// A match opens crewed.
pub proof fn lemma_opening_is_crewed(seed: u64, players: Seq<PlayerId>, crabs: nat)
    ensures
        crewed(Sim::opening(seed, players, crabs)),
{
    let s = Sim::opening(seed, players, crabs);
    lemma_party_is_crew(s.frame, s.roster);
}

/// A step keeps the crew, a restart included: nobody enters, leaves or changes seats.
pub proof fn lemma_step_keeps_the_crew(
    s: RoundState,
    inputs: Seq<(PlayerId, Input)>,
    crabs: Seq<PoseView>,
    pilots: Seq<(PlayerId, PilotPose)>,
)
    requires
        crewed(s),
    ensures
        crewed(stepped(s, inputs, crabs, pilots)),
        stepped(s, inputs, crabs, pilots).roster == s.roster,
        seats(stepped(s, inputs, crabs, pilots).players) == seats(s.players),
{
    let t = stepped(s, inputs, crabs, pilots);
    if restart_edge(s, inputs) {
        lemma_party_is_crew(t.frame, s.roster);
    } else {
        assert(seats(t.players) =~= seats(s.players));
    }
}

/// The seats of ascending entries ascend.
proof fn lemma_seats_ascend<V>(m: Seq<(PlayerId, V)>)
    requires
        ascending(m),
    ensures
        strictly_ascending(seats(m)),
        forall|id: PlayerId| #[trigger] seats(m).contains(id) <==> seated(m, id),
{
    let s = seats(m);
    assert forall|i: int, j: int| 0 <= i < j < s.len() implies (#[trigger] s[i]).0 < (
    #[trigger] s[j]).0 by {
        assert(m[i].0.0 < m[j].0.0);
    }
    assert forall|id: PlayerId| #[trigger] s.contains(id) <==> seated(m, id) by {
        if s.contains(id) {
            let i = choose|i: int| 0 <= i < s.len() && s[i] == id;
            assert(m[i].0 == id);
        }
        if seated(m, id) {
            let i = seat_index(m, id);
            assert(s[i] == id);
        }
    }
}

/// A joiner and a departure keep the crew.
pub proof fn lemma_joins_and_departures_keep_the_crew(s: RoundState, pid: PlayerId)
    requires
        ascending(s.players),
        crewed(s),
    ensures
        crewed(with_joiner(s, pid)),
        crewed(without_player(s, pid)),
{
    lemma_seats_ascend(s.players);
    let j = with_joiner(s, pid);
    if !seated(s.players, pid) {
        let v = choose|v: Player| #[trigger] put(s.players, pid, v) == j.players;
        lemma_put(s.players, pid, v);
        lemma_seats_ascend(j.players);
        lemma_with_id(s.roster, pid);
        assert forall|id: PlayerId| #[trigger] seats(j.players).contains(id) <==> j.roster.contains(
            id,
        ) by {
            assert(seats(j.players).contains(id) <==> seated(j.players, id));
            assert(seats(s.players).contains(id) <==> seated(s.players, id));
            if id != pid {
                assert(lookup(j.players, id) == lookup(s.players, id));
            }
        }
        lemma_ascending_unique(seats(j.players), j.roster);
    }
    let d = without_player(s, pid);
    lemma_without(s.players, pid);
    lemma_seats_ascend(d.players);
    lemma_minus(s.roster, pid);
    assert forall|id: PlayerId| #[trigger] seats(d.players).contains(id) <==> d.roster.contains(
        id,
    ) by {
        assert(seats(d.players).contains(id) <==> seated(d.players, id));
        assert(seats(s.players).contains(id) <==> seated(s.players, id));
        if id != pid {
            assert(lookup(d.players, id) == lookup(s.players, id));
        }
    }
    lemma_ascending_unique(seats(d.players), d.roster);
}

/// What one step is given.
pub struct Turn {
    pub inputs: Seq<(PlayerId, Input)>,
    pub crabs: Seq<PoseView>,
    pub pilots: Seq<(PlayerId, PilotPose)>,
}

/// The state after several steps.
pub open spec fn played(s: RoundState, turns: Seq<Turn>) -> RoundState
    decreases turns.len(),
{
    if turns.len() == 0 {
        s
    } else {
        let t = turns.last();
        stepped(played(s, turns.drop_last()), t.inputs, t.crabs, t.pilots)
    }
}

/// However long a round is played, nobody gets farther out than a stride a step, so a round
/// that starts within [`WORLD_LIMIT`] can be stepped as long as that adds up to no more than
/// [`REACH`].
pub proof fn lemma_range_lasts(s: RoundState, turns: Seq<Turn>)
    requires
        players_within(s.players, WORLD_LIMIT as int),
        WORLD_LIMIT + STRIDE * turns.len() <= REACH,
        forall|k: int, i: int|
            0 <= k < turns.len() && 0 <= i < turns[k].pilots.len() ==> pos_in_world(
                (#[trigger] turns[k].pilots[i]).1.pos,
            ),
        forall|k: int|
            0 <= k < turns.len() ==> !restart_edge(
                played(s, turns.take(k)),
                (#[trigger] turns[k]).inputs,
            ),
    ensures
        players_within(played(s, turns).players, WORLD_LIMIT + STRIDE * turns.len()),
    decreases turns.len(),
{
    if turns.len() > 0 {
        let d = turns.drop_last();
        let t = turns.last();
        let last = turns.len() - 1;
        assert forall|k: int| 0 <= k < d.len() implies !restart_edge(
            played(s, d.take(k)),
            (#[trigger] d[k]).inputs,
        ) by {
            assert(d.take(k) =~= turns.take(k));
            assert(d[k] == turns[k]);
        }
        assert forall|k: int, i: int|
            0 <= k < d.len() && 0 <= i < d[k].pilots.len() implies pos_in_world(
            (#[trigger] d[k].pilots[i]).1.pos,
        ) by {
            assert(turns[k].pilots[i] == d[k].pilots[i]);
        }
        lemma_range_lasts(s, d);
        assert(turns.take(last) =~= d);
        assert(turns[last] == t);
        assert forall|i: int| 0 <= i < t.pilots.len() implies pos_in_world(
            (#[trigger] t.pilots[i]).1.pos,
        ) by {
            assert(turns[last].pilots[i] == t.pilots[i]);
        }
        lemma_step_widens(
            played(s, d),
            t.inputs,
            t.crabs,
            t.pilots,
            WORLD_LIMIT + STRIDE * d.len(),
        );
    }
}

/// Nobody is down.
pub open spec fn nobody_down(players: Seq<(PlayerId, Player)>) -> bool {
    forall|i: int| 0 <= i < players.len() ==> !((#[trigger] players[i]).1.status is Downed)
}

/// The restart as a whole: whatever was going on, exactly the rostered are in, which are those
/// who were in a crewed world, all alive, with as many crabs; and for as many steps as the
/// grace lasts nobody goes down, whatever they do and wherever the crabs are. Once a crab's
/// spot settles, as it does in any layout of a small party, it is a full clearance from
/// everybody.
pub proof fn lemma_restart_is_graced(
    s: RoundState,
    restart: Turn,
    turns: Seq<Turn>,
    c: int,
    k: int,
)
    requires
        restart_edge(s, restart.inputs),
        s.tick + turns.len() < u64::MAX,
        turns.len() <= STARTUP_GRACE_TICKS,
    ensures
        ({
            let t = stepped(s, restart.inputs, restart.crabs, restart.pilots);
            &&& t.outcome == Outcome::Ongoing
            &&& seats(t.players) == s.roster
            &&& (crewed(s) ==> seats(t.players) == seats(s.players))
            &&& forall|i: int|
                0 <= i < t.players.len() ==> (#[trigger] t.players[i]).1.status is Alive
            &&& t.crabs.len() == s.crab_count
            &&& (stream_settles(s.rng, s.roster, s.crab_count) || (s.roster.len()
                <= SETTLING_PARTY && frame_ok(t.frame))) && 0 <= c < t.crabs.len() && 0 <= k
                < t.players.len() ==> dist2(t.crabs[c].pos, t.players[k].1.pos)
                >= MIN_CRAB_SPAWN_DISTANCE * MIN_CRAB_SPAWN_DISTANCE
            &&& seats(played(t, turns).players) == s.roster
            &&& nobody_down(played(t, turns).players)
        }),
{
    let t = stepped(s, restart.inputs, restart.crabs, restart.pilots);
    let (f, w) = drawn_frame(s.rng.seed, s.rng.word);
    let js = drawn_jitters(s.rng.seed, w, s.crab_count).0;
    lemma_party_is_crew(f, s.roster);
    lemma_jitter_count(s.rng.seed, w, s.crab_count);
    assert(t.crabs == layout_crabs(f, s.roster, js));
    if s.roster.len() <= SETTLING_PARTY && frame_ok(t.frame) {
        lemma_party_settles(f, s.roster, js);
    }
    if stream_settles(s.rng, s.roster, s.crab_count) && 0 <= c < t.crabs.len() && 0 <= k
        < t.players.len() {
        lemma_layout_clearance(f, s.roster, js, c, k);
    }
    lemma_grace_lasts(t, turns);
}

/// One jitter is drawn per crab.
proof fn lemma_jitter_count(seed: u64, word: u128, n: nat)
    ensures
        drawn_jitters(seed, word, n).0.len() == n,
    decreases n,
{
    if n > 0 {
        lemma_jitter_count(seed, word, (n - 1) as nat);
    }
}

/// From a round's opening on, nobody goes down while the grace lasts.
proof fn lemma_grace_lasts(s: RoundState, turns: Seq<Turn>)
    requires
        s.tick == s.round_start,
        nobody_down(s.players),
        crewed(s),
        s.tick + turns.len() <= u64::MAX,
        turns.len() <= STARTUP_GRACE_TICKS,
    ensures
        nobody_down(played(s, turns).players),
        crewed(played(s, turns)),
        seats(played(s, turns).players) == seats(s.players),
        played(s, turns).tick == s.tick + turns.len(),
        s.tick <= played(s, turns).round_start <= played(s, turns).tick,
    decreases turns.len(),
{
    if turns.len() > 0 {
        let d = turns.drop_last();
        let t = turns.last();
        lemma_grace_lasts(s, d);
        let p = played(s, d);
        lemma_step_keeps_the_crew(p, t.inputs, t.crabs, t.pilots);
        let q = played(s, turns);
        assert forall|i: int| 0 <= i < q.players.len() implies !((
        #[trigger] q.players[i]).1.status is Downed) by {
            if !restart_edge(p, t.inputs) {
                assert(!(p.players[i].1.status is Downed));
            }
        }
    }
}

/// The digest is the hash of a snapshot's bytes up to the outcome, the number of players
/// left out.
pub proof fn lemma_digest_hashes_the_snapshot(s: RoundState)
    ensures
        ({
            let v = snapshot_view(s);
            let b = snapshot_bytes(v);
            state_digest(s) == fnv_fold(
                FNV_BASIS,
                b.take(8) + b.subrange(12, objective_begins(v) + 17),
            )
        }),
{
    let v = snapshot_view(s);
    let b = snapshot_bytes(v);
    lemma_players_len(v.players);
    lemma_crabs_len(v.crabs);
    lemma_le_len(s.tick as nat, 8);
    lemma_le_len(v.players.len() as u32 as nat, 4);
    lemma_le_len(v.crabs.len() as u32 as nat, 4);
    lemma_le_len(twos(v.extraction.x as int, 8), 8);
    lemma_le_len(twos(v.extraction.z as int, 8), 8);
    let a = le(s.tick as nat, 8);
    let n = count_bytes(v.players.len());
    let r = players_bytes(v.players) + count_bytes(v.crabs.len()) + crabs_bytes(v.crabs)
        + pos_bytes(v.extraction) + seq![v.outcome.tag_of()];
    let t = count_bytes(v.roster.len()) + roster_bytes(v.roster) + count_bytes(
        v.input_next.len(),
    ) + watermarks_bytes(v.input_next);
    assert(b =~= a + n + r + t);
    assert(b.take(8) =~= a);
    assert(b.subrange(12, objective_begins(v) + 17) =~= r);
    assert(state_bytes(s) =~= b.take(8) + b.subrange(12, objective_begins(v) + 17));
}

/// A departure takes one player off the world and off its roster, and leaves everybody else
/// and everything else as it was.
pub proof fn lemma_departure_takes_one(s: RoundState, pid: PlayerId, id: PlayerId)
    requires
        ascending(s.players),
        strictly_ascending(s.roster),
    ensures
        ({
            let d = without_player(s, pid);
            &&& !seated(d.players, pid)
            &&& !d.roster.contains(pid)
            &&& id != pid ==> lookup(d.players, id) == lookup(s.players, id)
            &&& id != pid ==> (d.roster.contains(id) <==> s.roster.contains(id))
            &&& (RoundState { players: s.players, roster: s.roster, ..d }) == s
        }),
{
    lemma_without(s.players, pid);
    lemma_minus(s.roster, pid);
}

} // verus!
