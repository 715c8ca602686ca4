//! The round itself: one step per tick, from everybody's inputs and the physics world's
//! poses to the next state.

use crate::bytes::{fnv_fold, fnv_hash, le, push_u32, push_u64, FNV_BASIS};
use crate::player_map::{
    ascending, lemma_put, lemma_put_order, lemma_without, lookup, put, seat_index, seated,
    strictly_ascending, without, PlayerId, PlayerMap,
};
use crate::roster::{in_order, insert_sorted, lemma_ascending_len, lemma_with_id, sorted, with_id};
use crate::sim::buttons;
use crate::sim::entities::{
    any_claw_downs, crab_poses_in_world, pilot_entries, pos_in_world, pose_views,
    some_claw_touches, Crab, CrabPose, Externals, ExtractionPoint, Outcome,
    PilotPose, Player, PlayerStatus, PoseView,
};
use crate::sim::geometry::{
    dist2, dist2_i128, in_disc, lemma_product_bound, pos_bounded, trunc_div, within, Pos,
};
use crate::sim::input::{pressing, Input};
use crate::sim::rng::MatchRng;
use crate::sim::spawn::{
    clear_of_crabs, draw_layout, drawn_frame, drawn_jitters, frame_ok, join_spot, layout_crabs,
    nearest_clear_join_slot, objective, party, players_local, pos_local, slot_x, stream_after,
    stream_settles, SpawnFrame, SETTLING_PARTY,
};
use crate::sim::trig::{cos_of, lemma_unit_length, sin_cos, sin_of, wrap_wide, wrapped, ONE, TURN};
use crate::sim::world::{
    EXTRACT_RADIUS, MAX_CRABS, MAX_YAW_TURNS_PER_TICK, PLAYER_SPEED, REACH, SPAWN_SLOT_PITCH,
    STARTUP_GRACE_TICKS, STRIDE, WORLD_LIMIT,
};
use crate::snapshot::{
    count_bytes, crabs_bytes, players_bytes, pos_bytes, write_crabs, write_players, write_pos,
    CoreSnapshot, SnapshotView,
};
use vstd::prelude::*;

verus! {

/// What a round holds.
pub struct RoundState {
    pub tick: u64,
    pub players: Seq<(PlayerId, Player)>,
    pub crabs: Seq<Crab>,
    pub extraction: ExtractionPoint,
    pub outcome: Outcome,
    /// Where the random stream stands that the next layout is drawn from.
    pub rng: MatchRng,
    /// Somebody held RESTART at the last step.
    pub restart_held: bool,
    /// The tick the round last opened at.
    pub round_start: u64,
    pub frame: SpawnFrame,
    /// Who a layout is drawn for.
    pub roster: Seq<PlayerId>,
    /// How many crabs a layout is drawn with.
    pub crab_count: nat,
}

/// Every player stands within `r` of the center, along either axis.
pub open spec fn players_within(players: Seq<(PlayerId, Player)>, r: int) -> bool {
    forall|i: int|
        0 <= i < players.len() ==> {
            &&& -r <= (#[trigger] players[i]).1.pos.x <= r
            &&& -r <= players[i].1.pos.z <= r
        }
}

/// The state is well formed: players ascend and the frame lies on the terrain.
pub open spec fn round_wf(s: RoundState) -> bool {
    &&& ascending(s.players)
    &&& frame_ok(s.frame)
    &&& s.crab_count == s.crabs.len()
}

/// Everything but the players is in range: the crabs and the objective, the roster and the
/// counts. Steps, joins and departures keep this.
pub open spec fn round_fits(s: RoundState) -> bool {
    &&& s.round_start <= s.tick
    &&& forall|i: int| 0 <= i < s.crabs.len() ==> pos_in_world((#[trigger] s.crabs[i]).pos)
    &&& pos_in_world(s.extraction.pos)
    &&& strictly_ascending(s.roster)
    &&& s.roster.len() <= 256
    &&& s.crabs.len() <= MAX_CRABS
}

/// The state can be stepped: the players are in range too. What the machine types demand of a
/// step.
pub open spec fn round_in_world(s: RoundState) -> bool {
    &&& round_fits(s)
    &&& players_within(s.players, REACH as int)
}

/// One tick of walking: turn, then move along the new facing.
pub open spec fn advanced(p: Player, i: Input) -> Player {
    let turn = trunc_div(
        i.look_yaw * MAX_YAW_TURNS_PER_TICK,
        Input::AXIS_SCALE as int,
    );
    let yaw = wrapped(p.yaw + turn);
    let vx = sin_of(yaw) * i.move_forward + cos_of(yaw) * i.move_strafe;
    let vz = cos_of(yaw) * i.move_forward - sin_of(yaw) * i.move_strafe;
    let denom = Input::AXIS_SCALE * ONE;
    Player {
        pos: Pos {
            x: (p.pos.x + trunc_div(vx * PLAYER_SPEED, denom)) as i64,
            z: (p.pos.z + trunc_div(vz * PLAYER_SPEED, denom)) as i64,
        },
        yaw: yaw as i32,
        status: p.status,
    }
}

/// One player's tick: the living walk, a pilot is where its craft is, a claw downs whoever
/// stands on foot once the grace is over, and ACTION at the objective extracts.
pub open spec fn ticked_player(
    p: Player,
    i: Input,
    craft: Option<PilotPose>,
    crabs: Seq<PoseView>,
    armed: bool,
    ex: Pos,
) -> Player {
    let walked = if p.status is Alive {
        advanced(p, i)
    } else {
        p
    };
    let moved = match craft {
        Some(c) => Player { pos: c.pos, yaw: c.yaw, status: walked.status },
        None => walked,
    };
    if moved.status is Alive && armed && craft is None && some_claw_touches(crabs, moved.pos) {
        Player { status: PlayerStatus::Downed, ..moved }
    } else if moved.status is Alive && in_disc(moved.pos, ex, EXTRACT_RADIUS as int) && pressing(
        i,
        buttons::ACTION,
    ) {
        Player { status: PlayerStatus::Extracted, ..moved }
    } else {
        moved
    }
}

/// Won when anybody got out, lost when everybody is down, else still on.
pub open spec fn settled_outcome(players: Seq<(PlayerId, Player)>) -> Outcome {
    if exists|i: int| 0 <= i < players.len() && (#[trigger] players[i]).1.status is Extracted {
        Outcome::Extracted
    } else if players.len() > 0 && forall|i: int|
        0 <= i < players.len() ==> (#[trigger] players[i]).1.status is Downed {
        Outcome::Wiped
    } else {
        Outcome::Ongoing
    }
}

/// The crabs at the poses fed.
pub open spec fn posed_crabs(crabs: Seq<PoseView>) -> Seq<Crab> {
    Seq::new(crabs.len(), |i: int| Crab { pos: crabs[i].pos, yaw: crabs[i].yaw })
}

/// Somebody presses RESTART.
pub open spec fn restart_pressed(inputs: Seq<(PlayerId, Input)>) -> bool {
    exists|i: int| 0 <= i < inputs.len() && pressing((#[trigger] inputs[i]).1, buttons::RESTART)
}

/// The state reopened at its tick on the next layout off its stream.
pub open spec fn reopened(s: RoundState) -> RoundState {
    let (f, w) = drawn_frame(s.rng.seed, s.rng.word);
    let js = drawn_jitters(s.rng.seed, w, s.crab_count).0;
    RoundState {
        players: party(f, s.roster),
        crabs: layout_crabs(f, s.roster, js),
        extraction: objective(f),
        outcome: Outcome::Ongoing,
        rng: stream_after(s.rng, s.crab_count),
        round_start: s.tick,
        frame: f,
        ..s
    }
}

/// The state with this tick's poses adopted and counted, before anyone acts.
pub open spec fn posed(
    s: RoundState,
    inputs: Seq<(PlayerId, Input)>,
    crabs: Seq<PoseView>,
) -> RoundState {
    RoundState {
        tick: (s.tick + 1) as u64,
        crabs: posed_crabs(crabs),
        restart_held: restart_pressed(inputs),
        ..s
    }
}

/// A press of RESTART that was not held before.
pub open spec fn restart_edge(s: RoundState, inputs: Seq<(PlayerId, Input)>) -> bool {
    restart_pressed(inputs) && !s.restart_held
}

/// Everybody after one tick of play.
pub open spec fn ticked_players(
    s: RoundState,
    inputs: Seq<(PlayerId, Input)>,
    crabs: Seq<PoseView>,
    pilots: Seq<(PlayerId, PilotPose)>,
) -> Seq<(PlayerId, Player)> {
    Seq::new(
        s.players.len(),
        |i: int|
            (
                s.players[i].0,
                ticked_player(
                    s.players[i].1,
                    lookup(inputs, s.players[i].0)->0,
                    lookup(pilots, s.players[i].0),
                    crabs,
                    s.tick > s.round_start + STARTUP_GRACE_TICKS,
                    s.extraction.pos,
                ),
            ),
    )
}

/// One step: a fresh press of RESTART reopens the round; a decided round stands still; else
/// everybody acts and the outcome is settled.
pub open spec fn stepped(
    s: RoundState,
    inputs: Seq<(PlayerId, Input)>,
    crabs: Seq<PoseView>,
    pilots: Seq<(PlayerId, PilotPose)>,
) -> RoundState {
    let t = posed(s, inputs, crabs);
    if restart_edge(s, inputs) {
        reopened(t)
    } else if s.outcome != Outcome::Ongoing {
        t
    } else {
        let players = ticked_players(t, inputs, crabs, pilots);
        RoundState { players, outcome: settled_outcome(players), ..t }
    }
}

/// Every player of the round has an input.
pub open spec fn inputs_complete(s: RoundState, inputs: Seq<(PlayerId, Input)>) -> bool {
    forall|i: int| 0 <= i < s.players.len() ==> seated(inputs, (#[trigger] s.players[i]).0)
}

/// Where `id` stands in the list.
pub open spec fn position_in(s: Seq<PlayerId>, id: PlayerId) -> int {
    choose|i: int| 0 <= i < s.len() && s[i] == id
}

/// The state with a joiner spawned into the live round, on its roster slot or the nearest
/// clear one; nothing changes for a player who is there.
pub open spec fn with_joiner(s: RoundState, pid: PlayerId) -> RoundState {
    if seated(s.players, pid) {
        s
    } else {
        let roster = with_id(s.roster, pid);
        let x = slot_x(position_in(roster, pid), roster.len() as int);
        RoundState {
            roster,
            players: put(
                s.players,
                pid,
                Player {
                    pos: join_spot(s.crabs, s.frame, x),
                    yaw: s.frame.rot,
                    status: PlayerStatus::Alive,
                },
            ),
            ..s
        }
    }
}

/// A list without `id`.
pub open spec fn minus(s: Seq<PlayerId>, id: PlayerId) -> Seq<PlayerId>
    decreases s.len(),
{
    if s.len() == 0 {
        s
    } else if s.last() == id {
        minus(s.drop_last(), id)
    } else {
        minus(s.drop_last(), id).push(s.last())
    }
}

/// The state with a departed player gone from the world and from the roster.
pub open spec fn without_player(s: RoundState, pid: PlayerId) -> RoundState {
    RoundState { players: without(s.players, pid), roster: minus(s.roster, pid), ..s }
}

/// The shared world as bytes, in the order the digest covers it.
pub open spec fn state_bytes(s: RoundState) -> Seq<u8> {
    le(s.tick as nat, 8) + players_bytes(s.players) + count_bytes(s.crabs.len()) + crabs_bytes(
        s.crabs,
    ) + pos_bytes(s.extraction.pos) + seq![s.outcome.tag_of()]
}

/// The digest of the shared world.
pub open spec fn state_digest(s: RoundState) -> u64 {
    fnv_fold(FNV_BASIS, state_bytes(s))
}

/// The snapshot of the shared world, with no watermarks.
pub open spec fn snapshot_view(s: RoundState) -> SnapshotView {
    SnapshotView {
        tick: s.tick,
        players: s.players,
        crabs: s.crabs,
        extraction: s.extraction.pos,
        outcome: s.outcome,
        roster: s.roster,
        input_next: Seq::empty(),
    }
}

/// The state after a snapshot has been adopted: everything it carries, and nothing else.
pub open spec fn adopting(s: RoundState, c: SnapshotView) -> RoundState {
    RoundState {
        tick: c.tick,
        players: c.players,
        crabs: c.crabs,
        extraction: ExtractionPoint { pos: c.extraction },
        outcome: c.outcome,
        roster: c.roster,
        crab_count: c.crabs.len(),
        ..s
    }
}

/// Player `k` is the nearest living one to `c`; of equally near ones, the first.
pub open spec fn is_nearest_living(players: Seq<(PlayerId, Player)>, c: Pos, k: int) -> bool {
    &&& 0 <= k < players.len()
    &&& players[k].1.status is Alive
    &&& forall|j: int|
        0 <= j < players.len() && (#[trigger] players[j]).1.status is Alive ==> dist2(
            players[k].1.pos,
            c,
        ) <= dist2(players[j].1.pos, c)
    &&& forall|j: int|
        0 <= j < k && (#[trigger] players[j]).1.status is Alive ==> dist2(players[k].1.pos, c)
            < dist2(players[j].1.pos, c)
}

/// One player's prediction: walk, if the round is on and the player is there and alive.
pub open spec fn predicted(s: RoundState, id: PlayerId, i: Input) -> RoundState {
    if s.outcome == Outcome::Ongoing && seated(s.players, id) && lookup(s.players, id)->0.status
        is Alive {
        let k = seat_index(s.players, id);
        RoundState {
            players: s.players.update(k, (id, advanced(s.players[k].1, i))),
            ..s
        }
    } else {
        s
    }
}

/// The authoritative world of one round.
#[derive(Debug, Clone)]
pub struct Sim {
    tick: u64,
    players: PlayerMap<Player>,
    crabs: Vec<Crab>,
    extraction: ExtractionPoint,
    outcome: Outcome,
    rng: MatchRng,
    restart_held: bool,
    round_start: u64,
    spawn_frame: SpawnFrame,
    roster: Vec<PlayerId>,
    crab_count: usize,
}

impl View for Sim {
    type V = RoundState;

    closed spec fn view(&self) -> RoundState {
        RoundState {
            tick: self.tick,
            players: self.players@,
            crabs: self.crabs@,
            extraction: self.extraction,
            outcome: self.outcome,
            rng: self.rng,
            restart_held: self.restart_held,
            round_start: self.round_start,
            frame: self.spawn_frame,
            roster: self.roster@,
            crab_count: self.crab_count as nat,
        }
    }
}

/// A round that has just been laid out is well formed and can be stepped.
proof fn lemma_opened(s: RoundState)
    requires
        s.round_start <= s.tick,
        frame_ok(s.frame),
        strictly_ascending(s.roster),
        s.roster.len() <= 256,
        s.crabs.len() <= MAX_CRABS,
        s.crab_count == s.crabs.len(),
        s.players == party(s.frame, s.roster),
        players_local(s.players),
        pos_local(s.extraction.pos),
        forall|i: int| 0 <= i < s.crabs.len() ==> pos_local((#[trigger] s.crabs[i]).pos),
    ensures
        round_wf(s),
        round_in_world(s),
{
    assert forall|i: int, j: int| 0 <= i < j < s.players.len() implies (#[trigger] s.players[i]).0.0
        < (#[trigger] s.players[j]).0.0 by {
        assert(s.roster[i].0 < s.roster[j].0);
    }
    assert forall|i: int| 0 <= i < s.crabs.len() implies pos_in_world((#[trigger] s.crabs[i]).pos) by {
        assert(pos_local(s.crabs[i].pos));
    }
}

/// Leaving one out keeps the order.
pub proof fn lemma_minus(s: Seq<PlayerId>, id: PlayerId)
    requires
        strictly_ascending(s),
    ensures
        strictly_ascending(minus(s, id)),
        minus(s, id).len() <= s.len(),
        forall|k: PlayerId| #[trigger] minus(s, id).contains(k) <==> s.contains(k) && k != id,
    decreases s.len(),
{
    let r = minus(s, id);
    if s.len() > 0 {
        let d = s.drop_last();
        crate::roster::lemma_ascending_drop_last(s);
        lemma_minus(d, id);
        let rd = minus(d, id);
        assert forall|i: int| 0 <= i < rd.len() implies (#[trigger] rd[i]).0 < s.last().0 by {
            assert(rd.contains(rd[i]));
            assert(d.contains(rd[i]));
            let k = choose|k: int| 0 <= k < d.len() && d[k] == rd[i];
            assert(s[k].0 < s[s.len() - 1].0);
        }
        assert forall|i: int, j: int| 0 <= i < j < r.len() implies (#[trigger] r[i]).0 < (
        #[trigger] r[j]).0 by {
            if j < rd.len() {
                assert(rd[i].0 < rd[j].0);
            }
        }
        assert forall|k: PlayerId| #[trigger] r.contains(k) <==> s.contains(k) && k != id by {
            assert(rd.contains(k) <==> d.contains(k) && k != id);
            assert(d.contains(k) <==> s.contains(k) && k != s.last());
            if rd.contains(k) {
                let i = choose|i: int| 0 <= i < rd.len() && rd[i] == k;
                assert(r[i] == k);
            }
            if k == s.last() {
                assert(s[s.len() - 1] == k);
                if k != id {
                    assert(r[r.len() - 1] == k);
                }
            }
        }
    }
}

/// A departure keeps the round well formed and in range.
pub proof fn lemma_without_player(s: RoundState, pid: PlayerId)
    requires
        round_wf(s),
    ensures
        round_wf(without_player(s, pid)),
        round_fits(s) ==> round_fits(without_player(s, pid)),
        round_in_world(s) ==> round_in_world(without_player(s, pid)),
{
    let t = without_player(s, pid);
    assert(ascending(t.players)) by {
        lemma_without(s.players, pid);
    }
    if round_fits(s) {
        assert(strictly_ascending(t.roster) && t.roster.len() <= s.roster.len()) by {
            lemma_minus(s.roster, pid);
        }
    }
    if round_in_world(s) {
        let at = seat_index(s.players, pid);
        assert(seated(s.players, pid) ==> 0 <= at < s.players.len());
        assert forall|k: int| 0 <= k < t.players.len() implies {
            &&& -REACH <= (#[trigger] t.players[k]).1.pos.x <= REACH
            &&& -REACH <= t.players[k].1.pos.z <= REACH
        } by {
            if seated(s.players, pid) && k >= at {
                assert(t.players[k] == s.players[k + 1]);
            } else {
                assert(t.players[k] == s.players[k]);
            }
        }
    }
}

/// In one step nobody gets farther than a stride beyond where everybody was, or beyond the
/// range of what is fed into the world.
pub proof fn lemma_step_widens(
    s: RoundState,
    inputs: Seq<(PlayerId, Input)>,
    crabs: Seq<PoseView>,
    pilots: Seq<(PlayerId, PilotPose)>,
    r: int,
)
    requires
        players_within(s.players, r),
        WORLD_LIMIT <= r <= REACH,
        forall|i: int| 0 <= i < pilots.len() ==> pos_in_world((#[trigger] pilots[i]).1.pos),
        !restart_edge(s, inputs),
    ensures
        players_within(stepped(s, inputs, crabs, pilots).players, r + STRIDE),
{
    let t = stepped(s, inputs, crabs, pilots);
    assert forall|i: int| 0 <= i < t.players.len() implies {
        &&& -(r + STRIDE) <= (#[trigger] t.players[i]).1.pos.x <= r + STRIDE
        &&& -(r + STRIDE) <= t.players[i].1.pos.z <= r + STRIDE
    } by {
        let (id, p) = s.players[i];
        assert(-r <= s.players[i].1.pos.x <= r);
        let inp = lookup(inputs, id)->0;
        lemma_stride(p, inp);
        if seated(pilots, id) {
            let k = seat_index(pilots, id);
            assert(pos_in_world(pilots[k].1.pos));
        }
    }
}

/// How far a walk of one tick goes.
proof fn lemma_stride(p: Player, i: Input)
    requires
        -REACH <= p.pos.x <= REACH,
        -REACH <= p.pos.z <= REACH,
    ensures
        -STRIDE <= advanced(p, i).pos.x - p.pos.x <= STRIDE,
        -STRIDE <= advanced(p, i).pos.z - p.pos.z <= STRIDE,
{
    let turn = trunc_div(i.look_yaw * MAX_YAW_TURNS_PER_TICK, Input::AXIS_SCALE as int);
    let yaw = wrapped(p.yaw + turn);
    lemma_unit_length(yaw);
    lemma_product_bound(sin_of(yaw), ONE as int, i.move_forward as int, 0x8000);
    lemma_product_bound(cos_of(yaw), ONE as int, i.move_strafe as int, 0x8000);
    lemma_product_bound(cos_of(yaw), ONE as int, i.move_forward as int, 0x8000);
    lemma_product_bound(sin_of(yaw), ONE as int, i.move_strafe as int, 0x8000);
}

/// Whether a spot is in range.
fn spot_in_world(p: Pos) -> (b: bool)
    ensures
        b == pos_in_world(p),
{
    -WORLD_LIMIT <= p.x && p.x <= WORLD_LIMIT && -WORLD_LIMIT <= p.z && p.z <= WORLD_LIMIT
}

/// One tick of walking.
fn advance_player(p: Player, inp: Input) -> (r: Player)
    requires
        -REACH <= p.pos.x <= REACH,
        -REACH <= p.pos.z <= REACH,
    ensures
        r == advanced(p, inp),
        0 <= r.yaw < TURN,
        -STRIDE <= r.pos.x - p.pos.x <= STRIDE,
        -STRIDE <= r.pos.z - p.pos.z <= STRIDE,
        r.status == p.status,
{
    let dyaw: i32 = (inp.look_yaw as i64 * MAX_YAW_TURNS_PER_TICK as i64 / (Input::AXIS_SCALE
        as i64)) as i32;
    let yaw: i32 = wrap_wide(p.yaw as i64 + dyaw as i64);
    let (sin, cos) = sin_cos(yaw);
    let strafe: i64 = inp.move_strafe as i64;
    let forward: i64 = inp.move_forward as i64;
    proof {
        lemma_product_bound(sin as int, ONE as int, forward as int, 0x8000);
        lemma_product_bound(cos as int, ONE as int, strafe as int, 0x8000);
        lemma_product_bound(cos as int, ONE as int, forward as int, 0x8000);
        lemma_product_bound(sin as int, ONE as int, strafe as int, 0x8000);
    }
    let vx: i64 = sin * forward + cos * strafe;
    let vz: i64 = cos * forward - sin * strafe;
    let denom: i64 = 65_536_000;
    assert(denom == Input::AXIS_SCALE * ONE);
    let pos = Pos { x: p.pos.x + vx * PLAYER_SPEED / denom, z: p.pos.z + vz * PLAYER_SPEED / denom };
    Player { pos, yaw, status: p.status }
}

/// One player's tick.
fn tick_player(
    p: Player,
    inp: Input,
    craft: Option<PilotPose>,
    crabs: &[CrabPose],
    armed: bool,
    ex: Pos,
) -> (r: Player)
    requires
        -REACH <= p.pos.x <= REACH,
        -REACH <= p.pos.z <= REACH,
        craft matches Some(c) ==> pos_in_world(c.pos),
        crab_poses_in_world(pose_views(crabs@)),
        pos_bounded(ex),
    ensures
        r == ticked_player(p, inp, craft, pose_views(crabs@), armed, ex),
        craft is None ==> -STRIDE <= r.pos.x - p.pos.x <= STRIDE,
        craft is None ==> -STRIDE <= r.pos.z - p.pos.z <= STRIDE,
        craft matches Some(c) ==> r.pos == c.pos,
{
    let walked = if matches!(p.status, PlayerStatus::Alive) {
        advance_player(p, inp)
    } else {
        p
    };
    let (moved, piloting) = match craft {
        Some(c) => (Player { pos: c.pos, yaw: c.yaw, status: walked.status }, true),
        None => (walked, false),
    };
    if !matches!(moved.status, PlayerStatus::Alive) {
        return moved;
    }
    if armed && !piloting && any_claw_downs(crabs, moved.pos) {
        return Player { pos: moved.pos, yaw: moved.yaw, status: PlayerStatus::Downed };
    }
    if within(moved.pos.x, moved.pos.z, ex.x, ex.z, EXTRACT_RADIUS) && inp.pressed(buttons::ACTION) {
        return Player { pos: moved.pos, yaw: moved.yaw, status: PlayerStatus::Extracted };
    }
    moved
}

impl Sim {
    pub open spec fn wf(&self) -> bool {
        round_wf(self@)
    }

    pub open spec fn fits(&self) -> bool {
        round_fits(self@)
    }

    pub open spec fn in_world(&self) -> bool {
        round_in_world(self@)
    }

    /// The state a match opens with.
    pub open spec fn opening(seed: u64, players: Seq<PlayerId>, crabs: nat) -> RoundState {
        let start = MatchRng { seed, word: 0 };
        let (f, w) = drawn_frame(seed, 0);
        let js = drawn_jitters(seed, w, crabs).0;
        RoundState {
            tick: 0,
            players: party(f, in_order(players)),
            crabs: layout_crabs(f, in_order(players), js),
            extraction: objective(f),
            outcome: Outcome::Ongoing,
            rng: stream_after(start, crabs),
            restart_held: false,
            round_start: 0,
            frame: f,
            roster: in_order(players),
            crab_count: crabs,
        }
    }

    /// Open a match: everything about its layout comes off the stream of `seed`, and the order
    /// `players` come in does not matter. `None` where the crab's spot does not settle, which
    /// never happens to a party of [`SETTLING_PARTY`] or fewer.
    pub fn try_new(seed: u64, players: &[PlayerId]) -> (r: Option<Self>)
        ensures
            match r {
                Some(s) => {
                    &&& stream_settles(MatchRng { seed, word: 0 }, in_order(players@), 1)
                    &&& s@ == Self::opening(seed, players@, 1)
                    &&& s.wf()
                    &&& s.in_world()
                },
                None => !stream_settles(MatchRng { seed, word: 0 }, in_order(players@), 1),
            },
            in_order(players@).len() <= SETTLING_PARTY ==> r is Some,
    {
        let roster = sorted(players);
        let mut rng = MatchRng::seed_from_u64(seed);
        match draw_layout(&mut rng, roster.as_slice(), 1) {
            Some(_) => Some(Self::new(seed, players)),
            None => None,
        }
    }

    /// Open a match whose crab finds its spot.
    pub fn new(seed: u64, players: &[PlayerId]) -> (s: Self)
        requires
            stream_settles(MatchRng { seed, word: 0 }, in_order(players@), 1),
        ensures
            s@ == Self::opening(seed, players@, 1),
            s.wf(),
            s.in_world(),
    {
        let roster = sorted(players);
        let mut rng = MatchRng::seed_from_u64(seed);
        let l = draw_layout(&mut rng, roster.as_slice(), 1).unwrap();
        let s = Sim {
            tick: 0,
            players: l.players,
            crabs: l.crabs,
            extraction: l.extraction,
            outcome: Outcome::Ongoing,
            rng,
            restart_held: false,
            round_start: 0,
            spawn_frame: l.frame,
            roster,
            crab_count: 1,
        };
        proof {
            lemma_opened(s@);
        }
        s
    }

    /// Whether the next layout off this round's stream settles.
    fn next_layout_settles(&self, crabs: usize) -> (b: bool)
        requires
            self.fits(),
            crabs <= MAX_CRABS,
        ensures
            b == stream_settles(self@.rng, self@.roster, crabs as nat),
            self@.roster.len() <= SETTLING_PARTY ==> b,
    {
        let mut rng = self.rng;
        draw_layout(&mut rng, self.roster.as_slice(), crabs).is_some()
    }

    /// Lay the round out anew at its tick, off the next draws of its stream.
    fn reset(&mut self)
        requires
            old(self).fits(),
            old(self)@.crab_count <= MAX_CRABS,
            stream_settles(old(self)@.rng, old(self)@.roster, old(self)@.crab_count),
        ensures
            final(self)@ == reopened(old(self)@),
            final(self).wf(),
            final(self).in_world(),
    {
        let l = draw_layout(&mut self.rng, self.roster.as_slice(), self.crab_count).unwrap();
        self.round_start = self.tick;
        self.spawn_frame = l.frame;
        self.players = l.players;
        self.crabs = l.crabs;
        self.extraction = l.extraction;
        self.outcome = Outcome::Ongoing;
        proof {
            lemma_opened(self@);
        }
    }

    /// The state with its crab count set, before its first tick: the layout is drawn anew off
    /// the stream.
    pub open spec fn with_crabs(s: RoundState, crabs: nat) -> RoundState {
        RoundState { outcome: s.outcome, ..reopened(RoundState { crab_count: crabs, ..s }) }
    }

    /// Set how many crabs the round runs, before its first tick.
    pub fn configure_crabs(&mut self, crabs: usize)
        requires
            old(self).fits(),
            old(self)@.tick == 0,
            1 <= crabs <= MAX_CRABS,
            stream_settles(old(self)@.rng, old(self)@.roster, crabs as nat),
        ensures
            final(self)@ == Self::with_crabs(old(self)@, crabs as nat),
            final(self).wf(),
            final(self).in_world(),
    {
        let l = draw_layout(&mut self.rng, self.roster.as_slice(), crabs).unwrap();
        self.crab_count = crabs;
        self.spawn_frame = l.frame;
        self.players = l.players;
        self.crabs = l.crabs;
        self.extraction = l.extraction;
        proof {
            lemma_opened(self@);
        }
    }

    /// Set how many crabs the round runs, if that is still open and their spots settle;
    /// otherwise change nothing and say so.
    pub fn try_configure_crabs(&mut self, crabs: usize) -> (done: bool)
        requires
            old(self).wf(),
            old(self).fits(),
        ensures
            done == (old(self)@.tick == 0 && 1 <= crabs <= MAX_CRABS && stream_settles(
                old(self)@.rng,
                old(self)@.roster,
                crabs as nat,
            )),
            old(self)@.tick == 0 && 1 <= crabs <= MAX_CRABS && old(self)@.roster.len() <= SETTLING_PARTY ==> done,
            final(self)@ == (if done {
                Self::with_crabs(old(self)@, crabs as nat)
            } else {
                old(self)@
            }),
            final(self).wf(),
            final(self).fits(),
            done || old(self).in_world() ==> final(self).in_world(),
    {
        if self.tick == 0 && 1 <= crabs && crabs as u64 <= MAX_CRABS && self.next_layout_settles(crabs) {
            self.configure_crabs(crabs);
            true
        } else {
            false
        }
    }

    /// Put the crabs at the poses of the physics world.
    pub fn adopt_crab_poses(&mut self, crabs: &[CrabPose])
        requires
            old(self).wf(),
            crabs@.len() == old(self)@.crabs.len(),
        ensures
            final(self)@ == (RoundState { crabs: posed_crabs(pose_views(crabs@)), ..old(self)@ }),
            final(self).wf(),
            old(self).fits() && crab_poses_in_world(pose_views(crabs@)) ==> final(self).fits(),
    {
        let mut next: Vec<Crab> = Vec::new();
        let mut i: usize = 0;
        while i < crabs.len()
            invariant
                i <= crabs@.len(),
                next@ == posed_crabs(pose_views(crabs@)).take(i as int),
            decreases crabs@.len() - i,
        {
            next.push(Crab { pos: crabs[i].pos, yaw: crabs[i].yaw });
            i = i + 1;
            assert(next@ =~= posed_crabs(pose_views(crabs@)).take(i as int));
        }
        assert(next@ =~= posed_crabs(pose_views(crabs@)));
        self.crabs = next;
        assert(self@ == (RoundState { crabs: posed_crabs(pose_views(crabs@)), ..old(self)@ }));
    }

    pub fn has_player(&self, pid: PlayerId) -> (b: bool)
        requires
            self.wf(),
        ensures
            b == seated(self@.players, pid),
    {
        self.players.contains_key(pid)
    }

    /// Spawn a joiner into the live round, clear of every crab.
    pub fn spawn_joining_player(&mut self, pid: PlayerId)
        requires
            old(self).wf(),
            old(self).fits(),
        ensures
            final(self)@ == with_joiner(old(self)@, pid),
            final(self).wf(),
            final(self).fits(),
            old(self).in_world() ==> final(self).in_world(),
            !seated(old(self)@.players, pid) ==> clear_of_crabs(
                old(self)@.crabs,
                lookup(final(self)@.players, pid)->0.pos,
            ),
    {
        if self.players.contains_key(pid) {
            return;
        }
        let ghost before = self@;
        insert_sorted(&mut self.roster, pid);
        proof {
            lemma_with_id(before.roster, pid);
            lemma_ascending_len(self.roster@);
        }
        let mut idx: usize = 0;
        assert(self.roster@.contains(pid));
        while self.roster[idx] != pid
            invariant
                idx < self.roster.len(),
                self.roster@.contains(pid),
                forall|k: int| 0 <= k < idx ==> #[trigger] self.roster@[k] != pid,
            decreases self.roster@.len() - idx,
        {
            proof {
                let w = choose|w: int| 0 <= w < self.roster@.len() && self.roster@[w] == pid;
                assert(self.roster@[w] == pid);
            }
            idx = idx + 1;
        }
        proof {
            let c = position_in(self.roster@, pid);
            assert(self.roster@[idx as int] == pid);
            if c < idx {
                assert(self.roster@[c].0 < self.roster@[idx as int].0);
            } else if idx < c {
                assert(self.roster@[idx as int].0 < self.roster@[c].0);
            }
        }
        let n: i64 = self.roster.len() as i64;
        let x: i64 = (idx as i64 - n / 2) * SPAWN_SLOT_PITCH;
        let pos = nearest_clear_join_slot(&self.spawn_frame, self.crabs.as_slice(), x);
        let joiner = Player { pos, yaw: self.spawn_frame.rot, status: PlayerStatus::Alive };
        proof {
            lemma_put(before.players, pid, joiner);
            lemma_put_order(before.players, pid, joiner);
        }
        self.players.insert(pid, joiner);
        proof {
            assert(self@ == with_joiner(before, pid));
            if round_in_world(before) {
                assert forall|i: int| 0 <= i < self@.players.len() implies {
                    &&& -REACH <= (#[trigger] self@.players[i]).1.pos.x <= REACH
                    &&& -REACH <= self@.players[i].1.pos.z <= REACH
                } by {
                    let at = crate::player_map::put_at(before.players, pid);
                    if i < at {
                        assert(self@.players[i] == before.players[i]);
                    } else if i > at {
                        assert(self@.players[i] == before.players[i - 1]);
                    }
                }
            }
        }
    }

    /// Remove a departed player from the world and from the roster.
    pub fn despawn_departed_player(&mut self, pid: PlayerId)
        requires
            old(self).wf(),
        ensures
            final(self)@ == without_player(old(self)@, pid),
            final(self).wf(),
            old(self).fits() ==> final(self).fits(),
            old(self).in_world() ==> final(self).in_world(),
    {
        let ghost before = self@;
        proof {
            lemma_without(before.players, pid);
        }
        self.players.remove(pid);
        let mut rest: Vec<PlayerId> = Vec::new();
        let mut i: usize = 0;
        assert(before.roster.take(0) =~= Seq::<PlayerId>::empty());
        while i < self.roster.len()
            invariant
                i <= self.roster@.len(),
                self.roster@ == before.roster,
                rest@ == minus(before.roster.take(i as int), pid),
            decreases self.roster@.len() - i,
        {
            proof {
                assert(before.roster.take(i + 1).drop_last() =~= before.roster.take(i as int));
                assert(before.roster.take(i + 1).last() == before.roster[i as int]);
            }
            if self.roster[i] != pid {
                rest.push(self.roster[i]);
            }
            i = i + 1;
        }
        assert(before.roster.take(i as int) =~= before.roster);
        self.roster = rest;
        proof {
            assert(self@ == without_player(before, pid));
            lemma_without_player(before, pid);
        }
    }

    /// Whether anybody presses RESTART.
    fn any_restart(inputs: &PlayerMap<Input>) -> (b: bool)
        ensures
            b == restart_pressed(inputs@),
    {
        let mut i: usize = 0;
        while i < inputs.len()
            invariant
                i <= inputs@.len(),
                forall|k: int|
                    0 <= k < i ==> !pressing((#[trigger] inputs@[k]).1, buttons::RESTART),
            decreases inputs@.len() - i,
        {
            if inputs.value_at(i).pressed(buttons::RESTART) {
                assert(pressing(inputs@[i as int].1, buttons::RESTART));
                return true;
            }
            i = i + 1;
        }
        false
    }

    /// Won, lost, or still on.
    fn settle_outcome(&self) -> (o: Outcome)
        ensures
            o == settled_outcome(self@.players),
    {
        let mut all_down = true;
        let mut i: usize = 0;
        while i < self.players.len()
            invariant
                i <= self.players@.len(),
                forall|k: int|
                    0 <= k < i ==> !((#[trigger] self.players@[k]).1.status is Extracted),
                all_down <==> forall|k: int|
                    0 <= k < i ==> (#[trigger] self.players@[k]).1.status is Downed,
            decreases self.players@.len() - i,
        {
            match self.players.value_at(i).status {
                PlayerStatus::Extracted => {
                    assert(self.players@[i as int].1.status is Extracted);
                    return Outcome::Extracted;
                },
                PlayerStatus::Downed => {},
                PlayerStatus::Alive => {
                    all_down = false;
                },
            }
            i = i + 1;
        }
        if !self.players.is_empty() && all_down {
            Outcome::Wiped
        } else {
            Outcome::Ongoing
        }
    }

    /// Everybody's tick.
    fn tick_players(&mut self, inputs: &PlayerMap<Input>, externals: Externals<'_>)
        requires
            old(self).wf(),
            old(self).in_world(),
            inputs.wf(),
            inputs_complete(old(self)@, inputs@),
            externals.in_world(),
        ensures
            final(self)@ == (RoundState {
                players: ticked_players(
                    old(self)@,
                    inputs@,
                    pose_views(externals.crabs@),
                    pilot_entries(externals.pilots),
                ),
                ..old(self)@
            }),
            final(self).wf(),
            final(self).fits(),
    {
        let ghost before = self@;
        let ghost pilots = pilot_entries(externals.pilots);
        let ghost target = ticked_players(before, inputs@, pose_views(externals.crabs@), pilots);
        let armed: bool = self.tick - self.round_start > STARTUP_GRACE_TICKS;
        let mut i: usize = 0;
        while i < self.players.len()
            invariant
                i <= self.players@.len(),
                self.players@.len() == before.players.len(),
                target == ticked_players(before, inputs@, pose_views(externals.crabs@), pilots),
                pilots == pilot_entries(externals.pilots),
                self@ == (RoundState { players: self.players@, ..before }),
                forall|k: int| 0 <= k < i ==> #[trigger] self.players@[k] == target[k],
                forall|k: int|
                    i <= k < before.players.len() ==> #[trigger] self.players@[k]
                        == before.players[k],
                self.players.wf(),
                round_wf(before),
                round_in_world(before),
                inputs.wf(),
                inputs_complete(before, inputs@),
                externals.in_world(),
                armed == (before.tick > before.round_start + STARTUP_GRACE_TICKS),
            decreases self.players@.len() - i,
        {
            let id = self.players.key_at(i);
            let p = *self.players.value_at(i);
            assert(self.players@[i as int] == before.players[i as int]);
            assert(seated(inputs@, before.players[i as int].0));
            let inp = *inputs.get(id).unwrap();
            let craft: Option<PilotPose> = match externals.pilots {
                Some(m) => match m.get(id) {
                    Some(c) => Some(*c),
                    None => None,
                },
                None => None,
            };
            proof {
                assert(craft == lookup(pilots, id)) by {
                    if externals.pilots is None {
                        assert(!seated(pilots, id));
                    }
                }
                if craft is Some {
                    let k = seat_index(pilots, id);
                    assert(pos_in_world(pilots[k].1.pos));
                }
            }
            let next = tick_player(p, inp, craft, externals.crabs, armed, self.extraction.pos);
            assert(target[i as int] == (id, next));
            self.players.replace_at(i, next);
            i = i + 1;
        }
        assert(self.players@ =~= target);
    }

    /// One step of the round. Tells whether it restarted.
    pub fn step(&mut self, inputs: &PlayerMap<Input>, externals: Externals<'_>) -> (restarted: bool)
        requires
            old(self).wf(),
            old(self).in_world(),
            old(self)@.tick < u64::MAX,
            inputs.wf(),
            inputs_complete(old(self)@, inputs@),
            externals.crabs@.len() == old(self)@.crabs.len(),
            externals.in_world(),
            restart_edge(old(self)@, inputs@) ==> stream_settles(
                old(self)@.rng,
                old(self)@.roster,
                old(self)@.crab_count,
            ),
        ensures
            final(self)@ == stepped(
                old(self)@,
                inputs@,
                pose_views(externals.crabs@),
                pilot_entries(externals.pilots),
            ),
            restarted == restart_edge(old(self)@, inputs@),
            final(self).wf(),
            final(self).fits(),
            restarted ==> final(self).in_world(),
            players_within(old(self)@.players, REACH - STRIDE) ==> final(self).in_world(),
    {
        let ghost start = self@;
        self.adopt_crab_poses(externals.crabs);
        self.tick = self.tick + 1;
        let restart_now: bool = Self::any_restart(inputs);
        let edge: bool = restart_now && !self.restart_held;
        self.restart_held = restart_now;
        proof {
            assert(self@ == posed(start, inputs@, pose_views(externals.crabs@)));
            assert(round_wf(self@));
            if players_within(start.players, REACH - STRIDE) && !edge {
                lemma_step_widens(
                    start,
                    inputs@,
                    pose_views(externals.crabs@),
                    pilot_entries(externals.pilots),
                    REACH - STRIDE,
                );
            }
        }
        if edge {
            self.reset();
            return true;
        }
        if self.outcome != Outcome::Ongoing {
            return false;
        }
        self.tick_players(inputs, externals);
        self.outcome = self.settle_outcome();
        false
    }

    /// One step of the round, unless an input or a crab's pose is missing or it restarts onto a
    /// layout that does not settle: then nothing changes.
    pub fn try_step(&mut self, inputs: &PlayerMap<Input>, externals: Externals<'_>) -> (r: Option<
        bool,
    >)
        requires
            old(self).wf(),
            old(self).in_world(),
            old(self)@.tick < u64::MAX,
            inputs.wf(),
            externals.in_world(),
        ensures
            r is Some <==> {
                &&& inputs_complete(old(self)@, inputs@)
                &&& externals.crabs@.len() == old(self)@.crabs.len()
                &&& (restart_edge(old(self)@, inputs@) ==> stream_settles(
                    old(self)@.rng,
                    old(self)@.roster,
                    old(self)@.crab_count,
                ))
            },
            inputs_complete(old(self)@, inputs@) && externals.crabs@.len() == old(
                self,
            )@.crabs.len() && old(self)@.roster.len() <= SETTLING_PARTY ==> r is Some,
            match r {
                Some(restarted) => {
                    &&& restarted == restart_edge(old(self)@, inputs@)
                    &&& final(self)@ == stepped(
                        old(self)@,
                        inputs@,
                        pose_views(externals.crabs@),
                        pilot_entries(externals.pilots),
                    )
                },
                None => final(self)@ == old(self)@,
            },
            final(self).wf(),
            final(self).fits(),
            r is None || r == Some(true) || players_within(old(self)@.players, REACH - STRIDE)
                ==> final(self).in_world(),
    {
        if externals.crabs.len() != self.crabs.len() || !self.has_all_inputs(inputs) {
            return None;
        }
        if !self.restart_is_settled(inputs) {
            return None;
        }
        Some(self.step(inputs, externals))
    }

    /// Whether a step on these inputs would not restart the round onto a layout that does not
    /// settle.
    pub(crate) fn restart_is_settled(&self, inputs: &PlayerMap<Input>) -> (b: bool)
        requires
            self.wf(),
            self.fits(),
        ensures
            b == (restart_edge(self@, inputs@) ==> stream_settles(
                self@.rng,
                self@.roster,
                self@.crab_count,
            )),
            self@.roster.len() <= SETTLING_PARTY ==> b,
    {
        !Self::any_restart(inputs) || self.restart_held || self.next_layout_settles(
            self.crab_count,
        )
    }

    /// Whether every player of the round has an input.
    pub fn has_all_inputs(&self, inputs: &PlayerMap<Input>) -> (b: bool)
        requires
            inputs.wf(),
        ensures
            b == inputs_complete(self@, inputs@),
    {
        let mut i: usize = 0;
        while i < self.players.len()
            invariant
                i <= self.players@.len(),
                inputs.wf(),
                forall|k: int| 0 <= k < i ==> seated(inputs@, (#[trigger] self.players@[k]).0),
            decreases self.players@.len() - i,
        {
            if !inputs.contains_key(self.players.key_at(i)) {
                assert(!seated(inputs@, self@.players[i as int].0));
                return false;
            }
            i = i + 1;
        }
        true
    }

    /// Whether the round can be stepped and predicted: everybody is in range, the roster is in
    /// order and the counts fit. What a host shipped may fail this.
    pub fn is_in_world(&self) -> (b: bool)
        requires
            self.wf(),
        ensures
            b == self.in_world(),
    {
        if self.round_start > self.tick || self.roster.len() > 256 || self.crabs.len() as u64
            > MAX_CRABS || !spot_in_world(self.extraction.pos) {
            return false;
        }
        let mut i: usize = 0;
        while i < self.players.len()
            invariant
                i <= self.players@.len(),
                forall|k: int|
                    0 <= k < i ==> {
                        &&& -REACH <= (#[trigger] self@.players[k]).1.pos.x <= REACH
                        &&& -REACH <= self@.players[k].1.pos.z <= REACH
                    },
            decreases self.players@.len() - i,
        {
            let p = *self.players.value_at(i);
            if p.pos.x < -REACH || p.pos.x > REACH || p.pos.z < -REACH || p.pos.z > REACH {
                assert(self@.players[i as int].1 == p);
                return false;
            }
            i = i + 1;
        }
        let mut c: usize = 0;
        while c < self.crabs.len()
            invariant
                c <= self.crabs@.len(),
                forall|k: int| 0 <= k < c ==> pos_in_world((#[trigger] self@.crabs[k]).pos),
            decreases self.crabs@.len() - c,
        {
            if !spot_in_world(self.crabs[c].pos) {
                assert(!pos_in_world(self@.crabs[c as int].pos));
                return false;
            }
            c = c + 1;
        }
        let mut r: usize = 1;
        while r < self.roster.len()
            invariant
                1 <= r,
                r <= self.roster@.len() || r == 1,
                forall|i: int, j: int|
                    0 <= i < j < r && j < self.roster@.len() ==> (#[trigger] self@.roster[i]).0 < (
                    #[trigger] self@.roster[j]).0,
            decreases self.roster@.len() - r,
        {
            if self.roster[r - 1].0 >= self.roster[r].0 {
                assert(!(self@.roster[r - 1].0 < self@.roster[r as int].0));
                return false;
            }
            proof {
                assert forall|i: int, j: int|
                    0 <= i < j < r + 1 && j < self.roster@.len() implies (
                #[trigger] self@.roster[i]).0 < (#[trigger] self@.roster[j]).0 by {
                    if j == r && i < r - 1 {
                        assert(self@.roster[i].0 < self@.roster[r - 1].0);
                    }
                }
            }
            r = r + 1;
        }
        true
    }

    /// Walk one player ahead of the authoritative step.
    pub fn predict_player(&mut self, id: PlayerId, inp: Input)
        requires
            old(self).wf(),
            old(self).in_world(),
        ensures
            final(self)@ == predicted(old(self)@, id, inp),
            final(self).wf(),
            final(self).fits(),
            players_within(old(self)@.players, REACH - STRIDE) ==> final(self).in_world(),
    {
        if self.outcome != Outcome::Ongoing {
            return;
        }
        match self.players.position(id) {
            Some(i) => {
                let p = *self.players.value_at(i);
                assert(-REACH <= self@.players[i as int].1.pos.x <= REACH);
                if matches!(p.status, PlayerStatus::Alive) {
                    let next = advance_player(p, inp);
                    self.players.replace_at(i, next);
                }
            },
            None => {},
        }
    }

    /// The position of the living player nearest to a crab.
    pub fn nearest_living_player_pos(&self, crab: usize) -> (r: Option<Pos>)
        requires
            self.in_world(),
            crab < self@.crabs.len(),
        ensures
            match r {
                Some(p) => exists|k: int|
                    #![trigger self@.players[k]]
                    is_nearest_living(self@.players, self@.crabs[crab as int].pos, k) && p
                        == self@.players[k].1.pos,
                None => forall|k: int|
                    0 <= k < self@.players.len() ==> !((#[trigger] self@.players[k]).1.status is Alive),
            },
    {
        let c = self.crabs[crab].pos;
        assert(pos_in_world(self@.crabs[crab as int].pos));
        let mut best: Option<(i128, usize)> = None;
        let mut i: usize = 0;
        while i < self.players.len()
            invariant
                i <= self.players@.len(),
                self.in_world(),
                pos_in_world(c),
                match best {
                    Some((d2, k)) => {
                        &&& k < i
                        &&& self.players@[k as int].1.status is Alive
                        &&& d2 == dist2(self.players@[k as int].1.pos, c)
                        &&& forall|j: int|
                            0 <= j < i && (#[trigger] self.players@[j]).1.status is Alive ==> d2
                                <= dist2(self.players@[j].1.pos, c)
                        &&& forall|j: int|
                            0 <= j < k && (#[trigger] self.players@[j]).1.status is Alive ==> d2
                                < dist2(self.players@[j].1.pos, c)
                    },
                    None => forall|j: int|
                        0 <= j < i ==> !((#[trigger] self.players@[j]).1.status is Alive),
                },
            decreases self.players@.len() - i,
        {
            let p = *self.players.value_at(i);
            assert(-REACH <= self@.players[i as int].1.pos.x <= REACH);
            if matches!(p.status, PlayerStatus::Alive) {
                let d2: i128 = dist2_i128(p.pos.x - c.x, p.pos.z - c.z);
                let closer: bool = match best {
                    Some((b2, _)) => d2 < b2,
                    None => true,
                };
                if closer {
                    best = Some((d2, i));
                }
            }
            i = i + 1;
        }
        match best {
            Some((_, k)) => {
                assert(is_nearest_living(self@.players, c, k as int));
                let p = *self.players.value_at(k);
                assert(self@.players[k as int].1.pos == p.pos);
                Some(p.pos)
            },
            None => None,
        }
    }

    /// The digest that peers compare: exactly the state a snapshot ships.
    pub fn state_hash(&self) -> (h: u64)
        ensures
            h == state_digest(self@),
    {
        let mut out: Vec<u8> = Vec::new();
        push_u64(&mut out, self.tick);
        write_players(&mut out, &self.players);
        push_u32(&mut out, self.crabs.len() as u32);
        write_crabs(&mut out, self.crabs.as_slice());
        write_pos(&mut out, self.extraction.pos);
        out.push(self.outcome.tag());
        assert(out@ =~= state_bytes(self@));
        fnv_hash(out.as_slice())
    }

    /// The match's random stream.
    pub fn rng(&mut self) -> (r: &mut MatchRng)
        ensures
            *r == old(self)@.rng,
            final(self)@ == (RoundState { rng: *final(r), ..old(self)@ }),
    {
        &mut self.rng
    }

    pub fn tick(&self) -> (t: u64)
        ensures
            t == self@.tick,
    {
        self.tick
    }

    /// Everybody in the round, in seat order.
    pub fn players(&self) -> (v: Vec<(PlayerId, Player)>)
        ensures
            v@ == self@.players,
    {
        let mut v: Vec<(PlayerId, Player)> = Vec::new();
        let mut i: usize = 0;
        while i < self.players.len()
            invariant
                i <= self.players@.len(),
                v@ == self.players@.take(i as int),
            decreases self.players@.len() - i,
        {
            v.push((self.players.key_at(i), *self.players.value_at(i)));
            i = i + 1;
            assert(v@ =~= self.players@.take(i as int));
        }
        assert(v@ =~= self.players@);
        v
    }

    pub fn player(&self, id: PlayerId) -> (r: Option<Player>)
        requires
            self.wf(),
        ensures
            r == lookup(self@.players, id),
    {
        match self.players.get(id) {
            Some(p) => Some(*p),
            None => None,
        }
    }

    pub fn crabs(&self) -> (c: &[Crab])
        ensures
            c@ == self@.crabs,
    {
        self.crabs.as_slice()
    }

    pub fn extraction(&self) -> (e: ExtractionPoint)
        ensures
            e == self@.extraction,
    {
        self.extraction
    }

    pub fn outcome(&self) -> (o: Outcome)
        ensures
            o == self@.outcome,
    {
        self.outcome
    }

    /// The frame that the round was laid out on.
    pub fn spawn_frame(&self) -> (f: SpawnFrame)
        ensures
            f == self@.frame,
    {
        self.spawn_frame
    }

    /// The tick the round last opened at.
    pub fn round_start(&self) -> (t: u64)
        ensures
            t == self@.round_start,
    {
        self.round_start
    }

    /// The state a host ships; the watermarks are the server's to stamp.
    pub fn core_snapshot(&self) -> (c: CoreSnapshot)
        requires
            self.wf(),
        ensures
            c@ == snapshot_view(self@),
            c.wf(),
    {
        let mut roster: Vec<PlayerId> = Vec::new();
        let mut i: usize = 0;
        while i < self.roster.len()
            invariant
                i <= self.roster@.len(),
                roster@ == self.roster@.take(i as int),
            decreases self.roster@.len() - i,
        {
            roster.push(self.roster[i]);
            i = i + 1;
            assert(roster@ =~= self.roster@.take(i as int));
        }
        assert(roster@ =~= self.roster@);
        let mut crabs: Vec<Crab> = Vec::new();
        let mut j: usize = 0;
        while j < self.crabs.len()
            invariant
                j <= self.crabs@.len(),
                crabs@ == self.crabs@.take(j as int),
            decreases self.crabs@.len() - j,
        {
            crabs.push(self.crabs[j]);
            j = j + 1;
            assert(crabs@ =~= self.crabs@.take(j as int));
        }
        assert(crabs@ =~= self.crabs@);
        CoreSnapshot {
            tick: self.tick,
            players: self.players.copied(),
            crabs,
            extraction: self.extraction.pos,
            outcome: self.outcome,
            roster,
            input_next: PlayerMap::new(),
        }
    }

    /// Adopt what a host shipped.
    pub fn apply_core_snapshot(&mut self, snapshot: CoreSnapshot)
        requires
            old(self).wf(),
            snapshot.wf(),
        ensures
            final(self)@ == adopting(old(self)@, snapshot@),
            final(self).wf(),
    {
        self.tick = snapshot.tick;
        self.players = snapshot.players;
        self.crab_count = snapshot.crabs.len();
        self.crabs = snapshot.crabs;
        self.extraction = ExtractionPoint { pos: snapshot.extraction };
        self.outcome = snapshot.outcome;
        self.roster = snapshot.roster;
    }
}

} // verus!
