//! The round as a player's machine runs it: its controls, what it adopts of the host's
//! ticks, what a hosting machine does each tick, and what is reported.

use crate::client::{PeerMsg, PilotIntent, TickMsg, VehicleKind};
use crate::player_map::{ascending, lemma_lookup_at, lookup, put, seated, PlayerId, PlayerMap};
use crate::render::articulation::CrabArticulation;
use crate::server::host::{
    all_recorded, current_roster, lemma_mirrored, not_stepped, restart_settles, snapshot_after,
    synced, world_after, Server, ServerState,
};
use crate::server::laws::lemma_shipped_snapshot_reads_back;
use crate::sim::buttons;
use crate::sim::entities::{
    crab_poses_in_world, pose_views, pos_in_world, Crab, CrabPose, Outcome,
    PilotPose, Player, PlayerStatus,
};
use crate::sim::geometry::Pos;
use crate::sim::input::{masked, Input};
use crate::sim::round::{adopting, restart_edge, round_in_world, RoundState, Sim};
use crate::sim::spawn::SETTLING_PARTY;
use crate::snapshot::{snapshot_bytes, CoreSnapshot};
use crate::telemetry::{next_sample_tick, TELEMETRY_TICK_EVERY};
use crate::text::{decimal, push_decimal, push_text, texts};
use vstd::prelude::*;
use vstd::string::*;

verus! {

/// The most ticks that a frame runs.
pub const MAX_TICKS_PER_FRAME: u32 = 8;

/// With more snapshots than this in hand the machine catches up.
pub const JITTER_BUF_MAX: usize = 3;

/// Caught up, this many are left in hand.
pub const JITTER_BUF_TARGET: usize = 1;

/// How many snapshots a tick adopts: none of none, one while they are few, and all but the
/// target once they are many.
pub open spec fn taken(buffered: nat) -> nat {
    if buffered > JITTER_BUF_MAX {
        (buffered - JITTER_BUF_TARGET) as nat
    } else if buffered > 0 {
        1
    } else {
        0
    }
}

pub fn jitter_take(buffered: usize) -> (n: usize)
    ensures
        n == taken(buffered as nat),
        n <= buffered,
{
    if buffered > JITTER_BUF_MAX {
        buffered - JITTER_BUF_TARGET
    } else if buffered > 0 {
        1
    } else {
        0
    }
}

/// However many snapshots arrive, no more than the margin are ever left in hand, and as long
/// as any is there one is adopted.
pub proof fn lemma_jitter_is_bounded(buffered: nat)
    ensures
        buffered - taken(buffered) <= JITTER_BUF_MAX,
        buffered > 0 ==> taken(buffered) >= 1,
        taken(buffered) <= buffered,
{
}

/// A change of craft that was asked for.
#[derive(Debug, Clone, Copy, PartialEq, Eq, Structural)]
pub enum VehicleRequest {
    Board(VehicleKind),
    Exit,
}

/// Where the controls go.
#[derive(Debug, Clone, Copy, PartialEq, Eq, Structural)]
pub enum GcrContext {
    Menu,
    OnFoot,
    Plane,
    Ship,
}

/// The local player's craft.
#[derive(Debug, Clone, Copy, PartialEq, Eq, Structural)]
pub enum LocalVehicle {
    OnFoot,
    Flying(VehicleKind),
}

/// The craft after a request: boarding from foot takes leave, changing craft does not, and
/// asking for the craft at hand changes nothing.
pub open spec fn vehicle_after(
    v: LocalVehicle,
    request: Option<VehicleRequest>,
    may_board: bool,
) -> LocalVehicle {
    match request {
        Some(VehicleRequest::Board(kind)) => if v is Flying || may_board {
            LocalVehicle::Flying(kind)
        } else {
            v
        },
        Some(VehicleRequest::Exit) => LocalVehicle::OnFoot,
        None => v,
    }
}

impl LocalVehicle {
    /// The craft's kind.
    pub open spec fn kind_of(self) -> Option<VehicleKind> {
        match self {
            LocalVehicle::OnFoot => None,
            LocalVehicle::Flying(k) => Some(k),
        }
    }

    pub fn kind(self) -> (k: Option<VehicleKind>)
        ensures
            k == self.kind_of(),
    {
        match self {
            LocalVehicle::OnFoot => None,
            LocalVehicle::Flying(k) => Some(k),
        }
    }

    /// Where the controls go.
    pub fn context(self) -> (c: GcrContext)
        ensures
            c == (match self {
                LocalVehicle::OnFoot => GcrContext::OnFoot,
                LocalVehicle::Flying(VehicleKind::Plane) => GcrContext::Plane,
                LocalVehicle::Flying(VehicleKind::Ship) => GcrContext::Ship,
            }),
    {
        match self {
            LocalVehicle::OnFoot => GcrContext::OnFoot,
            LocalVehicle::Flying(VehicleKind::Plane) => GcrContext::Plane,
            LocalVehicle::Flying(VehicleKind::Ship) => GcrContext::Ship,
        }
    }

    /// Carry out a request. Tells whether the craft changed: its poses then start anew.
    pub fn apply_vehicle_request(
        &mut self,
        request: Option<VehicleRequest>,
        may_board: bool,
    ) -> (changed: bool)
        ensures
            *final(self) == vehicle_after(*old(self), request, may_board),
            changed == (*final(self) != *old(self)),
    {
        let before: LocalVehicle = *self;
        match request {
            Some(VehicleRequest::Board(kind)) => {
                let flying: bool = match before {
                    LocalVehicle::Flying(_) => true,
                    LocalVehicle::OnFoot => false,
                };
                if flying || may_board {
                    *self = LocalVehicle::Flying(kind);
                }
            },
            Some(VehicleRequest::Exit) => {
                *self = LocalVehicle::OnFoot;
            },
            None => {},
        }
        *self != before
    }
}

/// How a plane is flown. The controls are the bit patterns of single-precision values.
#[derive(Debug, Clone, Copy, PartialEq, Eq)]
pub struct PlaneControl {
    pub throttle_trim: u32,
    pub pitch: u32,
    pub roll: u32,
    pub yaw: u32,
}

/// How a ship is flown.
#[derive(Debug, Clone, Copy, PartialEq, Eq)]
pub struct ShipControl {
    pub thrust: [u32; 3],
    pub pitch: u32,
    pub roll: u32,
    pub yaw: u32,
    pub match_velocity: bool,
}

/// The controls of a craft: none that its kind does not have.
#[derive(Debug, Clone, Copy, PartialEq, Eq)]
pub enum FlightControl {
    Plane(PlaneControl),
    Ship(ShipControl),
}

/// The local player's controls for a tick.
#[derive(Debug, Clone, Copy, PartialEq, Eq)]
pub enum LocalControl {
    OnFoot(Input),
    Piloting { control: FlightControl, foot: Input },
}

/// How the player flies, as it goes on the wire.
pub open spec fn intent_of(c: FlightControl) -> PilotIntent {
    match c {
        FlightControl::Plane(p) => PilotIntent {
            kind: VehicleKind::Plane,
            throttle_trim: p.throttle_trim,
            thrust: [0u32, 0u32, 0u32],
            pitch: p.pitch,
            roll: p.roll,
            yaw: p.yaw,
            match_velocity: false,
        },
        FlightControl::Ship(s) => PilotIntent {
            kind: VehicleKind::Ship,
            throttle_trim: 0,
            thrust: s.thrust,
            pitch: s.pitch,
            roll: s.roll,
            yaw: s.yaw,
            match_velocity: s.match_velocity,
        },
    }
}

impl LocalControl {
    /// The input that the world gets: a pilot's is masked.
    pub fn sim_input(&self) -> (i: Input)
        ensures
            i == (match *self {
                LocalControl::OnFoot(input) => input,
                LocalControl::Piloting { control, foot } => masked(foot),
            }),
    {
        match self {
            LocalControl::OnFoot(input) => *input,
            LocalControl::Piloting { control, foot } => foot.pilot_masked(),
        }
    }

    /// How the player flies, if it does.
    pub fn pilot_intent(&self) -> (r: Option<PilotIntent>)
        ensures
            match *self {
                LocalControl::OnFoot(input) => r is None,
                LocalControl::Piloting { control, foot } => r == Some(intent_of(control)),
            },
    {
        match self {
            LocalControl::OnFoot(_) => None,
            LocalControl::Piloting { control, foot } => {
                match control {
                    FlightControl::Plane(p) => {
                        let thrust: [u32; 3] = [0, 0, 0];
                        Some(
                            PilotIntent {
                                kind: VehicleKind::Plane,
                                throttle_trim: p.throttle_trim,
                                thrust,
                                pitch: p.pitch,
                                roll: p.roll,
                                yaw: p.yaw,
                                match_velocity: false,
                            },
                        )
                    },
                    FlightControl::Ship(s) => Some(
                        PilotIntent {
                            kind: VehicleKind::Ship,
                            throttle_trim: 0,
                            thrust: s.thrust,
                            pitch: s.pitch,
                            roll: s.roll,
                            yaw: s.yaw,
                            match_velocity: s.match_velocity,
                        },
                    ),
                }
            },
        }
    }
}

/// What was pressed since the last tick.
#[derive(Debug, Clone, Copy, PartialEq, Eq, Structural)]
pub struct PendingTaps {
    pub action: bool,
    pub restart: bool,
}

impl PendingTaps {
    /// The buttons of the tick. Each press counts for one tick.
    pub fn drain(&mut self) -> (b: u8)
        ensures
            *final(self) == (PendingTaps { action: false, restart: false }),
            b == (if old(self).action {
                buttons::ACTION as int
            } else {
                0
            }) + (if old(self).restart {
                buttons::RESTART as int
            } else {
                0
            }),
    {
        let a: u8 = if self.action {
            buttons::ACTION
        } else {
            0
        };
        let r: u8 = if self.restart {
            buttons::RESTART
        } else {
            0
        };
        self.action = false;
        self.restart = false;
        a + r
    }
}

/// The input of everybody but the host, all alike, at a tick.
pub open spec fn pack_msgs(
    roster: Seq<PlayerId>,
    me: PlayerId,
    issue_tick: u64,
    bot: Input,
) -> Seq<PeerMsg>
    decreases roster.len(),
{
    if roster.len() == 0 {
        Seq::empty()
    } else {
        let rest = pack_msgs(roster.drop_last(), me, issue_tick, bot);
        if roster.last() == me {
            rest
        } else {
            rest.push(
                PeerMsg {
                    pid: roster.last(),
                    msg: TickMsg { issue_tick, input: bot, pilot: None },
                },
            )
        }
    }
}

/// File a scripted input for everybody but the host.
pub fn drive_pack(server: &mut Server, me: PlayerId, issue_tick: u64, bot: Input)
    requires
        old(server).wf(),
        issue_tick < u64::MAX,
    ensures
        final(server)@ == all_recorded(
            old(server)@,
            pack_msgs(current_roster(old(server)@), me, issue_tick, bot),
        ),
        final(server).wf(),
{
    let mut msgs: Vec<PeerMsg> = Vec::new();
    {
        let ids = server.roster();
        let mut i: usize = 0;
        while i < ids.len()
            invariant
                i <= ids@.len(),
                issue_tick < u64::MAX,
                msgs@ == pack_msgs(ids@.take(i as int), me, issue_tick, bot),
                forall|k: int|
                    0 <= k < msgs@.len() ==> (#[trigger] msgs@[k]).msg.issue_tick < u64::MAX,
            decreases ids@.len() - i,
        {
            proof {
                assert(ids@.take(i + 1).drop_last() =~= ids@.take(i as int));
                assert(ids@.take(i + 1).last() == ids@[i as int]);
            }
            if ids[i] != me {
                msgs.push(
                    PeerMsg {
                        pid: ids[i],
                        msg: TickMsg { issue_tick, input: bot, pilot: None },
                    },
                );
            }
            i = i + 1;
        }
        assert(ids@.take(i as int) =~= ids@);
    }
    server.seed_early(msgs.as_slice());
}

/// What the host sent that is not adopted yet.
#[derive(Debug)]
pub struct AdoptBuffers {
    snapshots: Vec<CoreSnapshot>,
    articulations: Vec<CrabArticulation>,
    stalled: bool,
}

/// How many of the articulations at the front are of ticks adopted by now.
pub open spec fn due_count(arts: Seq<CrabArticulation>, tick: u64) -> nat
    decreases arts.len(),
{
    if arts.len() == 0 || arts[0].tick > tick {
        0
    } else {
        1 + due_count(arts.skip(1), tick)
    }
}

proof fn lemma_due_count(arts: Seq<CrabArticulation>, tick: u64, k: int)
    requires
        0 <= k <= arts.len(),
        forall|i: int| 0 <= i < k ==> (#[trigger] arts[i]).tick <= tick,
        k == arts.len() || arts[k].tick > tick,
    ensures
        due_count(arts, tick) == k,
    decreases arts.len(),
{
    if k > 0 {
        assert(arts[0].tick <= tick);
        let r = arts.skip(1);
        assert forall|i: int| 0 <= i < k - 1 implies (#[trigger] r[i]).tick <= tick by {
            assert(arts[i + 1].tick <= tick);
        }
        lemma_due_count(r, tick, k - 1);
    }
}

impl AdoptBuffers {
    /// The snapshots in hand.
    pub closed spec fn snaps(&self) -> Seq<CoreSnapshot> {
        self.snapshots@
    }

    /// The articulations in hand.
    pub closed spec fn arts(&self) -> Seq<CrabArticulation> {
        self.articulations@
    }

    /// The last tick had nothing to adopt.
    pub closed spec fn is_stalled(&self) -> bool {
        self.stalled
    }

    /// Nothing in hand.
    pub fn new() -> (b: Self)
        ensures
            b.snaps().len() == 0,
            b.arts().len() == 0,
            !b.is_stalled(),
    {
        AdoptBuffers { snapshots: Vec::new(), articulations: Vec::new(), stalled: false }
    }

    /// Whether the clock is to hold at the end of the last tick.
    pub fn stalled(&self) -> (b: bool)
        ensures
            b == self.is_stalled(),
    {
        self.stalled
    }

    /// Take in what an exchange brought.
    pub fn receive(&mut self, snapshots: Vec<CoreSnapshot>, articulations: Vec<CrabArticulation>)
        ensures
            final(self).snaps() == old(self).snaps() + snapshots@,
            final(self).arts() == old(self).arts() + articulations@,
            final(self).is_stalled() == old(self).is_stalled(),
    {
        let mut s = snapshots;
        let mut a = articulations;
        self.snapshots.append(&mut s);
        self.articulations.append(&mut a);
    }

    /// Hand out the snapshots of this tick, oldest first.
    pub fn release(&mut self) -> (out: Vec<CoreSnapshot>)
        ensures
            ({
                let n = taken(old(self).snaps().len());
                &&& out@ == old(self).snaps().take(n as int)
                &&& final(self).snaps() == old(self).snaps().skip(n as int)
                &&& final(self).is_stalled() == (n == 0)
            }),
            final(self).arts() == old(self).arts(),
    {
        let n: usize = jitter_take(self.snapshots.len());
        self.stalled = n == 0;
        let ghost all = self.snapshots@;
        let rest = self.snapshots.split_off(n);
        let mut out = rest;
        std::mem::swap(&mut out, &mut self.snapshots);
        assert(out@ =~= all.take(n as int));
        assert(self.snapshots@ =~= all.skip(n as int));
        out
    }

    /// Hand out the last articulation that is due once `adopted_tick` is adopted; those
    /// before it are dropped.
    pub fn due_articulation(&mut self, adopted_tick: u64) -> (r: Option<CrabArticulation>)
        ensures
            ({
                let n = due_count(old(self).arts(), adopted_tick);
                &&& n <= old(self).arts().len()
                &&& final(self).arts() == old(self).arts().skip(n as int)
                &&& match r {
                    Some(a) => n > 0 && a == old(self).arts()[n - 1],
                    None => n == 0,
                }
            }),
            final(self).snaps() == old(self).snaps(),
            final(self).is_stalled() == old(self).is_stalled(),
    {
        let ghost all = self.articulations@;
        let mut found: Option<CrabArticulation> = None;
        let ghost mut k: int = 0;
        assert(all.skip(0) =~= all);
        while self.articulations.len() > 0 && self.articulations[0].tick <= adopted_tick
            invariant
                0 <= k <= all.len(),
                self.articulations@ == all.skip(k),
                self.snapshots == old(self).snapshots,
                self.stalled == old(self).stalled,
                all == old(self).articulations@,
                forall|i: int| 0 <= i < k ==> (#[trigger] all[i]).tick <= adopted_tick,
                match found {
                    Some(a) => k > 0 && a == all[k - 1],
                    None => k == 0,
                },
            decreases self.articulations@.len(),
        {
            assert(self.articulations@[0] == all[k]);
            let a = self.articulations.remove(0);
            found = Some(a);
            proof {
                assert(self.articulations@ =~= all.skip(k + 1));
                k = k + 1;
            }
        }
        proof {
            if k < all.len() {
                assert(self.articulations@[0] == all[k]);
            }
            lemma_due_count(all, adopted_tick, k);
        }
        found
    }
}

/// Nothing that the host sends is lost or reordered on its way to being adopted.
pub proof fn lemma_snapshots_adopt_in_order(before: Seq<CoreSnapshot>)
    ensures
        before.take(taken(before.len()) as int) + before.skip(taken(before.len()) as int)
            == before,
{
    assert(before.take(taken(before.len()) as int) + before.skip(taken(before.len()) as int)
        =~= before);
}

/// The latch on a round's decision: reported once for each.
#[derive(Debug, Clone, Copy, PartialEq, Eq, Structural)]
pub struct DecisionLatch {
    pub reported: bool,
}

impl DecisionLatch {
    /// A tick went by with this outcome: a live round is to be reported anew.
    pub fn saw(&mut self, outcome: Outcome)
        ensures
            final(self).reported == (old(self).reported && outcome != Outcome::Ongoing),
    {
        if outcome == Outcome::Ongoing {
            self.reported = false;
        }
    }

    /// Whether the outcome at a frame's end is to be reported now.
    pub fn decide(&mut self, outcome: Outcome) -> (report: bool)
        ensures
            report == (outcome != Outcome::Ongoing && !old(self).reported),
            final(self).reported == (old(self).reported || outcome != Outcome::Ongoing),
    {
        let report: bool = outcome != Outcome::Ongoing && !self.reported;
        if report {
            self.reported = true;
        }
        report
    }
}

/// The world after snapshots were adopted in turn.
pub open spec fn all_adopted(w: RoundState, snaps: Seq<CoreSnapshot>) -> RoundState
    decreases snaps.len(),
{
    if snaps.len() == 0 {
        w
    } else {
        adopting(all_adopted(w, snaps.drop_last()), snaps.last()@)
    }
}

/// No round was live in any of these ticks.
pub open spec fn none_live(snaps: Seq<CoreSnapshot>) -> bool {
    forall|i: int| 0 <= i < snaps.len() ==> (#[trigger] snaps[i]).outcome != Outcome::Ongoing
}

/// What a client took up in a tick.
#[derive(Debug)]
pub struct Adoption {
    /// Something was adopted: what was predicted is to be reconciled.
    pub adopted: bool,
    /// The poses that are due with it.
    pub articulation: Option<CrabArticulation>,
}

/// One tick of a client: what an exchange brought joins what is in hand, the snapshots of
/// this tick are adopted in turn, and the poses of the adopted tick fall due. A tick with
/// nothing to adopt is a stall: poses wait too.
pub fn adopt_tick(
    sim: &mut Sim,
    latch: &mut DecisionLatch,
    buffers: &mut AdoptBuffers,
    snapshots: Vec<CoreSnapshot>,
    articulations: Vec<CrabArticulation>,
) -> (a: Adoption)
    requires
        old(sim).wf(),
        forall|i: int| 0 <= i < old(buffers).snaps().len() ==> (#[trigger] old(buffers).snaps()[i]).wf(),
        forall|i: int| 0 <= i < snapshots@.len() ==> (#[trigger] snapshots@[i]).wf(),
    ensures
        final(sim).wf(),
        ({
            let snaps = old(buffers).snaps() + snapshots@;
            let arts = old(buffers).arts() + articulations@;
            let now = snaps.take(taken(snaps.len()) as int);
            let due = due_count(arts, final(sim)@.tick);
            &&& final(sim)@ == all_adopted(old(sim)@, now)
            &&& final(latch).reported == (old(latch).reported && none_live(now))
            &&& final(buffers).snaps() == snaps.skip(taken(snaps.len()) as int)
            &&& final(buffers).is_stalled() == (now.len() == 0)
            &&& a.adopted == (now.len() > 0)
            &&& if now.len() == 0 {
                final(buffers).arts() == arts && a.articulation is None
            } else {
                &&& final(buffers).arts() == arts.skip(due as int)
                &&& match a.articulation {
                    Some(x) => 0 < due <= arts.len() && x == arts[due - 1],
                    None => due == 0,
                }
            }
        }),
        forall|i: int|
            0 <= i < final(buffers).snaps().len() ==> (#[trigger] final(buffers).snaps()[i]).wf(),
{
    let ghost all = buffers.snaps() + snapshots@;
    assert forall|i: int| 0 <= i < all.len() implies (#[trigger] all[i]).wf() by {
        if i < buffers.snaps().len() {
            assert(all[i] == buffers.snaps()[i]);
        } else {
            assert(all[i] == snapshots@[i - buffers.snaps().len()]);
        }
    }
    buffers.receive(snapshots, articulations);
    let mut now = buffers.release();
    let ghost due_now = now@;
    if now.len() == 0 {
        return Adoption { adopted: false, articulation: None };
    }
    let ghost mut k: int = 0;
    assert(due_now.skip(0) =~= due_now);
    assert(due_now.take(0) =~= Seq::empty());
    while now.len() > 0
        invariant
            0 <= k <= due_now.len(),
            now@ == due_now.skip(k),
            sim.wf(),
            forall|i: int| 0 <= i < due_now.len() ==> (#[trigger] due_now[i]).wf(),
            sim@ == all_adopted(old(sim)@, due_now.take(k)),
            latch.reported == (old(latch).reported && none_live(due_now.take(k))),
        decreases now@.len(),
    {
        assert(now@[0] == due_now[k]);
        let s = now.remove(0);
        let outcome: Outcome = s.outcome;
        sim.apply_core_snapshot(s);
        latch.saw(outcome);
        proof {
            let t = due_now.take(k + 1);
            assert(t.drop_last() =~= due_now.take(k));
            assert(t.last() == due_now[k]);
            assert(none_live(t) == (none_live(due_now.take(k)) && due_now[k].outcome
                != Outcome::Ongoing)) by {
                if none_live(t) {
                    assert forall|i: int| 0 <= i < k implies (#[trigger] due_now.take(k)[i]).outcome
                        != Outcome::Ongoing by {
                        assert(t[i].outcome != Outcome::Ongoing);
                    }
                    assert(t[k].outcome != Outcome::Ongoing);
                }
            }
            assert(now@ =~= due_now.skip(k + 1));
            k = k + 1;
        }
    }
    assert(due_now.take(k) =~= due_now);
    let articulation = buffers.due_articulation(sim.tick());
    Adoption { adopted: true, articulation }
}

/// However many snapshots a tick adopts, the last one decides the world.
pub proof fn lemma_last_snapshot_decides(w: RoundState, snaps: Seq<CoreSnapshot>)
    requires
        snaps.len() > 0,
    ensures
        all_adopted(w, snaps) == adopting(w, snaps.last()@),
    decreases snaps.len(),
{
    reveal_with_fuel(all_adopted, 2);
    if snaps.len() > 1 {
        lemma_last_snapshot_decides(w, snaps.drop_last());
    }
}

/// A tick of a hosted round.
#[derive(Debug)]
pub struct HostTick {
    /// What goes to every client.
    pub bytes: Vec<u8>,
    /// The same, for our own client.
    pub snapshot: CoreSnapshot,
    /// Where the crabs start, if the round started anew.
    pub spawns: Option<Vec<Pos>>,
}

/// Where crabs are.
pub open spec fn crab_spots(crabs: Seq<Crab>) -> Seq<Pos> {
    Seq::new(crabs.len(), |i: int| crabs[i].pos)
}

fn crab_positions(crabs: &[Crab]) -> (v: Vec<Pos>)
    ensures
        v@ == crab_spots(crabs@),
{
    let mut out: Vec<Pos> = Vec::new();
    let mut i: usize = 0;
    while i < crabs.len()
        invariant
            i <= crabs@.len(),
            out@ == crab_spots(crabs@.take(i as int)),
        decreases crabs@.len() - i,
    {
        out.push(crabs[i].pos());
        i = i + 1;
        assert(out@ =~= crab_spots(crabs@.take(i as int)));
    }
    assert(crabs@.take(i as int) =~= crabs@);
    out
}

/// The tick that comes up can be stepped.
pub open spec fn can_step(s: ServerState, crabs: nat) -> bool {
    &&& s.pending is Some
    &&& (crabs == 0 || crabs == s.sim.crabs.len())
    &&& restart_settles(s)
}

/// Step the tick that a host has ready: the snapshot goes out and is adopted here as it was
/// sent, the latch sees its outcome, and a round that starts anew says where its crabs
/// start. `None` where there is no tick that can be stepped.
pub fn host_tick(
    server: &mut Server,
    latch: &mut DecisionLatch,
    crabs: &[CrabPose],
    pilots: PlayerMap<PilotPose>,
) -> (r: Option<HostTick>)
    requires
        old(server).wf(),
        round_in_world(old(server)@.sim),
        0 < old(server)@.sim.crabs.len() <= u32::MAX,
        crab_poses_in_world(pose_views(crabs@)),
        pilots.wf(),
        forall|i: int|
            0 <= i < pilots@.len() ==> pos_in_world((#[trigger] pilots@[i]).1.pos),
    ensures
        final(server).wf(),
        r is Some <==> can_step(old(server)@, crabs@.len()),
        old(server)@.pending is Some && (crabs@.len() == 0 || crabs@.len()
            == old(server)@.sim.crabs.len()) && synced(old(server)@).roster.len()
            <= SETTLING_PARTY ==> r is Some,
        match r {
            Some(t) => {
                let world = world_after(old(server)@, pose_views(crabs@), pilots@);
                &&& final(server)@ == (ServerState { sim: world, pending: None, ..old(server)@ })
                &&& t.snapshot@ == snapshot_after(old(server)@, pose_views(crabs@), pilots@)
                &&& t.snapshot.wf()
                &&& t.bytes@ == snapshot_bytes(t.snapshot@)
                &&& final(latch).reported == (old(latch).reported && world.outcome
                    != Outcome::Ongoing)
                &&& match t.spawns {
                    Some(v) => restart_edge(
                        synced(old(server)@),
                        old(server)@.pending->0.inputs,
                    ) && v@ == crab_spots(world.crabs),
                    None => !restart_edge(synced(old(server)@), old(server)@.pending->0.inputs),
                }
            },
            None => {
                &&& *final(latch) == *old(latch)
                &&& final(server)@ == not_stepped(old(server)@, crabs@.len())
            },
        },
{
    let ghost start = server@;
    let ghost fed = pose_views(crabs@);
    let ghost flown = pilots@;
    match server.try_step_next(crabs, pilots) {
        None => None,
        Some(stepped) => {
            proof {
                lemma_mirrored(
                    start.sim,
                    crate::roster::roster_at(start.roster, start.sim.tick),
                );
                let w = world_after(start, fed, flown);
                assert(w.crab_count == start.sim.crab_count);
                lemma_shipped_snapshot_reads_back(start, fed, flown);
            }
            let decoded = CoreSnapshot::from_bytes(stepped.snapshot.as_slice());
            match decoded {
                Err(_) => {
                    assert(false);
                    None
                },
                Ok(snapshot) => {
                    latch.saw(snapshot.outcome);
                    let spawns = if stepped.restarted {
                        Some(crab_positions(server.sim().crabs()))
                    } else {
                        None
                    };
                    Some(HostTick { bytes: stepped.snapshot, snapshot, spawns })
                },
            }
        },
    }
}

/// A pilot's command: how it flies, and where its walker stands now and stood before.
#[derive(Debug, Clone, Copy, PartialEq, Eq)]
pub struct Boarding {
    pub pilot: PlayerId,
    pub intent: PilotIntent,
    pub now: Player,
    pub prev: Player,
}

/// The commands of all pilots who are in the world; one that was not there before counts as
/// standing still.
pub open spec fn boardings(
    intents: Seq<(PlayerId, PilotIntent)>,
    players: Seq<(PlayerId, Player)>,
    before: Seq<(PlayerId, Player)>,
) -> Seq<Boarding>
    decreases intents.len(),
{
    if intents.len() == 0 {
        Seq::empty()
    } else {
        let (id, intent) = intents.last();
        let rest = boardings(intents.drop_last(), players, before);
        match lookup(players, id) {
            Some(now) => rest.push(
                Boarding {
                    pilot: id,
                    intent,
                    now,
                    prev: match lookup(before, id) {
                        Some(p) => p,
                        None => now,
                    },
                },
            ),
            None => rest,
        }
    }
}

/// The commands for the craft that fly this tick.
pub fn pilot_commands(server: &Server, before: &PlayerMap<Player>) -> (v: Vec<Boarding>)
    requires
        server.wf(),
        before.wf(),
    ensures
        v@ == boardings(server@.intents, server@.sim.players, before@),
{
    let intents = server.pilot_intents();
    let sim = server.sim();
    let mut out: Vec<Boarding> = Vec::new();
    let mut i: usize = 0;
    while i < intents.len()
        invariant
            i <= intents@.len(),
            intents.wf(),
            intents@ == server@.intents,
            before.wf(),
            sim.wf(),
            sim@ == server@.sim,
            out@ == boardings(intents@.take(i as int), sim@.players, before@),
        decreases intents@.len() - i,
    {
        let id = intents.key_at(i);
        let intent: PilotIntent = *intents.value_at(i);
        proof {
            assert(intents@.take(i + 1).drop_last() =~= intents@.take(i as int));
            assert(intents@.take(i + 1).last() == intents@[i as int]);
        }
        if let Some(now) = sim.player(id) {
            let prev: Player = match before.get(id) {
                Some(p) => *p,
                None => now,
            };
            out.push(Boarding { pilot: id, intent, now, prev });
        }
        i = i + 1;
    }
    assert(intents@.take(i as int) =~= intents@);
    out
}

/// The next tick to sample at.
#[derive(Debug, Clone, Copy, PartialEq, Eq, Structural)]
pub struct TickSampler {
    pub next: u64,
}

impl TickSampler {
    /// Whether a tick is to be sampled; then the next is set.
    pub fn due(&mut self, tick: u64) -> (b: bool)
        requires
            tick <= u64::MAX - TELEMETRY_TICK_EVERY,
        ensures
            b == (tick >= old(self).next),
            !b ==> *final(self) == *old(self),
            b ==> final(self).next == (tick / TELEMETRY_TICK_EVERY + 1) * TELEMETRY_TICK_EVERY,
    {
        if tick >= self.next {
            self.next = next_sample_tick(tick);
            true
        } else {
            false
        }
    }
}

/// Crabs that had to be put back since the last sample, by what went wrong.
#[derive(Debug)]
pub struct RescueStats {
    pub since_nonfinite: u64,
    pub since_below_terrain: u64,
    pub since_buried: u64,
    /// The last one, whatever went wrong with it.
    pub last_body: Option<String>,
}

/// Who it was, where only one thing went wrong.
pub open spec fn offender_text(s: RescueStats) -> Seq<char> {
    let reasons = (if s.since_nonfinite > 0 {
        1int
    } else {
        0
    }) + (if s.since_below_terrain > 0 {
        1int
    } else {
        0
    }) + (if s.since_buried > 0 {
        1int
    } else {
        0
    });
    match s.last_body {
        Some(b) => if reasons == 1 {
            " (last offender: "@ + b@ + ")"@
        } else {
            Seq::empty()
        },
        None => Seq::empty(),
    }
}

/// The report on crabs that went non-finite.
pub open spec fn nonfinite_text(n: u64, last: Seq<char>) -> Seq<char> {
    "crab rescue: "@ + decimal(n as nat) + " non-finite respawn(s) this telemetry window"@ + last
        + " — armed Sally is going non-finite (rl#137)"@
}

/// The report on crabs that fell through the ground.
pub open spec fn below_terrain_text(n: u64, last: Seq<char>) -> Seq<char> {
    "crab rescue: "@ + decimal(n as nat) + " below-terrain respawn(s) this telemetry window"@ + last
        + " — fell below the terrain surface, tunneled or off the tile edge (rl#283 y-floor)"@
}

/// The report on crabs that were stuck in the ground.
pub open spec fn buried_text(n: u64, last: Seq<char>) -> Seq<char> {
    "crab rescue: "@ + decimal(n as nat) + " buried-carapace respawn(s) this telemetry window"@
        + last + " — carapace pinned under the one-sided heightfield sheet (rl#303)"@
}

/// The reports of a window, one for each thing that went wrong.
pub open spec fn rescue_texts(s: RescueStats) -> Seq<Seq<char>> {
    let last = offender_text(s);
    let a = if s.since_nonfinite > 0 {
        seq![nonfinite_text(s.since_nonfinite, last)]
    } else {
        Seq::empty()
    };
    let b = if s.since_below_terrain > 0 {
        seq![below_terrain_text(s.since_below_terrain, last)]
    } else {
        Seq::empty()
    };
    let c = if s.since_buried > 0 {
        seq![buried_text(s.since_buried, last)]
    } else {
        Seq::empty()
    };
    a + b + c
}

fn rescue_line(n: u64, what: &str, last: &str, why: &str) -> (s: String)
    ensures
        s@ == "crab rescue: "@ + decimal(n as nat) + what@ + last@ + why@,
{
    let mut out = String::new();
    push_text(&mut out, "crab rescue: ");
    push_decimal(&mut out, n);
    push_text(&mut out, what);
    push_text(&mut out, last);
    push_text(&mut out, why);
    assert(out@ =~= "crab rescue: "@ + decimal(n as nat) + what@ + last@ + why@);
    out
}

impl RescueStats {
    /// The reports of the window that just ended. The counts start over.
    pub fn drain(&mut self) -> (v: Vec<String>)
        ensures
            texts(v@) == rescue_texts(*old(self)),
            final(self).since_nonfinite == 0,
            final(self).since_below_terrain == 0,
            final(self).since_buried == 0,
            final(self).last_body == old(self).last_body,
    {
        let nf: u64 = self.since_nonfinite;
        let bt: u64 = self.since_below_terrain;
        let bu: u64 = self.since_buried;
        let alone: bool = (nf > 0 && bt == 0 && bu == 0) || (nf == 0 && bt > 0 && bu == 0) || (nf
            == 0 && bt == 0 && bu > 0);
        let mut last = String::new();
        if alone {
            if let Some(b) = &self.last_body {
                push_text(&mut last, " (last offender: ");
                push_text(&mut last, b.as_str());
                push_text(&mut last, ")");
                assert(last@ =~= " (last offender: "@ + b@ + ")"@);
            }
        }
        assert(last@ =~= offender_text(*self));
        let mut out: Vec<String> = Vec::new();
        if nf > 0 {
            out.push(
                rescue_line(
                    nf,
                    " non-finite respawn(s) this telemetry window",
                    last.as_str(),
                    " — armed Sally is going non-finite (rl#137)",
                ),
            );
        }
        if bt > 0 {
            out.push(
                rescue_line(
                    bt,
                    " below-terrain respawn(s) this telemetry window",
                    last.as_str(),
                    " — fell below the terrain surface, tunneled or off the tile edge (rl#283 y-floor)",
                ),
            );
        }
        if bu > 0 {
            out.push(
                rescue_line(
                    bu,
                    " buried-carapace respawn(s) this telemetry window",
                    last.as_str(),
                    " — carapace pinned under the one-sided heightfield sheet (rl#303)",
                ),
            );
        }
        assert(texts(out@) =~= rescue_texts(*self));
        self.since_nonfinite = 0;
        self.since_below_terrain = 0;
        self.since_buried = 0;
        out
    }
}

/// A player's status changed.
#[derive(Debug, Clone, Copy, PartialEq, Eq, Structural)]
pub struct StatusEdge {
    pub pid: PlayerId,
    pub from: PlayerStatus,
    pub to: PlayerStatus,
}

/// The changes since the last look, in the order of seats; a newcomer is no change.
pub open spec fn status_edges(
    seen: Seq<(PlayerId, PlayerStatus)>,
    players: Seq<(PlayerId, Player)>,
) -> Seq<StatusEdge>
    decreases players.len(),
{
    if players.len() == 0 {
        Seq::empty()
    } else {
        let (id, p) = players.last();
        let rest = status_edges(seen, players.drop_last());
        match lookup(seen, id) {
            Some(s) => if s != p.status {
                rest.push(StatusEdge { pid: id, from: s, to: p.status })
            } else {
                rest
            },
            None => rest,
        }
    }
}

/// Everybody's status.
pub open spec fn statuses(players: Seq<(PlayerId, Player)>) -> Seq<(PlayerId, PlayerStatus)> {
    Seq::new(players.len(), |i: int| (players[i].0, players[i].1.status))
}

/// The statuses that were last looked at.
#[derive(Debug)]
pub struct StatusLog {
    seen: PlayerMap<PlayerStatus>,
}

impl View for StatusLog {
    type V = Seq<(PlayerId, PlayerStatus)>;

    closed spec fn view(&self) -> Seq<(PlayerId, PlayerStatus)> {
        self.seen@
    }
}

impl StatusLog {
    pub open spec fn wf(&self) -> bool {
        ascending(self@)
    }

    /// Nobody was looked at.
    pub fn new() -> (l: Self)
        ensures
            l.wf(),
            l@.len() == 0,
    {
        StatusLog { seen: PlayerMap::new() }
    }

    /// Look at everybody: what changed is told once, and who is gone is forgotten.
    pub fn look(&mut self, sim: &Sim) -> (v: Vec<StatusEdge>)
        requires
            old(self).wf(),
            sim.wf(),
        ensures
            v@ == status_edges(old(self)@, sim@.players),
            final(self)@ == statuses(sim@.players),
            final(self).wf(),
    {
        let players = sim.players();
        let mut out: Vec<StatusEdge> = Vec::new();
        let mut now: PlayerMap<PlayerStatus> = PlayerMap::new();
        let mut i: usize = 0;
        assert(now@ =~= statuses(players@.take(0)));
        while i < players.len()
            invariant
                i <= players@.len(),
                self.wf(),
                *self == *old(self),
                ascending(players@),
                now.wf(),
                now@ == statuses(players@.take(i as int)),
                out@ == status_edges(self@, players@.take(i as int)),
            decreases players@.len() - i,
        {
            let id = players[i].0;
            let status: PlayerStatus = players[i].1.status();
            let ghost before = now@;
            proof {
                assert(players@.take(i + 1).drop_last() =~= players@.take(i as int));
                assert(players@.take(i + 1).last() == players@[i as int]);
            }
            if let Some(s) = self.seen.get(id) {
                let was: PlayerStatus = *s;
                if was != status {
                    out.push(StatusEdge { pid: id, from: was, to: status });
                }
            }
            now.insert(id, status);
            proof {
                let want = statuses(players@.take(i + 1));
                assert(want =~= before.push((id, status)));
                assert(forall|k: int| 0 <= k < before.len() ==> (#[trigger] before[k]).0.0 < id.0);
                lemma_put_last(before, id, status);
            }
            i = i + 1;
        }
        assert(players@.take(i as int) =~= players@);
        self.seen = now;
        out
    }
}

proof fn lemma_put_last<V>(s: Seq<(PlayerId, V)>, id: PlayerId, v: V)
    requires
        ascending(s),
        forall|k: int| 0 <= k < s.len() ==> (#[trigger] s[k]).0.0 < id.0,
    ensures
        put(s, id, v) == s.push((id, v)),
    decreases s.len(),
{
    crate::player_map::lemma_put_order(s, id, v);
    crate::player_map::lemma_put(s, id, v);
    let p = s.push((id, v));
    assert(ascending(p));
    assert forall|k: PlayerId| #[trigger] lookup(put(s, id, v), k) == lookup(p, k) by {
        if k == id {
            assert(p[s.len() as int].0 == id);
            lemma_lookup_at(p, s.len() as int);
        } else {
            if seated(s, k) {
                let i = crate::player_map::seat_index(s, k);
                assert(p[i] == s[i]);
                lemma_lookup_at(p, i);
                lemma_lookup_at(s, i);
            } else if seated(p, k) {
                let i = crate::player_map::seat_index(p, k);
                assert(s[i] == p[i]);
            }
        }
    }
    crate::player_map::lemma_entries_unique(put(s, id, v), p);
}

/// A status that did not change since the last look is not told again.
pub proof fn lemma_edges_are_told_once(players: Seq<(PlayerId, Player)>)
    requires
        ascending(players),
    ensures
        status_edges(statuses(players), players).len() == 0,
{
    assert(players.take(players.len() as int) =~= players);
    lemma_edges_among(statuses(players), players, players);
}

proof fn lemma_edges_among(
    seen: Seq<(PlayerId, PlayerStatus)>,
    all: Seq<(PlayerId, Player)>,
    players: Seq<(PlayerId, Player)>,
)
    requires
        ascending(all),
        seen == statuses(all),
        players.len() <= all.len(),
        players == all.take(players.len() as int),
    ensures
        status_edges(seen, players).len() == 0,
    decreases players.len(),
{
    if players.len() > 0 {
        let d = players.drop_last();
        assert(d =~= all.take(d.len() as int));
        lemma_edges_among(seen, all, d);
        let n = players.len() - 1;
        assert(seen[n].0 == players.last().0);
        assert(ascending(seen));
        lemma_lookup_at(seen, n);
    }
}

/// What a lost host means for the round.
#[derive(Debug)]
pub enum RoundEnd {
    /// Back to the menu, with what happened and whom to rejoin.
    Menu { message: String, host: [u8; 32] },
    /// There is no menu to go back to.
    Exit,
}

/// The report on a lost host.
pub open spec fn server_down_text(message: Seq<char>) -> Seq<char> {
    "client server-down (rl#203): "@ + message
}

/// The round lost its host: the report, and where to go.
pub fn end_round_server_down(message: String, host: [u8; 32], has_menu: bool) -> (r: (
    String,
    RoundEnd,
))
    ensures
        r.0@ == server_down_text(message@),
        match r.1 {
            RoundEnd::Menu { message: m, host: h } => has_menu && m@ == message@ && h == host,
            RoundEnd::Exit => !has_menu,
        },
{
    let mut fault = String::new();
    push_text(&mut fault, "client server-down (rl#203): ");
    push_text(&mut fault, message.as_str());
    assert(fault@ =~= server_down_text(message@));
    if has_menu {
        (fault, RoundEnd::Menu { message, host })
    } else {
        (fault, RoundEnd::Exit)
    }
}

} // verus!
