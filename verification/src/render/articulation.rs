//! What the host ships of its bodies each tick, and what a client takes up of it. Positions
//! and rotations are carried as the bit patterns of their single-precision values: nothing
//! here computes with them.

use crate::client::VehicleKind;
use crate::player_map::{ascending, lemma_put, lookup, put, seated, PlayerId, PlayerMap};
use crate::text::texts;
use vstd::prelude::*;
use vstd::string::*;

verus! {

/// Where a body part is.
#[derive(Debug, Clone, Copy, PartialEq, Eq)]
pub struct PartTransform {
    pub part: u8,
    pub pos: [u32; 3],
    pub rot: [u32; 4],
}

/// One crab's parts, the shift of its skin where it has one, and its brain's label.
#[derive(Debug, Clone, PartialEq, Eq)]
pub struct CrabFrame {
    pub parts: Vec<PartTransform>,
    pub repose: Option<[u32; 3]>,
    pub brain_label: String,
}

/// Where a craft is.
#[derive(Debug, Clone, Copy, PartialEq, Eq)]
pub struct VehiclePoseWire {
    pub pilot: u8,
    pub kind: VehicleKind,
    pub pos: [u32; 3],
    pub rot: [u32; 4],
}

/// One tick of the host's bodies.
#[derive(Debug, Clone, PartialEq, Eq)]
pub struct CrabArticulation {
    pub tick: u64,
    pub crabs: Vec<CrabFrame>,
    pub arena_anchor: [u32; 3],
    pub vehicles: Vec<VehiclePoseWire>,
}

/// A part of some crab's body as the host's world has it: the carapace, a joint, or neither.
#[derive(Debug, Clone, Copy, PartialEq, Eq)]
pub struct BodyPart {
    pub env: usize,
    pub carapace: bool,
    pub joint: Option<u8>,
    pub pos: [u32; 3],
    pub rot: [u32; 4],
}

/// The tag of a part: nought for the carapace, the joints from one on.
pub open spec fn tag_of(carapace: bool, joint: Option<u8>) -> Option<u8> {
    if carapace {
        Some(0u8)
    } else {
        match joint {
            Some(j) => Some((1 + j) as u8),
            None => None,
        }
    }
}

pub fn part_tag(carapace: bool, joint: Option<u8>) -> (t: Option<u8>)
    requires
        joint matches Some(j) ==> j < 255,
    ensures
        t == tag_of(carapace, joint),
{
    if carapace {
        Some(0)
    } else {
        match joint {
            Some(j) => Some(1 + j),
            None => None,
        }
    }
}

/// The parts of one crab that are shipped, in the world's order.
pub open spec fn shipped(parts: Seq<BodyPart>, env: int) -> Seq<PartTransform>
    decreases parts.len(),
{
    if parts.len() == 0 {
        Seq::empty()
    } else {
        let p = parts.last();
        let rest = shipped(parts.drop_last(), env);
        match tag_of(p.carapace, p.joint) {
            Some(t) => if p.env == env {
                rest.push(PartTransform { part: t, pos: p.pos, rot: p.rot })
            } else {
                rest
            },
            None => rest,
        }
    }
}

/// How many crabs there are: one more than the last that ships a part.
pub open spec fn crab_count(parts: Seq<BodyPart>) -> nat
    decreases parts.len(),
{
    if parts.len() == 0 {
        0
    } else {
        let p = parts.last();
        let n = crab_count(parts.drop_last());
        if tag_of(p.carapace, p.joint) is Some && p.env + 1 > n {
            (p.env + 1) as nat
        } else {
            n
        }
    }
}

/// A part put among sorted ones, after those with its tag.
pub open spec fn part_placed(s: Seq<PartTransform>, p: PartTransform) -> Seq<PartTransform>
    decreases s.len(),
{
    if s.len() == 0 || s.last().part <= p.part {
        s.push(p)
    } else {
        part_placed(s.drop_last(), p).push(s.last())
    }
}

/// Parts in the order of their tags, those with one tag in the order in which they came.
pub open spec fn parts_sorted(s: Seq<PartTransform>) -> Seq<PartTransform>
    decreases s.len(),
{
    if s.len() == 0 {
        s
    } else {
        part_placed(parts_sorted(s.drop_last()), s.last())
    }
}

/// A craft put among sorted ones, after those of its pilot.
pub open spec fn craft_placed(s: Seq<VehiclePoseWire>, v: VehiclePoseWire) -> Seq<VehiclePoseWire>
    decreases s.len(),
{
    if s.len() == 0 || s.last().pilot <= v.pilot {
        s.push(v)
    } else {
        craft_placed(s.drop_last(), v).push(s.last())
    }
}

/// Crafts in the order of their pilots.
pub open spec fn crafts_sorted(s: Seq<VehiclePoseWire>) -> Seq<VehiclePoseWire>
    decreases s.len(),
{
    if s.len() == 0 {
        s
    } else {
        craft_placed(crafts_sorted(s.drop_last()), s.last())
    }
}

proof fn lemma_part_placed_back(
    s: Seq<PartTransform>,
    p: PartTransform,
    at: int,
)
    requires
        0 <= at <= s.len(),
        at == 0 || s[at - 1].part <= p.part,
        forall|k: int| at <= k < s.len() ==> (#[trigger] s[k]).part > p.part,
    ensures
        part_placed(s, p) == s.insert(at, p),
    decreases s.len(),
{
    if at == s.len() {
        assert(s.insert(at, p) =~= s.push(p));
    } else {
        let d = s.drop_last();
        assert(s[s.len() - 1].part > p.part);
        assert forall|k: int| at <= k < d.len() implies (#[trigger] d[k]).part > p.part by {
            assert(s[k].part > p.part);
        }
        lemma_part_placed_back(d, p, at);
        assert(s.insert(at, p) =~= d.insert(at, p).push(s.last()));
    }
}

fn place_part(s: &mut Vec<PartTransform>, p: PartTransform)
    ensures
        final(s)@ == part_placed(old(s)@, p),
{
    let mut at: usize = s.len();
    while at > 0 && s[at - 1].part > p.part
        invariant
            at <= s@.len(),
            s@ == old(s)@,
            forall|k: int| at <= k < s@.len() ==> (#[trigger] s@[k]).part > p.part,
        decreases at,
    {
        at = at - 1;
    }
    proof {
        lemma_part_placed_back(s@, p, at as int);
    }
    s.insert(at, p);
}

proof fn lemma_craft_placed_back(s: Seq<VehiclePoseWire>, v: VehiclePoseWire, at: int)
    requires
        0 <= at <= s.len(),
        at == 0 || s[at - 1].pilot <= v.pilot,
        forall|k: int| at <= k < s.len() ==> (#[trigger] s[k]).pilot > v.pilot,
    ensures
        craft_placed(s, v) == s.insert(at, v),
    decreases s.len(),
{
    if at == s.len() {
        assert(s.insert(at, v) =~= s.push(v));
    } else {
        let d = s.drop_last();
        assert(s[s.len() - 1].pilot > v.pilot);
        assert forall|k: int| at <= k < d.len() implies (#[trigger] d[k]).pilot > v.pilot by {
            assert(s[k].pilot > v.pilot);
        }
        lemma_craft_placed_back(d, v, at);
        assert(s.insert(at, v) =~= d.insert(at, v).push(s.last()));
    }
}

fn place_craft(s: &mut Vec<VehiclePoseWire>, v: VehiclePoseWire)
    ensures
        final(s)@ == craft_placed(old(s)@, v),
{
    let mut at: usize = s.len();
    while at > 0 && s[at - 1].pilot > v.pilot
        invariant
            at <= s@.len(),
            s@ == old(s)@,
            forall|k: int| at <= k < s@.len() ==> (#[trigger] s@[k]).pilot > v.pilot,
        decreases at,
    {
        at = at - 1;
    }
    proof {
        lemma_craft_placed_back(s@, v, at as int);
    }
    s.insert(at, v);
}

/// The first entry for a crab among its skins' shifts.
pub open spec fn repose_of(reposes: Seq<(usize, [u32; 3])>, env: int) -> Option<[u32; 3]>
    decreases reposes.len(),
{
    if reposes.len() == 0 {
        None
    } else {
        match repose_of(reposes.drop_last(), env) {
            Some(r) => Some(r),
            None => if reposes.last().0 == env {
                Some(reposes.last().1)
            } else {
                None
            },
        }
    }
}

fn find_repose(reposes: &Vec<(usize, [u32; 3])>, env: usize) -> (r: Option<[u32; 3]>)
    ensures
        r == repose_of(reposes@, env as int),
{
    let mut found: Option<[u32; 3]> = None;
    let mut i: usize = 0;
    while i < reposes.len()
        invariant
            i <= reposes@.len(),
            found == repose_of(reposes@.take(i as int), env as int),
        decreases reposes@.len() - i,
    {
        proof {
            assert(reposes@.take(i + 1).drop_last() =~= reposes@.take(i as int));
            assert(reposes@.take(i + 1).last() == reposes@[i as int]);
        }
        if found.is_none() && reposes[i].0 == env {
            found = Some(reposes[i].1);
        }
        i = i + 1;
    }
    assert(reposes@.take(i as int) =~= reposes@);
    found
}

/// What a crab's frame holds.
pub open spec fn is_frame(
    f: CrabFrame,
    parts: Seq<BodyPart>,
    reposes: Seq<(usize, [u32; 3])>,
    labels: Seq<String>,
    env: int,
) -> bool {
    &&& f.parts@ == parts_sorted(shipped(parts, env))
    &&& f.repose == repose_of(reposes, env)
    &&& f.brain_label@ == if env < labels.len() {
        labels[env]@
    } else {
        Seq::empty()
    }
}

fn frame_of(
    parts: &Vec<BodyPart>,
    reposes: &Vec<(usize, [u32; 3])>,
    labels: &Vec<String>,
    env: usize,
) -> (f: CrabFrame)
    requires
        forall|i: int|
            0 <= i < parts@.len() ==> ((#[trigger] parts@[i]).joint matches Some(j) ==> j < 255),
    ensures
        is_frame(f, parts@, reposes@, labels@, env as int),
{
    let mut sorted: Vec<PartTransform> = Vec::new();
    let mut i: usize = 0;
    while i < parts.len()
        invariant
            i <= parts@.len(),
            forall|k: int|
                0 <= k < parts@.len() ==> ((#[trigger] parts@[k]).joint matches Some(j) ==> j
                    < 255),
            sorted@ == parts_sorted(shipped(parts@.take(i as int), env as int)),
        decreases parts@.len() - i,
    {
        let p = parts[i];
        let ghost before = shipped(parts@.take(i as int), env as int);
        proof {
            assert(parts@.take(i + 1).drop_last() =~= parts@.take(i as int));
            assert(parts@.take(i + 1).last() == p);
        }
        if let Some(t) = part_tag(p.carapace, p.joint) {
            if p.env == env {
                let x = PartTransform { part: t, pos: p.pos, rot: p.rot };
                place_part(&mut sorted, x);
                assert(before.push(x).drop_last() =~= before);
            }
        }
        i = i + 1;
    }
    assert(parts@.take(i as int) =~= parts@);
    let brain_label = if env < labels.len() {
        labels[env].clone()
    } else {
        String::new()
    };
    assert(env >= labels@.len() ==> brain_label@ =~= Seq::empty());
    CrabFrame { parts: sorted, repose: find_repose(reposes, env), brain_label }
}

/// Capture a tick of the host's bodies, crab by crab, and tell whether the labels are out of
/// step: there are some, and not one for each crab.
pub fn capture(
    tick: u64,
    parts: &Vec<BodyPart>,
    reposes: &Vec<(usize, [u32; 3])>,
    labels: &Vec<String>,
    vehicles: &Vec<VehiclePoseWire>,
    arena_anchor: [u32; 3],
) -> (r: (CrabArticulation, bool))
    requires
        forall|i: int|
            0 <= i < parts@.len() ==> {
                &&& (#[trigger] parts@[i]).env < usize::MAX
                &&& parts@[i].joint matches Some(j) ==> j < 255
            },
    ensures
        r.0.tick == tick,
        r.0.crabs@.len() == crab_count(parts@),
        forall|env: int|
            0 <= env < r.0.crabs@.len() ==> is_frame(
                #[trigger] r.0.crabs@[env],
                parts@,
                reposes@,
                labels@,
                env,
            ),
        r.0.vehicles@ == crafts_sorted(vehicles@),
        r.0.arena_anchor == arena_anchor,
        r.1 == (labels@.len() > 0 && labels@.len() != crab_count(parts@)),
{
    let mut n: usize = 0;
    let mut i: usize = 0;
    while i < parts.len()
        invariant
            i <= parts@.len(),
            forall|k: int|
                0 <= k < parts@.len() ==> {
                    &&& (#[trigger] parts@[k]).env < usize::MAX
                    &&& parts@[k].joint matches Some(j) ==> j < 255
                },
            n == crab_count(parts@.take(i as int)),
        decreases parts@.len() - i,
    {
        let p = parts[i];
        proof {
            assert(parts@.take(i + 1).drop_last() =~= parts@.take(i as int));
            assert(parts@.take(i + 1).last() == p);
        }
        if part_tag(p.carapace, p.joint).is_some() && p.env + 1 > n {
            n = p.env + 1;
        }
        i = i + 1;
    }
    assert(parts@.take(i as int) =~= parts@);
    let mut crabs: Vec<CrabFrame> = Vec::new();
    let mut env: usize = 0;
    while env < n
        invariant
            env <= n,
            crabs@.len() == env,
            forall|k: int|
                0 <= k < parts@.len() ==> {
                    &&& (#[trigger] parts@[k]).env < usize::MAX
                    &&& parts@[k].joint matches Some(j) ==> j < 255
                },
            forall|e: int|
                0 <= e < env ==> is_frame(#[trigger] crabs@[e], parts@, reposes@, labels@, e),
        decreases n - env,
    {
        crabs.push(frame_of(parts, reposes, labels, env));
        env = env + 1;
    }
    let mut sorted: Vec<VehiclePoseWire> = Vec::new();
    let mut j: usize = 0;
    while j < vehicles.len()
        invariant
            j <= vehicles@.len(),
            sorted@ == crafts_sorted(vehicles@.take(j as int)),
        decreases vehicles@.len() - j,
    {
        proof {
            assert(vehicles@.take(j + 1).drop_last() =~= vehicles@.take(j as int));
            assert(vehicles@.take(j + 1).last() == vehicles@[j as int]);
        }
        place_craft(&mut sorted, vehicles[j]);
        j = j + 1;
    }
    assert(vehicles@.take(j as int) =~= vehicles@);
    let desynced: bool = labels.len() > 0 && labels.len() != n;
    (CrabArticulation { tick, crabs, arena_anchor, vehicles: sorted }, desynced)
}

/// Sorting parts loses none and repeats none, and the tags ascend.
pub proof fn lemma_parts_sorted(s: Seq<PartTransform>)
    ensures
        parts_sorted(s).to_multiset() == s.to_multiset(),
        forall|i: int, j: int|
            0 <= i < j < parts_sorted(s).len() ==> (#[trigger] parts_sorted(s)[i]).part <= (
            #[trigger] parts_sorted(s)[j]).part,
    decreases s.len(),
{
    if s.len() > 0 {
        let d = s.drop_last();
        lemma_parts_sorted(d);
        lemma_part_placed(parts_sorted(d), s.last());
        assert(s =~= d.push(s.last()));
        d.to_multiset_ensures();
    }
}

proof fn lemma_part_placed(s: Seq<PartTransform>, p: PartTransform)
    requires
        forall|i: int, j: int|
            0 <= i < j < s.len() ==> (#[trigger] s[i]).part <= (#[trigger] s[j]).part,
    ensures
        part_placed(s, p).to_multiset() == s.to_multiset().insert(p),
        part_placed(s, p).len() == s.len() + 1,
        forall|i: int, j: int|
            0 <= i < j < part_placed(s, p).len() ==> (#[trigger] part_placed(s, p)[i]).part <= (
            #[trigger] part_placed(s, p)[j]).part,
        forall|i: int|
            0 <= i < part_placed(s, p).len() ==> (#[trigger] part_placed(s, p)[i]).part <= p.part
                || (s.len() > 0 && part_placed(s, p)[i].part <= s.last().part),
    decreases s.len(),
{
    s.to_multiset_ensures();
    if s.len() == 0 || s.last().part <= p.part {
        assert forall|i: int| 0 <= i < s.len() implies (#[trigger] s[i]).part <= p.part by {
            if i < s.len() - 1 {
                assert(s[i].part <= s[s.len() - 1].part);
            }
        }
    } else {
        let d = s.drop_last();
        lemma_part_placed(d, p);
        let m = part_placed(d, p);
        m.to_multiset_ensures();
        d.to_multiset_ensures();
        assert(s =~= d.push(s.last()));
        assert(m.push(s.last()).to_multiset() =~= s.to_multiset().insert(p));
        assert forall|i: int| 0 <= i < m.len() implies (#[trigger] m[i]).part
            <= s.last().part by {
            if d.len() > 0 {
                assert(s[d.len() - 1].part <= s[s.len() - 1].part);
            }
        }
    }
}

/// The crafts that others fly.
pub open spec fn others(vehicles: Seq<VehiclePoseWire>, me: u8) -> Seq<VehiclePoseWire> {
    vehicles.filter(|v: VehiclePoseWire| v.pilot != me)
}

/// The crafts that others fly.
pub fn remote_vehicles(vehicles: &Vec<VehiclePoseWire>, me: u8) -> (r: Vec<VehiclePoseWire>)
    ensures
        r@ == others(vehicles@, me),
{
    let mut out: Vec<VehiclePoseWire> = Vec::new();
    let ghost f = |v: VehiclePoseWire| v.pilot != me;
    let mut i: usize = 0;
    proof {
        reveal(Seq::filter);
        assert(vehicles@.take(0).filter(f) =~= Seq::empty());
    }
    while i < vehicles.len()
        invariant
            i <= vehicles@.len(),
            f == (|v: VehiclePoseWire| v.pilot != me),
            out@ == vehicles@.take(i as int).filter(f),
        decreases vehicles@.len() - i,
    {
        proof {
            reveal(Seq::filter);
            assert(vehicles@.take(i + 1).drop_last() =~= vehicles@.take(i as int));
            assert(vehicles@.take(i + 1).last() == vehicles@[i as int]);
        }
        if vehicles[i].pilot != me {
            out.push(vehicles[i]);
        }
        i = i + 1;
    }
    assert(vehicles@.take(i as int) =~= vehicles@);
    out
}

/// A pilot's craft: the first on the wire.
pub open spec fn is_own_pose(
    vehicles: Seq<VehiclePoseWire>,
    me: u8,
    r: Option<([u32; 3], [u32; 4])>,
) -> bool {
    match r {
        Some((pos, rot)) => exists|i: int|
            {
                &&& 0 <= i < vehicles.len()
                &&& (#[trigger] vehicles[i]).pilot == me
                &&& vehicles[i].pos == pos
                &&& vehicles[i].rot == rot
                &&& forall|k: int| 0 <= k < i ==> (#[trigger] vehicles[k]).pilot != me
            },
        None => forall|i: int| 0 <= i < vehicles.len() ==> (#[trigger] vehicles[i]).pilot != me,
    }
}

/// Our own craft's pose out of a tick, if it is there.
pub fn own_wire_pose(art: &CrabArticulation, me: u8) -> (r: Option<([u32; 3], [u32; 4])>)
    ensures
        is_own_pose(art.vehicles@, me, r),
{
    let mut i: usize = 0;
    while i < art.vehicles.len()
        invariant
            i <= art.vehicles@.len(),
            forall|k: int| 0 <= k < i ==> (#[trigger] art.vehicles@[k]).pilot != me,
        decreases art.vehicles@.len() - i,
    {
        if art.vehicles[i].pilot == me {
            return Some((art.vehicles[i].pos, art.vehicles[i].rot));
        }
        i = i + 1;
    }
    None
}

/// The kind of a pilot's craft on the wire, the first if there are several.
pub open spec fn wire_kind(remote: Seq<VehiclePoseWire>, id: PlayerId) -> Option<VehicleKind>
    decreases remote.len(),
{
    if remote.len() == 0 {
        None
    } else {
        match wire_kind(remote.drop_last(), id) {
            Some(k) => Some(k),
            None => if remote.last().pilot == id.0 {
                Some(remote.last().kind)
            } else {
                None
            },
        }
    }
}

/// A pilot's craft of some kind is on the wire.
pub open spec fn on_wire(remote: Seq<VehiclePoseWire>, id: PlayerId, kind: VehicleKind) -> bool {
    exists|i: int|
        0 <= i < remote.len() && (#[trigger] remote[i]).pilot == id.0 && remote[i].kind == kind
}

/// The craft that a pilot is shown in after a tick: the one shown before while it is still
/// on the wire, else the first that is.
pub open spec fn craft_after(
    before: Option<VehicleKind>,
    remote: Seq<VehiclePoseWire>,
    id: PlayerId,
) -> Option<VehicleKind> {
    match before {
        Some(k) => if on_wire(remote, id, k) {
            Some(k)
        } else {
            wire_kind(remote, id)
        },
        None => wire_kind(remote, id),
    }
}

/// Every other pilot's craft as this peer shows it.
#[derive(Debug)]
pub struct RemoteVehicle {
    crafts: PlayerMap<VehicleKind>,
}

impl View for RemoteVehicle {
    type V = Seq<(PlayerId, VehicleKind)>;

    closed spec fn view(&self) -> Seq<(PlayerId, VehicleKind)> {
        self.crafts@
    }
}

fn is_on_wire(remote: &Vec<VehiclePoseWire>, id: PlayerId, kind: VehicleKind) -> (b: bool)
    ensures
        b == on_wire(remote@, id, kind),
{
    let mut i: usize = 0;
    while i < remote.len()
        invariant
            i <= remote@.len(),
            forall|k: int|
                0 <= k < i ==> !((#[trigger] remote@[k]).pilot == id.0 && remote@[k].kind == kind),
        decreases remote@.len() - i,
    {
        if remote[i].pilot == id.0 && remote[i].kind == kind {
            return true;
        }
        i = i + 1;
    }
    false
}

impl RemoteVehicle {
    /// One craft per pilot, in order.
    pub open spec fn wf(&self) -> bool {
        ascending(self@)
    }

    /// No crafts.
    pub fn new() -> (r: Self)
        ensures
            r.wf(),
            r@.len() == 0,
    {
        RemoteVehicle { crafts: PlayerMap::new() }
    }

    /// Whether a pilot is shown in a craft.
    pub fn contains(&self, pilot: PlayerId) -> (b: bool)
        requires
            self.wf(),
        ensures
            b == seated(self@, pilot),
    {
        self.crafts.contains_key(pilot)
    }

    /// The craft that a pilot is shown in.
    pub fn kind(&self, pilot: PlayerId) -> (k: Option<VehicleKind>)
        requires
            self.wf(),
        ensures
            k == lookup(self@, pilot),
    {
        match self.crafts.get(pilot) {
            Some(k) => Some(*k),
            None => None,
        }
    }

    /// Take up a tick's crafts: one that is no longer on the wire is dropped, and one whose
    /// kind changed starts anew. Tells of each entry whether it starts a craft's poses.
    pub fn adopt(&mut self, remote: &Vec<VehiclePoseWire>) -> (starts: Vec<bool>)
        requires
            old(self).wf(),
        ensures
            final(self).wf(),
            forall|id: PlayerId| #[trigger]
                lookup(final(self)@, id) == craft_after(lookup(old(self)@, id), remote@, id),
            starts@.len() == remote@.len(),
            forall|i: int|
                0 <= i < remote@.len() ==> #[trigger] starts@[i] == {
                    let id = PlayerId(remote@[i].pilot);
                    &&& !(lookup(old(self)@, id) matches Some(k) && on_wire(remote@, id, k))
                    &&& forall|j: int| 0 <= j < i ==> (#[trigger] remote@[j]).pilot != id.0
                },
    {
        let ghost before = self@;
        let mut stay: Vec<PlayerId> = Vec::new();
        let mut i: usize = 0;
        while i < self.crafts.len()
            invariant
                i <= self.crafts@.len(),
                self@ == before,
                ascending(before),
                *self == *old(self),
                stay@.len() <= i,
                forall|a: int, b: int|
                    0 <= a < b < stay@.len() ==> (#[trigger] stay@[a]).0 < (#[trigger] stay@[b]).0,
                forall|a: int|
                    0 <= a < stay@.len() ==> exists|k: int|
                        0 <= k < i && (#[trigger] before[k]).0 == #[trigger] stay@[a],
                forall|k: int|
                    0 <= k < i ==> stay@.contains((#[trigger] before[k]).0) == on_wire(
                        remote@,
                        before[k].0,
                        before[k].1,
                    ),
            decreases self.crafts@.len() - i,
        {
            let id = self.crafts.key_at(i);
            let kind: VehicleKind = *self.crafts.value_at(i);
            let ghost s0 = stay@;
            let keep: bool = is_on_wire(remote, id, kind);
            proof {
                assert(!s0.contains(id)) by {
                    if s0.contains(id) {
                        let a = choose|a: int| 0 <= a < s0.len() && s0[a] == id;
                        let k = choose|k: int|
                            0 <= k < i && (#[trigger] before[k]).0 == #[trigger] stay@[a];
                        assert(before[k].0.0 < before[i as int].0.0);
                    }
                }
            }
            if keep {
                stay.push(id);
                proof {
                    assert forall|a: int, b: int|
                        0 <= a < b < stay@.len() implies (#[trigger] stay@[a]).0 < (
                    #[trigger] stay@[b]).0 by {
                        if b == s0.len() {
                            assert(stay@[a] == s0[a]);
                            let k = choose|k: int|
                                0 <= k < i && (#[trigger] before[k]).0 == #[trigger] s0[a];
                            assert(before[k].0.0 < before[i as int].0.0);
                        }
                    }
                    assert forall|a: int| 0 <= a < stay@.len() implies exists|k: int|
                        0 <= k < i + 1 && (#[trigger] before[k]).0 == #[trigger] stay@[a] by {
                        if a < s0.len() {
                            assert(stay@[a] == s0[a]);
                            let k = choose|k: int|
                                0 <= k < i && (#[trigger] before[k]).0 == #[trigger] s0[a];
                            assert(before[k].0 == stay@[a]);
                        } else {
                            assert(before[i as int].0 == stay@[a]);
                        }
                    }
                    assert forall|k: int| 0 <= k < i + 1 implies stay@.contains(
                        (#[trigger] before[k]).0,
                    ) == on_wire(remote@, before[k].0, before[k].1) by {
                        if k < i {
                            assert(before[k].0 != id);
                            assert(stay@.contains(before[k].0) == s0.contains(before[k].0)) by {
                                if s0.contains(before[k].0) {
                                    let a = choose|a: int|
                                        0 <= a < s0.len() && s0[a] == before[k].0;
                                    assert(stay@[a] == before[k].0);
                                }
                                if stay@.contains(before[k].0) {
                                    let a = choose|a: int|
                                        0 <= a < stay@.len() && stay@[a] == before[k].0;
                                    assert(s0[a] == before[k].0);
                                }
                            }
                        } else {
                            assert(stay@[s0.len() as int] == id);
                        }
                    }
                }
            }
            i = i + 1;
        }
        self.crafts.keep_only(stay.as_slice());
        proof {
            crate::player_map::lemma_kept(before, stay@);
        }
        let ghost retained = self@;
        proof {
            assert forall|id: PlayerId| #[trigger] lookup(retained, id) == (match lookup(
                before,
                id,
            ) {
                Some(k) => if on_wire(remote@, id, k) {
                    Some(k)
                } else {
                    None
                },
                None => None,
            }) by {
                if seated(before, id) {
                    let k = crate::player_map::seat_index(before, id);
                    assert(before[k].0 == id);
                    crate::player_map::lemma_lookup_at(before, k);
                }
            }
        }
        let mut starts: Vec<bool> = Vec::new();
        let mut j: usize = 0;
        while j < remote.len()
            invariant
                j <= remote@.len(),
                self.wf(),
                starts@.len() == j,
                forall|id: PlayerId| #[trigger]
                    lookup(self@, id) == (match lookup(retained, id) {
                        Some(k) => Some(k),
                        None => wire_kind(remote@.take(j as int), id),
                    }),
                forall|i: int|
                    0 <= i < j ==> #[trigger] starts@[i] == {
                        let id = PlayerId(remote@[i].pilot);
                        &&& lookup(retained, id) is None
                        &&& forall|x: int| 0 <= x < i ==> (#[trigger] remote@[x]).pilot != id.0
                    },
            decreases remote@.len() - j,
        {
            let id = PlayerId(remote[j].pilot);
            let here: bool = self.crafts.contains_key(id);
            let ghost now = self@;
            proof {
                assert(remote@.take(j + 1).drop_last() =~= remote@.take(j as int));
                assert(remote@.take(j + 1).last() == remote@[j as int]);
                lemma_wire_kind(remote@.take(j as int), id);
                assert(lookup(now, id) == (match lookup(retained, id) {
                    Some(k) => Some(k),
                    None => wire_kind(remote@.take(j as int), id),
                }));
                assert((forall|x: int| 0 <= x < j ==> (#[trigger] remote@[x]).pilot != id.0)
                    == (wire_kind(remote@.take(j as int), id) is None)) by {
                    if wire_kind(remote@.take(j as int), id) is None {
                        assert forall|x: int| 0 <= x < j implies (#[trigger] remote@[x]).pilot
                            != id.0 by {
                            assert(remote@.take(j as int)[x] == remote@[x]);
                        }
                    } else {
                        let x = choose|x: int|
                            0 <= x < j && (#[trigger] remote@.take(j as int)[x]).pilot == id.0;
                        assert(remote@[x].pilot == id.0);
                    }
                }
            }
            if !here {
                self.crafts.insert(id, remote[j].kind);
                proof {
                    lemma_put(now, id, remote@[j as int].kind);
                }
            }
            starts.push(!here);
            proof {
                assert forall|o: PlayerId| #[trigger] lookup(self@, o) == (match lookup(
                    retained,
                    o,
                ) {
                    Some(k) => Some(k),
                    None => wire_kind(remote@.take(j + 1), o),
                }) by {
                    assert(lookup(now, o) == (match lookup(retained, o) {
                        Some(k) => Some(k),
                        None => wire_kind(remote@.take(j as int), o),
                    }));
                }
            }
            j = j + 1;
        }
        assert(remote@.take(j as int) =~= remote@);
        starts
    }
}

proof fn lemma_wire_kind(remote: Seq<VehiclePoseWire>, id: PlayerId)
    ensures
        wire_kind(remote, id) is None <==> forall|x: int|
            0 <= x < remote.len() ==> (#[trigger] remote[x]).pilot != id.0,
    decreases remote.len(),
{
    if remote.len() > 0 {
        let d = remote.drop_last();
        lemma_wire_kind(d, id);
        if wire_kind(d, id) is None {
            assert forall|x: int| 0 <= x < d.len() implies (#[trigger] remote[x]).pilot != id.0 by {
                assert(d[x].pilot != id.0);
            }
            if remote.last().pilot != id.0 {
                assert forall|x: int| 0 <= x < remote.len() implies (#[trigger] remote[x]).pilot
                    != id.0 by {}
            } else {
                assert(remote[remote.len() - 1].pilot == id.0);
            }
        } else {
            let x = choose|x: int| 0 <= x < d.len() && (#[trigger] d[x]).pilot == id.0;
            assert(remote[x].pilot == id.0);
        }
    }
}

/// A pilot who left the wire is shown in no craft, and one whose craft changed is shown in
/// the new one.
pub proof fn lemma_crafts_follow_the_wire(
    before: Option<VehicleKind>,
    remote: Seq<VehiclePoseWire>,
    id: PlayerId,
)
    ensures
        (forall|x: int| 0 <= x < remote.len() ==> (#[trigger] remote[x]).pilot != id.0)
            ==> craft_after(before, remote, id) is None,
        craft_after(before, remote, id) matches Some(k) ==> on_wire(remote, id, k),
{
    lemma_wire_kind(remote, id);
    lemma_wire_kind_on_wire(remote, id);
}

proof fn lemma_wire_kind_on_wire(remote: Seq<VehiclePoseWire>, id: PlayerId)
    ensures
        wire_kind(remote, id) matches Some(k) ==> on_wire(remote, id, k),
    decreases remote.len(),
{
    if remote.len() > 0 {
        let d = remote.drop_last();
        lemma_wire_kind_on_wire(d, id);
        if let Some(k) = wire_kind(d, id) {
            let i = choose|i: int|
                0 <= i < d.len() && (#[trigger] d[i]).pilot == id.0 && d[i].kind == k;
            assert(remote[i].pilot == id.0 && remote[i].kind == k);
        } else if remote.last().pilot == id.0 {
            assert(remote[remote.len() - 1].pilot == id.0);
        }
    }
}

/// The labels of a tick's crabs.
pub open spec fn labels_of(crabs: Seq<CrabFrame>) -> Seq<Seq<char>> {
    Seq::new(crabs.len(), |i: int| crabs[i].brain_label@)
}

/// What a client keeps of the last tick besides poses.
#[derive(Debug)]
pub struct Adopted {
    /// The skin's shift of each crab that has one.
    pub reposes: Vec<Option<[u32; 3]>>,
    pub arena_anchor: [u32; 3],
    pub labels: Vec<String>,
}

/// The shift of a crab after a tick: the tick's, or the one before where it has none.
pub open spec fn repose_after(
    before: Seq<Option<[u32; 3]>>,
    crabs: Seq<CrabFrame>,
    env: int,
) -> Option<[u32; 3]> {
    match crabs[env].repose {
        Some(r) => Some(r),
        None => if env < before.len() {
            before[env]
        } else {
            None
        },
    }
}

impl Adopted {
    /// Take up a tick: crabs that are gone are forgotten.
    pub fn adopt(&mut self, art: &CrabArticulation)
        ensures
            final(self).reposes@.len() == art.crabs@.len(),
            forall|env: int|
                0 <= env < art.crabs@.len() ==> #[trigger] final(self).reposes@[env]
                    == repose_after(old(self).reposes@, art.crabs@, env),
            final(self).arena_anchor == art.arena_anchor,
            texts(final(self).labels@) == labels_of(art.crabs@),
    {
        let ghost before = self.reposes@;
        let mut reposes: Vec<Option<[u32; 3]>> = Vec::new();
        let mut labels: Vec<String> = Vec::new();
        let mut env: usize = 0;
        while env < art.crabs.len()
            invariant
                env <= art.crabs@.len(),
                self.reposes@ == before,
                reposes@.len() == env,
                labels@.len() == env,
                forall|e: int|
                    0 <= e < env ==> #[trigger] reposes@[e] == repose_after(
                        before,
                        art.crabs@,
                        e,
                    ),
                forall|e: int|
                    0 <= e < env ==> (#[trigger] labels@[e])@ == art.crabs@[e].brain_label@,
            decreases art.crabs@.len() - env,
        {
            let r: Option<[u32; 3]> = match art.crabs[env].repose {
                Some(x) => Some(x),
                None => if env < self.reposes.len() {
                    self.reposes[env]
                } else {
                    None
                },
            };
            reposes.push(r);
            labels.push(art.crabs[env].brain_label.clone());
            env = env + 1;
        }
        self.reposes = reposes;
        self.labels = labels;
        self.arena_anchor = art.arena_anchor;
        assert(texts(self.labels@) =~= labels_of(art.crabs@));
    }
}

} // verus!
