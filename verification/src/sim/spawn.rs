//! Where a round opens: the party on its spawn line, the objective ahead of it, and every
//! crab a full clearance away.
//!
//! The layout is authored in a local frame, the spawn line along local x and the objective
//! up local +z, and mapped into the world by one rotation and one translation drawn per
//! round. Joiners are placed through the same frame.

use crate::player_map::{strictly_ascending, PlayerId, PlayerMap};
use crate::sim::entities::{Crab, ExtractionPoint, Player, PlayerStatus};
use crate::sim::geometry::{
    dist2, dist2_i128, in_disc, is_floor_sqrt, isqrt_i128, lemma_floor_sqrt_unique,
    lemma_product_bound, norm2, pos_bounded, trunc_div, within, Pos,
};
use crate::sim::layout_laws::lemma_party_settles;
use crate::sim::rng::{drawn_i32, drawn_i64, MatchRng};
use crate::sim::trig::{cos_of, lemma_unit_length, sin_cos, sin_of, ONE, TURN};
use crate::sim::world::{
    CRAB_BASE_X, CRAB_BASE_Z, CRAB_STAGGER, MAX_CRABS, MIN_CRAB_SPAWN_DISTANCE, ORIGIN_BOUND,
    SPAWN_SLOT_PITCH, TEN_HEIGHTS,
};
use vstd::prelude::*;

verus! {

/// The local vector `(lx, lz)` turned by `rot`: local +z maps to the facing of yaw `rot`.
pub open spec fn rotated(lx: int, lz: int, rot: int) -> (int, int) {
    (
        trunc_div(lx * cos_of(rot) + lz * sin_of(rot), ONE as int),
        trunc_div(lz * cos_of(rot) - lx * sin_of(rot), ONE as int),
    )
}

/// The longest local coordinate that [`rotate`] takes.
pub const LOCAL_LIMIT: i64 = 0x80_0000_0000_0000;

pub(crate) fn rotate(lx: i64, lz: i64, rot: i32) -> (r: (i64, i64))
    requires
        -LOCAL_LIMIT <= lx <= LOCAL_LIMIT,
        -LOCAL_LIMIT <= lz <= LOCAL_LIMIT,
    ensures
        (r.0 as int, r.1 as int) == rotated(lx as int, lz as int, rot as int),
        -2 * LOCAL_LIMIT <= r.0 <= 2 * LOCAL_LIMIT,
        -2 * LOCAL_LIMIT <= r.1 <= 2 * LOCAL_LIMIT,
{
    let (sin, cos) = sin_cos(rot);
    proof {
        lemma_product_bound(lx as int, LOCAL_LIMIT as int, cos as int, ONE as int);
        lemma_product_bound(lz as int, LOCAL_LIMIT as int, sin as int, ONE as int);
        lemma_product_bound(lz as int, LOCAL_LIMIT as int, cos as int, ONE as int);
        lemma_product_bound(lx as int, LOCAL_LIMIT as int, sin as int, ONE as int);
    }
    let (x, z): (i128, i128) = (lx as i128, lz as i128);
    let (s, c): (i128, i128) = (sin as i128, cos as i128);
    (((x * c + z * s) / (ONE as i128)) as i64, ((z * c - x * s) / (ONE as i128)) as i64)
}

/// One translation and one rotation, drawn per round.
#[derive(Debug, Clone, Copy, PartialEq, Eq, Structural)]
pub struct SpawnFrame {
    pub origin: Pos,
    /// Layout heading, and every spawned player's yaw.
    pub rot: i32,
}

/// The frame lies inside the terrain interior and its heading within one turn.
pub open spec fn frame_ok(f: SpawnFrame) -> bool {
    &&& -ORIGIN_BOUND <= f.origin.x <= ORIGIN_BOUND
    &&& -ORIGIN_BOUND <= f.origin.z <= ORIGIN_BOUND
    &&& 0 <= f.rot < TURN
}

/// Local coordinates mapped into the world.
pub open spec fn placed(f: SpawnFrame, lx: int, lz: int) -> Pos {
    let r = rotated(lx, lz, f.rot as int);
    Pos { x: (f.origin.x + r.0) as i64, z: (f.origin.z + r.1) as i64 }
}

/// The frame that the stream yields, and the words used after it: two coordinates, then a
/// heading.
pub open spec fn drawn_frame(seed: u64, word: u128) -> (SpawnFrame, u128) {
    let (x, w1) = drawn_i64(seed, word, (-ORIGIN_BOUND) as i64, ORIGIN_BOUND);
    let (z, w2) = drawn_i64(seed, w1, (-ORIGIN_BOUND) as i64, ORIGIN_BOUND);
    let (rot, w3) = drawn_i32(seed, w2, 0, (TURN - 1) as i32);
    (SpawnFrame { origin: Pos { x, z }, rot }, w3)
}

/// The bearing jitters of `n` crabs, a quarter turn either way, and the words used after.
pub open spec fn drawn_jitters(seed: u64, word: u128, n: nat) -> (Seq<i32>, u128)
    decreases n,
{
    if n == 0 {
        (Seq::empty(), word)
    } else {
        let (js, w) = drawn_jitters(seed, word, (n - 1) as nat);
        let (j, w2) = drawn_i32(seed, w, (-(TURN / 4)) as i32, (TURN / 4) as i32);
        (js.push(j), w2)
    }
}

impl SpawnFrame {
    pub(crate) fn draw(rng: &mut MatchRng) -> (f: Self)
        ensures
            frame_ok(f),
            (f, final(rng).word) == drawn_frame(old(rng).seed, old(rng).word),
            final(rng).seed == old(rng).seed,
    {
        let x: i64 = rng.gen_range_i64(-ORIGIN_BOUND, ORIGIN_BOUND);
        let z: i64 = rng.gen_range_i64(-ORIGIN_BOUND, ORIGIN_BOUND);
        let rot: i32 = rng.gen_range_i32(0, TURN - 1);
        SpawnFrame { origin: Pos { x, z }, rot }
    }

    /// Map local coordinates into the world.
    pub fn place(&self, lx: i64, lz: i64) -> (p: Pos)
        requires
            frame_ok(*self),
            -LOCAL_LIMIT <= lx <= LOCAL_LIMIT,
            -LOCAL_LIMIT <= lz <= LOCAL_LIMIT,
        ensures
            p == placed(*self, lx as int, lz as int),
            p.x == self.origin.x + rotated(lx as int, lz as int, self.rot as int).0,
            p.z == self.origin.z + rotated(lx as int, lz as int, self.rot as int).1,
            -0x200_0000_0000_0000 <= p.x <= 0x200_0000_0000_0000,
            -0x200_0000_0000_0000 <= p.z <= 0x200_0000_0000_0000,
    {
        let (x, z) = rotate(lx, lz, self.rot);
        Pos { x: self.origin.x + x, z: self.origin.z + z }
    }
}

/// Draw the bearing jitters of `n` crabs.
pub(crate) fn draw_jitters(rng: &mut MatchRng, n: usize) -> (js: Vec<i32>)
    ensures
        (js@, final(rng).word) == drawn_jitters(old(rng).seed, old(rng).word, n as nat),
        final(rng).seed == old(rng).seed,
        js@.len() == n,
{
    let mut js: Vec<i32> = Vec::new();
    let mut i: usize = 0;
    let ghost start = *rng;
    while i < n
        invariant
            i <= n,
            js@.len() == i,
            (js@, rng.word) == drawn_jitters(start.seed, start.word, i as nat),
            rng.seed == start.seed,
        decreases n - i,
    {
        let j: i32 = rng.gen_range_i32(-(TURN / 4), TURN / 4);
        js.push(j);
        i = i + 1;
    }
    js
}

/// The local x of slot `i` of a party of `n`.
pub open spec fn slot_x(i: int, n: int) -> int {
    (i - n / 2) * SPAWN_SLOT_PITCH
}

/// The party on its spawn line, everyone alive and facing the objective.
pub open spec fn party(f: SpawnFrame, ids: Seq<PlayerId>) -> Seq<(PlayerId, Player)> {
    Seq::new(
        ids.len(),
        |i: int|
            (
                ids[i],
                Player {
                    pos: placed(f, slot_x(i, ids.len() as int), 0),
                    yaw: f.rot,
                    status: PlayerStatus::Alive,
                },
            ),
    )
}

/// The objective, beyond the crab's spawn ring.
pub open spec fn objective(f: SpawnFrame) -> ExtractionPoint {
    ExtractionPoint { pos: placed(f, 0, MIN_CRAB_SPAWN_DISTANCE + TEN_HEIGHTS) }
}

/// Player `k` is the one nearest to `pos`; of equally near ones, the first.
pub open spec fn is_nearest(players: Seq<(PlayerId, Player)>, pos: Pos, k: int) -> bool {
    &&& 0 <= k < players.len()
    &&& forall|j: int|
        0 <= j < players.len() ==> dist2(pos, players[k].1.pos) <= dist2(
            pos,
            (#[trigger] players[j]).1.pos,
        )
    &&& forall|j: int|
        0 <= j < k ==> dist2(pos, players[k].1.pos) < dist2(pos, (#[trigger] players[j]).1.pos)
}

pub open spec fn nearest_index(players: Seq<(PlayerId, Player)>, pos: Pos) -> int {
    choose|k: int| is_nearest(players, pos, k)
}

pub proof fn lemma_nearest_unique(players: Seq<(PlayerId, Player)>, pos: Pos, k: int)
    requires
        is_nearest(players, pos, k),
    ensures
        nearest_index(players, pos) == k,
{
    let c = nearest_index(players, pos);
    assert(is_nearest(players, pos, c));
    if c < k {
        assert(dist2(pos, players[k].1.pos) < dist2(pos, players[c].1.pos));
    } else if k < c {
        assert(dist2(pos, players[c].1.pos) < dist2(pos, players[k].1.pos));
    }
}

/// The integer part of the square root.
pub open spec fn floor_sqrt(n: int) -> int {
    choose|r: int| is_floor_sqrt(n, r)
}

/// The quotient rounded away from zero.
pub open spec fn away_div(n: int, d: int) -> int {
    if n >= 0 {
        (n + d - 1) / d
    } else {
        -((-n + d - 1) / d)
    }
}

/// `pos` pushed straight away from `from` until the clearance lies between them, each
/// coordinate rounded outward; from the very same spot, pushed along +x.
pub open spec fn pushed_out(pos: Pos, from: Pos) -> Pos {
    let dx = pos.x - from.x;
    let dz = pos.z - from.z;
    let dist = floor_sqrt(norm2(dx, dz));
    if dist > 0 {
        Pos {
            x: (from.x + away_div(dx * MIN_CRAB_SPAWN_DISTANCE, dist)) as i64,
            z: (from.z + away_div(dz * MIN_CRAB_SPAWN_DISTANCE, dist)) as i64,
        }
    } else {
        Pos { x: (from.x + MIN_CRAB_SPAWN_DISTANCE) as i64, z: from.z }
    }
}

/// Push `pos` away from whoever is nearest until it is clear of everyone; `None` if that
/// takes more than `passes` looks.
pub open spec fn settled(players: Seq<(PlayerId, Player)>, pos: Pos, passes: nat) -> Option<Pos>
    decreases passes,
{
    if passes == 0 {
        None
    } else if players.len() == 0 {
        Some(pos)
    } else {
        let near = players[nearest_index(players, pos)].1.pos;
        if dist2(pos, near) >= MIN_CRAB_SPAWN_DISTANCE * MIN_CRAB_SPAWN_DISTANCE {
            Some(pos)
        } else {
            settled(players, pushed_out(pos, near), (passes - 1) as nat)
        }
    }
}

/// How often a crab's spot is looked at before its layout is given up.
pub const SETTLE_PASSES: usize = 16;

/// The largest party of which every layout settles: a look for each player to be cleared, and
/// one to see that all are.
pub const SETTLING_PARTY: usize = SETTLE_PASSES - 1;

/// Where crab `idx` would stand before it is pushed clear of the party.
pub open spec fn crab_base(f: SpawnFrame, idx: int, jitter: i32) -> Pos {
    let b = rotated(CRAB_BASE_X + idx * CRAB_STAGGER, CRAB_BASE_Z as int, jitter as int);
    placed(f, b.0, b.1)
}

/// Where crab `idx` opens, if its spot settles.
pub open spec fn crab_spot(
    players: Seq<(PlayerId, Player)>,
    f: SpawnFrame,
    idx: int,
    jitter: i32,
) -> Option<Pos> {
    settled(players, crab_base(f, idx, jitter), SETTLE_PASSES as nat)
}

/// Every crab of the layout finds a spot.
pub open spec fn layout_settles(f: SpawnFrame, ids: Seq<PlayerId>, jitters: Seq<i32>) -> bool {
    forall|i: int|
        0 <= i < jitters.len() ==> crab_spot(party(f, ids), f, i, #[trigger] jitters[i]) is Some
}

/// The crabs of a layout that settles.
pub open spec fn layout_crabs(f: SpawnFrame, ids: Seq<PlayerId>, jitters: Seq<i32>) -> Seq<Crab> {
    Seq::new(
        jitters.len(),
        |i: int| Crab { pos: crab_spot(party(f, ids), f, i, jitters[i])->0, yaw: 0 },
    )
}

/// A spot that settles is clear of every player: the spawn guarantee.
pub proof fn lemma_settled_is_clear(
    players: Seq<(PlayerId, Player)>,
    pos: Pos,
    passes: nat,
    k: int,
)
    requires
        settled(players, pos, passes) is Some,
        0 <= k < players.len(),
    ensures
        dist2(settled(players, pos, passes)->0, players[k].1.pos) >= MIN_CRAB_SPAWN_DISTANCE
            * MIN_CRAB_SPAWN_DISTANCE,
    decreases passes,
{
    lemma_nearest_exists(players, pos, players.len() as int);
    let near = players[nearest_index(players, pos)].1.pos;
    if dist2(pos, near) >= MIN_CRAB_SPAWN_DISTANCE * MIN_CRAB_SPAWN_DISTANCE {
        assert(dist2(pos, near) <= dist2(pos, players[k].1.pos));
    } else {
        lemma_settled_is_clear(players, pushed_out(pos, near), (passes - 1) as nat, k);
    }
}

/// Every crab of a layout that settles opens a full clearance from every player.
pub proof fn lemma_layout_clearance(
    f: SpawnFrame,
    ids: Seq<PlayerId>,
    jitters: Seq<i32>,
    i: int,
    k: int,
)
    requires
        layout_settles(f, ids, jitters),
        0 <= i < jitters.len(),
        0 <= k < ids.len(),
    ensures
        dist2(layout_crabs(f, ids, jitters)[i].pos, party(f, ids)[k].1.pos)
            >= MIN_CRAB_SPAWN_DISTANCE * MIN_CRAB_SPAWN_DISTANCE,
{
    assert(crab_spot(party(f, ids), f, i, jitters[i]) is Some);
    lemma_settled_is_clear(
        party(f, ids),
        crab_base(f, i, jitters[i]),
        SETTLE_PASSES as nat,
        k,
    );
}

/// Someone is nearest among the first `n`.
pub proof fn lemma_nearest_exists(players: Seq<(PlayerId, Player)>, pos: Pos, n: int)
    requires
        0 < n <= players.len(),
    ensures
        exists|k: int| is_nearest(players.take(n), pos, k),
        n == players.len() ==> is_nearest(players, pos, nearest_index(players, pos)),
    decreases n,
{
    let t = players.take(n);
    if n == 1 {
        assert(is_nearest(t, pos, 0));
    } else {
        let s = players.take(n - 1);
        lemma_nearest_exists(players, pos, n - 1);
        let k = choose|k: int| is_nearest(s, pos, k);
        assert(forall|j: int| 0 <= j < n - 1 ==> #[trigger] t[j] == s[j]);
        if dist2(pos, t[n - 1].1.pos) < dist2(pos, t[k].1.pos) {
            assert(is_nearest(t, pos, n - 1)) by {
                assert forall|j: int| 0 <= j < t.len() implies dist2(pos, t[n - 1].1.pos) <= dist2(
                    pos,
                    (#[trigger] t[j]).1.pos,
                ) by {
                    if j < n - 1 {
                        assert(dist2(pos, s[k].1.pos) <= dist2(pos, s[j].1.pos));
                    }
                }
                assert forall|j: int| 0 <= j < n - 1 implies dist2(pos, t[n - 1].1.pos) < dist2(
                    pos,
                    (#[trigger] t[j]).1.pos,
                ) by {
                    assert(dist2(pos, s[k].1.pos) <= dist2(pos, s[j].1.pos));
                }
            }
        } else {
            assert(is_nearest(t, pos, k)) by {
                assert forall|j: int| 0 <= j < t.len() implies dist2(pos, t[k].1.pos) <= dist2(
                    pos,
                    (#[trigger] t[j]).1.pos,
                ) by {
                    if j < n - 1 {
                        assert(dist2(pos, s[k].1.pos) <= dist2(pos, s[j].1.pos));
                    }
                }
                assert forall|j: int| 0 <= j < k implies dist2(pos, t[k].1.pos) < dist2(
                    pos,
                    (#[trigger] t[j]).1.pos,
                ) by {
                    assert(dist2(pos, s[k].1.pos) < dist2(pos, s[j].1.pos));
                }
            }
        }
    }
    if n == players.len() {
        assert(t =~= players);
    }
}

/// Near enough to the center for the layout arithmetic.
pub open spec fn pos_local(p: Pos) -> bool {
    &&& -0x400_0000_0000_0000 <= p.x <= 0x400_0000_0000_0000
    &&& -0x400_0000_0000_0000 <= p.z <= 0x400_0000_0000_0000
}

pub open spec fn players_local(players: Seq<(PlayerId, Player)>) -> bool {
    forall|i: int|
        0 <= i < players.len() ==> {
            &&& -0x200_0000_0000_0000 <= (#[trigger] players[i]).1.pos.x <= 0x200_0000_0000_0000
            &&& -0x200_0000_0000_0000 <= players[i].1.pos.z <= 0x200_0000_0000_0000
        }
}

/// The entry number of the player nearest to `pos`.
fn nearest_player(players: &PlayerMap<Player>, pos: Pos) -> (k: usize)
    requires
        players@.len() > 0,
        players_local(players@),
        pos_local(pos),
    ensures
        is_nearest(players@, pos, k as int),
        nearest_index(players@, pos) == k,
{
    let mut best: usize = 0;
    let first = players.value_at(0).pos;
    let mut best2: i128 = dist2_i128(pos.x - first.x, pos.z - first.z);
    let mut j: usize = 1;
    while j < players.len()
        invariant
            players@.len() > 0,
            1 <= j <= players@.len(),
            best < j,
            players_local(players@),
            pos_local(pos),
            best2 == dist2(pos, players@[best as int].1.pos),
            forall|i: int| 0 <= i < j ==> best2 <= dist2(pos, (#[trigger] players@[i]).1.pos),
            forall|i: int| 0 <= i < best ==> best2 < dist2(pos, (#[trigger] players@[i]).1.pos),
        decreases players@.len() - j,
    {
        let p = players.value_at(j).pos;
        let d2: i128 = dist2_i128(pos.x - p.x, pos.z - p.z);
        if d2 < best2 {
            best = j;
            best2 = d2;
        }
        j = j + 1;
    }
    proof {
        lemma_nearest_unique(players@, pos, best as int);
    }
    best
}

/// `d` times the clearance, over `len`, rounded away from zero.
fn scaled_out(d: i128, len: i128) -> (r: i64)
    requires
        -MIN_CRAB_SPAWN_DISTANCE <= d <= MIN_CRAB_SPAWN_DISTANCE,
        1 <= len <= MIN_CRAB_SPAWN_DISTANCE,
    ensures
        r == away_div(d * MIN_CRAB_SPAWN_DISTANCE, len as int),
        -0x20_0000_0000 <= r <= 0x20_0000_0000,
{
    let min: i128 = MIN_CRAB_SPAWN_DISTANCE as i128;
    proof {
        lemma_product_bound(
            d as int,
            MIN_CRAB_SPAWN_DISTANCE as int,
            min as int,
            MIN_CRAB_SPAWN_DISTANCE as int,
        );
    }
    let num: i128 = d * min;
    let (mag, negative) = if num >= 0 {
        (num, false)
    } else {
        (-num, true)
    };
    let q: i128 = (mag + (len - 1)) / len;
    proof {
        assert(0 <= (mag + len - 1) / (len as int) <= mag + len - 1) by (nonlinear_arith)
            requires
                mag >= 0,
                len >= 1,
        ;
    }
    if negative {
        (-q) as i64
    } else {
        q as i64
    }
}

/// One push away from `from`.
fn push_out(pos: Pos, from: Pos) -> (r: Pos)
    requires
        pos_local(pos),
        -0x200_0000_0000_0000 <= from.x <= 0x200_0000_0000_0000,
        -0x200_0000_0000_0000 <= from.z <= 0x200_0000_0000_0000,
        dist2(pos, from) < MIN_CRAB_SPAWN_DISTANCE * MIN_CRAB_SPAWN_DISTANCE,
    ensures
        r == pushed_out(pos, from),
        pos_local(r),
        r.x - from.x == (if floor_sqrt(dist2(pos, from)) > 0 {
            away_div(
                (pos.x - from.x) * MIN_CRAB_SPAWN_DISTANCE,
                floor_sqrt(dist2(pos, from)),
            )
        } else {
            MIN_CRAB_SPAWN_DISTANCE as int
        }),
{
    let dx: i64 = pos.x - from.x;
    let dz: i64 = pos.z - from.z;
    let d2: i128 = dist2_i128(dx, dz);
    let dist: i128 = isqrt_i128(d2);
    proof {
        lemma_floor_sqrt_unique(d2 as int, dist as int, floor_sqrt(d2 as int));
        let m = MIN_CRAB_SPAWN_DISTANCE as int;
        assert(dx * dx >= 0 && dz * dz >= 0) by (nonlinear_arith);
        assert(-m <= dx <= m) by (nonlinear_arith)
            requires
                dx * dx < m * m,
                m > 0,
        ;
        assert(-m <= dz <= m) by (nonlinear_arith)
            requires
                dz * dz < m * m,
                m > 0,
        ;
        assert(dist <= m) by (nonlinear_arith)
            requires
                dist * dist < m * m,
                m > 0,
        ;
    }
    if dist > 0 {
        Pos { x: from.x + scaled_out(dx as i128, dist), z: from.z + scaled_out(dz as i128, dist) }
    } else {
        Pos { x: from.x + MIN_CRAB_SPAWN_DISTANCE, z: from.z }
    }
}

/// Push a crab's spot clear of the party.
fn settle_spot(players: &PlayerMap<Player>, base: Pos) -> (r: Option<Pos>)
    requires
        players_local(players@),
        pos_local(base),
    ensures
        r == settled(players@, base, SETTLE_PASSES as nat),
        r matches Some(p) ==> pos_local(p),
{
    let mut pos = base;
    let mut left: usize = SETTLE_PASSES;
    while left > 0
        invariant
            left <= SETTLE_PASSES,
            players_local(players@),
            pos_local(pos),
            settled(players@, base, SETTLE_PASSES as nat) == settled(players@, pos, left as nat),
        decreases left,
    {
        if players.is_empty() {
            return Some(pos);
        }
        let k: usize = nearest_player(players, pos);
        let near = players.value_at(k).pos;
        let d2: i128 = dist2_i128(pos.x - near.x, pos.z - near.z);
        let min: i128 = MIN_CRAB_SPAWN_DISTANCE as i128;
        if d2 >= min * min {
            return Some(pos);
        }
        pos = push_out(pos, near);
        left = left - 1;
    }
    None
}

/// A round's opening.
pub struct Layout {
    pub frame: SpawnFrame,
    pub players: PlayerMap<Player>,
    pub crabs: Vec<Crab>,
    pub extraction: ExtractionPoint,
}

/// Lay a round out on `frame` with the given bearing jitters, one crab to each; `None` if
/// some crab's spot does not settle.
pub fn lay_out(frame: SpawnFrame, ids: &[PlayerId], jitters: &[i32]) -> (r: Option<Layout>)
    requires
        frame_ok(frame),
        strictly_ascending(ids@),
        ids@.len() <= 256,
        jitters@.len() <= MAX_CRABS,
    ensures
        match r {
            Some(l) => {
                &&& layout_settles(frame, ids@, jitters@)
                &&& l.frame == frame
                &&& l.players.wf()
                &&& l.players@ == party(frame, ids@)
                &&& l.crabs@ == layout_crabs(frame, ids@, jitters@)
                &&& l.extraction == objective(frame)
                &&& players_local(l.players@)
                &&& pos_local(l.extraction.pos)
                &&& forall|i: int| 0 <= i < l.crabs@.len() ==> pos_local((#[trigger] l.crabs@[i]).pos)
            },
            None => !layout_settles(frame, ids@, jitters@),
        },
{
    let mut players: PlayerMap<Player> = PlayerMap::new();
    let n: i64 = ids.len() as i64;
    let mut i: usize = 0;
    let ghost full = party(frame, ids@);
    assert(players@ =~= full.take(0));
    while i < ids.len()
        invariant
            i <= ids.len(),
            n == ids.len(),
            ids@.len() <= 256,
            frame_ok(frame),
            strictly_ascending(ids@),
            full == party(frame, ids@),
            players.wf(),
            players@ == full.take(i as int),
            players_local(players@),
        decreases ids.len() - i,
    {
        let x: i64 = (i as i64 - n / 2) * SPAWN_SLOT_PITCH;
        let p = Player { pos: frame.place(x, 0), yaw: frame.rot, status: PlayerStatus::Alive };
        let ghost before = players@;
        proof {
            if i > 0 {
                assert(before.last() == full[i - 1]);
                assert(ids@[i - 1].0 < ids@[i as int].0);
            }
        }
        players.insert(ids[i], p);
        proof {
            assert(full[i as int] == (ids@[i as int], p));
            assert(players@ =~= full.take(i + 1));
        }
        i = i + 1;
    }
    assert(full.take(i as int) =~= full);
    let mut crabs: Vec<Crab> = Vec::new();
    let mut c: usize = 0;
    while c < jitters.len()
        invariant
            c <= jitters.len(),
            jitters@.len() <= MAX_CRABS,
            frame_ok(frame),
            players@ == party(frame, ids@),
            players_local(players@),
            crabs@ == layout_crabs(frame, ids@, jitters@).take(c as int),
            forall|k: int|
                0 <= k < c ==> crab_spot(party(frame, ids@), frame, k, #[trigger] jitters@[k]) is Some,
            forall|k: int| 0 <= k < crabs@.len() ==> pos_local((#[trigger] crabs@[k]).pos),
        decreases jitters.len() - c,
    {
        let (bx, bz) = rotate(
            CRAB_BASE_X + c as i64 * CRAB_STAGGER,
            CRAB_BASE_Z,
            jitters[c],
        );
        proof {
            lemma_rotated_small(CRAB_BASE_X + c * CRAB_STAGGER, CRAB_BASE_Z as int, jitters@[c as int] as int);
        }
        let base = frame.place(bx, bz);
        match settle_spot(&players, base) {
            Some(pos) => {
                crabs.push(Crab { pos, yaw: 0 });
            },
            None => {
                assert(crab_spot(party(frame, ids@), frame, c as int, jitters@[c as int]) is None);
                return None;
            },
        }
        proof {
            assert(crabs@ =~= layout_crabs(frame, ids@, jitters@).take(c + 1));
        }
        c = c + 1;
    }
    assert(layout_crabs(frame, ids@, jitters@).take(c as int) =~= layout_crabs(frame, ids@, jitters@));
    let extraction = ExtractionPoint {
        pos: frame.place(0, MIN_CRAB_SPAWN_DISTANCE + TEN_HEIGHTS),
    };
    Some(Layout { frame, players, crabs, extraction })
}

/// A rotation at most adds the two coordinates up.
pub(crate) proof fn lemma_rotated_small(lx: int, lz: int, rot: int)
    requires
        -0x40_0000_0000_0000 <= lx <= 0x40_0000_0000_0000,
        -0x40_0000_0000_0000 <= lz <= 0x40_0000_0000_0000,
    ensures
        -LOCAL_LIMIT <= rotated(lx, lz, rot).0 <= LOCAL_LIMIT,
        -LOCAL_LIMIT <= rotated(lx, lz, rot).1 <= LOCAL_LIMIT,
{
    lemma_unit_length(rot);
    lemma_product_bound(lx, 0x40_0000_0000_0000, cos_of(rot), ONE as int);
    lemma_product_bound(lz, 0x40_0000_0000_0000, sin_of(rot), ONE as int);
    lemma_product_bound(lz, 0x40_0000_0000_0000, cos_of(rot), ONE as int);
    lemma_product_bound(lx, 0x40_0000_0000_0000, sin_of(rot), ONE as int);
}

/// The layout that a stream yields for a roster and a number of crabs.
pub open spec fn stream_settles(rng: MatchRng, ids: Seq<PlayerId>, crabs: nat) -> bool {
    let (f, w) = drawn_frame(rng.seed, rng.word);
    layout_settles(f, ids, drawn_jitters(rng.seed, w, crabs).0)
}

/// How far a layout moves its stream on.
pub open spec fn stream_after(rng: MatchRng, crabs: nat) -> MatchRng {
    let (f, w) = drawn_frame(rng.seed, rng.word);
    MatchRng { seed: rng.seed, word: drawn_jitters(rng.seed, w, crabs).1 }
}

/// Draw a layout off the stream, which moves on whether or not the layout settles.
pub(crate) fn draw_layout(rng: &mut MatchRng, ids: &[PlayerId], crabs: usize) -> (r: Option<Layout>)
    requires
        strictly_ascending(ids@),
        ids@.len() <= 256,
        crabs <= MAX_CRABS,
    ensures
        *final(rng) == stream_after(*old(rng), crabs as nat),
        r is Some <==> stream_settles(*old(rng), ids@, crabs as nat),
        ids@.len() <= SETTLING_PARTY ==> r is Some,
        r matches Some(l) ==> {
            let (f, w) = drawn_frame(old(rng).seed, old(rng).word);
            let js = drawn_jitters(old(rng).seed, w, crabs as nat).0;
            &&& frame_ok(f)
            &&& js.len() == crabs
            &&& l.frame == f
            &&& l.players.wf()
            &&& l.players@ == party(f, ids@)
            &&& l.crabs@ == layout_crabs(f, ids@, js)
            &&& l.extraction == objective(f)
            &&& players_local(l.players@)
            &&& pos_local(l.extraction.pos)
            &&& forall|i: int| 0 <= i < l.crabs@.len() ==> pos_local((#[trigger] l.crabs@[i]).pos)
        },
{
    let frame = SpawnFrame::draw(rng);
    let jitters = draw_jitters(rng, crabs);
    proof {
        if ids@.len() <= SETTLING_PARTY {
            lemma_party_settles(frame, ids@, jitters@);
        }
    }
    lay_out(frame, ids, jitters.as_slice())
}

/// Spawn-line slot `d` of the joiner whose roster slot has local x `x`.
pub open spec fn join_slot(f: SpawnFrame, x: int, d: int) -> Pos {
    placed(f, x + d * SPAWN_SLOT_PITCH, 0)
}

/// A spot is out of every crab's spawn clearance.
pub open spec fn clear_of_crabs(crabs: Seq<Crab>, p: Pos) -> bool {
    forall|i: int|
        0 <= i < crabs.len() ==> !in_disc(
            p,
            (#[trigger] crabs[i]).pos,
            MIN_CRAB_SPAWN_DISTANCE as int,
        )
}

/// `d` is the clear slot nearest to the roster slot; of two equally near, the one east.
pub open spec fn is_join_offset(crabs: Seq<Crab>, f: SpawnFrame, x: int, d: int) -> bool {
    let a = if d >= 0 {
        d
    } else {
        -d
    };
    &&& clear_of_crabs(crabs, join_slot(f, x, d))
    &&& forall|e: int| -a < e < a ==> !clear_of_crabs(crabs, #[trigger] join_slot(f, x, e))
    &&& d < 0 ==> !clear_of_crabs(crabs, join_slot(f, x, a))
}

/// Where a joiner whose roster slot has local x `x` is placed.
pub open spec fn join_spot(crabs: Seq<Crab>, f: SpawnFrame, x: int) -> Pos {
    join_slot(f, x, choose|d: int| is_join_offset(crabs, f, x, d))
}

/// There is only one such slot.
pub proof fn lemma_join_spot(crabs: Seq<Crab>, f: SpawnFrame, x: int, d: int)
    requires
        is_join_offset(crabs, f, x, d),
    ensures
        join_spot(crabs, f, x) == join_slot(f, x, d),
{
    let c = choose|c: int| is_join_offset(crabs, f, x, c);
    assert(clear_of_crabs(crabs, join_slot(f, x, c)));
    assert(clear_of_crabs(crabs, join_slot(f, x, d)));
    assert(clear_of_crabs(crabs, join_slot(f, x, -c)) || !clear_of_crabs(crabs, join_slot(f, x, -c)));
    assert(clear_of_crabs(crabs, join_slot(f, x, -d)) || !clear_of_crabs(crabs, join_slot(f, x, -d)));
}

/// Slots that one crab can block, counted generously.
pub const BLOCKED_PER_CRAB: i64 = 109;

/// Within range, mapping a slot of the spawn line into the world loses nothing.
pub proof fn lemma_placed_on_line(f: SpawnFrame, lx: int)
    requires
        frame_ok(f),
        -0x40_0000_0000_0000 <= lx <= 0x40_0000_0000_0000,
    ensures
        placed(f, lx, 0).x == f.origin.x + trunc_div(lx * cos_of(f.rot as int), ONE as int),
        placed(f, lx, 0).z == f.origin.z + trunc_div(-(lx * sin_of(f.rot as int)), ONE as int),
        -0x100_0000_0000_0000 <= placed(f, lx, 0).x <= 0x100_0000_0000_0000,
        -0x100_0000_0000_0000 <= placed(f, lx, 0).z <= 0x100_0000_0000_0000,
{
    let c = cos_of(f.rot as int);
    let s = sin_of(f.rot as int);
    assert(0 * s == 0 && 0 * c == 0) by (nonlinear_arith);
    lemma_rotated_small(lx, 0, f.rot as int);
}

/// Two slots at least 218 apart on the line are more than two clearances apart.
proof fn lemma_far_slots(f: SpawnFrame, lx1: int, lx2: int)
    requires
        frame_ok(f),
        -0x40_0000_0000_0000 <= lx1,
        lx2 <= 0x40_0000_0000_0000,
        lx2 - lx1 >= 218 * SPAWN_SLOT_PITCH,
    ensures
        dist2(placed(f, lx1, 0), placed(f, lx2, 0)) > 4 * (MIN_CRAB_SPAWN_DISTANCE
            * MIN_CRAB_SPAWN_DISTANCE),
{
    let c = cos_of(f.rot as int);
    let s = sin_of(f.rot as int);
    lemma_unit_length(f.rot as int);
    lemma_placed_on_line(f, lx1);
    lemma_placed_on_line(f, lx2);
    let a = placed(f, lx1, 0);
    let b = placed(f, lx2, 0);
    let gx = b.x - a.x;
    let gz = b.z - a.z;
    let l = lx2 - lx1;
    let one = ONE as int;
    let e1 = one * gx - l * c;
    let e2 = one * gz + l * s;
    assert(l * c == lx2 * c - lx1 * c) by (nonlinear_arith)
        requires
            l == lx2 - lx1,
    ;
    assert(l * s == lx2 * s - lx1 * s) by (nonlinear_arith)
        requires
            l == lx2 - lx1,
    ;
    assert(-0x2_0000 <= e1 <= 0x2_0000);
    assert(-0x2_0000 <= e2 <= 0x2_0000);
    assert((one * gx) * (one * gx) >= l * l * (c * c) + 2 * (l * (c * e1))) by (nonlinear_arith)
        requires
            one * gx == l * c + e1,
    ;
    assert((one * gz) * (one * gz) >= l * l * (s * s) - 2 * (l * (s * e2))) by (nonlinear_arith)
        requires
            one * gz == e2 - l * s,
    ;
    lemma_product_bound(c, one, e1, 0x2_0000);
    lemma_product_bound(s, one, e2, 0x2_0000);
    let oo = one * one;
    assert(oo == 0x1_0000_0000);
    assert(l * (c * e1) >= -(2 * (l * oo))) by (nonlinear_arith)
        requires
            l >= 0,
            c * e1 >= -(2 * oo),
    ;
    assert(l * (s * e2) <= 2 * (l * oo)) by (nonlinear_arith)
        requires
            l >= 0,
            s * e2 <= 2 * oo,
    ;
    let n = norm2(s, c);
    let ll = l * l;
    assert(ll * n == ll * (c * c) + ll * (s * s)) by (nonlinear_arith)
        requires
            n == s * s + c * c,
    ;
    assert(500 * (ll * n) >= 499 * (ll * oo)) by (nonlinear_arith)
        requires
            ll >= 0,
            500 * n >= 499 * oo,
            ll == l * l,
    ;
    assert((one * gx) * (one * gx) == oo * (gx * gx)) by (nonlinear_arith)
        requires
            oo == one * one,
    ;
    assert((one * gz) * (one * gz) == oo * (gz * gz)) by (nonlinear_arith)
        requires
            oo == one * one,
    ;
    let g2 = norm2(gx, gz);
    assert(500 * g2 >= 499 * ll - 4000 * l) by {
        assert(500 * (oo * g2) >= 499 * (ll * oo) - 4000 * (l * oo)) by {
            assert(oo * g2 == oo * (gx * gx) + oo * (gz * gz)) by (nonlinear_arith)
                requires
                    g2 == gx * gx + gz * gz,
            ;
        }
        assert(ll * oo == 0x1_0000_0000 * ll && l * oo == 0x1_0000_0000 * l && oo * g2
            == 0x1_0000_0000 * g2);
    }
    assert(499 * ll >= 499 * (1_234_316 * l)) by (nonlinear_arith)
        requires
            ll == l * l,
            l >= 1_234_316,
    ;
    assert(norm2(a.x - b.x, a.z - b.z) == g2) by {
        assert((a.x - b.x) * (a.x - b.x) == gx * gx) by (nonlinear_arith)
            requires
                gx == b.x - a.x,
        ;
        assert((a.z - b.z) * (a.z - b.z) == gz * gz) by (nonlinear_arith)
            requires
                gz == b.z - a.z,
        ;
    }
    assert(MIN_CRAB_SPAWN_DISTANCE * MIN_CRAB_SPAWN_DISTANCE == 93_483_062_500);
}

/// One crab cannot block two slots that far apart.
proof fn lemma_crab_blocks_few(f: SpawnFrame, crab: Pos, lx1: int, lx2: int)
    requires
        frame_ok(f),
        -0x40_0000_0000_0000 <= lx1,
        lx2 <= 0x40_0000_0000_0000,
        lx2 - lx1 >= 218 * SPAWN_SLOT_PITCH,
        in_disc(placed(f, lx1, 0), crab, MIN_CRAB_SPAWN_DISTANCE as int),
    ensures
        !in_disc(placed(f, lx2, 0), crab, MIN_CRAB_SPAWN_DISTANCE as int),
{
    lemma_far_slots(f, lx1, lx2);
    let a = placed(f, lx1, 0);
    let b = placed(f, lx2, 0);
    lemma_parallelogram(a.x - crab.x, b.x - crab.x);
    lemma_parallelogram(a.z - crab.z, b.z - crab.z);
}

proof fn lemma_parallelogram(u: int, v: int)
    ensures
        (u - v) * (u - v) <= 2 * (u * u) + 2 * (v * v),
{
    assert((u - v) * (u - v) + (u + v) * (u + v) == 2 * (u * u) + 2 * (v * v)) by (nonlinear_arith);
    assert((u + v) * (u + v) >= 0) by (nonlinear_arith);
}

/// More pigeons than holes: two share one.
proof fn lemma_pigeonhole(hole: spec_fn(int) -> int, n: int) -> (r: (int, int))
    requires
        n >= 0,
        forall|j: int| 0 <= j <= n ==> 0 <= #[trigger] hole(j) < n,
    ensures
        0 <= r.0 < r.1 <= n,
        hole(r.0) == hole(r.1),
    decreases n,
{
    let v = hole(n);
    if exists|i: int| 0 <= i < n && #[trigger] hole(i) == v {
        let i = choose|i: int| 0 <= i < n && #[trigger] hole(i) == v;
        (i, n)
    } else {
        let g = |j: int|
            if hole(j) == n - 1 {
                v
            } else {
                hole(j)
            };
        assert forall|j: int| 0 <= j <= n - 1 implies 0 <= #[trigger] g(j) < n - 1 by {
            assert(hole(j) != v);
            assert(0 <= hole(j) < n);
        }
        assert(0 <= hole(0) < n);
        let r = lemma_pigeonhole(g, n - 1);
        assert(g(r.0) == g(r.1));
        assert(hole(r.0) != v && hole(r.1) != v);
        r
    }
}

/// However the crabs stand, some slot within [`BLOCKED_PER_CRAB`] per crab of the roster slot
/// is clear of them all: a joiner always finds a place.
pub proof fn lemma_join_slot_exists(crabs: Seq<Crab>, f: SpawnFrame, x: int) -> (d: int)
    requires
        frame_ok(f),
        crabs.len() <= MAX_CRABS,
        -0x100_0000_0000 <= x <= 0x100_0000_0000,
    ensures
        -BLOCKED_PER_CRAB * crabs.len() <= d <= BLOCKED_PER_CRAB * crabs.len(),
        clear_of_crabs(crabs, join_slot(f, x, d)),
{
    let k = crabs.len() as int;
    let at = |j: int| 218 * j - BLOCKED_PER_CRAB * k;
    if forall|j: int| 0 <= j <= k ==> !clear_of_crabs(crabs, join_slot(f, x, #[trigger] at(j))) {
        let hole = |j: int|
            choose|i: int|
                0 <= i < crabs.len() && in_disc(
                    join_slot(f, x, at(j)),
                    (#[trigger] crabs[i]).pos,
                    MIN_CRAB_SPAWN_DISTANCE as int,
                );
        assert forall|j: int| 0 <= j <= k implies 0 <= #[trigger] hole(j) < k by {
            assert(!clear_of_crabs(crabs, join_slot(f, x, at(j))));
        }
        let (i, j) = lemma_pigeonhole(hole, k);
        assert(!clear_of_crabs(crabs, join_slot(f, x, at(i))));
        assert(!clear_of_crabs(crabs, join_slot(f, x, at(j))));
        let c = crabs[hole(i)].pos;
        let lx1 = x + at(i) * SPAWN_SLOT_PITCH;
        let lx2 = x + at(j) * SPAWN_SLOT_PITCH;
        lemma_crab_blocks_few(f, c, lx1, lx2);
        assert(false);
        0
    } else {
        let j = choose|j: int|
            0 <= j <= k && clear_of_crabs(crabs, join_slot(f, x, #[trigger] at(j)));
        at(j)
    }
}

/// Whether a spot is out of every crab's spawn clearance.
fn is_clear(crabs: &[Crab], p: Pos) -> (r: bool)
    requires
        pos_bounded(p),
        forall|i: int| 0 <= i < crabs@.len() ==> pos_bounded((#[trigger] crabs@[i]).pos),
    ensures
        r == clear_of_crabs(crabs@, p),
{
    let mut i: usize = 0;
    while i < crabs.len()
        invariant
            i <= crabs.len(),
            pos_bounded(p),
            forall|k: int| 0 <= k < crabs@.len() ==> pos_bounded((#[trigger] crabs@[k]).pos),
            forall|k: int|
                0 <= k < i ==> !in_disc(
                    p,
                    (#[trigger] crabs@[k]).pos,
                    MIN_CRAB_SPAWN_DISTANCE as int,
                ),
        decreases crabs.len() - i,
    {
        let c = crabs[i].pos;
        if within(p.x, p.z, c.x, c.z, MIN_CRAB_SPAWN_DISTANCE) {
            assert(in_disc(p, crabs@[i as int].pos, MIN_CRAB_SPAWN_DISTANCE as int));
            return false;
        }
        i = i + 1;
    }
    true
}

/// The spawn-line slot nearest to local `x` that is clear of every crab: slots are tried
/// outward from the roster slot, east before west.
pub(crate) fn nearest_clear_join_slot(frame: &SpawnFrame, crabs: &[Crab], x: i64) -> (p: Pos)
    requires
        frame_ok(*frame),
        crabs@.len() <= MAX_CRABS,
        -0x100_0000_0000 <= x <= 0x100_0000_0000,
        forall|i: int| 0 <= i < crabs@.len() ==> pos_bounded((#[trigger] crabs@[i]).pos),
    ensures
        p == join_spot(crabs@, *frame, x as int),
        clear_of_crabs(crabs@, p),
        pos_local(p),
{
    let ghost known = lemma_join_slot_exists(crabs@, *frame, x as int);
    let limit: i64 = BLOCKED_PER_CRAB * crabs.len() as i64;
    let mut d: i64 = 0;
    assert(clear_of_crabs(crabs@, join_slot(*frame, x as int, known)));
    while d <= limit
        invariant
            0 <= d <= limit + 1,
            limit == BLOCKED_PER_CRAB * crabs@.len(),
            crabs@.len() <= MAX_CRABS,
            -0x100_0000_0000 <= x <= 0x100_0000_0000,
            frame_ok(*frame),
            forall|i: int| 0 <= i < crabs@.len() ==> pos_bounded((#[trigger] crabs@[i]).pos),
            forall|e: int|
                -d < e < d ==> !clear_of_crabs(
                    crabs@,
                    #[trigger] join_slot(*frame, x as int, e),
                ),
        decreases limit + 1 - d,
    {
        let east = frame.place(x + d * SPAWN_SLOT_PITCH, 0);
        assert(east == join_slot(*frame, x as int, d as int));
        if is_clear(crabs, east) {
            proof {
                lemma_join_spot(crabs@, *frame, x as int, d as int);
            }
            return east;
        }
        let west = frame.place(x - d * SPAWN_SLOT_PITCH, 0);
        assert((-d) * SPAWN_SLOT_PITCH == -(d * SPAWN_SLOT_PITCH));
        assert(west == join_slot(*frame, x as int, -d as int));
        if is_clear(crabs, west) {
            proof {
                lemma_join_spot(crabs@, *frame, x as int, -d as int);
            }
            return west;
        }
        d = d + 1;
    }
    assert(false);
    frame.origin
}

} // verus!
