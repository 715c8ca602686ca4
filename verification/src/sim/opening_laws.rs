//! How every round opens, and how joiners enter it.

use crate::player_map::{ascending, lemma_put, lookup, put, seated, strictly_ascending, PlayerId};
use crate::roster::{lemma_ascending_len, lemma_with_id};
use crate::sim::entities::{Crab, PilotPose, Player, PlayerStatus, PoseView};
use crate::sim::geometry::{dist2, in_disc, lemma_product_bound, norm2, Pos};
use crate::sim::input::Input;
use crate::sim::layout_laws::{lemma_floor_sqrt_exists, lemma_scaled_bound};
use crate::sim::rng::{drawn_i32, drawn_i64};
use crate::sim::round::{position_in, restart_edge, stepped, with_joiner, RoundState, Sim};
use crate::sim::spawn::{
    away_div, clear_of_crabs, crab_base, crab_spot, drawn_frame, drawn_jitters, frame_ok,
    is_join_offset, join_slot, join_spot, layout_crabs, lemma_join_slot_exists, lemma_join_spot,
    lemma_nearest_exists, lemma_rotated_small, nearest_index, objective, party, placed,
    pushed_out, rotated, slot_x, SpawnFrame,
};
use crate::sim::trig::{cos_of, lemma_unit_length, sin_of, ONE, QUARTER, TURN};
use crate::sim::world::{
    CRAB_BASE_X, CRAB_BASE_Z, CRAB_STAGGER, MAX_CRABS, MIN_CRAB_SPAWN_DISTANCE, ORIGIN_BOUND,
    SPAWN_SLOT_PITCH, TEN_HEIGHTS,
};
use vstd::prelude::*;

verus! {

/// How far the vector `(dx, dz)` goes along the facing of `yaw`, scaled by [`ONE`].
pub open spec fn ahead_of(yaw: int, dx: int, dz: int) -> int {
    dx * sin_of(yaw) + dz * cos_of(yaw)
}

/// How far the vector `(dx, dz)` goes to the right of the facing of `yaw`, scaled by [`ONE`].
pub open spec fn right_of(yaw: int, dx: int, dz: int) -> int {
    dx * cos_of(yaw) - dz * sin_of(yaw)
}

/// The square of the length of a facing: the square of [`ONE`], within a part in five hundred.
pub open spec fn facing2(yaw: int) -> int {
    norm2(sin_of(yaw), cos_of(yaw))
}

/// A vector lies `right` to the right and `ahead` ahead of a facing, up to the rounding of
/// each coordinate to the grid.
pub open spec fn lies_at(yaw: int, dx: int, dz: int, right: int, ahead: int) -> bool {
    &&& -2 * (ONE * ONE) <= ONE * ahead_of(yaw, dx, dz) - ahead * facing2(yaw) <= 2 * (ONE * ONE)
    &&& -2 * (ONE * ONE) <= ONE * right_of(yaw, dx, dz) - right * facing2(yaw) <= 2 * (ONE * ONE)
}

/// A turned vector, seen from the heading it was turned by, is what it was.
pub proof fn lemma_rotation_is_seen_back(lx: int, lz: int, rot: int)
    ensures
        lies_at(rot, rotated(lx, lz, rot).0, rotated(lx, lz, rot).1, lx, lz),
{
    let s = sin_of(rot);
    let c = cos_of(rot);
    let n = facing2(rot);
    let (x, z) = rotated(lx, lz, rot);
    let u = lx * c + lz * s;
    let v = lz * c - lx * s;
    let one = ONE as int;
    let ex = u - one * x;
    let ez = v - one * z;
    assert(-one < ex < one);
    assert(-one < ez < one);
    lemma_unit_length(rot);
    lemma_seen_back(lx, lz, s, c);
    assert(s * (u - ex) == s * u - s * ex && c * (v - ez) == c * v - c * ez) by (nonlinear_arith);
    assert(c * (u - ex) == c * u - c * ex && s * (v - ez) == s * v - s * ez) by (nonlinear_arith);
    assert(s * (one * x) == one * (x * s) && c * (one * z) == one * (z * c)) by (nonlinear_arith);
    assert(c * (one * x) == one * (x * c) && s * (one * z) == one * (z * s)) by (nonlinear_arith);
    assert(one * (x * s + z * c) == one * (x * s) + one * (z * c)) by (nonlinear_arith);
    assert(one * (x * c - z * s) == one * (x * c) - one * (z * s)) by (nonlinear_arith);
    lemma_product_bound(s, one, ex, one);
    lemma_product_bound(c, one, ez, one);
    lemma_product_bound(c, one, ex, one);
    lemma_product_bound(s, one, ez, one);
}

proof fn lemma_seen_back(lx: int, lz: int, s: int, c: int)
    ensures
        s * (lx * c + lz * s) + c * (lz * c - lx * s) == lz * norm2(s, c),
        c * (lx * c + lz * s) - s * (lz * c - lx * s) == lx * norm2(s, c),
{
    let a = lx * (s * c);
    let b = lz * (s * c);
    assert(s * (lx * c + lz * s) == a + lz * (s * s)) by (nonlinear_arith)
        requires
            a == lx * (s * c),
    ;
    assert(c * (lz * c - lx * s) == lz * (c * c) - a) by (nonlinear_arith)
        requires
            a == lx * (s * c),
    ;
    assert(c * (lx * c + lz * s) == lx * (c * c) + b) by (nonlinear_arith)
        requires
            b == lz * (s * c),
    ;
    assert(s * (lz * c - lx * s) == b - lx * (s * s)) by (nonlinear_arith)
        requires
            b == lz * (s * c),
    ;
    assert(lz * (s * s + c * c) == lz * (s * s) + lz * (c * c)) by (nonlinear_arith);
    assert(lx * (s * s + c * c) == lx * (s * s) + lx * (c * c)) by (nonlinear_arith);
}

/// A spot placed in a frame lies as far to the right and ahead of its origin, in its heading,
/// as it was asked to.
pub proof fn lemma_placed_as_asked(f: SpawnFrame, lx: int, lz: int)
    requires
        frame_ok(f),
        -0x40_0000_0000_0000 <= lx <= 0x40_0000_0000_0000,
        -0x40_0000_0000_0000 <= lz <= 0x40_0000_0000_0000,
    ensures
        lies_at(
            f.rot as int,
            placed(f, lx, lz).x - f.origin.x,
            placed(f, lx, lz).z - f.origin.z,
            lx,
            lz,
        ),
{
    lemma_rotated_small(lx, lz, f.rot as int);
    lemma_rotation_is_seen_back(lx, lz, f.rot as int);
}

/// A round as it opens: everybody is alive and faces along the frame's heading; they stand on
/// a line across it, a pitch apart in the order of the roster from left to right, the middle
/// one on the frame's origin; and the objective lies straight ahead of that spot, beyond the
/// crabs' clearance.
pub open spec fn opens_facing_the_objective(t: RoundState) -> bool {
    let o = t.frame.origin;
    let n = t.players.len() as int;
    &&& forall|k: int|
        0 <= k < n ==> {
            &&& (#[trigger] t.players[k]).1.status is Alive
            &&& t.players[k].1.yaw == t.frame.rot
            &&& t.players[k].0 == t.roster[k]
            &&& lies_at(
                t.players[k].1.yaw as int,
                t.players[k].1.pos.x - o.x,
                t.players[k].1.pos.z - o.z,
                (k - n / 2) * SPAWN_SLOT_PITCH,
                0,
            )
        }
    &&& n == t.roster.len()
    &&& (n > 0 ==> t.players[n / 2].1.pos == o)
    &&& lies_at(
        t.frame.rot as int,
        t.extraction.pos.x - o.x,
        t.extraction.pos.z - o.z,
        0,
        MIN_CRAB_SPAWN_DISTANCE + TEN_HEIGHTS,
    )
    &&& ahead_of(t.frame.rot as int, t.extraction.pos.x - o.x, t.extraction.pos.z - o.z) > 0
    &&& forall|c: int| 0 <= c < t.crabs.len() ==> (#[trigger] t.crabs[c]).yaw == 0
}

proof fn lemma_party_faces_the_objective(f: SpawnFrame, ids: Seq<PlayerId>, t: RoundState)
    requires
        frame_ok(f),
        ids.len() <= 256,
        t.frame == f,
        t.roster == ids,
        t.players == party(f, ids),
        t.extraction == objective(f),
        forall|c: int| 0 <= c < t.crabs.len() ==> (#[trigger] t.crabs[c]).yaw == 0,
    ensures
        opens_facing_the_objective(t),
{
    let o = f.origin;
    let n = ids.len() as int;
    let rot = f.rot as int;
    assert forall|k: int| 0 <= k < n implies {
        &&& (#[trigger] t.players[k]).1.status is Alive
        &&& t.players[k].1.yaw == t.frame.rot
        &&& t.players[k].0 == t.roster[k]
        &&& lies_at(
            t.players[k].1.yaw as int,
            t.players[k].1.pos.x - o.x,
            t.players[k].1.pos.z - o.z,
            (k - n / 2) * SPAWN_SLOT_PITCH,
            0,
        )
    } by {
        assert(slot_x(k, n) == (k - n / 2) * SPAWN_SLOT_PITCH);
        lemma_placed_as_asked(f, slot_x(k, n), 0);
    }
    if n > 0 {
        assert(slot_x(n / 2, n) == 0);
        assert(0 * cos_of(rot) == 0 && 0 * sin_of(rot) == 0) by (nonlinear_arith);
        assert(placed(f, 0, 0) == o);
    }
    let far = MIN_CRAB_SPAWN_DISTANCE + TEN_HEIGHTS;
    lemma_placed_as_asked(f, 0, far);
    lemma_unit_length(rot);
    let ahead = ahead_of(rot, t.extraction.pos.x - o.x, t.extraction.pos.z - o.z);
    let n2 = facing2(rot);
    assert(ONE * ONE == 0x1_0000_0000);
    assert(far == 356_708);
    assert(far * n2 == 356_708 * n2);
    assert(ahead > 0);
}

/// Every match opens that way.
pub proof fn lemma_match_opens_facing_the_objective(seed: u64, players: Seq<PlayerId>, crabs: nat)
    requires
        frame_ok(Sim::opening(seed, players, crabs).frame),
        Sim::opening(seed, players, crabs).roster.len() <= 256,
    ensures
        opens_facing_the_objective(Sim::opening(seed, players, crabs)),
        Sim::opening(seed, players, crabs).tick == 0,
        Sim::opening(seed, players, crabs).outcome is Ongoing,
{
    let t = Sim::opening(seed, players, crabs);
    lemma_party_faces_the_objective(t.frame, t.roster, t);
}

/// And so does every restart, for whoever is on the roster.
pub proof fn lemma_restart_opens_facing_the_objective(
    s: RoundState,
    inputs: Seq<(PlayerId, Input)>,
    crabs: Seq<PoseView>,
    pilots: Seq<(PlayerId, PilotPose)>,
)
    requires
        restart_edge(s, inputs),
        frame_ok(stepped(s, inputs, crabs, pilots).frame),
        s.roster.len() <= 256,
    ensures
        opens_facing_the_objective(stepped(s, inputs, crabs, pilots)),
        stepped(s, inputs, crabs, pilots).roster == s.roster,
{
    let t = stepped(s, inputs, crabs, pilots);
    lemma_party_faces_the_objective(t.frame, t.roster, t);
}

/// Setting the number of crabs opens the round anew that way.
pub proof fn lemma_crab_count_opens_facing_the_objective(s: RoundState, crabs: nat)
    requires
        frame_ok(Sim::with_crabs(s, crabs).frame),
        s.roster.len() <= 256,
    ensures
        opens_facing_the_objective(Sim::with_crabs(s, crabs)),
        Sim::with_crabs(s, crabs).roster == s.roster,
        Sim::with_crabs(s, crabs).crab_count == crabs,
        Sim::with_crabs(s, crabs).outcome == s.outcome,
        Sim::with_crabs(s, crabs).tick == s.tick,
{
    let t = Sim::with_crabs(s, crabs);
    lemma_party_faces_the_objective(t.frame, t.roster, t);
}

/// Where crab `i` of a layout would stand: in the frame, a base spot turned by its jitter,
/// which seen from that bearing lies as far ahead as every crab's and a stagger farther to the
/// right than the last one's.
pub proof fn lemma_crab_bases_are_staggered(f: SpawnFrame, i: int, jitter: i32) -> (b: (int, int))
    requires
        frame_ok(f),
        0 <= i < MAX_CRABS,
    ensures
        lies_at(
            jitter as int,
            b.0,
            b.1,
            CRAB_BASE_X + i * CRAB_STAGGER,
            CRAB_BASE_Z as int,
        ),
        crab_base(f, i, jitter) == placed(f, b.0, b.1),
{
    let lx = CRAB_BASE_X + i * CRAB_STAGGER;
    lemma_rotation_is_seen_back(lx, CRAB_BASE_Z as int, jitter as int);
    rotated(lx, CRAB_BASE_Z as int, jitter as int)
}

/// A crab whose base is clear of everybody opens on it.
pub proof fn lemma_clear_base_is_kept(
    players: Seq<(PlayerId, Player)>,
    f: SpawnFrame,
    i: int,
    jitter: i32,
)
    requires
        forall|k: int|
            0 <= k < players.len() ==> dist2(
                crab_base(f, i, jitter),
                (#[trigger] players[k]).1.pos,
            ) >= MIN_CRAB_SPAWN_DISTANCE * MIN_CRAB_SPAWN_DISTANCE,
    ensures
        crab_spot(players, f, i, jitter) == Some(crab_base(f, i, jitter)),
{
    let base = crab_base(f, i, jitter);
    if players.len() > 0 {
        lemma_nearest_exists(players, base, players.len() as int);
        let near = players[nearest_index(players, base)].1.pos;
        assert(dist2(base, near) >= MIN_CRAB_SPAWN_DISTANCE * MIN_CRAB_SPAWN_DISTANCE);
    }
}

/// A push goes straight away from whom it is a push from: along the line from there through
/// the spot, up to the rounding of each coordinate, and never back.
pub proof fn lemma_push_is_straight_away(pos: Pos, from: Pos)
    requires
        -0x4000_0000_0000 <= from.x <= 0x4000_0000_0000,
        -0x4000_0000_0000 <= from.z <= 0x4000_0000_0000,
    ensures
        ({
            let dx = pos.x - from.x;
            let dz = pos.z - from.z;
            let wx = pushed_out(pos, from).x - from.x;
            let wz = pushed_out(pos, from).z - from.z;
            let side = (if dx >= 0 {
                dx
            } else {
                -dx
            }) + (if dz >= 0 {
                dz
            } else {
                -dz
            });
            &&& (dx > 0 ==> wx > 0)
            &&& (dx < 0 ==> wx < 0)
            &&& (dz > 0 ==> wz > 0)
            &&& (dz < 0 ==> wz < 0)
            &&& -side <= wx * dz - wz * dx <= side
            &&& (dx == 0 && dz == 0 ==> wx == MIN_CRAB_SPAWN_DISTANCE && wz == 0)
        }),
{
    let dx = pos.x - from.x;
    let dz = pos.z - from.z;
    let m = MIN_CRAB_SPAWN_DISTANCE as int;
    assert(dx * dx >= 0 && dz * dz >= 0) by (nonlinear_arith);
    let d = lemma_floor_sqrt_exists(norm2(dx, dz));
    if d > 0 {
        let wx = away_div(dx * m, d);
        let wz = away_div(dz * m, d);
        lemma_away_near(dx, d);
        lemma_away_near(dz, d);
        lemma_scaled_bound(dx, d);
        lemma_scaled_bound(dz, d);
        let ex = d * wx - dx * m;
        let ez = d * wz - dz * m;
        let ax = if dx >= 0 {
            dx
        } else {
            -dx
        };
        let az = if dz >= 0 {
            dz
        } else {
            -dz
        };
        let cross = wx * dz - wz * dx;
        assert(d * cross == ex * dz - ez * dx) by (nonlinear_arith)
            requires
                cross == wx * dz - wz * dx,
                ex == d * wx - dx * m,
                ez == d * wz - dz * m,
        ;
        assert(-(d * az) <= ex * dz <= d * az) by (nonlinear_arith)
            requires
                -d < ex < d,
                az == dz || az == -dz,
                az >= 0,
        ;
        assert(-(d * ax) <= ez * dx <= d * ax) by (nonlinear_arith)
            requires
                -d < ez < d,
                ax == dx || ax == -dx,
                ax >= 0,
        ;
        let side = ax + az;
        assert(d * side == d * ax + d * az) by (nonlinear_arith)
            requires
                side == ax + az,
        ;
        assert(-side <= cross <= side) by (nonlinear_arith)
            requires
                d > 0,
                -(d * side) <= d * cross <= d * side,
        ;
        if dx == 0 && dz == 0 {
            assert(0int * 0int == 0) by (nonlinear_arith);
            assert(d * d > 0) by (nonlinear_arith)
                requires
                    d > 0,
            ;
        }
    } else {
        assert(dx == 0 && dz == 0) by (nonlinear_arith)
            requires
                dx * dx + dz * dz < (0 + 1) * (0 + 1),
        ;
    }
}

proof fn lemma_away_near(c: int, d: int)
    requires
        d > 0,
    ensures
        ({
            let w = away_div(c * MIN_CRAB_SPAWN_DISTANCE, d);
            let e = d * w - c * MIN_CRAB_SPAWN_DISTANCE;
            &&& -d < e < d
            &&& (c > 0 ==> w > 0)
            &&& (c < 0 ==> w < 0)
            &&& (c == 0 ==> w == 0)
        }),
{
    let m = MIN_CRAB_SPAWN_DISTANCE as int;
    let v = if c >= 0 {
        c * m
    } else {
        -(c * m)
    };
    let q = (v + d - 1) / d;
    assert(d * q <= v + d - 1 < d * q + d) by (nonlinear_arith)
        requires
            d > 0,
            q == (v + d - 1) / d,
    ;
    assert(d * (-q) == -(d * q)) by (nonlinear_arith);
    if v > 0 {
        assert(q > 0) by (nonlinear_arith)
            requires
                d > 0,
                v > 0,
                v + d - 1 < d * q + d,
        ;
    } else {
        assert(q == 0) by (nonlinear_arith)
            requires
                d > 0,
                d * q <= d - 1,
                -1 < d * q,
        ;
    }
}

/// A joiner is alive, faces as the party did when it opened, and stands on a slot of the spawn
/// line beyond every crab's clearance: its own if that is clear, which is where it would have
/// opened; else the nearest that is, to the right before the left. Everybody else stays where
/// they are, and the joiner is on the roster.
pub proof fn lemma_joiner_is_placed(s: RoundState, pid: PlayerId) -> (d: int)
    requires
        ascending(s.players),
        !seated(s.players, pid),
        frame_ok(s.frame),
        strictly_ascending(s.roster),
        s.crabs.len() <= MAX_CRABS,
    ensures
        ({
            let t = with_joiner(s, pid);
            let p = lookup(t.players, pid)->0;
            let at = position_in(t.roster, pid);
            let own = party(s.frame, t.roster)[at].1;
            let x = slot_x(at, t.roster.len() as int);
            &&& lookup(t.players, pid) is Some
            &&& p.status is Alive
            &&& p.yaw == own.yaw
            &&& p.pos == join_slot(s.frame, x, d)
            &&& forall|c: int|
                0 <= c < s.crabs.len() ==> dist2(p.pos, (#[trigger] s.crabs[c]).pos)
                    > MIN_CRAB_SPAWN_DISTANCE * MIN_CRAB_SPAWN_DISTANCE
            &&& (clear_of_crabs(s.crabs, own.pos) ==> p.pos == own.pos)
            &&& forall|e: int|
                (-d < e < d || d < e < -d) ==> exists|c: int|
                    0 <= c < s.crabs.len() && in_disc(
                        #[trigger] join_slot(s.frame, x, e),
                        (#[trigger] s.crabs[c]).pos,
                        MIN_CRAB_SPAWN_DISTANCE as int,
                    )
            &&& (d < 0 ==> !clear_of_crabs(s.crabs, join_slot(s.frame, x, -d)))
            &&& forall|id: PlayerId|
                id != pid ==> #[trigger] lookup(t.players, id) == lookup(s.players, id)
            &&& forall|id: PlayerId| #[trigger]
                t.roster.contains(id) <==> s.roster.contains(id) || id == pid
            &&& 0 <= at < t.roster.len() && t.roster[at] == pid
            &&& t == (RoundState { roster: t.roster, players: t.players, ..s })
        }),
{
    let t = with_joiner(s, pid);
    lemma_with_id(s.roster, pid);
    lemma_ascending_len(t.roster);
    assert(t.roster.contains(pid));
    let at = position_in(t.roster, pid);
    let n = t.roster.len() as int;
    let x = slot_x(at, n);
    let f = s.frame;
    let known = lemma_join_slot_exists(s.crabs, f, x);
    let d = lemma_join_offset_exists(s.crabs, f, x, known);
    lemma_join_spot(s.crabs, f, x, d);
    let v = Player { pos: join_spot(s.crabs, f, x), yaw: f.rot, status: PlayerStatus::Alive };
    lemma_put(s.players, pid, v);
    assert(t.players == put(s.players, pid, v));
    let own = party(f, t.roster)[at].1;
    assert(own.pos == join_slot(f, x, 0)) by {
        assert(x + 0 * SPAWN_SLOT_PITCH == x);
    }
    if clear_of_crabs(s.crabs, own.pos) {
        assert(d == 0) by {
            assert(clear_of_crabs(s.crabs, join_slot(f, x, 0)));
        }
    }
    assert forall|e: int| (-d < e < d || d < e < -d) implies exists|c: int|
        0 <= c < s.crabs.len() && in_disc(
            #[trigger] join_slot(f, x, e),
            (#[trigger] s.crabs[c]).pos,
            MIN_CRAB_SPAWN_DISTANCE as int,
        ) by {
        assert(!clear_of_crabs(s.crabs, join_slot(f, x, e)));
    }
    d
}

/// Among the clear slots up to one, some is nearest.
proof fn lemma_join_offset_exists(crabs: Seq<Crab>, f: SpawnFrame, x: int, known: int) -> (d: int)
    requires
        clear_of_crabs(crabs, join_slot(f, x, known)),
    ensures
        is_join_offset(crabs, f, x, d),
    decreases (if known >= 0 {
        2 * known
    } else {
        -2 * known + 1
    }),
{
    let a = if known >= 0 {
        known
    } else {
        -known
    };
    if exists|e: int| -a < e < a && clear_of_crabs(crabs, #[trigger] join_slot(f, x, e)) {
        let e = choose|e: int| -a < e < a && clear_of_crabs(crabs, #[trigger] join_slot(f, x, e));
        lemma_join_offset_exists(crabs, f, x, e)
    } else if known < 0 && clear_of_crabs(crabs, join_slot(f, x, a)) {
        lemma_join_offset_exists(crabs, f, x, a)
    } else {
        known
    }
}

/// The bearings of more crabs begin with those of fewer, each drawn from a quarter turn either
/// way where the one before it left the stream; and a frame's origin is drawn within its bound
/// along x, then along z, and its heading from one whole turn.
pub proof fn lemma_layouts_are_drawn_in_order(seed: u64, word: u128, n: nat)
    ensures
        ({
            let (fewer, w) = drawn_jitters(seed, word, n);
            let (more, v) = drawn_jitters(seed, word, n + 1);
            &&& more.drop_last() == fewer
            &&& (more.last(), v) == drawn_i32(seed, w, (-QUARTER) as i32, QUARTER)
        }),
        ({
            let (f, w) = drawn_frame(seed, word);
            let (x, w1) = drawn_i64(seed, word, (-ORIGIN_BOUND) as i64, ORIGIN_BOUND);
            let (z, w2) = drawn_i64(seed, w1, (-ORIGIN_BOUND) as i64, ORIGIN_BOUND);
            &&& f.origin.x == x
            &&& f.origin.z == z
            &&& (f.rot, w) == drawn_i32(seed, w2, 0, (TURN - 1) as i32)
        }),
{
    let (fewer, w) = drawn_jitters(seed, word, n);
    let more = drawn_jitters(seed, word, n + 1).0;
    assert(more.drop_last() =~= fewer);
}

/// Each crab opens at the spot of its own number and bearing, on heading nought; more of them
/// leave the first where they are.
pub proof fn lemma_crabs_open_one_by_one(f: SpawnFrame, ids: Seq<PlayerId>, js: Seq<i32>, n: int)
    requires
        0 <= n < js.len(),
    ensures
        ({
            let c = layout_crabs(f, ids, js);
            &&& c.len() == js.len()
            &&& c[n].yaw == 0
            &&& crab_spot(party(f, ids), f, n, js[n]) is Some ==> Some(c[n].pos) == crab_spot(
                party(f, ids),
                f,
                n,
                js[n],
            )
            &&& c.take(n) == layout_crabs(f, ids, js.take(n))
        }),
{
    assert(layout_crabs(f, ids, js).take(n) =~= layout_crabs(f, ids, js.take(n)));
}

} // verus!
