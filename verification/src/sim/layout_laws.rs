//! What every opening layout keeps, wherever its frame lands.

use crate::player_map::PlayerId;
use crate::sim::entities::Player;
use crate::sim::geometry::{
    dist2, is_floor_sqrt, lemma_floor_sqrt_unique, lemma_product_bound, norm2, Pos,
};
use crate::sim::spawn::{
    away_div, crab_base, crab_spot, floor_sqrt, frame_ok, layout_crabs, layout_settles,
    lemma_nearest_exists, lemma_placed_on_line, nearest_index, objective, party, placed,
    pushed_out, rotated, settled, slot_x, SpawnFrame, SETTLE_PASSES,
    SETTLING_PARTY,
};
use crate::sim::trig::{cos_of, lemma_unit_length, sin_of, ONE};
use crate::sim::world::{
    CRAB_BASE_X, CRAB_BASE_Z, CRAB_STAGGER, EXTRACT_RADIUS, LAYOUT_LOCAL_RADIUS,
    MIN_CRAB_SPAWN_DISTANCE, SAMPLE_CLAMP_HALF, SPAWN_SLOT_PITCH, TEN_HEIGHTS,
};
use vstd::prelude::*;

verus! {

/// The spot lies on ground that the terrain covers.
pub open spec fn on_tile(p: Pos) -> bool {
    &&& -SAMPLE_CLAMP_HALF <= p.x <= SAMPLE_CLAMP_HALF
    &&& -SAMPLE_CLAMP_HALF <= p.z <= SAMPLE_CLAMP_HALF
}

/// Every square has an integer part of its root.
pub proof fn lemma_floor_sqrt_exists(n: int) -> (r: int)
    requires
        n >= 0,
    ensures
        is_floor_sqrt(n, r),
        floor_sqrt(n) == r,
    decreases n,
{
    let r = if n == 0 {
        0
    } else {
        let q = lemma_floor_sqrt_exists(n - 1);
        if n >= (q + 1) * (q + 1) {
            assert(n < (q + 2) * (q + 2)) by (nonlinear_arith)
                requires
                    n <= (q + 1) * (q + 1),
                    q >= 0,
            ;
            q + 1
        } else {
            q
        }
    };
    assert(is_floor_sqrt(n, r));
    lemma_floor_sqrt_unique(n, r, floor_sqrt(n));
    r
}

/// A rotated coordinate is no longer than the two local ones together.
proof fn lemma_rotated_bound(lx: int, lz: int, rot: int, mx: int, mz: int)
    requires
        -mx <= lx <= mx,
        -mz <= lz <= mz,
    ensures
        -(mx + mz) <= rotated(lx, lz, rot).0 <= mx + mz,
        -(mx + mz) <= rotated(lx, lz, rot).1 <= mx + mz,
{
    lemma_unit_length(rot);
    lemma_product_bound(lx, mx, cos_of(rot), ONE as int);
    lemma_product_bound(lz, mz, sin_of(rot), ONE as int);
    lemma_product_bound(lz, mz, cos_of(rot), ONE as int);
    lemma_product_bound(lx, mx, sin_of(rot), ONE as int);
}

/// A push moves neither coordinate further than the clearance from whom it clears.
pub proof fn lemma_push_bound(pos: Pos, from: Pos)
    requires
        -0x4000_0000_0000 <= from.x <= 0x4000_0000_0000,
        -0x4000_0000_0000 <= from.z <= 0x4000_0000_0000,
    ensures
        -MIN_CRAB_SPAWN_DISTANCE <= pushed_out(pos, from).x - from.x <= MIN_CRAB_SPAWN_DISTANCE,
        -MIN_CRAB_SPAWN_DISTANCE <= pushed_out(pos, from).z - from.z <= MIN_CRAB_SPAWN_DISTANCE,
{
    let dx = pos.x - from.x;
    let dz = pos.z - from.z;
    assert(dx * dx >= 0 && dz * dz >= 0) by (nonlinear_arith);
    let d = lemma_floor_sqrt_exists(norm2(dx, dz));
    if d > 0 {
        lemma_scaled_bound(dx, d);
        lemma_scaled_bound(dz, d);
    }
}

/// One coordinate of a push.
pub proof fn lemma_scaled_bound(c: int, d: int)
    requires
        d > 0,
        c * c < (d + 1) * (d + 1),
    ensures
        -d <= c <= d,
        -MIN_CRAB_SPAWN_DISTANCE <= away_div(c * MIN_CRAB_SPAWN_DISTANCE, d)
            <= MIN_CRAB_SPAWN_DISTANCE,
        d * away_div(c * MIN_CRAB_SPAWN_DISTANCE, d) - c * MIN_CRAB_SPAWN_DISTANCE < d,
        d * away_div(c * MIN_CRAB_SPAWN_DISTANCE, d) - c * MIN_CRAB_SPAWN_DISTANCE > -d,
        c >= 0 ==> d * away_div(c * MIN_CRAB_SPAWN_DISTANCE, d) >= c * MIN_CRAB_SPAWN_DISTANCE,
        c < 0 ==> d * away_div(c * MIN_CRAB_SPAWN_DISTANCE, d) <= c * MIN_CRAB_SPAWN_DISTANCE,
{
    let m = MIN_CRAB_SPAWN_DISTANCE as int;
    assert(-d <= c <= d) by (nonlinear_arith)
        requires
            d > 0,
            c * c < (d + 1) * (d + 1),
    ;
    let n = if c >= 0 {
        c * m
    } else {
        -(c * m)
    };
    assert(0 <= n <= d * m) by (nonlinear_arith)
        requires
            -d <= c <= d,
            m > 0,
            n == c * m || n == -(c * m),
            c >= 0 ==> n == c * m,
            c < 0 ==> n == -(c * m),
    ;
    let q = (n + d - 1) / d;
    assert(d * q <= n + d - 1 && n + d - 1 < d * q + d) by (nonlinear_arith)
        requires
            d > 0,
            q == (n + d - 1) / d,
    ;
    assert(0 <= q <= m) by (nonlinear_arith)
        requires
            d > 0,
            0 <= n <= d * m,
            d * q <= n + d - 1,
            n + d - 1 < d * q + d,
    ;
    assert(d * (-q) == -(d * q)) by (nonlinear_arith);
    assert(c * m >= 0 <==> c >= 0) by (nonlinear_arith)
        requires
            m > 0,
    ;
}

/// A spot that settles is the one it started from, or stands within the clearance of some
/// player by either coordinate.
proof fn lemma_settled_is_near(
    players: Seq<(PlayerId, Player)>,
    pos: Pos,
    passes: nat,
) -> (k: int)
    requires
        settled(players, pos, passes) is Some,
        forall|i: int|
            0 <= i < players.len() ==> {
                &&& -0x4000_0000_0000 <= (#[trigger] players[i]).1.pos.x <= 0x4000_0000_0000
                &&& -0x4000_0000_0000 <= players[i].1.pos.z <= 0x4000_0000_0000
            },
    ensures
        settled(players, pos, passes)->0 == pos || {
            let r = settled(players, pos, passes)->0;
            let m = MIN_CRAB_SPAWN_DISTANCE;
            &&& 0 <= k < players.len()
            &&& -m <= r.x - players[k].1.pos.x <= m
            &&& -m <= r.z - players[k].1.pos.z <= m
        },
    decreases passes,
{
    if players.len() == 0 {
        0
    } else {
        lemma_nearest_exists(players, pos, players.len() as int);
        let k = nearest_index(players, pos);
        let near = players[k].1.pos;
        if dist2(pos, near) >= MIN_CRAB_SPAWN_DISTANCE * MIN_CRAB_SPAWN_DISTANCE {
            k
        } else {
            lemma_push_bound(pos, near);
            let next = pushed_out(pos, near);
            let j = lemma_settled_is_near(players, next, (passes - 1) as nat);
            if settled(players, next, (passes - 1) as nat)->0 == next {
                k
            } else {
                j
            }
        }
    }
}

/// Where the party's slots lie.
proof fn lemma_slot_bound(f: SpawnFrame, ids: Seq<PlayerId>, k: int)
    requires
        frame_ok(f),
        ids.len() <= 256,
        0 <= k < ids.len(),
    ensures
        -128 * SPAWN_SLOT_PITCH <= party(f, ids)[k].1.pos.x - f.origin.x <= 128 * SPAWN_SLOT_PITCH,
        -128 * SPAWN_SLOT_PITCH <= party(f, ids)[k].1.pos.z - f.origin.z <= 128 * SPAWN_SLOT_PITCH,
{
    let x = slot_x(k, ids.len() as int);
    lemma_placed_on_line(f, x);
    lemma_rotated_bound(x, 0, f.rot as int, 128 * SPAWN_SLOT_PITCH, 0);
}

/// Wherever the frame lands, the whole party and the objective open on the tile, and so does
/// every crab but one so far down the stagger that its own base, which nobody pushed it off,
/// lies beyond the layout.
pub proof fn lemma_layout_is_on_tile(
    f: SpawnFrame,
    ids: Seq<PlayerId>,
    jitters: Seq<i32>,
    i: int,
    k: int,
)
    requires
        frame_ok(f),
        ids.len() <= 256,
        layout_settles(f, ids, jitters),
        0 <= i < jitters.len(),
        0 <= k < ids.len(),
    ensures
        on_tile(party(f, ids)[k].1.pos),
        on_tile(objective(f).pos),
        on_tile(layout_crabs(f, ids, jitters)[i].pos) || layout_crabs(f, ids, jitters)[i].pos
            == crab_base(f, i, jitters[i]),
        2 * (CRAB_BASE_X + i * CRAB_STAGGER + CRAB_BASE_Z) <= LAYOUT_LOCAL_RADIUS ==> on_tile(
            layout_crabs(f, ids, jitters)[i].pos,
        ),
{
    let players = party(f, ids);
    lemma_slot_bound(f, ids, k);
    let oz = MIN_CRAB_SPAWN_DISTANCE + TEN_HEIGHTS;
    lemma_rotated_bound(0, oz, f.rot as int, 0, oz);
    assert forall|j: int| 0 <= j < players.len() implies {
        &&& -0x4000_0000_0000 <= (#[trigger] players[j]).1.pos.x <= 0x4000_0000_0000
        &&& -0x4000_0000_0000 <= players[j].1.pos.z <= 0x4000_0000_0000
    } by {
        lemma_slot_bound(f, ids, j);
    }
    let base = crab_base(f, i, jitters[i]);
    assert(crab_spot(players, f, i, jitters[i]) is Some);
    let j = lemma_settled_is_near(players, base, SETTLE_PASSES as nat);
    if layout_crabs(f, ids, jitters)[i].pos != base {
        lemma_slot_bound(f, ids, j);
    }
    let lx = CRAB_BASE_X + i * CRAB_STAGGER;
    let b = rotated(lx, CRAB_BASE_Z as int, jitters[i] as int);
    lemma_rotated_bound(lx, CRAB_BASE_Z as int, jitters[i] as int, lx, CRAB_BASE_Z as int);
    let m = lx + CRAB_BASE_Z;
    lemma_rotated_bound(b.0, b.1, f.rot as int, m, m);
}

/// The square of a sum of two.
proof fn lemma_square_of_sum(a: int, b: int)
    ensures
        (a + b) * (a + b) == a * a + 2 * (a * b) + b * b,
{
    assert((a + b) * (a + b) == a * a + 2 * (a * b) + b * b) by (nonlinear_arith);
}

/// A product of two sums of two squares is one itself.
proof fn lemma_two_squares(a: int, b: int, c: int, d: int)
    ensures
        (a * c + b * d) * (a * c + b * d) + (a * d - b * c) * (a * d - b * c) == (a * a + b * b)
            * (c * c + d * d),
{
    let (x, y, u, v) = (a * c, b * d, a * d, b * c);
    assert((x + y) * (x + y) == x * x + 2 * (x * y) + y * y) by (nonlinear_arith);
    assert((u - v) * (u - v) == u * u - 2 * (u * v) + v * v) by (nonlinear_arith);
    assert((a * c) * (b * d) == (a * d) * (b * c)) by (nonlinear_arith);
    assert((a * c) * (a * c) == (a * a) * (c * c)) by (nonlinear_arith);
    assert((b * d) * (b * d) == (b * b) * (d * d)) by (nonlinear_arith);
    assert((a * d) * (a * d) == (a * a) * (d * d)) by (nonlinear_arith);
    assert((b * c) * (b * c) == (b * b) * (c * c)) by (nonlinear_arith);
    let (aa, bb, cc, dd) = (a * a, b * b, c * c, d * d);
    assert((aa + bb) * (cc + dd) == aa * cc + aa * dd + bb * cc + bb * dd) by (nonlinear_arith);
}

/// A rotation keeps lengths to within a thousandth, and what rounding adds.
proof fn lemma_rotation_keeps_length(
    lx: int,
    lz: int,
    rot: int,
    g: (int, int),
    mx: int,
    mz: int,
)
    requires
        -mx <= lx <= mx,
        -mz <= lz <= mz,
        -2 * ONE <= ONE * g.0 - (lx * cos_of(rot) + lz * sin_of(rot)) <= 2 * ONE,
        -2 * ONE <= ONE * g.1 - (lz * cos_of(rot) - lx * sin_of(rot)) <= 2 * ONE,
    ensures
        500 * norm2(g.0, g.1) >= 499 * norm2(lx, lz) - 4000 * (mx + mz),
        500 * norm2(g.0, g.1) <= 501 * norm2(lx, lz) + 4000 * (mx + mz) + 4000,
{
    let c = cos_of(rot);
    let s = sin_of(rot);
    let one = ONE as int;
    let oo = 0x1_0000_0000int;
    let m = mx + mz;
    let ll = norm2(lx, lz);
    let n = norm2(s, c);
    lemma_unit_length(rot);
    lemma_product_bound(lx, mx, c, one);
    lemma_product_bound(lz, mz, s, one);
    lemma_product_bound(lz, mz, c, one);
    lemma_product_bound(lx, mx, s, one);
    let v0 = lx * c + lz * s;
    let v1 = lz * c - lx * s;
    let e0 = one * g.0 - v0;
    let e1 = one * g.1 - v1;
    lemma_product_bound(v0, m * one, e0, 2 * one);
    lemma_product_bound(v1, m * one, e1, 2 * one);
    lemma_product_bound(e0, 2 * one, e0, 2 * one);
    lemma_product_bound(e1, 2 * one, e1, 2 * one);
    assert(e0 * e0 >= 0 && e1 * e1 >= 0) by (nonlinear_arith);
    assert((m * one) * (2 * one) == 2 * (oo * m)) by (nonlinear_arith)
        requires
            one == 65536,
            oo == 0x1_0000_0000,
    ;
    assert((2 * one) * (2 * one) == 4 * oo) by (nonlinear_arith)
        requires
            one == 65536,
            oo == 0x1_0000_0000,
    ;
    lemma_two_squares(lx, lz, c, s);
    assert((lx * s - lz * c) * (lx * s - lz * c) == v1 * v1) by (nonlinear_arith)
        requires
            lx * s - lz * c == -v1,
    ;
    assert(v0 * v0 + v1 * v1 == n * ll) by (nonlinear_arith)
        requires
            v0 * v0 + v1 * v1 == ll * (c * c + s * s),
            n == s * s + c * c,
    ;
    assert(ll >= 0) by (nonlinear_arith)
        requires
            ll == lx * lx + lz * lz,
    ;
    assert(499 * (oo * ll) <= 500 * (n * ll) <= 501 * (oo * ll)) by (nonlinear_arith)
        requires
            ll >= 0,
            499 * oo <= 500 * n <= 501 * oo,
    ;
    lemma_square_of_sum(v0, e0);
    lemma_square_of_sum(v1, e1);
    let gg = norm2(g.0, g.1);
    assert((one * g.0) * (one * g.0) == oo * (g.0 * g.0)) by (nonlinear_arith)
        requires
            one == 65536,
            oo == 0x1_0000_0000,
    ;
    assert((one * g.1) * (one * g.1) == oo * (g.1 * g.1)) by (nonlinear_arith)
        requires
            one == 65536,
            oo == 0x1_0000_0000,
    ;
    assert(oo * gg == n * ll + 2 * (v0 * e0) + 2 * (v1 * e1) + e0 * e0 + e1 * e1);
}

/// What is left of a vector of length `a` or more once one of length `b` or less is taken
/// off.
proof fn lemma_length_left(u: (int, int), v: (int, int), a: int, b: int)
    requires
        0 <= b <= a,
        norm2(u.0, u.1) >= a * a,
        norm2(v.0, v.1) <= b * b,
    ensures
        norm2(u.0 - v.0, u.1 - v.1) >= (a - b) * (a - b),
{
    let c = a - b;
    let w = (u.0 - v.0, u.1 - v.1);
    if norm2(w.0, w.1) < c * c {
        lemma_dot_bound(v, w, b, c);
        lemma_square_of_sum(v.0, w.0);
        lemma_square_of_sum(v.1, w.1);
        lemma_square_of_sum(b, c);
    }
}

/// The longest difference of two vectors of lengths `a` and `b` at most.
pub proof fn lemma_length_of_difference(u: (int, int), v: (int, int), a: int, b: int)
    requires
        0 <= a,
        0 <= b,
        norm2(u.0, u.1) <= a * a,
        norm2(v.0, v.1) <= b * b,
    ensures
        norm2(u.0 - v.0, u.1 - v.1) <= (a + b) * (a + b),
{
    let w = (-v.0, -v.1);
    assert(w.0 * w.0 == v.0 * v.0 && w.1 * w.1 == v.1 * v.1) by (nonlinear_arith)
        requires
            w == (-v.0, -v.1),
    ;
    lemma_dot_bound(u, w, a, b);
    lemma_square_of_sum(u.0, w.0);
    lemma_square_of_sum(u.1, w.1);
    lemma_square_of_sum(a, b);
}

/// The product of two vectors is at most that of their lengths.
pub proof fn lemma_dot_bound(u: (int, int), v: (int, int), a: int, b: int)
    requires
        0 <= a,
        0 <= b,
        norm2(u.0, u.1) <= a * a,
        norm2(v.0, v.1) <= b * b,
    ensures
        u.0 * v.0 + u.1 * v.1 <= a * b,
{
    let dot = u.0 * v.0 + u.1 * v.1;
    let cross = u.0 * v.1 - u.1 * v.0;
    let p = norm2(u.0, u.1);
    let q = norm2(v.0, v.1);
    lemma_two_squares(u.0, u.1, v.0, v.1);
    assert(cross * cross >= 0) by (nonlinear_arith);
    assert(p >= 0 && q >= 0) by (nonlinear_arith)
        requires
            p == u.0 * u.0 + u.1 * u.1,
            q == v.0 * v.0 + v.1 * v.1,
    ;
    assert(p * q <= (a * a) * (b * b)) by (nonlinear_arith)
        requires
            0 <= p <= a * a,
            0 <= q <= b * b,
    ;
    assert((a * a) * (b * b) == (a * b) * (a * b)) by (nonlinear_arith);
    assert(a * b >= 0) by (nonlinear_arith)
        requires
            a >= 0,
            b >= 0,
    ;
    assert(dot <= a * b) by (nonlinear_arith)
        requires
            dot * dot <= (a * b) * (a * b),
            a * b >= 0,
    ;
}

/// From the frame's origin, the first crab's base is some fifty-nine thousand units out.
proof fn lemma_base_length(f: SpawnFrame, jitter: i32)
    requires
        frame_ok(f),
    ensures
        norm2(
            crab_base(f, 0, jitter).x - f.origin.x,
            crab_base(f, 0, jitter).z - f.origin.z,
        ) >= 58_979 * 58_979,
        norm2(
            crab_base(f, 0, jitter).x - f.origin.x,
            crab_base(f, 0, jitter).z - f.origin.z,
        ) <= 59_247 * 59_247,
{
    let (lx, lz) = (CRAB_BASE_X as int, CRAB_BASE_Z as int);
    let b = rotated(lx, lz, jitter as int);
    lemma_rotated_bound(lx, lz, jitter as int, lx, lz);
    lemma_rotation_keeps_length(lx, lz, jitter as int, b, lx, lz);
    assert(norm2(lx, lz) == 3_494_348_596) by (nonlinear_arith)
        requires
            lx == 16_986,
            lz == 56_620,
    ;
    let m = lx + lz;
    let r = rotated(b.0, b.1, f.rot as int);
    lemma_rotated_bound(b.0, b.1, f.rot as int, m, m);
    lemma_rotation_keeps_length(b.0, b.1, f.rot as int, r, m, m);
}

/// How far a slot of the spawn line lies from the frame's origin.
proof fn lemma_slot_length(f: SpawnFrame, x: int, m: int)
    requires
        frame_ok(f),
        -m <= x <= m,
        m <= 0x100_0000,
    ensures
        500 * norm2(placed(f, x, 0).x - f.origin.x, placed(f, x, 0).z - f.origin.z) >= 499 * (x * x)
            - 4000 * m,
        500 * norm2(placed(f, x, 0).x - f.origin.x, placed(f, x, 0).z - f.origin.z) <= 501 * (x * x)
            + 4000 * m + 4000,
{
    lemma_rotated_bound(x, 0, f.rot as int, m, 0);
    lemma_rotation_keeps_length(x, 0, f.rot as int, rotated(x, 0, f.rot as int), m, 0);
    assert(norm2(x, 0) == x * x) by (nonlinear_arith);
}

/// The first crab's base falls between two slots of the spawn line's ring, on top of nobody.
proof fn lemma_base_is_off_the_line(f: SpawnFrame, t: int, jitter: i32)
    requires
        frame_ok(f),
        -128 <= t <= 128,
    ensures
        dist2(crab_base(f, 0, jitter), placed(f, t * SPAWN_SLOT_PITCH, 0)) >= 2_298 * 2_298,
{
    let x = t * SPAWN_SLOT_PITCH;
    let ax = if x >= 0 {
        x
    } else {
        -x
    };
    let b = crab_base(f, 0, jitter);
    let p = placed(f, x, 0);
    let u = (b.x - f.origin.x, b.z - f.origin.z);
    let v = (p.x - f.origin.x, p.z - f.origin.z);
    lemma_base_length(f, jitter);
    lemma_slot_length(f, x, ax);
    assert(x * x == ax * ax) by (nonlinear_arith)
        requires
            ax == x || ax == -x,
    ;
    if ax <= 56_620 {
        assert(ax * ax <= 56_620 * 56_620) by (nonlinear_arith)
            requires
                0 <= ax <= 56_620,
        ;
        lemma_length_left(u, v, 58_979, 56_681);
    } else {
        assert(ax >= 62_282);
        assert(ax * ax >= 62_282 * ax) by (nonlinear_arith)
            requires
                ax >= 62_282,
        ;
        lemma_length_left(v, u, 62_215, 59_247);
        assert(norm2(u.0 - v.0, u.1 - v.1) == norm2(v.0 - u.0, v.1 - u.1)) by (nonlinear_arith);
    }
}

/// A push scales a vector of length `d`, or a hair more, to the clearance, or a hair more.
proof fn lemma_scaled_length(dx: int, dz: int, d: int)
    requires
        d > 0,
        is_floor_sqrt(norm2(dx, dz), d),
    ensures
        ({
            let m = MIN_CRAB_SPAWN_DISTANCE as int;
            let w = norm2(away_div(dx * m, d), away_div(dz * m, d));
            &&& (d * d) * w >= (m * m) * norm2(dx, dz)
            &&& (d * d) * w <= (m * m) * norm2(dx, dz) + 1_223_002 * (d * d)
            &&& w >= m * m
        }),
{
    let m = MIN_CRAB_SPAWN_DISTANCE as int;
    let n = norm2(dx, dz);
    assert(dx * dx >= 0 && dz * dz >= 0) by (nonlinear_arith);
    lemma_scaled_bound(dx, d);
    lemma_scaled_bound(dz, d);
    let wx = away_div(dx * m, d);
    let wz = away_div(dz * m, d);
    lemma_scaled_square(dx, d, wx);
    lemma_scaled_square(dz, d, wz);
    let w = norm2(wx, wz);
    let dd = d * d;
    let mm = m * m;
    assert(dd * w == (d * wx) * (d * wx) + (d * wz) * (d * wz)) by (nonlinear_arith)
        requires
            dd == d * d,
            w == wx * wx + wz * wz,
    ;
    assert(mm * n == (dx * m) * (dx * m) + (dz * m) * (dz * m)) by (nonlinear_arith)
        requires
            mm == m * m,
            n == dx * dx + dz * dz,
    ;
    assert(dd > 0 && mm > 0) by (nonlinear_arith)
        requires
            dd == d * d,
            mm == m * m,
            d > 0,
            m > 0,
    ;
    assert(w >= mm) by (nonlinear_arith)
        requires
            dd * w >= mm * n,
            n >= dd,
            mm > 0,
            dd > 0,
    ;
}

/// A push clears whom it is a push from.
pub proof fn lemma_push_clears(pos: Pos, from: Pos)
    requires
        -0x4000_0000_0000 <= from.x <= 0x4000_0000_0000,
        -0x4000_0000_0000 <= from.z <= 0x4000_0000_0000,
    ensures
        dist2(pushed_out(pos, from), from) >= MIN_CRAB_SPAWN_DISTANCE * MIN_CRAB_SPAWN_DISTANCE,
{
    let dx = pos.x - from.x;
    let dz = pos.z - from.z;
    assert(dx * dx >= 0 && dz * dz >= 0) by (nonlinear_arith);
    let d = lemma_floor_sqrt_exists(norm2(dx, dz));
    lemma_push_bound(pos, from);
    if d > 0 {
        lemma_scaled_bound(dx, d);
        lemma_scaled_bound(dz, d);
        lemma_scaled_length(dx, dz, d);
    }
}

/// A push from a way off ends no more than a thousand units beyond the clearance.
pub proof fn lemma_push_length(pos: Pos, from: Pos)
    requires
        -0x4000_0000_0000 <= from.x <= 0x4000_0000_0000,
        -0x4000_0000_0000 <= from.z <= 0x4000_0000_0000,
        dist2(pos, from) >= 2_298 * 2_298,
    ensures
        dist2(pushed_out(pos, from), from) <= (MIN_CRAB_SPAWN_DISTANCE + 1000) * (
        MIN_CRAB_SPAWN_DISTANCE + 1000),
{
    let dx = pos.x - from.x;
    let dz = pos.z - from.z;
    let m = MIN_CRAB_SPAWN_DISTANCE as int;
    let n = norm2(dx, dz);
    assert(dx * dx >= 0 && dz * dz >= 0) by (nonlinear_arith);
    let d = lemma_floor_sqrt_exists(n);
    assert(d >= 2_298) by (nonlinear_arith)
        requires
            d >= 0,
            2_298 * 2_298 <= n,
            n < (d + 1) * (d + 1),
    ;
    lemma_scaled_bound(dx, d);
    lemma_scaled_bound(dz, d);
    lemma_scaled_length(dx, dz, d);
    let w = norm2(away_div(dx * m, d), away_div(dz * m, d));
    let dd = d * d;
    let mm = m * m;
    assert(dd >= 2_298 * d) by (nonlinear_arith)
        requires
            dd == d * d,
            d >= 2_298,
    ;
    assert(mm == 93_483_062_500) by (nonlinear_arith)
        requires
            m == 305_750,
            mm == m * m,
    ;
    assert(mm * n <= mm * dd + 3 * (mm * d)) by (nonlinear_arith)
        requires
            n < (d + 1) * (d + 1),
            dd == d * d,
            d >= 1,
            mm > 0,
    ;
    assert(dd * w <= dd * ((m + 1000) * (m + 1000))) by {
        assert((m + 1000) * (m + 1000) == 94_095_562_500) by (nonlinear_arith)
            requires
                m == 305_750,
        ;
        assert(dd * ((m + 1000) * (m + 1000)) == 94_095_562_500 * dd);
        assert(mm * n <= 93_483_062_500 * dd + 280_449_187_500 * d);
    }
    assert(w <= (m + 1000) * (m + 1000)) by (nonlinear_arith)
        requires
            dd * w <= dd * ((m + 1000) * (m + 1000)),
            dd > 0,
    ;
}

/// One coordinate of a push, squared.
proof fn lemma_scaled_square(c: int, d: int, w: int)
    requires
        d > 0,
        -d <= c <= d,
        w == away_div(c * MIN_CRAB_SPAWN_DISTANCE, d),
        d * w - c * MIN_CRAB_SPAWN_DISTANCE < d,
        d * w - c * MIN_CRAB_SPAWN_DISTANCE > -d,
        c >= 0 ==> d * w >= c * MIN_CRAB_SPAWN_DISTANCE,
        c < 0 ==> d * w <= c * MIN_CRAB_SPAWN_DISTANCE,
    ensures
        (d * w) * (d * w) >= (c * MIN_CRAB_SPAWN_DISTANCE) * (c * MIN_CRAB_SPAWN_DISTANCE),
        (d * w) * (d * w) <= (c * MIN_CRAB_SPAWN_DISTANCE) * (c * MIN_CRAB_SPAWN_DISTANCE)
            + 611_501 * (d * d),
{
    let m = MIN_CRAB_SPAWN_DISTANCE as int;
    let v = c * m;
    let e = d * w - v;
    lemma_product_bound(c, d, m, m);
    lemma_product_bound(v, d * m, e, d);
    lemma_product_bound(e, d, e, d);
    assert(v * e >= 0 && e * e >= 0) by (nonlinear_arith)
        requires
            c >= 0 ==> v >= 0 && e >= 0,
            c < 0 ==> v <= 0 && e <= 0,
    ;
    assert((d * m) * d == 305_750 * (d * d)) by (nonlinear_arith)
        requires
            m == 305_750,
    ;
    lemma_square_of_sum(v, e);
}

/// A spot that starts off the line settles where it is, or within a thousand units of the
/// clearance of some player, in a party no wider than the clearance.
proof fn lemma_settled_ring(f: SpawnFrame, ids: Seq<PlayerId>, pos: Pos, passes: nat) -> (k: int)
    requires
        frame_ok(f),
        ids.len() <= 53,
        settled(party(f, ids), pos, passes) is Some,
        forall|i: int|
            0 <= i < ids.len() ==> dist2(pos, (#[trigger] party(f, ids)[i]).1.pos) >= 2_298 * 2_298,
    ensures
        settled(party(f, ids), pos, passes)->0 == pos || {
            &&& 0 <= k < ids.len()
            &&& dist2(settled(party(f, ids), pos, passes)->0, party(f, ids)[k].1.pos) <= (
            MIN_CRAB_SPAWN_DISTANCE + 1000) * (MIN_CRAB_SPAWN_DISTANCE + 1000)
        },
    decreases passes,
{
    let players = party(f, ids);
    if ids.len() == 0 {
        0
    } else {
        lemma_nearest_exists(players, pos, players.len() as int);
        let k = nearest_index(players, pos);
        let near = players[k].1.pos;
        if dist2(pos, near) >= MIN_CRAB_SPAWN_DISTANCE * MIN_CRAB_SPAWN_DISTANCE {
            k
        } else {
            lemma_slot_bound(f, ids, k);
            lemma_push_clears(pos, near);
            lemma_push_length(pos, near);
            let next = pushed_out(pos, near);
            assert forall|i: int| 0 <= i < ids.len() implies dist2(
                next,
                (#[trigger] players[i]).1.pos,
            ) >= 2_298 * 2_298 by {
                let p = players[i].1.pos;
                lemma_inner_slot_length(f, ids, i);
                lemma_inner_slot_length(f, ids, k);
                let u = (p.x - f.origin.x, p.z - f.origin.z);
                let v = (near.x - f.origin.x, near.z - f.origin.z);
                lemma_length_of_difference(u, v, 147_364, 147_364);
                lemma_length_left(
                    (next.x - near.x, next.z - near.z),
                    (u.0 - v.0, u.1 - v.1),
                    MIN_CRAB_SPAWN_DISTANCE as int,
                    294_728,
                );
            }
            let j = lemma_settled_ring(f, ids, next, (passes - 1) as nat);
            if settled(players, next, (passes - 1) as nat)->0 == next {
                k
            } else {
                j
            }
        }
    }
}

/// Nobody in such a party stands far from the frame's origin.
proof fn lemma_inner_slot_length(f: SpawnFrame, ids: Seq<PlayerId>, k: int)
    requires
        frame_ok(f),
        ids.len() <= 53,
        0 <= k < ids.len(),
    ensures
        norm2(
            party(f, ids)[k].1.pos.x - f.origin.x,
            party(f, ids)[k].1.pos.z - f.origin.z,
        ) <= 147_364 * 147_364,
{
    let x = slot_x(k, ids.len() as int);
    let m = 26 * SPAWN_SLOT_PITCH;
    lemma_product_bound(x, m, x, m);
    assert(m * m == 21_671_372_944) by (nonlinear_arith)
        requires
            m == 147_212,
    ;
    lemma_slot_length(f, x, m);
}

/// The objective is further than the clearance from every slot of such a party.
proof fn lemma_objective_length(f: SpawnFrame, x: int)
    requires
        frame_ok(f),
        -147_212 <= x <= 147_212,
    ensures
        dist2(objective(f).pos, placed(f, x, 0)) >= 356_000 * 356_000,
{
    let z = MIN_CRAB_SPAWN_DISTANCE + TEN_HEIGHTS;
    let rot = f.rot as int;
    let o = rotated(0, z, rot);
    let p = rotated(x, 0, rot);
    lemma_rotated_bound(0, z, rot, 0, z);
    lemma_rotated_bound(x, 0, rot, 147_212, 0);
    let (c, s) = (cos_of(rot), sin_of(rot));
    assert(0 * c == 0 && 0 * s == 0 && (-x) * c == -(x * c) && (-x) * s == -(x * s))
        by (nonlinear_arith);
    lemma_rotation_keeps_length(-x, z, rot, (o.0 - p.0, o.1 - p.1), 147_212, z);
    assert(norm2(-x, z) >= 127_240_597_264) by (nonlinear_arith)
        requires
            z == 356_708,
    ;
}

/// The first crab of a round never opens on the objective: for a party whose spawn line is
/// shorter than the clearance, the objective's disc, twice over, lies clear of it.
pub proof fn lemma_first_crab_spares_the_objective(
    f: SpawnFrame,
    ids: Seq<PlayerId>,
    jitters: Seq<i32>,
)
    requires
        frame_ok(f),
        ids.len() <= 53,
        jitters.len() > 0,
        layout_settles(f, ids, jitters),
    ensures
        dist2(objective(f).pos, layout_crabs(f, ids, jitters)[0].pos) > (2 * EXTRACT_RADIUS) * (2
            * EXTRACT_RADIUS),
{
    let players = party(f, ids);
    let base = crab_base(f, 0, jitters[0]);
    assert(crab_spot(players, f, 0, jitters[0]) is Some);
    assert forall|i: int| 0 <= i < ids.len() implies dist2(
        base,
        (#[trigger] players[i]).1.pos,
    ) >= 2_298 * 2_298 by {
        lemma_base_is_off_the_line(f, i - ids.len() as int / 2, jitters[0]);
    }
    let k = lemma_settled_ring(f, ids, base, SETTLE_PASSES as nat);
    let crab = layout_crabs(f, ids, jitters)[0].pos;
    let o = objective(f).pos;
    let r = 2 * EXTRACT_RADIUS;
    assert(r * r == 128_232_976) by (nonlinear_arith)
        requires
            r == 11_324,
    ;
    if crab == base {
        lemma_objective_length(f, 0);
        lemma_base_length(f, jitters[0]);
        assert(placed(f, 0, 0) == f.origin) by {
            assert(0 * cos_of(f.rot as int) == 0 && 0 * sin_of(f.rot as int) == 0)
                by (nonlinear_arith);
        }
        lemma_length_left(
            (o.x - f.origin.x, o.z - f.origin.z),
            (base.x - f.origin.x, base.z - f.origin.z),
            356_000,
            59_247,
        );
    } else {
        let p = players[k].1.pos;
        lemma_objective_length(f, slot_x(k, ids.len() as int));
        lemma_length_left(
            (o.x - p.x, o.z - p.z),
            (crab.x - p.x, crab.z - p.z),
            356_000,
            MIN_CRAB_SPAWN_DISTANCE + 1000,
        );
    }
}

/// How many of the first `n` players stand within the clearance of a spot.
spec fn crowding(players: Seq<(PlayerId, Player)>, pos: Pos, n: int) -> nat
    decreases n,
{
    if n <= 0 {
        0
    } else {
        crowding(players, pos, n - 1) + (if too_near(pos, players[n - 1].1.pos) {
            1nat
        } else {
            0nat
        })
    }
}

/// A spot lies within the clearance of another.
spec fn too_near(pos: Pos, other: Pos) -> bool {
    dist2(pos, other) < MIN_CRAB_SPAWN_DISTANCE * MIN_CRAB_SPAWN_DISTANCE
}

proof fn lemma_crowding_bound(players: Seq<(PlayerId, Player)>, pos: Pos, n: int)
    requires
        n >= 0,
    ensures
        crowding(players, pos, n) <= n,
    decreases n,
{
    if n > 0 {
        lemma_crowding_bound(players, pos, n - 1);
    }
}

/// A spot that is near nobody new, and no longer near `k`, is crowded by fewer.
proof fn lemma_crowding_falls(
    players: Seq<(PlayerId, Player)>,
    pos: Pos,
    next: Pos,
    n: int,
    k: int,
)
    requires
        0 <= n <= players.len(),
        forall|i: int|
            0 <= i < n && too_near(next, (#[trigger] players[i]).1.pos) ==> too_near(
                pos,
                players[i].1.pos,
            ),
        0 <= k < players.len() ==> too_near(pos, players[k].1.pos) && !too_near(
            next,
            players[k].1.pos,
        ),
    ensures
        crowding(players, next, n) <= crowding(players, pos, n),
        0 <= k < n ==> crowding(players, next, n) < crowding(players, pos, n),
    decreases n,
{
    if n > 0 {
        lemma_crowding_falls(players, pos, next, n - 1, k);
        assert(too_near(next, players[n - 1].1.pos) ==> too_near(pos, players[n - 1].1.pos));
    }
}

/// A push away from `from` does not bring a spot that was clear of somebody close by, at
/// `other`, back within their clearance: it leads out of that disc for good, and further out
/// than rounding can take back.
proof fn lemma_push_stays_clear(pos: Pos, from: Pos, other: Pos)
    requires
        -0x4000_0000_0000 <= from.x <= 0x4000_0000_0000,
        -0x4000_0000_0000 <= from.z <= 0x4000_0000_0000,
        -79_270 <= from.x - other.x <= 79_270,
        -79_270 <= from.z - other.z <= 79_270,
        too_near(pos, from),
        !too_near(pos, other),
    ensures
        !too_near(pushed_out(pos, from), other),
{
    let m = MIN_CRAB_SPAWN_DISTANCE as int;
    let dx = pos.x - from.x;
    let dz = pos.z - from.z;
    let hx = from.x - other.x;
    let hz = from.z - other.z;
    let n = norm2(dx, dz);
    assert(dx * dx >= 0 && dz * dz >= 0) by (nonlinear_arith);
    lemma_product_bound(hx, 79_270, hx, 79_270);
    lemma_product_bound(hz, 79_270, hz, 79_270);
    let hh = norm2(hx, hz);
    assert(0 <= hh <= 112_105 * 112_105) by {
        assert(hx * hx >= 0 && hz * hz >= 0) by (nonlinear_arith);
    }
    lemma_length_left((pos.x - other.x, pos.z - other.z), (hx, hz), m, 112_105);
    assert(n >= 193_645 * 193_645);
    let d = lemma_floor_sqrt_exists(n);
    assert(d >= 193_645) by (nonlinear_arith)
        requires
            d >= 0,
            193_645 * 193_645 <= n,
            n < (d + 1) * (d + 1),
    ;
    assert(d < m) by (nonlinear_arith)
        requires
            d * d <= n,
            n < m * m,
            d >= 0,
            m > 0,
    ;
    lemma_scaled_bound(dx, d);
    lemma_scaled_bound(dz, d);
    let wx = away_div(dx * m, d);
    let wz = away_div(dz * m, d);
    let rx = d * wx - dx * m;
    let rz = d * wz - dz * m;
    // The spot before rounding, scaled up by `d` and seen from `other`.
    let ax = m * dx + d * hx;
    let az = m * dz + d * hz;
    lemma_spread(dx, dz, hx, hz, d, m);
    lemma_rounding_loss(dx, hx, rx, d, m);
    lemma_rounding_loss(dz, hz, rz, d, m);
    let cx = wx + hx;
    let cz = wz + hz;
    assert(d * cx == ax + rx) by (nonlinear_arith)
        requires
            cx == wx + hx,
            rx == d * wx - dx * m,
            ax == m * dx + d * hx,
    ;
    assert(d * cz == az + rz) by (nonlinear_arith)
        requires
            cz == wz + hz,
            rz == d * wz - dz * m,
            az == m * dz + d * hz,
    ;
    let dd = d * d;
    let c = norm2(cx, cz);
    assert(dd * c == (d * cx) * (d * cx) + (d * cz) * (d * cz)) by (nonlinear_arith)
        requires
            dd == d * d,
            c == cx * cx + cz * cz,
    ;
    let mm = m * m;
    assert(dd > 0) by (nonlinear_arith)
        requires
            dd == d * d,
            d > 0,
    ;
    assert(c >= mm) by (nonlinear_arith)
        requires
            dd * c >= dd * mm,
            dd > 0,
    ;
}

/// One coordinate of a spot scaled out from one center, seen from another.
proof fn lemma_scaled_coordinate(x: int, h: int, d: int, k: int)
    ensures
        ((d + k) * x + d * h) * ((d + k) * x + d * h) == ((d + k) * d) * ((x + h) * (x + h)) + ((d
            + k) * k) * (x * x) - (d * k) * (h * h),
{
    let (dd, dk, kk) = (d * d, d * k, k * k);
    let (xx, xh, hh) = (x * x, x * h, h * h);
    let u = (d + k) * x;
    let v = d * h;
    lemma_square_of_sum(u, v);
    lemma_square_of_sum(x, h);
    lemma_square_of_sum(d, k);
    assert(u * u == ((d + k) * (d + k)) * xx) by (nonlinear_arith)
        requires
            u == (d + k) * x,
            xx == x * x,
    ;
    assert(u * v == ((d + k) * d) * xh) by (nonlinear_arith)
        requires
            u == (d + k) * x,
            v == d * h,
            xh == x * h,
    ;
    assert(v * v == dd * hh) by (nonlinear_arith)
        requires
            v == d * h,
            dd == d * d,
            hh == h * h,
    ;
    assert((d + k) * d == dd + dk) by (nonlinear_arith)
        requires
            dd == d * d,
            dk == d * k,
    ;
    assert((d + k) * k == dk + kk) by (nonlinear_arith)
        requires
            kk == k * k,
            dk == d * k,
    ;
    assert((dd + 2 * dk + kk) * xx == dd * xx + 2 * (dk * xx) + kk * xx) by (nonlinear_arith);
    assert((dd + dk) * xh == dd * xh + dk * xh) by (nonlinear_arith);
    assert((dd + dk) * (xx + 2 * xh + hh) == dd * xx + 2 * (dd * xh) + dd * hh + dk * xx + 2 * (dk
        * xh) + dk * hh) by (nonlinear_arith);
    assert((dk + kk) * xx == dk * xx + kk * xx) by (nonlinear_arith);
}

/// Scaled out from one center to the clearance, a spot that was clear of the other center ends
/// well clear of it.
proof fn lemma_spread(dx: int, dz: int, hx: int, hz: int, d: int, m: int)
    requires
        m == 305_750,
        193_645 <= d < m,
        norm2(dx, dz) >= d * d,
        norm2(dx + hx, dz + hz) >= m * m,
        norm2(hx, hz) <= 112_105 * 112_105,
    ensures
        norm2(m * dx + d * hx, m * dz + d * hz) >= (d * d) * (m * m) + 317_080 * (d * d),
{
    let k = m - d;
    let (v, n, h) = (norm2(dx + hx, dz + hz), norm2(dx, dz), norm2(hx, hz));
    lemma_scaled_coordinate(dx, hx, d, k);
    lemma_scaled_coordinate(dz, hz, d, k);
    let (md, mk, dk, dd, mm) = (m * d, m * k, d * k, d * d, m * m);
    let s = norm2(m * dx + d * hx, m * dz + d * hz);
    assert(s == md * v + mk * n - dk * h) by {
        let (ax, az) = ((dx + hx) * (dx + hx), (dz + hz) * (dz + hz));
        let (bx, bz) = (dx * dx, dz * dz);
        let (cx, cz) = (hx * hx, hz * hz);
        assert(md * (ax + az) == md * ax + md * az) by (nonlinear_arith);
        assert(mk * (bx + bz) == mk * bx + mk * bz) by (nonlinear_arith);
        assert(dk * (cx + cz) == dk * cx + dk * cz) by (nonlinear_arith);
    }
    assert(md * v >= md * mm) by (nonlinear_arith)
        requires
            v >= mm,
            md == m * d,
            m > 0,
            d > 0,
    ;
    assert(mk * n >= mk * dd) by (nonlinear_arith)
        requires
            n >= dd,
            mk == m * k,
            m > 0,
            k > 0,
    ;
    let top = 112_105 * 112_105int;
    assert(dk * h <= dk * top) by (nonlinear_arith)
        requires
            h <= top,
            dk == d * k,
            d > 0,
            k > 0,
    ;
    assert(md * mm == dd * mm + dk * mm) by (nonlinear_arith)
        requires
            md == m * d,
            dd == d * d,
            dk == d * k,
            k == m - d,
    ;
    assert(mk * dd == dk * md) by (nonlinear_arith)
        requires
            mk == m * k,
            md == m * d,
            dd == d * d,
            dk == d * k,
    ;
    assert(mm == 93_483_062_500) by (nonlinear_arith)
        requires
            m == 305_750,
            mm == m * m,
    ;
    assert(md == 305_750 * d);
    let g = mm + md - top;
    assert(g >= 317_080 * d);
    assert(dk * mm + dk * md - dk * top == dk * g) by (nonlinear_arith)
        requires
            g == mm + md - top,
    ;
    assert(dk * g >= 317_080 * dd) by (nonlinear_arith)
        requires
            g >= 317_080 * d,
            dk == d * k,
            dd == d * d,
            d > 0,
            k >= 1,
    ;
}

/// What rounding outward can take back of one coordinate, seen from another center.
proof fn lemma_rounding_loss(x: int, h: int, r: int, d: int, m: int)
    requires
        d > 0,
        m > 0,
        -79_270 <= h <= 79_270,
        -d <= r <= d,
        x >= 0 ==> r >= 0,
        x < 0 ==> r <= 0,
    ensures
        (m * x + d * h + r) * (m * x + d * h + r) >= (m * x + d * h) * (m * x + d * h) - 158_540 * (
        d * d),
{
    let a = m * x + d * h;
    lemma_square_of_sum(a, r);
    assert(r * r >= 0) by (nonlinear_arith);
    assert((m * x) * r >= 0) by (nonlinear_arith)
        requires
            m > 0,
            x >= 0 ==> r >= 0,
            x < 0 ==> r <= 0,
    ;
    lemma_product_bound(h, 79_270, r, d);
    assert((d * h) * r >= -(79_270 * (d * d))) by (nonlinear_arith)
        requires
            d > 0,
            h * r >= -(79_270 * d),
    ;
    assert(a * r == (m * x) * r + (d * h) * r) by (nonlinear_arith)
        requires
            a == m * x + d * h,
    ;
}

/// A spot settles once it is looked at more often than players crowd it.
proof fn lemma_crowd_settles(f: SpawnFrame, ids: Seq<PlayerId>, pos: Pos, passes: nat)
    requires
        frame_ok(f),
        ids.len() <= SETTLING_PARTY,
        passes > crowding(party(f, ids), pos, ids.len() as int),
    ensures
        settled(party(f, ids), pos, passes) is Some,
    decreases passes,
{
    let players = party(f, ids);
    if players.len() > 0 {
        lemma_nearest_exists(players, pos, players.len() as int);
        let k = nearest_index(players, pos);
        let near = players[k].1.pos;
        if too_near(pos, near) {
            let next = pushed_out(pos, near);
            lemma_slot_bound(f, ids, k);
            lemma_push_clears(pos, near);
            assert forall|i: int|
                0 <= i < ids.len() && too_near(next, (#[trigger] players[i]).1.pos) implies too_near(
                pos,
                players[i].1.pos,
            ) by {
                if !too_near(pos, players[i].1.pos) {
                    lemma_slots_are_close(f, ids, k, i);
                    lemma_push_stays_clear(pos, near, players[i].1.pos);
                }
            }
            lemma_crowding_falls(players, pos, next, ids.len() as int, k);
            lemma_crowd_settles(f, ids, next, (passes - 1) as nat);
        }
    }
}

/// How close the slots of such a party are.
proof fn lemma_slots_are_close(f: SpawnFrame, ids: Seq<PlayerId>, i: int, j: int)
    requires
        frame_ok(f),
        ids.len() <= SETTLING_PARTY,
        0 <= i < ids.len(),
        0 <= j < ids.len(),
    ensures
        -79_270 <= party(f, ids)[i].1.pos.x - party(f, ids)[j].1.pos.x <= 79_270,
        -79_270 <= party(f, ids)[i].1.pos.z - party(f, ids)[j].1.pos.z <= 79_270,
{
    let x = slot_x(i, ids.len() as int);
    let y = slot_x(j, ids.len() as int);
    let (c, s) = (cos_of(f.rot as int), sin_of(f.rot as int));
    lemma_placed_on_line(f, x);
    lemma_placed_on_line(f, y);
    lemma_unit_length(f.rot as int);
    lemma_product_bound(x - y, 79_268, c, ONE as int);
    lemma_product_bound(x - y, 79_268, s, ONE as int);
    assert((x - y) * c == x * c - y * c) by (nonlinear_arith);
    assert((x - y) * s == x * s - y * s) by (nonlinear_arith);
}

/// Every layout of a party this small settles, with any number of crabs: each push clears one
/// player for good.
pub proof fn lemma_party_settles(f: SpawnFrame, ids: Seq<PlayerId>, jitters: Seq<i32>)
    requires
        frame_ok(f),
        ids.len() <= SETTLING_PARTY,
    ensures
        layout_settles(f, ids, jitters),
{
    let players = party(f, ids);
    assert forall|i: int| 0 <= i < jitters.len() implies crab_spot(
        players,
        f,
        i,
        #[trigger] jitters[i],
    ) is Some by {
        let pos = crab_base(f, i, jitters[i]);
        lemma_crowding_bound(players, pos, ids.len() as int);
        lemma_crowd_settles(f, ids, pos, SETTLE_PASSES as nat);
    }
}

} // verus!
