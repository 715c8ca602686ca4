//! What holds of every walk.

use crate::sim::entities::Player;
use crate::sim::geometry::{lemma_product_bound, norm2, trunc_div};
use crate::sim::input::Input;
use crate::sim::round::advanced;
use crate::sim::trig::{
    cos_of, lemma_cosine_is_shifted_sine, lemma_half_turn_negates, lemma_unit_length, sin_of,
    wrapped, ONE, QUARTER, TURN,
};
use crate::sim::world::{MAX_YAW_TURNS_PER_TICK, PLAYER_SPEED, REACH};
use vstd::prelude::*;

verus! {

/// An input that only turns.
pub open spec fn turning(look: i16) -> Input {
    Input { move_strafe: 0, move_forward: 0, look_yaw: look, buttons: 0 }
}

/// An input that only walks.
pub open spec fn walking(strafe: i16, forward: i16) -> Input {
    Input { move_strafe: strafe, move_forward: forward, look_yaw: 0, buttons: 0 }
}

/// A player stands where a step can move it.
pub open spec fn in_reach(p: Player) -> bool {
    &&& -REACH <= p.pos.x <= REACH
    &&& -REACH <= p.pos.z <= REACH
}

/// How far a tick of walking takes a player, along x and z.
pub open spec fn walk_of(p: Player, i: Input) -> (int, int) {
    (advanced(p, i).pos.x - p.pos.x, advanced(p, i).pos.z - p.pos.z)
}

/// One thousandth of the scaled pace, rounded toward zero.
spec fn pace(v: int) -> int {
    trunc_div(v * PLAYER_SPEED, Input::AXIS_SCALE * ONE)
}

/// The velocity along x and z, scaled.
spec fn velocity(yaw: int, i: Input) -> (int, int) {
    (
        sin_of(yaw) * i.move_forward + cos_of(yaw) * i.move_strafe,
        cos_of(yaw) * i.move_forward - sin_of(yaw) * i.move_strafe,
    )
}

/// Within reach a walk loses nothing to the machine types.
proof fn lemma_walk_is_exact(p: Player, i: Input)
    requires
        in_reach(p),
    ensures
        ({
            let v = velocity(advanced(p, i).yaw as int, i);
            walk_of(p, i) == (pace(v.0), pace(v.1))
        }),
        0 <= advanced(p, i).yaw < TURN,
{
    let turn = trunc_div(i.look_yaw * MAX_YAW_TURNS_PER_TICK, Input::AXIS_SCALE as int);
    let yaw = wrapped(p.yaw + turn);
    assert(0 <= yaw < TURN);
    lemma_unit_length(yaw);
    lemma_product_bound(sin_of(yaw), ONE as int, i.move_forward as int, 0x8000);
    lemma_product_bound(cos_of(yaw), ONE as int, i.move_strafe as int, 0x8000);
    lemma_product_bound(cos_of(yaw), ONE as int, i.move_forward as int, 0x8000);
    lemma_product_bound(sin_of(yaw), ONE as int, i.move_strafe as int, 0x8000);
}

/// A walk is a turn and then a walk along the new facing; the turn moves nobody, and the walk
/// turns nobody whose heading is within one turn. Neither touches the status.
pub proof fn lemma_turn_then_walk(p: Player, i: Input)
    ensures
        advanced(p, i) == advanced(
            advanced(p, turning(i.look_yaw)),
            walking(i.move_strafe, i.move_forward),
        ),
        advanced(p, turning(i.look_yaw)).pos == p.pos,
        0 <= p.yaw < TURN ==> advanced(p, walking(i.move_strafe, i.move_forward)).yaw == p.yaw,
        advanced(p, i).status == p.status,
{
    let t = advanced(p, turning(i.look_yaw));
    let w = advanced(t, walking(i.move_strafe, i.move_forward));
    assert(sin_of(t.yaw as int) * 0 == 0 && cos_of(t.yaw as int) * 0 == 0) by (nonlinear_arith);
    assert(t.pos == p.pos);
    assert(0 <= t.yaw < TURN);
    assert(wrapped(t.yaw as int) == t.yaw);
    assert(trunc_div(0 * MAX_YAW_TURNS_PER_TICK, Input::AXIS_SCALE as int) == 0);
    assert(w.yaw == t.yaw);
}

/// To turn right is to turn on by the share of a 24th of a turn that the stick is over, whole
/// steps only, and to turn left as far is to turn back as much.
pub proof fn lemma_turn_goes_with_the_stick(p: Player, look: i16) -> (t: int)
    requires
        look >= 0,
    ensures
        Input::AXIS_SCALE * t <= MAX_YAW_TURNS_PER_TICK * look,
        MAX_YAW_TURNS_PER_TICK * look < Input::AXIS_SCALE * (t + 1),
        advanced(p, turning(look)).yaw == wrapped(p.yaw + t),
        advanced(p, turning((-look) as i16)).yaw == wrapped(p.yaw - t),
{
    let t = trunc_div(look * MAX_YAW_TURNS_PER_TICK, Input::AXIS_SCALE as int);
    let back: i16 = (-look) as i16;
    assert(trunc_div(back * MAX_YAW_TURNS_PER_TICK, Input::AXIS_SCALE as int) == -t);
    t
}

/// Strafing right is walking forward a quarter turn on: the two walks are the same to the
/// grid unit.
pub proof fn lemma_strafe_is_a_quarter_on(p: Player, q: Player, a: i16)
    requires
        in_reach(p),
        q.pos == p.pos,
        wrapped(q.yaw as int) == wrapped(p.yaw + QUARTER),
    ensures
        walk_of(p, walking(a, 0)) == walk_of(q, walking(0, a)),
{
    lemma_walk_is_exact(p, walking(a, 0));
    lemma_walk_is_exact(q, walking(0, a));
    let y = p.yaw as int;
    lemma_cosine_is_shifted_sine(y);
    lemma_cosine_is_shifted_sine(y + QUARTER);
    lemma_half_turn_negates(y);
    assert(sin_of(q.yaw as int) == cos_of(y));
    assert(cos_of(q.yaw as int) == -sin_of(y));
    let s = sin_of(y);
    let c = cos_of(y);
    assert(wrapped(wrapped(y)) == wrapped(y));
    assert(wrapped(wrapped(q.yaw as int)) == wrapped(q.yaw as int));
    assert(s * 0 == 0 && c * 0 == 0 && (-s) * 0 == 0) by (nonlinear_arith);
    assert((-s) * a == -(s * a)) by (nonlinear_arith);
}

/// The opposite input walks the opposite way, as far.
pub proof fn lemma_opposite_input_walks_back(p: Player, strafe: i16, forward: i16)
    requires
        in_reach(p),
        strafe > i16::MIN,
        forward > i16::MIN,
    ensures
        walk_of(p, walking((-strafe) as i16, (-forward) as i16)).0 == -walk_of(
            p,
            walking(strafe, forward),
        ).0,
        walk_of(p, walking((-strafe) as i16, (-forward) as i16)).1 == -walk_of(
            p,
            walking(strafe, forward),
        ).1,
{
    let i = walking(strafe, forward);
    let j = walking((-strafe) as i16, (-forward) as i16);
    lemma_walk_is_exact(p, i);
    lemma_walk_is_exact(p, j);
    let y = advanced(p, i).yaw as int;
    let s = sin_of(y);
    let c = cos_of(y);
    assert(s * (-forward) == -(s * forward) && c * (-forward) == -(c * forward)) by (nonlinear_arith);
    assert(s * (-strafe) == -(s * strafe) && c * (-strafe) == -(c * strafe)) by (nonlinear_arith);
}

/// The two axes add up, to a grid unit.
pub proof fn lemma_axes_add_up(p: Player, strafe: i16, forward: i16)
    requires
        in_reach(p),
    ensures
        -1 <= walk_of(p, walking(strafe, forward)).0 - walk_of(p, walking(strafe, 0)).0 - walk_of(
            p,
            walking(0, forward),
        ).0 <= 1,
        -1 <= walk_of(p, walking(strafe, forward)).1 - walk_of(p, walking(strafe, 0)).1 - walk_of(
            p,
            walking(0, forward),
        ).1 <= 1,
{
    lemma_walk_is_exact(p, walking(strafe, forward));
    lemma_walk_is_exact(p, walking(strafe, 0));
    lemma_walk_is_exact(p, walking(0, forward));
    let y = advanced(p, walking(strafe, forward)).yaw as int;
    let s = sin_of(y);
    let c = cos_of(y);
    assert(s * 0 == 0 && c * 0 == 0) by (nonlinear_arith);
}

/// A walk as its walker sees it: ahead by the forward axis' share of the pace, and to the
/// right by the strafe axis' share, whichever way it faces; each within the rounding to the
/// grid. `n` is the square of the facing's length.
pub proof fn lemma_walk_seen_by_the_walker(p: Player, i: Input)
    requires
        in_reach(p),
    ensures
        ({
            let s = sin_of(advanced(p, i).yaw as int);
            let c = cos_of(advanced(p, i).yaw as int);
            let (dx, dz) = walk_of(p, i);
            let n = norm2(s, c);
            let unit = Input::AXIS_SCALE * ONE;
            let ahead = dx * s + dz * c;
            let right = dx * c - dz * s;
            &&& -2 * (ONE * unit) <= unit * ahead - PLAYER_SPEED * (i.move_forward * n) <= 2 * (ONE
                * unit)
            &&& -2 * (ONE * unit) <= unit * right - PLAYER_SPEED * (i.move_strafe * n) <= 2 * (ONE
                * unit)
        }),
{
    lemma_walk_is_exact(p, i);
    let y = advanced(p, i).yaw as int;
    let s = sin_of(y);
    let c = cos_of(y);
    let f = i.move_forward as int;
    let r = i.move_strafe as int;
    let (vx, vz) = velocity(y, i);
    let (dx, dz) = walk_of(p, i);
    let n = norm2(s, c);
    let unit = Input::AXIS_SCALE * ONE;
    assert(unit == 65_536_000);
    let ex = PLAYER_SPEED * vx - unit * dx;
    let ez = PLAYER_SPEED * vz - unit * dz;
    assert(-unit < ex < unit);
    assert(-unit < ez < unit);
    lemma_unit_length(y);
    let ahead = dx * s + dz * c;
    let right = dx * c - dz * s;
    assert(s * vx + c * vz == f * n) by (nonlinear_arith)
        requires
            vx == s * f + c * r,
            vz == c * f - s * r,
            n == s * s + c * c,
    ;
    assert(c * vx - s * vz == r * n) by (nonlinear_arith)
        requires
            vx == s * f + c * r,
            vz == c * f - s * r,
            n == s * s + c * c,
    ;
    lemma_scaled_difference(s, vx, dx);
    lemma_scaled_difference(c, vz, dz);
    lemma_scaled_difference(c, vx, dx);
    lemma_scaled_difference(s, vz, dz);
    assert(dx * s == s * dx && dz * c == c * dz && dx * c == c * dx && dz * s == s * dz)
        by (nonlinear_arith);
    assert(s * ex == 470 * (s * vx) - 65_536_000 * (s * dx));
    assert(c * ez == 470 * (c * vz) - 65_536_000 * (c * dz));
    assert(c * ex == 470 * (c * vx) - 65_536_000 * (c * dx));
    assert(s * ez == 470 * (s * vz) - 65_536_000 * (s * dz));
    assert(unit * ahead == 65_536_000 * ahead && unit * right == 65_536_000 * right);
    lemma_product_bound(s, ONE as int, ex, unit);
    lemma_product_bound(c, ONE as int, ez, unit);
    lemma_product_bound(c, ONE as int, ex, unit);
    lemma_product_bound(s, ONE as int, ez, unit);
}

/// The distance walked is the pace times how far the stick is over, whichever way it points:
/// never more than that but for a part in a thousand, and less by a grid unit along each axis
/// at most.
pub proof fn lemma_walk_length(p: Player, i: Input)
    requires
        in_reach(p),
    ensures
        ({
            let (dx, dz) = walk_of(p, i);
            let ax = if dx >= 0 {
                dx
            } else {
                -dx
            };
            let az = if dz >= 0 {
                dz
            } else {
                -dz
            };
            let over = norm2(i.move_strafe as int, i.move_forward as int);
            let full = Input::AXIS_SCALE * Input::AXIS_SCALE;
            let pace2 = PLAYER_SPEED * PLAYER_SPEED;
            &&& 500 * (full * norm2(dx, dz)) <= 501 * (pace2 * over)
            &&& 499 * (pace2 * over) <= 500 * (full * norm2(ax + 1, az + 1))
        }),
{
    lemma_walk_is_exact(p, i);
    let y = advanced(p, i).yaw as int;
    let s = sin_of(y);
    let c = cos_of(y);
    let f = i.move_forward as int;
    let r = i.move_strafe as int;
    let (vx, vz) = velocity(y, i);
    let (dx, dz) = walk_of(p, i);
    let n = norm2(s, c);
    let over = norm2(r, f);
    let unit = Input::AXIS_SCALE * ONE;
    assert(unit == 65_536_000);
    lemma_unit_length(y);
    lemma_two_squares(s, c, f, r);
    let ax = if dx >= 0 {
        dx
    } else {
        -dx
    };
    let az = if dz >= 0 {
        dz
    } else {
        -dz
    };
    let mx = if vx >= 0 {
        470 * vx
    } else {
        -470 * vx
    };
    let mz = if vz >= 0 {
        470 * vz
    } else {
        -470 * vz
    };
    assert(0 <= 65_536_000 * ax <= mx < 65_536_000 * (ax + 1));
    assert(0 <= 65_536_000 * az <= mz < 65_536_000 * (az + 1));
    lemma_bracketed_square(ax, mx);
    lemma_bracketed_square(az, mz);
    assert(mx * mx == 220_900 * (vx * vx)) by (nonlinear_arith)
        requires
            mx == 470 * vx || mx == -470 * vx,
    ;
    assert(mz * mz == 220_900 * (vz * vz)) by (nonlinear_arith)
        requires
            mz == 470 * vz || mz == -470 * vz,
    ;
    assert(ax * ax == dx * dx) by (nonlinear_arith)
        requires
            ax == dx || ax == -dx,
    ;
    assert(az * az == dz * dz) by (nonlinear_arith)
        requires
            az == dz || az == -dz,
    ;
    let oo: int = 0x1_0000_0000;
    assert(ONE * ONE == oo);
    assert(over >= 0) by (nonlinear_arith)
        requires
            over == r * r + f * f,
    ;
    assert(500 * (n * over) <= 501 * (oo * over) && 499 * (oo * over) <= 500 * (n * over))
        by (nonlinear_arith)
        requires
            over >= 0,
            500 * n <= 501 * oo,
            499 * oo <= 500 * n,
    ;
    assert(oo * over == 0x1_0000_0000 * over);
    assert(PLAYER_SPEED * PLAYER_SPEED == 220_900);
    assert(Input::AXIS_SCALE * Input::AXIS_SCALE == 1_000_000);
}

proof fn lemma_scaled_difference(a: int, v: int, d: int)
    ensures
        a * (470 * v - 65_536_000 * d) == 470 * (a * v) - 65_536_000 * (a * d),
{
    assert(a * (470 * v - 65_536_000 * d) == 470 * (a * v) - 65_536_000 * (a * d))
        by (nonlinear_arith);
}

/// The product of two sums of two squares.
proof fn lemma_two_squares(s: int, c: int, f: int, r: int)
    ensures
        norm2(s * f + c * r, c * f - s * r) == norm2(s, c) * norm2(r, f),
{
    let a = s * f;
    let b = c * r;
    let d = c * f;
    let e = s * r;
    assert((a + b) * (a + b) == a * a + 2 * (a * b) + b * b) by (nonlinear_arith);
    assert((d - e) * (d - e) == d * d - 2 * (d * e) + e * e) by (nonlinear_arith);
    assert(a * b == d * e) by (nonlinear_arith)
        requires
            a == s * f,
            b == c * r,
            d == c * f,
            e == s * r,
    ;
    let ss = s * s;
    let cc = c * c;
    let ff = f * f;
    let rr = r * r;
    assert(a * a == ss * ff) by (nonlinear_arith)
        requires
            a == s * f,
            ss == s * s,
            ff == f * f,
    ;
    assert(b * b == cc * rr) by (nonlinear_arith)
        requires
            b == c * r,
            cc == c * c,
            rr == r * r,
    ;
    assert(d * d == cc * ff) by (nonlinear_arith)
        requires
            d == c * f,
            cc == c * c,
            ff == f * f,
    ;
    assert(e * e == ss * rr) by (nonlinear_arith)
        requires
            e == s * r,
            ss == s * s,
            rr == r * r,
    ;
    assert((ss + cc) * (rr + ff) == ss * rr + ss * ff + cc * rr + cc * ff) by (nonlinear_arith);
}

proof fn lemma_bracketed_square(a: int, m: int)
    requires
        0 <= 65_536_000 * a <= m < 65_536_000 * (a + 1),
    ensures
        4_294_967_296_000_000 * (a * a) <= m * m,
        m * m <= 4_294_967_296_000_000 * ((a + 1) * (a + 1)),
{
    let u: int = 65_536_000;
    assert((u * a) * (u * a) <= m * m) by (nonlinear_arith)
        requires
            0 <= u * a <= m,
    ;
    assert(m * m <= (u * (a + 1)) * (u * (a + 1))) by (nonlinear_arith)
        requires
            0 <= m <= u * (a + 1),
    ;
    assert((u * a) * (u * a) == (u * u) * (a * a)) by (nonlinear_arith);
    assert((u * (a + 1)) * (u * (a + 1)) == (u * u) * ((a + 1) * (a + 1))) by (nonlinear_arith);
    assert(u * u == 4_294_967_296_000_000) by (nonlinear_arith)
        requires
            u == 65_536_000,
    ;
}

} // verus!
