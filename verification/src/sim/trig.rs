//! Headings and rotations in integers.
//!
//! A full turn is [`TURN`] steps. Sine and cosine are scaled by [`ONE`] and computed by
//! coordinate rotation: a vector of the right starting length is turned toward the wanted
//! heading through a fixed ladder of ever smaller angles, each a shift and an addition. There
//! is no floating point anywhere, so every machine turns and walks alike. Proved are the
//! length of the pair and its symmetries; that each is the sine rounded to the nearest
//! integer, at every heading, is tested.

use crate::sim::geometry::{norm2, trunc_div};
use vstd::prelude::*;

verus! {

/// Heading steps in one full turn.
pub const TURN: i32 = 65_536;

/// The scale of sines and cosines.
pub const ONE: i32 = 65_536;

/// Headings in a quarter turn.
pub const QUARTER: i32 = 16_384;

/// Rungs of the rotation ladder.
pub const RUNGS: usize = 36;

/// The angle whose tangent is `1 / 2^i`, at `2^48` to the turn.
pub const RUNG_ANGLES: [i64; 36] = [
    35_184_372_088_832,
    20_770_547_670_515,
    10_974_586_953_444,
    5_570_871_696_862,
    2_796_246_208_089,
    1_399_486_241_028,
    699_913_886_760,
    349_978_300_884,
    174_991_820_497,
    87_496_244_017,
    43_748_163_730,
    21_874_087_080,
    10_937_044_192,
    5_468_522_177,
    2_734_261_099,
    1_367_130_551,
    683_565_276,
    341_782_638,
    170_891_319,
    85_445_659,
    42_722_830,
    21_361_415,
    10_680_707,
    5_340_354,
    2_670_177,
    1_335_088,
    667_544,
    333_772,
    166_886,
    83_443,
    41_722,
    20_861,
    10_430,
    5_215,
    2_608,
    1_304,
];

/// The starting length: one, at scale `2^46`, divided by what the whole ladder stretches a
/// vector by.
pub const LADDER_START: i64 = 42_731_626_434_776;

/// Ladder length units to one unit of sine.
pub const GRAIN: i64 = 0x4000_0000;

/// Ladder angle units to one heading step.
pub const ANGLE_GRAIN: i64 = 0x1_0000_0000;

/// Turn the vector `(x, y)` by what is left of the angle `z` through the rungs from `i` on;
/// `p` is `2^i`.
pub open spec fn climb(x: int, y: int, z: int, i: int, p: int) -> (int, int)
    decreases RUNGS - i,
{
    if i >= RUNGS || i < 0 {
        (x, y)
    } else if z >= 0 {
        climb(x - trunc_div(y, p), y + trunc_div(x, p), z - RUNG_ANGLES[i], i + 1, 2 * p)
    } else {
        climb(x + trunc_div(y, p), y - trunc_div(x, p), z + RUNG_ANGLES[i], i + 1, 2 * p)
    }
}

/// A ladder length as a count of sine units, rounded to the nearest, halves away from zero.
pub open spec fn round_to_unit(v: int) -> int {
    trunc_div(if v >= 0 {
        v + GRAIN / 2
    } else {
        v - GRAIN / 2
    }, GRAIN as int)
}

/// `(cos, sin)` of a heading `r` in the first quarter turn.
pub open spec fn quarter_unit(r: int) -> (int, int) {
    let v = climb(LADDER_START as int, 0, r * ANGLE_GRAIN, 0, 1);
    (round_to_unit(v.0), round_to_unit(v.1))
}

/// The heading reduced to one turn.
pub open spec fn wrapped(a: int) -> int {
    a % (TURN as int)
}

/// The sine of heading `a`, scaled by [`ONE`].
pub open spec fn sin_of(a: int) -> int {
    let w = wrapped(a);
    let (c, s) = quarter_unit(w % (QUARTER as int));
    if w < QUARTER {
        s
    } else if w < 2 * QUARTER {
        c
    } else if w < 3 * QUARTER {
        -s
    } else {
        -c
    }
}

/// The cosine of heading `a`, scaled by [`ONE`].
pub open spec fn cos_of(a: int) -> int {
    let w = wrapped(a);
    let (c, s) = quarter_unit(w % (QUARTER as int));
    if w < QUARTER {
        c
    } else if w < 2 * QUARTER {
        -s
    } else if w < 3 * QUARTER {
        -c
    } else {
        s
    }
}

/// What one rung may lose or gain to rounding, in squared length.
const RUNG_SLACK: i128 = 0x4_0000_0000_0000;

/// The squared length stays below this throughout.
const LENGTH2_CAP: i128 = 4_956_711_917_298_662_620_696_093_392;

const LENGTH2_GOAL: i128 = 4_951_762_188_711_816_197_607_510_558;

const LENGTH2_REST: i128 = 6_608_949_223_064_883_494_261_457_857;

/// What is known of the squared length `n` of the vector before rung `i`.
spec fn length_known(n: int, i: int, p: int) -> bool {
    if i == 0 {
        n == LADDER_START * LADDER_START && p == 1
    } else if i == 1 {
        0xbccd9a63fd2894b07f76c7f <= n <= 0xbccd9a63fda894b07f76c81 && p == 2
    } else if i == 2 {
        0xec0100fcfc32b9dc9f5479d <= n <= 0xec0100fcfd52b9dc9f547a2 && p == 4
    } else if i == 3 {
        0xfac1110ccbb5e57a6949c15 <= n <= 0xfac1110ccd67e57a6949c1d && p == 8
    } else if i == 4 {
        0xfeac1550fea4bd1052eee84 <= n <= 0xfeac155100dd851052eee8e && p == 16
    } else if i == 5 {
        0xffaac1664f6361cd6341d71 <= n <= 0xffaac166521e62956341d7d && p == 32
    } else {
        &&& p >= 64
        &&& 0xffeaac16a8b73aa5d69aa77 - (i - 6) * RUNG_SLACK <= n
        &&& (p * p) * n <= (p * p) * (LENGTH2_GOAL + (i - 6) * RUNG_SLACK) - LENGTH2_REST
        &&& n <= LENGTH2_CAP
    }
}

/// Length caps both coordinates.
proof fn lemma_coordinates_capped(x: int, y: int)
    requires
        norm2(x, y) <= LENGTH2_CAP,
    ensures
        -0x4010_0000_0000 <= x <= 0x4010_0000_0000,
        -0x4010_0000_0000 <= y <= 0x4010_0000_0000,
{
    assert(x * x >= 0 && y * y >= 0) by (nonlinear_arith);
    assert(-0x4010_0000_0000 <= x <= 0x4010_0000_0000) by (nonlinear_arith)
        requires
            x * x <= 4_956_711_917_298_662_620_696_093_392,
    ;
    assert(-0x4010_0000_0000 <= y <= 0x4010_0000_0000) by (nonlinear_arith)
        requires
            y * y <= 4_956_711_917_298_662_620_696_093_392,
    ;
}

/// A quotient toward zero by `p` leaves a remainder smaller than `p` of the same sign.
proof fn lemma_trunc_parts(v: int, p: int) -> (r: int)
    requires
        p >= 1,
    ensures
        v == p * trunc_div(v, p) + r,
        -p < r < p,
        v >= 0 ==> trunc_div(v, p) >= 0 && r >= 0,
        v <= 0 ==> trunc_div(v, p) <= 0 && r <= 0,
        v >= 0 ==> trunc_div(v, p) <= v,
        v <= 0 ==> v <= trunc_div(v, p),
{
    let q = trunc_div(v, p);
    if v >= 0 {
        assert(v == p * (v / p) + v % p && 0 <= v % p < p && 0 <= v / p <= v) by (nonlinear_arith)
            requires
                v >= 0,
                p >= 1,
        ;
        v % p
    } else {
        let w = -v;
        assert(w == p * (w / p) + w % p && 0 <= w % p < p && 0 <= w / p <= w) by (nonlinear_arith)
            requires
                w >= 0,
                p >= 1,
        ;
        assert(p * (-(w / p)) == -(p * (w / p))) by (nonlinear_arith);
        -(w % p)
    }
}

/// One rung stretches the squared length by `1 + 1 / p^2`, up to [`RUNG_SLACK`]. `sx` and
/// `sy` say which way the rung turns.
proof fn lemma_rung(x: int, y: int, p: int, forward: bool)
    requires
        p >= 1,
        norm2(x, y) <= LENGTH2_CAP,
    ensures
        ({
            let qx = trunc_div(x, p);
            let qy = trunc_div(y, p);
            let n = norm2(x, y);
            let n2 = if forward {
                norm2(x - qy, y + qx)
            } else {
                norm2(x + qy, y - qx)
            };
            &&& (p * p) * n + n - (p * p) * RUNG_SLACK <= (p * p) * n2
            &&& (p * p) * n2 <= (p * p) * n + n + (p * p) * RUNG_SLACK
        }),
{
    lemma_coordinates_capped(x, y);
    let qx = trunc_div(x, p);
    let qy = trunc_div(y, p);
    let rx = lemma_trunc_parts(x, p);
    let ry = lemma_trunc_parts(y, p);
    let n = norm2(x, y);
    // The cross terms cancel up to the two remainders.
    let cross = ry * qx - rx * qy;
    assert(y * qx - x * qy == cross) by (nonlinear_arith)
        requires
            x == p * qx + rx,
            y == p * qy + ry,
            cross == ry * qx - rx * qy,
    ;
    let ax = if qx >= 0 {
        qx
    } else {
        -qx
    };
    let ay = if qy >= 0 {
        qy
    } else {
        -qy
    };
    assert(-(p * ax) <= ry * qx <= p * ax) by (nonlinear_arith)
        requires
            -p < ry < p,
            ax == qx || ax == -qx,
            ax >= 0,
    ;
    assert(-(p * ay) <= rx * qy <= p * ay) by (nonlinear_arith)
        requires
            -p < rx < p,
            ay == qy || ay == -qy,
            ay >= 0,
    ;
    let mx = if x >= 0 {
        x
    } else {
        -x
    };
    let my = if y >= 0 {
        y
    } else {
        -y
    };
    let tx = if x >= 0 {
        rx
    } else {
        -rx
    };
    let ty = if y >= 0 {
        ry
    } else {
        -ry
    };
    assert(p * (-qx) == -(p * qx)) by (nonlinear_arith);
    assert(p * (-qy) == -(p * qy)) by (nonlinear_arith);
    assert(mx == p * ax + tx && 0 <= tx < p);
    assert(my == p * ay + ty && 0 <= ty < p);
    // The squared quotients, scaled back up, miss the square by at most 2 p mx.
    assert(mx * mx - 2 * p * mx <= (p * p) * (qx * qx) <= mx * mx) by (nonlinear_arith)
        requires
            mx == p * ax + tx,
            0 <= tx < p,
            ax >= 0,
            ax == qx || ax == -qx,
    ;
    assert(my * my - 2 * p * my <= (p * p) * (qy * qy) <= my * my) by (nonlinear_arith)
        requires
            my == p * ay + ty,
            0 <= ty < p,
            ay >= 0,
            ay == qy || ay == -qy,
    ;
    assert(mx * mx == x * x) by (nonlinear_arith)
        requires
            mx == x || mx == -x,
    ;
    assert(my * my == y * y) by (nonlinear_arith)
        requires
            my == y || my == -y,
    ;
    let sq = qx * qx + qy * qy;
    assert((p * p) * sq == (p * p) * (qx * qx) + (p * p) * (qy * qy)) by (nonlinear_arith)
        requires
            sq == qx * qx + qy * qy,
    ;
    assert(-0x8040_0000_0000 <= cross <= 0x8040_0000_0000);
    let n2 = if forward {
        norm2(x - qy, y + qx)
    } else {
        norm2(x + qy, y - qx)
    };
    if forward {
        assert(n2 == n + 2 * cross + sq) by {
            assert((x - qy) * (x - qy) == x * x - 2 * (x * qy) + qy * qy) by (nonlinear_arith);
            assert((y + qx) * (y + qx) == y * y + 2 * (y * qx) + qx * qx) by (nonlinear_arith);
        }
        assert((p * p) * n2 == (p * p) * n + 2 * ((p * p) * cross) + (p * p) * sq)
            by (nonlinear_arith)
            requires
                n2 == n + 2 * cross + sq,
        ;
    } else {
        assert(n2 == n - 2 * cross + sq) by {
            assert((x + qy) * (x + qy) == x * x + 2 * (x * qy) + qy * qy) by (nonlinear_arith);
            assert((y - qx) * (y - qx) == y * y - 2 * (y * qx) + qx * qx) by (nonlinear_arith);
        }
        assert((p * p) * n2 == (p * p) * n - 2 * ((p * p) * cross) + (p * p) * sq)
            by (nonlinear_arith)
            requires
                n2 == n - 2 * cross + sq,
        ;
    }
    let pp = p * p;
    assert(1 <= p <= pp) by (nonlinear_arith)
        requires
            pp == p * p,
            p >= 1,
    ;
    assert(-(pp * 0x8040_0000_0000) <= pp * cross <= pp * 0x8040_0000_0000) by (nonlinear_arith)
        requires
            pp >= 1,
            -0x8040_0000_0000 <= cross <= 0x8040_0000_0000,
    ;
    assert(2 * p * mx <= pp * 0x8020_0000_0000) by (nonlinear_arith)
        requires
            1 <= p <= pp,
            0 <= mx <= 0x4010_0000_0000,
    ;
    assert(2 * p * my <= pp * 0x8020_0000_0000) by (nonlinear_arith)
        requires
            1 <= p <= pp,
            0 <= my <= 0x4010_0000_0000,
    ;
}

/// The knowledge of the length carries over one rung.
proof fn lemma_length_carries(x: int, y: int, i: int, p: int, forward: bool)
    requires
        0 <= i < RUNGS,
        length_known(norm2(x, y), i, p),
    ensures
        ({
            let qx = trunc_div(x, p);
            let qy = trunc_div(y, p);
            let n2 = if forward {
                norm2(x - qy, y + qx)
            } else {
                norm2(x + qy, y - qx)
            };
            length_known(n2, i + 1, 2 * p)
        }),
        norm2(x, y) <= LENGTH2_CAP,
        p >= 1,
{
    let n = norm2(x, y);
    let n2 = if forward {
        norm2(x - trunc_div(y, p), y + trunc_div(x, p))
    } else {
        norm2(x + trunc_div(y, p), y - trunc_div(x, p))
    };
    assert(LADDER_START * LADDER_START == 1_825_991_897_761_247_040_582_170_176);
    lemma_rung(x, y, p, forward);
    if i < 6 {
        let c: int = if i == 0 {
            1
        } else if i == 1 {
            4
        } else if i == 2 {
            16
        } else if i == 3 {
            64
        } else if i == 4 {
            256
        } else {
            1024
        };
        assert(p * p == c) by (nonlinear_arith)
            requires
                (p == 1 && c == 1) || (p == 2 && c == 4) || (p == 4 && c == 16) || (p == 8 && c
                    == 64) || (p == 16 && c == 256) || (p == 32 && c == 1024),
        ;
        assert(c * n + n - c * RUNG_SLACK <= c * n2 <= c * n + n + c * RUNG_SLACK);
        if i == 5 {
            assert((2 * p) * (2 * p) == 4096) by (nonlinear_arith)
                requires
                    p == 32,
            ;
        }
    } else {
        let pp = p * p;
        assert(pp >= 4096) by (nonlinear_arith)
            requires
                pp == p * p,
                p >= 64,
        ;
        assert((2 * p) * (2 * p) == 4 * pp) by (nonlinear_arith)
            requires
                pp == p * p,
        ;
        let g = LENGTH2_GOAL + (i - 6) * RUNG_SLACK;
        let g2 = LENGTH2_GOAL + (i - 5) * RUNG_SLACK;
        assert(g2 == g + RUNG_SLACK);
        assert(pp * g2 == pp * g + pp * RUNG_SLACK) by (nonlinear_arith)
            requires
                g2 == g + RUNG_SLACK,
        ;
        assert(4 * pp * n2 == 4 * (pp * n2)) by (nonlinear_arith);
        assert(4 * pp * g2 == 4 * (pp * g2)) by (nonlinear_arith);
        assert(n2 <= LENGTH2_CAP) by (nonlinear_arith)
            requires
                pp >= 4096,
                pp * n2 <= pp * g2,
                g2 <= LENGTH2_CAP,
        ;
        assert(n - RUNG_SLACK <= n2) by (nonlinear_arith)
            requires
                pp >= 4096,
                n >= 0,
                pp * n + n - pp * RUNG_SLACK <= pp * n2,
        ;
    }
}

/// The length after the last rung is one, within a part in a thousand.
proof fn lemma_climb_length(x: int, y: int, z: int, i: int, p: int)
    requires
        0 <= i <= RUNGS,
        length_known(norm2(x, y), i, p),
    ensures
        0xffe_00000000_00000000_0000 <= norm2(climb(x, y, z, i, p).0, climb(x, y, z, i, p).1),
        norm2(climb(x, y, z, i, p).0, climb(x, y, z, i, p).1) <= 0x100001_00000000_00000000_00,
    decreases RUNGS - i,
{
    if i < RUNGS {
        lemma_length_carries(x, y, i, p, z >= 0);
        if z >= 0 {
            lemma_climb_length(
                x - trunc_div(y, p),
                y + trunc_div(x, p),
                z - RUNG_ANGLES[i],
                i + 1,
                2 * p,
            );
        } else {
            lemma_climb_length(
                x + trunc_div(y, p),
                y - trunc_div(x, p),
                z + RUNG_ANGLES[i],
                i + 1,
                2 * p,
            );
        }
    } else {
        let n = norm2(x, y);
        let pp = p * p;
        let g = LENGTH2_GOAL + 30 * RUNG_SLACK;
        assert(pp >= 4096) by (nonlinear_arith)
            requires
                pp == p * p,
                p >= 64,
        ;
        assert(n <= g) by (nonlinear_arith)
            requires
                pp >= 4096,
                pp * n <= pp * g,
        ;
    }
}

/// Sines and cosines never exceed [`ONE`], and their squares add up to its square within
/// one part in five hundred.
pub proof fn lemma_quarter_unit_length(r: int)
    ensures
        -ONE <= quarter_unit(r).0 <= ONE,
        -ONE <= quarter_unit(r).1 <= ONE,
        500 * norm2(quarter_unit(r).0, quarter_unit(r).1) <= 501 * (ONE * ONE),
        500 * norm2(quarter_unit(r).0, quarter_unit(r).1) >= 499 * (ONE * ONE),
{
    let v = climb(LADDER_START as int, 0, r * ANGLE_GRAIN, 0, 1);
    assert(0int * 0int == 0) by (nonlinear_arith);
    lemma_climb_length(LADDER_START as int, 0, r * ANGLE_GRAIN, 0, 1);
    lemma_rounded_length(v.0, v.1);
}

/// Rounding a vector of about the right length to sine units.
proof fn lemma_rounded_length(x: int, y: int)
    requires
        0xffe_00000000_00000000_0000 <= norm2(x, y) <= 0x100001_00000000_00000000_00,
    ensures
        -ONE <= round_to_unit(x) <= ONE,
        -ONE <= round_to_unit(y) <= ONE,
        500 * norm2(round_to_unit(x), round_to_unit(y)) <= 501 * (ONE * ONE),
        500 * norm2(round_to_unit(x), round_to_unit(y)) >= 499 * (ONE * ONE),
{
    let c = round_to_unit(x);
    let s = round_to_unit(y);
    assert(x * x >= 0 && y * y >= 0) by (nonlinear_arith);
    assert(-0x4000_1000_0000 <= x <= 0x4000_1000_0000) by (nonlinear_arith)
        requires
            x * x <= 0x100001_00000000_00000000_00,
    ;
    assert(-0x4000_1000_0000 <= y <= 0x4000_1000_0000) by (nonlinear_arith)
        requires
            y * y <= 0x100001_00000000_00000000_00,
    ;
    let ex = c * GRAIN - x;
    let ey = s * GRAIN - y;
    assert(-0x2000_0000 <= ex <= 0x2000_0000);
    assert(-0x2000_0000 <= ey <= 0x2000_0000);
    let g2 = GRAIN * GRAIN;
    assert(g2 == 0x1000_0000_0000_0000);
    assert(g2 * (c * c) == x * x + 2 * (ex * x) + ex * ex) by (nonlinear_arith)
        requires
            ex == c * GRAIN - x,
            g2 == GRAIN * GRAIN,
    ;
    assert(g2 * (s * s) == y * y + 2 * (ey * y) + ey * ey) by (nonlinear_arith)
        requires
            ey == s * GRAIN - y,
            g2 == GRAIN * GRAIN,
    ;
    crate::sim::geometry::lemma_product_bound(ex, 0x2000_0000, x, 0x4000_1000_0000);
    crate::sim::geometry::lemma_product_bound(ey, 0x2000_0000, y, 0x4000_1000_0000);
    crate::sim::geometry::lemma_square_bound(ex, 0x2000_0000);
    crate::sim::geometry::lemma_square_bound(ey, 0x2000_0000);
    let u = c * c + s * s;
    assert(g2 * u == g2 * (c * c) + g2 * (s * s)) by (nonlinear_arith)
        requires
            u == c * c + s * s,
    ;
    assert(0x1000_0000_0000_0000 * u == g2 * u);
    assert(ONE * ONE == 0x1_0000_0000);
}

/// The length of a heading's unit vector: the law of [`lemma_quarter_unit_length`] at every
/// heading.
pub proof fn lemma_unit_length(a: int)
    ensures
        -ONE <= sin_of(a) <= ONE,
        -ONE <= cos_of(a) <= ONE,
        500 * norm2(sin_of(a), cos_of(a)) <= 501 * (ONE * ONE),
        500 * norm2(sin_of(a), cos_of(a)) >= 499 * (ONE * ONE),
{
    let (c, s) = quarter_unit(wrapped(a) % (QUARTER as int));
    lemma_quarter_unit_length(wrapped(a) % (QUARTER as int));
    assert((-c) * (-c) == c * c) by (nonlinear_arith);
    assert((-s) * (-s) == s * s) by (nonlinear_arith);
}

/// A cosine is the sine a quarter turn on.
pub proof fn lemma_cosine_is_shifted_sine(a: int)
    ensures
        cos_of(a) == sin_of(a + QUARTER),
{
    let w = wrapped(a);
    let w2 = wrapped(a + QUARTER);
    assert(w2 == if w < 3 * QUARTER {
        w + QUARTER
    } else {
        w - 3 * QUARTER
    });
    assert(w % (QUARTER as int) == w2 % (QUARTER as int));
}

/// Half a turn on, both coordinates change sign.
pub proof fn lemma_half_turn_negates(a: int)
    ensures
        sin_of(a + 2 * QUARTER) == -sin_of(a),
        cos_of(a + 2 * QUARTER) == -cos_of(a),
{
    let w = wrapped(a);
    let w2 = wrapped(a + 2 * QUARTER);
    assert(w2 == if w < 2 * QUARTER {
        w + 2 * QUARTER
    } else {
        w - 2 * QUARTER
    });
    assert(w % (QUARTER as int) == w2 % (QUARTER as int));
}

/// A whole turn changes nothing.
pub proof fn lemma_turn_is_period(a: int)
    ensures
        wrapped(a + TURN) == wrapped(a),
        sin_of(a + TURN) == sin_of(a),
        cos_of(a + TURN) == cos_of(a),
{
    assert(wrapped(a + TURN) == wrapped(a));
}

fn rounded(v: i64) -> (r: i64)
    requires
        -0x4010_0000_0000 <= v <= 0x4010_0000_0000,
    ensures
        r == round_to_unit(v as int),
{
    if v >= 0 {
        (v + GRAIN / 2) / GRAIN
    } else {
        (v - GRAIN / 2) / GRAIN
    }
}

proof fn lemma_rung_angle_small(i: int)
    requires
        0 <= i < RUNGS,
    ensures
        0 <= RUNG_ANGLES[i] <= 0x2000_0000_0000,
{
}

/// `(cos, sin)` of a heading in the first quarter turn.
fn quarter(r: i64) -> (res: (i64, i64))
    requires
        0 <= r < QUARTER,
    ensures
        res.0 == quarter_unit(r as int).0,
        res.1 == quarter_unit(r as int).1,
        -ONE <= res.0 <= ONE,
        -ONE <= res.1 <= ONE,
{
    let mut x: i64 = LADDER_START;
    let mut y: i64 = 0;
    let mut z: i64 = r * ANGLE_GRAIN;
    let mut p: i64 = 1;
    let mut i: usize = 0;
    proof {
        assert(0int * 0int == 0) by (nonlinear_arith);
        lemma_quarter_unit_length(r as int);
        vstd::arithmetic::power2::lemma2_to64();
    }
    while i < RUNGS
        invariant
            i <= RUNGS,
            0 <= r < QUARTER,
            p == vstd::arithmetic::power2::pow2(i as nat),
            1 <= p,
            length_known(norm2(x as int, y as int), i as int, p as int),
            -0x4000_0000_0000 - i * 0x2000_0000_0000 <= z <= 0x4000_0000_0000 + i * 0x2000_0000_0000,
            climb(x as int, y as int, z as int, i as int, p as int) == climb(
                LADDER_START as int,
                0,
                r * ANGLE_GRAIN,
                0,
                1,
            ),
        decreases RUNGS - i,
    {
        let turn: i64 = RUNG_ANGLES[i];
        proof {
            lemma_rung_angle_small(i as int);
            lemma_length_carries(x as int, y as int, i as int, p as int, z >= 0);
            lemma_coordinates_capped(x as int, y as int);
            lemma_trunc_parts(x as int, p as int);
            lemma_trunc_parts(y as int, p as int);
            vstd::arithmetic::power2::lemma_pow2_unfold((i + 1) as nat);
            vstd::arithmetic::power2::lemma2_to64();
            vstd::arithmetic::power2::lemma_pow2_adds(4, 32);
            vstd::arithmetic::power2::lemma_pow2_strictly_increases(i as nat, 36);
        }
        let qx: i64 = x / p;
        let qy: i64 = y / p;
        if z >= 0 {
            x = x - qy;
            y = y + qx;
            z = z - turn;
        } else {
            x = x + qy;
            y = y - qx;
            z = z + turn;
        }
        p = 2 * p;
        i = i + 1;
    }
    proof {
        lemma_climb_length(x as int, y as int, z as int, i as int, p as int);
        lemma_coordinates_capped(x as int, y as int);
    }
    (rounded(x), rounded(y))
}

/// The heading reduced to one turn, in `0..TURN`.
pub fn wrap_turns(a: i32) -> (r: i32)
    ensures
        r == wrapped(a as int),
        0 <= r < TURN,
{
    wrap_wide(a as i64)
}

/// A heading of any width reduced to one turn.
pub(crate) fn wrap_wide(a: i64) -> (r: i32)
    ensures
        r == wrapped(a as int),
        0 <= r < TURN,
{
    let m: i64 = a % (TURN as i64);
    if m < 0 {
        m as i32 + TURN
    } else {
        m as i32
    }
}

/// Sine and cosine of a heading, both scaled by [`ONE`].
pub fn sin_cos(a: i32) -> (r: (i64, i64))
    ensures
        r.0 == sin_of(a as int),
        r.1 == cos_of(a as int),
        -ONE <= r.0 <= ONE,
        -ONE <= r.1 <= ONE,
{
    let w: i32 = wrap_turns(a);
    let (c, s) = quarter((w % QUARTER) as i64);
    if w < QUARTER {
        (s, c)
    } else if w < 2 * QUARTER {
        (c, -s)
    } else if w < 3 * QUARTER {
        (-s, -c)
    } else {
        (-c, s)
    }
}

/// Sine of a heading, scaled by [`ONE`].
pub fn sin(a: i32) -> (r: i32)
    ensures
        r == sin_of(a as int),
{
    let (s, _c) = sin_cos(a);
    s as i32
}

/// Cosine of a heading, scaled by [`ONE`].
pub fn cos(a: i32) -> (r: i32)
    ensures
        r == cos_of(a as int),
{
    let (_s, c) = sin_cos(a);
    c as i32
}

/// A heading within one turn differs from what it was reduced from by whole turns.
pub proof fn lemma_wrapping_takes_whole_turns(a: int) -> (k: int)
    ensures
        a == k * TURN + wrapped(a),
        0 <= wrapped(a) < TURN,
{
    a / (TURN as int)
}

} // verus!
