//! Exact planar geometry on the fixed-point grid.

use vstd::prelude::*;

verus! {

/// A point of the ground plane, in grid units.
#[derive(Debug, Clone, Copy, PartialEq, Eq, Structural)]
pub struct Pos {
    pub x: i64,
    pub z: i64,
}

impl Default for Pos {
    fn default() -> (p: Self)
        ensures
            p.x == 0 && p.z == 0,
    {
        Pos { x: 0, z: 0 }
    }
}

/// A bound on coordinates under which every difference of two of them, and every product
/// of such differences, stays inside the machine types used here.
pub const COORD_LIMIT: i64 = 0x1000_0000_0000_0000;

/// Both coordinates within [`COORD_LIMIT`].
pub open spec fn pos_bounded(p: Pos) -> bool {
    &&& -COORD_LIMIT <= p.x <= COORD_LIMIT
    &&& -COORD_LIMIT <= p.z <= COORD_LIMIT
}

/// The quotient rounded toward zero, as machine division rounds.
pub open spec fn trunc_div(n: int, d: int) -> int {
    if n >= 0 {
        n / d
    } else {
        -((-n) / d)
    }
}

/// Squared length of the vector `(dx, dz)`.
pub open spec fn norm2(dx: int, dz: int) -> int {
    dx * dx + dz * dz
}

/// Squared distance between two points.
pub open spec fn dist2(a: Pos, b: Pos) -> int {
    norm2(a.x - b.x, a.z - b.z)
}

/// Where a point lies relative to a disc: inside it or on its rim.
pub open spec fn in_disc(p: Pos, center: Pos, r: int) -> bool {
    dist2(p, center) <= r * r
}

/// `v` limited to the interval `lo..=hi`.
pub open spec fn clamp_int(v: int, lo: int, hi: int) -> int {
    if v < lo {
        lo
    } else if v > hi {
        hi
    } else {
        v
    }
}

/// How far along the segment `a`-`b` the point nearest to `p` lies, in units of one
/// `len2`-th of the segment (`len2` being its squared length).
pub open spec fn segment_param(a: Pos, b: Pos, p: Pos) -> int {
    clamp_int(
        (p.x - a.x) * (b.x - a.x) + (p.z - a.z) * (b.z - a.z),
        0,
        norm2(b.x - a.x, b.z - a.z),
    )
}

/// The grid point that stands for the point of segment `a`-`b` nearest to `p`.
pub open spec fn segment_point(a: Pos, b: Pos, p: Pos) -> (int, int) {
    let len2 = norm2(b.x - a.x, b.z - a.z);
    let t = segment_param(a, b, p);
    if len2 == 0 {
        (a.x as int, a.z as int)
    } else {
        (
            a.x + trunc_div((b.x - a.x) * t, len2),
            a.z + trunc_div((b.z - a.z) * t, len2),
        )
    }
}

pub proof fn lemma_square_bound(v: int, m: int)
    requires
        -m <= v <= m,
    ensures
        0 <= v * v <= m * m,
{
    assert(0 <= v * v <= m * m) by (nonlinear_arith)
        requires
            -m <= v <= m,
    ;
}

pub(crate) fn dist2_i128(dx: i64, dz: i64) -> (r: i128)
    requires
        -2 * COORD_LIMIT <= dx <= 2 * COORD_LIMIT,
        -2 * COORD_LIMIT <= dz <= 2 * COORD_LIMIT,
    ensures
        r == norm2(dx as int, dz as int),
        0 <= r <= 0x0800_0000_0000_0000_0000_0000_0000_0000,
{
    let dx: i128 = dx as i128;
    let dz: i128 = dz as i128;
    proof {
        lemma_square_bound(dx as int, 0x2000_0000_0000_0000);
        lemma_square_bound(dz as int, 0x2000_0000_0000_0000);
    }
    dx * dx + dz * dz
}

/// Whether `(ax, az)` lies within `r` of `(bx, bz)`.
pub(crate) fn within(ax: i64, az: i64, bx: i64, bz: i64, r: i64) -> (res: bool)
    requires
        pos_bounded(Pos { x: ax, z: az }),
        pos_bounded(Pos { x: bx, z: bz }),
    ensures
        res == in_disc(Pos { x: ax, z: az }, Pos { x: bx, z: bz }, r as int),
{
    proof {
        lemma_square_bound(r as int, 0x8000_0000_0000_0000);
    }
    dist2_i128(ax - bx, az - bz) <= (r as i128) * (r as i128)
}

/// The longest extent of a segment, along either axis, that [`closest_on_segment`] takes:
/// beyond it the scaled products would leave 128 bits.
pub const SEGMENT_LIMIT: i64 = 0x200_0000_0000;

pub open spec fn segment_bounded(a: Pos, b: Pos) -> bool {
    &&& pos_bounded(a)
    &&& pos_bounded(b)
    &&& -SEGMENT_LIMIT <= b.x - a.x <= SEGMENT_LIMIT
    &&& -SEGMENT_LIMIT <= b.z - a.z <= SEGMENT_LIMIT
}

/// A fraction `t / len2` of `d` stays between zero and `d`.
proof fn lemma_fraction_between(d: int, t: int, len2: int)
    requires
        0 <= t <= len2,
        0 < len2,
    ensures
        d >= 0 ==> 0 <= trunc_div(d * t, len2) <= d,
        d <= 0 ==> d <= trunc_div(d * t, len2) <= 0,
{
    if d >= 0 {
        assert(0 <= d * t <= d * len2) by (nonlinear_arith)
            requires
                d >= 0,
                0 <= t <= len2,
        ;
        assert(0 <= (d * t) / len2 <= d) by (nonlinear_arith)
            requires
                0 <= d * t <= d * len2,
                0 < len2,
        ;
    } else {
        assert(-(d * t) == (-d) * t) by (nonlinear_arith);
        assert(0 <= (-d) * t <= (-d) * len2) by (nonlinear_arith)
            requires
                -d >= 0,
                0 <= t <= len2,
        ;
        assert(0 <= ((-d) * t) / len2 <= -d) by (nonlinear_arith)
            requires
                0 <= (-d) * t <= (-d) * len2,
                0 < len2,
        ;
        assert(d * t <= 0);
        if d * t == 0 {
            assert(0int / len2 == 0) by (nonlinear_arith)
                requires
                    0 < len2,
            ;
        }
    }
}

/// The nearest point never leaves the box spanned by the segment's two ends.
pub proof fn lemma_segment_point_in_box(a: Pos, b: Pos, p: Pos)
    ensures
        a.x <= b.x ==> a.x <= segment_point(a, b, p).0 <= b.x,
        b.x <= a.x ==> b.x <= segment_point(a, b, p).0 <= a.x,
        a.z <= b.z ==> a.z <= segment_point(a, b, p).1 <= b.z,
        b.z <= a.z ==> b.z <= segment_point(a, b, p).1 <= a.z,
{
    let dx = b.x - a.x;
    let dz = b.z - a.z;
    let len2 = norm2(dx, dz);
    assert(dx * dx >= 0 && dz * dz >= 0) by (nonlinear_arith);
    if len2 == 0 {
        assert(dx * dx == 0 && dz * dz == 0);
        assert(dx == 0) by (nonlinear_arith)
            requires
                dx * dx == 0,
        ;
        assert(dz == 0) by (nonlinear_arith)
            requires
                dz * dz == 0,
        ;
    } else {
        let t = segment_param(a, b, p);
        lemma_fraction_between(dx, t, len2);
        lemma_fraction_between(dz, t, len2);
    }
}

/// Squared distance, scaled by `len2`, from `p` to the point of the segment at parameter `k`.
pub open spec fn segment_gap2(a: Pos, b: Pos, p: Pos, k: int) -> int {
    let dx = b.x - a.x;
    let dz = b.z - a.z;
    let len2 = norm2(dx, dz);
    norm2(len2 * (p.x - a.x) - dx * k, len2 * (p.z - a.z) - dz * k)
}

/// No point of the segment is nearer to `p` than the one [`segment_param`] names.
pub proof fn lemma_segment_param_is_nearest(a: Pos, b: Pos, p: Pos, k: int)
    requires
        0 <= k <= norm2(b.x - a.x, b.z - a.z),
    ensures
        segment_gap2(a, b, p, segment_param(a, b, p)) <= segment_gap2(a, b, p, k),
{
    let dx = b.x - a.x;
    let dz = b.z - a.z;
    let wx = p.x - a.x;
    let wz = p.z - a.z;
    let len2 = norm2(dx, dz);
    let dot = wx * dx + wz * dz;
    let t = segment_param(a, b, p);
    lemma_gap2_expand(dx, dz, wx, wz, t);
    lemma_gap2_expand(dx, dz, wx, wz, k);
    assert((t - dot) * (t - dot) <= (k - dot) * (k - dot)) by {
        if dot < 0 {
            assert((0 - dot) * (0 - dot) <= (k - dot) * (k - dot)) by (nonlinear_arith)
                requires
                    dot < 0,
                    0 <= k,
            ;
        } else if dot > len2 {
            assert((len2 - dot) * (len2 - dot) <= (k - dot) * (k - dot)) by (nonlinear_arith)
                requires
                    dot > len2,
                    k <= len2,
            ;
        } else {
            assert(0 <= (k - dot) * (k - dot)) by (nonlinear_arith);
            assert((t - dot) * (t - dot) == 0) by (nonlinear_arith)
                requires
                    t == dot,
            ;
        }
    }
    assert(len2 * ((t - dot) * (t - dot)) <= len2 * ((k - dot) * (k - dot))) by (nonlinear_arith)
        requires
            0 <= len2,
            (t - dot) * (t - dot) <= (k - dot) * (k - dot),
    ;
}

proof fn lemma_square_of_difference(l: int, w: int, d: int, k: int)
    ensures
        (l * w - d * k) * (l * w - d * k) == l * l * (w * w) - 2 * (l * k) * (w * d) + (k * k) * (d
            * d),
{
    let p = l * w;
    let q = d * k;
    assert((p - q) * (p - q) == p * p - 2 * (p * q) + q * q) by (nonlinear_arith);
    assert(p * p == l * l * (w * w)) by (nonlinear_arith)
        requires
            p == l * w,
    ;
    assert(q * q == k * k * (d * d)) by (nonlinear_arith)
        requires
            q == d * k,
    ;
    assert(p * q == (l * k) * (w * d)) by (nonlinear_arith)
        requires
            p == l * w,
            q == d * k,
    ;
    assert(2 * ((l * k) * (w * d)) == 2 * (l * k) * (w * d)) by (nonlinear_arith);
}

proof fn lemma_gap2_expand(dx: int, dz: int, wx: int, wz: int, k: int)
    ensures
        norm2(norm2(dx, dz) * wx - dx * k, norm2(dx, dz) * wz - dz * k) == norm2(dx, dz) * (
        (k - (wx * dx + wz * dz)) * (k - (wx * dx + wz * dz))) + norm2(dx, dz) * (norm2(dx, dz)
            * norm2(wx, wz) - (wx * dx + wz * dz) * (wx * dx + wz * dz)),
{
    let l = norm2(dx, dz);
    let dot = wx * dx + wz * dz;
    let u = l * wx - dx * k;
    let v = l * wz - dz * k;
    lemma_square_of_difference(l, wx, dx, k);
    lemma_square_of_difference(l, wz, dz, k);
    let a1 = wx * wx;
    let a2 = wz * wz;
    let b1 = wx * dx;
    let b2 = wz * dz;
    let c1 = dx * dx;
    let c2 = dz * dz;
    assert(u * u + v * v == l * l * (a1 + a2) - 2 * (l * k) * (b1 + b2) + (k * k) * (c1 + c2))
        by (nonlinear_arith)
        requires
            u * u == l * l * a1 - 2 * (l * k) * b1 + (k * k) * c1,
            v * v == l * l * a2 - 2 * (l * k) * b2 + (k * k) * c2,
    ;
    let n = a1 + a2;
    assert(l * l * n - 2 * (l * k) * dot + (k * k) * l == l * ((k - dot) * (k - dot)) + l * (l * n
        - dot * dot)) by (nonlinear_arith);
}

/// The point of segment `a`-`b` nearest to `p`, rounded to the grid.
pub(crate) fn closest_on_segment(a: Pos, b: Pos, p: Pos) -> (r: (i64, i64))
    requires
        segment_bounded(a, b),
        pos_bounded(p),
    ensures
        r.0 == segment_point(a, b, p).0,
        r.1 == segment_point(a, b, p).1,
        pos_bounded(Pos { x: r.0, z: r.1 }),
{
    let dx: i128 = (b.x - a.x) as i128;
    let dz: i128 = (b.z - a.z) as i128;
    proof {
        lemma_square_bound(dx as int, SEGMENT_LIMIT as int);
        lemma_square_bound(dz as int, SEGMENT_LIMIT as int);
    }
    let len2: i128 = dx * dx + dz * dz;
    if len2 == 0 {
        return (a.x, a.z);
    }
    let wx: i128 = (p.x - a.x) as i128;
    let wz: i128 = (p.z - a.z) as i128;
    proof {
        lemma_product_bound(wx as int, 2 * COORD_LIMIT as int, dx as int, SEGMENT_LIMIT as int);
        lemma_product_bound(wz as int, 2 * COORD_LIMIT as int, dz as int, SEGMENT_LIMIT as int);
    }
    let dot: i128 = wx * dx + wz * dz;
    let t: i128 = if dot < 0 {
        0
    } else if dot > len2 {
        len2
    } else {
        dot
    };
    proof {
        assert(t == segment_param(a, b, p));
        lemma_product_bound(dx as int, SEGMENT_LIMIT as int, t as int, 2 * (SEGMENT_LIMIT * SEGMENT_LIMIT));
        lemma_product_bound(dz as int, SEGMENT_LIMIT as int, t as int, 2 * (SEGMENT_LIMIT * SEGMENT_LIMIT));
        lemma_segment_point_in_box(a, b, p);
    }
    let qx: i128 = dx * t / len2;
    let qz: i128 = dz * t / len2;
    ((a.x as i128 + qx) as i64, (a.z as i128 + qz) as i64)
}

pub proof fn lemma_product_bound(u: int, m: int, v: int, n: int)
    requires
        -m <= u <= m,
        -n <= v <= n,
    ensures
        -(m * n) <= u * v <= m * n,
{
    assert(-(m * n) <= u * v <= m * n) by (nonlinear_arith)
        requires
            -m <= u <= m,
            -n <= v <= n,
    ;
}

/// `r` is the integer part of the square root of `n`.
pub open spec fn is_floor_sqrt(n: int, r: int) -> bool {
    &&& 0 <= r
    &&& r * r <= n
    &&& n < (r + 1) * (r + 1)
}

/// There is only one integer part of a square root.
pub proof fn lemma_floor_sqrt_unique(n: int, r: int, s: int)
    requires
        is_floor_sqrt(n, r),
        is_floor_sqrt(n, s),
    ensures
        r == s,
{
    if r < s {
        assert((r + 1) * (r + 1) <= s * s) by (nonlinear_arith)
            requires
                0 <= r,
                r + 1 <= s,
        ;
    } else if s < r {
        assert((s + 1) * (s + 1) <= r * r) by (nonlinear_arith)
            requires
                0 <= s,
                s + 1 <= r,
        ;
    }
}

/// One averaging step from `x` never lands below the root.
proof fn lemma_newton_above_root(n: int, x: int)
    requires
        0 < x,
        0 <= n,
    ensures
        n < ((x + n / x) / 2 + 1) * ((x + n / x) / 2 + 1),
{
    let q = n / x;
    let y = (x + q) / 2;
    assert(n < (q + 1) * x && 0 <= q) by (nonlinear_arith)
        requires
            0 < x,
            0 <= n,
            q == n / x,
    ;
    // x + q + 1 <= 2 * (y + 1), so four times the square covers four times x * (q + 1).
    let w = 2 * (y + 1);
    let s = x + (q + 1);
    assert(s <= w);
    assert(4 * (x * (q + 1)) <= s * s) by (nonlinear_arith)
        requires
            s == x + (q + 1),
    ;
    assert(s * s <= w * w) by (nonlinear_arith)
        requires
            0 <= s <= w,
    ;
    assert(w * w == 4 * ((y + 1) * (y + 1))) by (nonlinear_arith)
        requires
            w == 2 * (y + 1),
    ;
    assert((q + 1) * x == x * (q + 1)) by (nonlinear_arith);
}

/// The integer part of the square root, by averaging down from above.
pub fn isqrt_i128(n: i128) -> (r: i128)
    requires
        0 <= n < i128::MAX,
    ensures
        is_floor_sqrt(n as int, r as int),
{
    if n < 2 {
        assert(0int * 0int == 0 && 1int * 1int == 1 && 2int * 2int == 4) by (nonlinear_arith);
        return n;
    }
    let mut x: i128 = n;
    let mut y: i128 = (x + 1) / 2;
    proof {
        assert(n as int / (n as int) == 1) by (nonlinear_arith)
            requires
                n > 0,
        ;
        lemma_newton_above_root(n as int, n as int);
        assert(n < (n + 1) * (n + 1)) by (nonlinear_arith)
            requires
                n > 0,
        ;
    }
    while y < x
        invariant
            2 <= n < i128::MAX,
            0 < x <= n,
            0 < y <= n,
            y == (x + n as int / (x as int)) / 2,
            n < (x + 1) * (x + 1),
            n < (y + 1) * (y + 1),
        decreases x,
    {
        x = y;
        proof {
            assert(0 <= n as int / (x as int) <= n) by (nonlinear_arith)
                requires
                    0 < x,
                    0 <= n,
            ;
            assert(n as int / (x as int) >= 1) by (nonlinear_arith)
                requires
                    0 < x <= n,
            ;
            lemma_newton_above_root(n as int, x as int);
        }
        let q: i128 = n / x;
        proof {
            assert(q * x <= n) by (nonlinear_arith)
                requires
                    0 < x,
                    0 <= n,
                    q == n as int / (x as int),
            ;
            assert(x + q <= q * x + 1) by (nonlinear_arith)
                requires
                    1 <= x,
                    1 <= q,
            ;
        }
        y = (x + q) / 2;
    }
    proof {
        // y >= x means n / x >= x.
        assert(n as int / (x as int) >= x);
        assert(x * x <= n) by (nonlinear_arith)
            requires
                0 < x,
                n as int / (x as int) >= x,
        ;
    }
    x
}

} // verus!
