//! Integer plane geometry: points, squared distances, integer square roots,
//! and the exact floor of the distance from a point to a line segment.

use vstd::prelude::*;

verus! {

/// Largest magnitude allowed for an input coordinate (control points, widths,
/// side bearings, anchor positions, target distances and heights).
pub const COORD_LIMIT: i64 = 65536;

/// Largest magnitude a coordinate may reach once a translation (kerning offset
/// plus advance width) has been applied.  Chosen so that all intermediate
/// products in the distance routines fit comfortably in 128-bit arithmetic.
pub const TRANS_LIMIT: i64 = 701_000_000;

/// A point of the glyph plane, in integer font units.
#[derive(Clone, Copy, Debug, PartialEq, Eq, Structural)]
pub struct Point {
    pub x: i64,
    pub y: i64,
}

/// Whether both coordinates lie within `b` in magnitude.
pub open spec fn point_within(p: Point, b: int) -> bool {
    -b <= p.x <= b && -b <= p.y <= b
}

/// Squared Euclidean distance between two points, exactly.
pub open spec fn dist_sq(px: int, py: int, qx: int, qy: int) -> int {
    (px - qx) * (px - qx) + (py - qy) * (py - qy)
}

/// The integer square root of `n` (the floor of the real square root),
/// defined for negative arguments as 0.
pub open spec fn isqrt_spec(n: int) -> int
    decreases n,
{
    if n <= 0 {
        0
    } else {
        let r = isqrt_spec(n - 1);
        if (r + 1) * (r + 1) <= n {
            r + 1
        } else {
            r
        }
    }
}

/// `isqrt_spec(n)` is the unique `r >= 0` with `r * r <= n < (r + 1) * (r + 1)`.
pub proof fn lemma_isqrt_spec_bounds(n: int)
    requires
        n >= 0,
    ensures
        0 <= isqrt_spec(n),
        isqrt_spec(n) * isqrt_spec(n) <= n,
        n < (isqrt_spec(n) + 1) * (isqrt_spec(n) + 1),
    decreases n,
{
    if n == 0 {
    } else {
        lemma_isqrt_spec_bounds(n - 1);
        let r = isqrt_spec(n - 1);
        assert((r + 2) * (r + 2) > (r + 1) * (r + 1)) by (nonlinear_arith)
            requires r >= 0,
        {
        }
    }
}

/// Any `r` satisfying the square-root bracketing equals `isqrt_spec(n)`.
pub proof fn lemma_isqrt_unique(n: int, r: int)
    requires
        n >= 0,
        r >= 0,
        r * r <= n,
        n < (r + 1) * (r + 1),
    ensures
        r == isqrt_spec(n),
{
    lemma_isqrt_spec_bounds(n);
    let s = isqrt_spec(n);
    assert(r <= s) by (nonlinear_arith)
        requires r >= 0, s >= 0, r * r <= n, n < (s + 1) * (s + 1),
    {
    }
    assert(s <= r) by (nonlinear_arith)
        requires r >= 0, s >= 0, s * s <= n, n < (r + 1) * (r + 1),
    {
    }
}

/// The integer square root never exceeds a known root bound.
pub proof fn lemma_isqrt_le(n: int, s: int)
    requires
        0 <= n,
        0 <= s,
        n <= s * s,
    ensures
        isqrt_spec(n) <= s,
{
    lemma_isqrt_spec_bounds(n);
    let r = isqrt_spec(n);
    assert(r <= s) by (nonlinear_arith)
        requires r >= 0, s >= 0, r * r <= n, n <= s * s,
    {
    }
}

/// Integer square root by bisection: returns the floor of the real square
/// root of `n`.
pub fn isqrt(n: u64) -> (r: u64)
    ensures
        r == isqrt_spec(n as int),
        r * r <= n,
        r <= 0xffff_ffff,
{
    let mut lo: u64 = 0;
    let mut hi: u64 = 0x1_0000_0000;
    if n < 0x1_0000_0000 {
        hi = n + 1;
        proof {
            assert((hi as int) * (hi as int) > n as int) by (nonlinear_arith)
                requires
                    (hi as int) > (n as int),
                    (hi as int) >= 1,
            {
            }
        }
    } else {
        proof {
            assert(0x1_0000_0000int * 0x1_0000_0000int == 0x1_0000_0000_0000_0000int);
            assert((hi as int) * (hi as int) > n as int);
        }
    }
    while lo + 1 < hi
        invariant
            0 <= lo < hi,
            hi <= 0x1_0000_0000,
            (lo as int) * (lo as int) <= n as int,
            (hi as int) * (hi as int) > n as int,
        decreases hi - lo,
    {
        let mid: u64 = lo + (hi - lo) / 2;
        assert(lo < mid < hi);
        assert((mid as int) * (mid as int) < 0x1_0000_0000_0000_0000) by (nonlinear_arith)
            requires 0 <= mid as int, mid as int <= 0xffff_ffff,
        {
        }
        if mid * mid <= n {
            lo = mid;
        } else {
            hi = mid;
        }
    }
    proof {
        lemma_isqrt_unique(n as int, lo as int);
    }
    lo
}

/// `-(m * m) <= x * y <= m * m` whenever `|x|, |y| <= m`.
pub proof fn lemma_mul_bound(x: int, y: int, m: int)
    requires
        -m <= x <= m,
        -m <= y <= m,
        0 <= m,
    ensures
        -(m * m) <= x * y <= m * m,
{
    assert(-(m * m) <= x * y <= m * m) by (nonlinear_arith)
        requires -m <= x <= m, -m <= y <= m, 0 <= m,
    {
    }
}

/// `|x * y| <= mx * my` whenever `|x| <= mx` and `|y| <= my`.
pub proof fn lemma_mul_bound2(x: int, y: int, mx: int, my: int)
    requires
        -mx <= x <= mx,
        -my <= y <= my,
        0 <= mx,
        0 <= my,
    ensures
        -(mx * my) <= x * y <= mx * my,
{
    assert(-(mx * my) <= x * y <= mx * my) by (nonlinear_arith)
        requires -mx <= x <= mx, -my <= y <= my, 0 <= mx, 0 <= my,
    {
    }
}

/// Exact squared distance between two translated points.
pub fn dist_sq_points(p: Point, q: Point) -> (d: i64)
    requires
        point_within(p, TRANS_LIMIT as int),
        point_within(q, TRANS_LIMIT as int),
    ensures
        d == dist_sq(p.x as int, p.y as int, q.x as int, q.y as int),
        0 <= d,
{
    let dx: i64 = p.x - q.x;
    let dy: i64 = p.y - q.y;
    proof {
        lemma_mul_bound(dx as int, dx as int, 2 * TRANS_LIMIT as int);
        lemma_mul_bound(dy as int, dy as int, 2 * TRANS_LIMIT as int);
        assert(dx as int * dx as int >= 0) by (nonlinear_arith);
        assert(dy as int * dy as int >= 0) by (nonlinear_arith);
    }
    dx * dx + dy * dy
}

/// Squared length of the segment from `(ax, ay)` to `(bx, by)`.
pub open spec fn psd_den(ax: int, ay: int, bx: int, by: int) -> int {
    (bx - ax) * (bx - ax) + (by - ay) * (by - ay)
}

/// Dot product of the vectors `a -> p` and `a -> b`.
pub open spec fn psd_dot(px: int, py: int, ax: int, ay: int, bx: int, by: int) -> int {
    (px - ax) * (bx - ax) + (py - ay) * (by - ay)
}

/// The projection parameter of `p` onto the segment, scaled by the squared
/// segment length and clamped to the segment's parameter range.
pub open spec fn psd_tnum(px: int, py: int, ax: int, ay: int, bx: int, by: int) -> int {
    let den = psd_den(ax, ay, bx, by);
    let dot = psd_dot(px, py, ax, ay, bx, by);
    if dot < 0 { 0 } else if dot > den { den } else { dot }
}

/// The squared point-to-segment distance multiplied by the squared segment
/// length (so that it stays an integer before the final division).
pub open spec fn psd_num(px: int, py: int, ax: int, ay: int, bx: int, by: int) -> int {
    let den = psd_den(ax, ay, bx, by);
    let dot = psd_dot(px, py, ax, ay, bx, by);
    let tnum = psd_tnum(px, py, ax, ay, bx, by);
    dist_sq(px, py, ax, ay) * den - 2 * tnum * dot + tnum * tnum
}

/// The floor of the squared distance from point `(px, py)` to the line
/// segment from `(ax, ay)` to `(bx, by)`: the nearest point is the
/// projection onto the segment's carrier line with the curve parameter
/// clamped to `[0, 1]`, and a degenerate segment is treated as its point.
pub open spec fn point_seg_dist_sq(px: int, py: int, ax: int, ay: int, bx: int, by: int) -> int {
    let den = psd_den(ax, ay, bx, by);
    if den == 0 {
        dist_sq(px, py, ax, ay)
    } else {
        psd_num(px, py, ax, ay, bx, by) / den
    }
}

/// Lagrange's two-square identity for planar vectors.
pub proof fn lemma_two_squares(a: int, b: int, c: int, d: int)
    ensures
        (a * a + b * b) * (c * c + d * d) == (a * c + b * d) * (a * c + b * d) + (a * d - b * c)
            * (a * d - b * c),
{
    let ac = a * c;
    let bd = b * d;
    let ad = a * d;
    let bc = b * c;
    assert((ac + bd) * (ac + bd) == ac * ac + 2 * (ac * bd) + bd * bd) by (nonlinear_arith);
    assert((ad - bc) * (ad - bc) == ad * ad - 2 * (ad * bc) + bc * bc) by (nonlinear_arith);
    assert(ac * bd == ad * bc) by (nonlinear_arith)
        requires ac == a * c, bd == b * d, ad == a * d, bc == b * c,
    {
    }
    assert(ac * ac == (a * a) * (c * c)) by (nonlinear_arith)
        requires ac == a * c,
    {
    }
    assert(bd * bd == (b * b) * (d * d)) by (nonlinear_arith)
        requires bd == b * d,
    {
    }
    assert(ad * ad == (a * a) * (d * d)) by (nonlinear_arith)
        requires ad == a * d,
    {
    }
    assert(bc * bc == (b * b) * (c * c)) by (nonlinear_arith)
        requires bc == b * c,
    {
    }
    assert((a * a + b * b) * (c * c + d * d) == (a * a) * (c * c) + (a * a) * (d * d) + (b * b)
        * (c * c) + (b * b) * (d * d)) by (nonlinear_arith);
}

/// The numerator of the point-to-segment distance is non-negative and at
/// most the distance to the first endpoint times the squared length.
pub proof fn lemma_psd_num_range(px: int, py: int, ax: int, ay: int, bx: int, by: int)
    ensures
        0 <= psd_den(ax, ay, bx, by),
        0 <= psd_num(px, py, ax, ay, bx, by),
        psd_num(px, py, ax, ay, bx, by) <= dist_sq(px, py, ax, ay) * psd_den(ax, ay, bx, by),
{
    let abx = bx - ax;
    let aby = by - ay;
    let apx = px - ax;
    let apy = py - ay;
    let den = psd_den(ax, ay, bx, by);
    let apsq = dist_sq(px, py, ax, ay);
    let dot = psd_dot(px, py, ax, ay, bx, by);
    let tnum = psd_tnum(px, py, ax, ay, bx, by);
    let num = psd_num(px, py, ax, ay, bx, by);
    assert(den >= 0 && apsq >= 0) by (nonlinear_arith)
        requires
            den == abx * abx + aby * aby,
            apsq == apx * apx + apy * apy,
    {
    }
    // Lagrange's identity: apsq * den - dot * dot is itself a square.
    lemma_two_squares(apx, apy, abx, aby);
    assert(apsq * den == dot * dot + (apx * aby - apy * abx) * (apx * aby - apy * abx));
    assert(dot * dot <= apsq * den) by (nonlinear_arith)
        requires apsq * den - dot * dot == (apx * aby - apy * abx) * (apx * aby - apy * abx),
    {
    }
    assert(apsq * den >= 0 && dot * dot >= 0) by (nonlinear_arith)
        requires apsq >= 0, den >= 0,
    {
    }
    if dot < 0 {
        assert(num == apsq * den) by (nonlinear_arith)
            requires
                num == apsq * den - 2 * tnum * dot + tnum * tnum,
                tnum == 0,
        {
        }
    } else if dot > den {
        // num == den * (squared distance from p to the far endpoint b).
        let ex = apx - abx;
        let ey = apy - aby;
        let esq = ex * ex + ey * ey;
        assert(esq == apsq - 2 * dot + den) by (nonlinear_arith)
            requires
                esq == (apx - abx) * (apx - abx) + (apy - aby) * (apy - aby),
                den == abx * abx + aby * aby,
                apsq == apx * apx + apy * apy,
                dot == apx * abx + apy * aby,
        {
        }
        assert(num == den * esq) by (nonlinear_arith)
            requires
                num == apsq * den - 2 * tnum * dot + tnum * tnum,
                tnum == den,
                esq == apsq - 2 * dot + den,
        {
        }
        assert(esq >= 0) by (nonlinear_arith)
            requires esq == ex * ex + ey * ey,
        {
        }
        assert(num >= 0 && num <= apsq * den) by (nonlinear_arith)
            requires
                num == den * esq,
                den >= 0,
                esq >= 0,
                num == apsq * den - 2 * tnum * dot + tnum * tnum,
                tnum == den,
                dot > den,
        {
        }
    } else {
        assert(num == apsq * den - dot * dot) by (nonlinear_arith)
            requires
                num == apsq * den - 2 * tnum * dot + tnum * tnum,
                tnum == dot,
        {
        }
    }
}

/// The point-to-segment distance is non-negative and no larger than the
/// distance to the segment's first endpoint.
pub proof fn lemma_point_seg_dist_sq_range(px: int, py: int, ax: int, ay: int, bx: int, by: int)
    ensures
        0 <= point_seg_dist_sq(px, py, ax, ay, bx, by),
        point_seg_dist_sq(px, py, ax, ay, bx, by) <= dist_sq(px, py, ax, ay),
{
    let den = psd_den(ax, ay, bx, by);
    let apsq = dist_sq(px, py, ax, ay);
    let num = psd_num(px, py, ax, ay, bx, by);
    lemma_psd_num_range(px, py, ax, ay, bx, by);
    assert(apsq >= 0) by (nonlinear_arith)
        requires apsq == dist_sq(px, py, ax, ay),
    {
    }
    if den != 0 {
        vstd::arithmetic::div_mod::lemma_div_is_ordered(num, apsq * den, den);
        vstd::arithmetic::div_mod::lemma_div_multiples_vanish(apsq, den);
        assert(den * apsq == apsq * den) by (nonlinear_arith);
        vstd::arithmetic::div_mod::lemma_div_is_ordered(0, num, den);
        vstd::arithmetic::div_mod::lemma_div_of0(den);
    }
}

/// Exact floor of the squared point-to-segment distance, for translated
/// coordinates.
pub fn point_seg_dist(p: Point, a: Point, b: Point) -> (q: i64)
    requires
        point_within(p, TRANS_LIMIT as int),
        point_within(a, TRANS_LIMIT as int),
        point_within(b, TRANS_LIMIT as int),
    ensures
        q == point_seg_dist_sq(p.x as int, p.y as int, a.x as int, a.y as int, b.x as int,
            b.y as int),
        0 <= q <= dist_sq(p.x as int, p.y as int, a.x as int, a.y as int),
{
    let ghost gpx: int = p.x as int;
    let ghost gpy: int = p.y as int;
    let ghost gax: int = a.x as int;
    let ghost gay: int = a.y as int;
    let ghost gbx: int = b.x as int;
    let ghost gby: int = b.y as int;
    let abx: i128 = (b.x as i128) - (a.x as i128);
    let aby: i128 = (b.y as i128) - (a.y as i128);
    let apx: i128 = (p.x as i128) - (a.x as i128);
    let apy: i128 = (p.y as i128) - (a.y as i128);
    proof {
        let m: int = 2 * (TRANS_LIMIT as int);
        lemma_mul_bound(abx as int, abx as int, m);
        lemma_mul_bound(aby as int, aby as int, m);
        lemma_mul_bound(apx as int, apx as int, m);
        lemma_mul_bound(apy as int, apy as int, m);
        lemma_mul_bound(apx as int, abx as int, m);
        lemma_mul_bound(apy as int, aby as int, m);
        lemma_psd_num_range(gpx, gpy, gax, gay, gbx, gby);
        lemma_point_seg_dist_sq_range(gpx, gpy, gax, gay, gbx, gby);
        assert((abx as int) * (abx as int) >= 0) by (nonlinear_arith);
        assert((aby as int) * (aby as int) >= 0) by (nonlinear_arith);
        assert((apx as int) * (apx as int) >= 0) by (nonlinear_arith);
        assert((apy as int) * (apy as int) >= 0) by (nonlinear_arith);
    }
    let den: i128 = abx * abx + aby * aby;
    let apsq: i128 = apx * apx + apy * apy;
    proof {
        assert(den as int == psd_den(gax, gay, gbx, gby));
        assert(apsq as int == dist_sq(gpx, gpy, gax, gay));
    }
    if den == 0 {
        apsq as i64
    } else {
        let dot: i128 = apx * abx + apy * aby;
        let tnum: i128 = if dot < 0 {
            0
        } else if dot > den {
            den
        } else {
            dot
        };
        proof {
            let m2: int = 2 * (2 * (TRANS_LIMIT as int)) * (2 * (TRANS_LIMIT as int));
            assert(0 <= den as int <= m2 && 0 <= apsq as int <= m2 && -m2 <= dot as int <= m2);
            lemma_mul_bound(apsq as int, den as int, m2);
            lemma_mul_bound(tnum as int, dot as int, m2);
            lemma_mul_bound(tnum as int, tnum as int, m2);
        }
        let num: i128 = apsq * den - 2 * tnum * dot + tnum * tnum;
        proof {
            assert(dot as int == psd_dot(gpx, gpy, gax, gay, gbx, gby));
            assert(tnum as int == psd_tnum(gpx, gpy, gax, gay, gbx, gby));
            assert(num as int == psd_num(gpx, gpy, gax, gay, gbx, gby));
            assert(num >= 0);
        }
        let q: u128 = (num as u128) / (den as u128);
        proof {
            assert(q as int == psd_num(gpx, gpy, gax, gay, gbx, gby) / psd_den(gax, gay, gbx,
                gby));
        }
        q as i64
    }
}

} // verus!
