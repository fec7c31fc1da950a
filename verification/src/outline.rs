//! Outline data model: line and cubic Bezier segments, and the fixed
//! eleven-point sampling (parameters 0, 1/10, ..., 1) used by the coarse
//! matcher and the curve-distance approximations.  Sample coordinates are the
//! floor of the exact rational Bezier value.

use vstd::prelude::*;
use crate::geometry::{Point, point_within, COORD_LIMIT, TRANS_LIMIT};

verus! {

/// A straight segment from `p0` to `p1`.
#[derive(Clone, Copy, Debug, PartialEq, Eq, Structural)]
pub struct LineSeg {
    pub p0: Point,
    pub p1: Point,
}

/// A cubic Bezier segment: endpoints `p0`, `p3` and control points `p1`, `p2`.
#[derive(Clone, Copy, Debug, PartialEq, Eq, Structural)]
pub struct CubicSeg {
    pub p0: Point,
    pub p1: Point,
    pub p2: Point,
    pub p3: Point,
}

/// One piece of an outline.
#[derive(Clone, Copy, Debug, PartialEq, Eq, Structural)]
pub enum Segment {
    Line(LineSeg),
    Cubic(CubicSeg),
}

/// One closed contour of a glyph: an ordered list of segments.
#[derive(Clone, Debug)]
pub struct Outline {
    pub segments: Vec<Segment>,
}

/// All control points of the segment lie within `b` in magnitude.
pub open spec fn seg_within(s: Segment, b: int) -> bool {
    match s {
        Segment::Line(l) => point_within(l.p0, b) && point_within(l.p1, b),
        Segment::Cubic(c) => point_within(c.p0, b) && point_within(c.p1, b) && point_within(
            c.p2,
            b,
        ) && point_within(c.p3, b),
    }
}

/// All segments of the outline stay within `b`.
pub open spec fn outline_within(o: Outline, b: int) -> bool {
    forall|i: int| 0 <= i < o.segments@.len() ==> seg_within(#[trigger] o.segments@[i], b)
}

/// All outlines of the set stay within `b`.
pub open spec fn outlines_within(os: Seq<Outline>, b: int) -> bool {
    forall|i: int| 0 <= i < os.len() ==> outline_within(#[trigger] os[i], b)
}

/// Numerator of the x coordinate of the sample at parameter `j / 10`,
/// over the common denominator 1000.
pub open spec fn eval_num_x(s: Segment, j: int) -> int {
    match s {
        Segment::Line(l) => (10 - j) * 100 * l.p0.x + j * 100 * l.p1.x,
        Segment::Cubic(c) => (10 - j) * (10 - j) * (10 - j) * c.p0.x + 3 * (10 - j) * (10 - j)
            * j * c.p1.x + 3 * (10 - j) * j * j * c.p2.x + j * j * j * c.p3.x,
    }
}

/// Numerator of the y coordinate of the sample at parameter `j / 10`.
pub open spec fn eval_num_y(s: Segment, j: int) -> int {
    match s {
        Segment::Line(l) => (10 - j) * 100 * l.p0.y + j * 100 * l.p1.y,
        Segment::Cubic(c) => (10 - j) * (10 - j) * (10 - j) * c.p0.y + 3 * (10 - j) * (10 - j)
            * j * c.p1.y + 3 * (10 - j) * j * j * c.p2.y + j * j * j * c.p3.y,
    }
}

/// The x coordinate of sample `j` of segment `s`: the floor of the exact
/// Bezier value at parameter `j / 10`.
pub open spec fn eval_x(s: Segment, j: int) -> int {
    eval_num_x(s, j) / 1000
}

/// The y coordinate of sample `j` of segment `s`.
pub open spec fn eval_y(s: Segment, j: int) -> int {
    eval_num_y(s, j) / 1000
}

/// A weighted sum with non-negative weights summing to 1000 stays within
/// 1000 times the bound on its inputs.
proof fn lemma_weighted_sum_bound(
    w0: int, w1: int, w2: int, w3: int, x0: int, x1: int, x2: int, x3: int, b: int,
)
    requires
        0 <= w0, 0 <= w1, 0 <= w2, 0 <= w3,
        w0 + w1 + w2 + w3 == 1000,
        -b <= x0 <= b, -b <= x1 <= b, -b <= x2 <= b, -b <= x3 <= b,
        0 <= b,
    ensures
        -1000 * b <= w0 * x0 + w1 * x1 + w2 * x2 + w3 * x3 <= 1000 * b,
{
    assert(-(w0 * b) <= w0 * x0 <= w0 * b) by (nonlinear_arith)
        requires 0 <= w0, -b <= x0 <= b,
    {
    }
    assert(-(w1 * b) <= w1 * x1 <= w1 * b) by (nonlinear_arith)
        requires 0 <= w1, -b <= x1 <= b,
    {
    }
    assert(-(w2 * b) <= w2 * x2 <= w2 * b) by (nonlinear_arith)
        requires 0 <= w2, -b <= x2 <= b,
    {
    }
    assert(-(w3 * b) <= w3 * x3 <= w3 * b) by (nonlinear_arith)
        requires 0 <= w3, -b <= x3 <= b,
    {
    }
    assert(w0 * b + w1 * b + w2 * b + w3 * b == 1000 * b) by (nonlinear_arith)
        requires w0 + w1 + w2 + w3 == 1000,
    {
    }
}

/// The sample numerators stay within 1000 times the control-point bound.
pub proof fn lemma_eval_num_bound(s: Segment, j: int, b: int)
    requires
        seg_within(s, b),
        0 <= j <= 10,
        0 <= b,
    ensures
        -1000 * b <= eval_num_x(s, j) <= 1000 * b,
        -1000 * b <= eval_num_y(s, j) <= 1000 * b,
{
    let u = 10 - j;
    match s {
        Segment::Line(l) => {
            assert(u * 100 >= 0 && j * 100 >= 0 && u * 100 + j * 100 == 1000);
            lemma_weighted_sum_bound(u * 100, j * 100, 0, 0, l.p0.x as int, l.p1.x as int, 0, 0, b);
            lemma_weighted_sum_bound(u * 100, j * 100, 0, 0, l.p0.y as int, l.p1.y as int, 0, 0, b);
        },
        Segment::Cubic(c) => {
            let w0 = u * u * u;
            let w1 = 3 * u * u * j;
            let w2 = 3 * u * j * j;
            let w3 = j * j * j;
            assert(0 <= w0 && 0 <= w1 && 0 <= w2 && 0 <= w3 && w0 + w1 + w2 + w3 == 1000)
                by (nonlinear_arith)
                requires
                    w0 == u * u * u,
                    w1 == 3 * u * u * j,
                    w2 == 3 * u * j * j,
                    w3 == j * j * j,
                    u == 10 - j,
                    0 <= j <= 10,
            {
            }
            lemma_weighted_sum_bound(w0, w1, w2, w3, c.p0.x as int, c.p1.x as int, c.p2.x as int, c.p3.x as int, b);
            lemma_weighted_sum_bound(w0, w1, w2, w3, c.p0.y as int, c.p1.y as int, c.p2.y as int, c.p3.y as int, b);
        },
    }
}

/// Samples of a segment stay within the bound on its control points.
pub proof fn lemma_eval_within(s: Segment, j: int, b: int)
    requires
        seg_within(s, b),
        0 <= j <= 10,
        0 <= b,
    ensures
        -b <= eval_x(s, j) <= b,
        -b <= eval_y(s, j) <= b,
{
    lemma_eval_num_bound(s, j, b);
    lemma_floor_thousand_range(eval_num_x(s, j), b);
    lemma_floor_thousand_range(eval_num_y(s, j), b);
}

/// Dividing a value within `1000 * b` by 1000 keeps it within `b`.
proof fn lemma_floor_thousand_range(n: int, b: int)
    requires
        -1000 * b <= n <= 1000 * b,
        0 <= b,
    ensures
        -b <= n / 1000 <= b,
{
    vstd::arithmetic::div_mod::lemma_div_is_ordered(-1000 * b, n, 1000);
    vstd::arithmetic::div_mod::lemma_div_is_ordered(n, 1000 * b, 1000);
    vstd::arithmetic::div_mod::lemma_div_multiples_vanish(-b, 1000);
    vstd::arithmetic::div_mod::lemma_div_multiples_vanish(b, 1000);
    assert(1000 * -b == -1000 * b && 1000 * b == 1000 * b) by (nonlinear_arith);
}

/// Evaluate sample `j` of segment `s` exactly (floor of the rational Bezier
/// point at parameter `j / 10`).
pub fn eval_sample(s: &Segment, j: usize) -> (p: Point)
    requires
        seg_within(*s, TRANS_LIMIT as int),
        j <= 10,
    ensures
        p.x == eval_x(*s, j as int),
        p.y == eval_y(*s, j as int),
        point_within(p, TRANS_LIMIT as int),
{
    let ji: i64 = j as i64;
    let u: i64 = 10 - ji;
    proof {
        lemma_eval_num_bound(*s, j as int, TRANS_LIMIT as int);
        lemma_eval_within(*s, j as int, TRANS_LIMIT as int);
    }
    let (nx, ny): (i64, i64) = match s {
        Segment::Line(l) => {
            proof {
                let t: int = TRANS_LIMIT as int;
                crate::geometry::lemma_mul_bound2((u as int) * 100, l.p0.x as int, 1000, t);
                crate::geometry::lemma_mul_bound2((ji as int) * 100, l.p1.x as int, 1000, t);
                crate::geometry::lemma_mul_bound2((u as int) * 100, l.p0.y as int, 1000, t);
                crate::geometry::lemma_mul_bound2((ji as int) * 100, l.p1.y as int, 1000, t);
            }
            (u * 100 * l.p0.x + ji * 100 * l.p1.x, u * 100 * l.p0.y + ji * 100 * l.p1.y)
        },
        Segment::Cubic(c) => {
            proof {
                assert(0 <= (u as int) * (u as int) * (u as int) <= 1000) by (nonlinear_arith)
                    requires 0 <= (u as int) <= 10,
                {
                }
                assert(0 <= 3 * (u as int) * (u as int) * (ji as int) <= 1000)
                    by (nonlinear_arith)
                    requires 0 <= (u as int) <= 10, 0 <= (ji as int) <= 10, (u as int) + (ji as int) == 10,
                {
                }
                assert(0 <= 3 * (u as int) * (ji as int) * (ji as int) <= 1000)
                    by (nonlinear_arith)
                    requires 0 <= (u as int) <= 10, 0 <= (ji as int) <= 10, (u as int) + (ji as int) == 10,
                {
                }
                assert(0 <= (ji as int) * (ji as int) * (ji as int) <= 1000) by (nonlinear_arith)
                    requires 0 <= (ji as int) <= 10,
                {
                }
                assert(0 <= (u as int) * (u as int) <= 100) by (nonlinear_arith)
                    requires 0 <= (u as int) <= 10,
                {
                }
                assert(0 <= 3 * (u as int) * (u as int) <= 300) by (nonlinear_arith)
                    requires 0 <= (u as int) <= 10,
                {
                }
                assert(0 <= 3 * (u as int) * (ji as int) <= 300) by (nonlinear_arith)
                    requires 0 <= (u as int) <= 10, 0 <= (ji as int) <= 10,
                {
                }
                assert(0 <= (ji as int) * (ji as int) <= 100) by (nonlinear_arith)
                    requires 0 <= (ji as int) <= 10,
                {
                }
            }
            let w0: i64 = u * u * u;
            let w1: i64 = 3 * u * u * ji;
            let w2: i64 = 3 * u * ji * ji;
            let w3: i64 = ji * ji * ji;
            proof {
                let t: int = TRANS_LIMIT as int;
                crate::geometry::lemma_mul_bound2(w0 as int, c.p0.x as int, 1000, t);
                crate::geometry::lemma_mul_bound2(w1 as int, c.p1.x as int, 1000, t);
                crate::geometry::lemma_mul_bound2(w2 as int, c.p2.x as int, 1000, t);
                crate::geometry::lemma_mul_bound2(w3 as int, c.p3.x as int, 1000, t);
                crate::geometry::lemma_mul_bound2(w0 as int, c.p0.y as int, 1000, t);
                crate::geometry::lemma_mul_bound2(w1 as int, c.p1.y as int, 1000, t);
                crate::geometry::lemma_mul_bound2(w2 as int, c.p2.y as int, 1000, t);
                crate::geometry::lemma_mul_bound2(w3 as int, c.p3.y as int, 1000, t);
            }
            (
                w0 * c.p0.x + w1 * c.p1.x + w2 * c.p2.x + w3 * c.p3.x,
                w0 * c.p0.y + w1 * c.p1.y + w2 * c.p2.y + w3 * c.p3.y,
            )
        },
    };
    let sx: i64 = nx + 1000 * TRANS_LIMIT;
    let sy: i64 = ny + 1000 * TRANS_LIMIT;
    let qx: i64 = ((sx as u64) / 1000) as i64 - TRANS_LIMIT;
    let qy: i64 = ((sy as u64) / 1000) as i64 - TRANS_LIMIT;
    proof {
        vstd::arithmetic::div_mod::lemma_hoist_over_denominator(nx as int, TRANS_LIMIT as int,
            1000);
        vstd::arithmetic::div_mod::lemma_hoist_over_denominator(ny as int, TRANS_LIMIT as int,
            1000);
    }
    Point { x: qx, y: qy }
}

} // verus!
