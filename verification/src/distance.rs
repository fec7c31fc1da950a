//! Segment-pair and outline-pair distance: the exact line-line primitive,
//! the sampled line-curve and curve-curve approximations, the coarse
//! segment-pair matcher, and the minimum distance over two outline sets.
//!
//! Each side carries its own rigid translation `(ox, oy)`, applied to the
//! segment's points before measuring.  All results are the integer floor of
//! the corresponding exact distance.

use vstd::prelude::*;
use vstd::math::abs;
use crate::geometry::{
    Point, point_within, dist_sq, point_seg_dist_sq, point_seg_dist, isqrt_spec, isqrt,
    lemma_isqrt_le, lemma_point_seg_dist_sq_range, dist_sq_points, COORD_LIMIT, TRANS_LIMIT,
};
use crate::outline::{
    LineSeg, CubicSeg, Segment, Outline, seg_within, outline_within, eval_x, eval_y,
    eval_sample, lemma_eval_within,
};
use crate::minima::{first_min_idx, min_val, lemma_first_min_unique};

verus! {

/// Largest allowed horizontal translation of a side.
pub const OFF_X_LIMIT: i64 = 700_000_000;

/// Largest allowed vertical translation of a side.
pub const OFF_Y_LIMIT: i64 = 200_000;

/// Whether a translation pair is within the limits the distance routines
/// accept.
pub open spec fn off_ok(ox: int, oy: int) -> bool {
    -OFF_X_LIMIT <= ox <= OFF_X_LIMIT && -OFF_Y_LIMIT <= oy <= OFF_Y_LIMIT
}

/// The bound every distance result respects: the translations' relative
/// magnitude plus four coordinate bounds of slack.
pub open spec fn dist_cap(o1x: int, o1y: int, o2x: int, o2y: int) -> int {
    abs(o1x - o2x) + abs(o1y - o2y) + 4 * COORD_LIMIT
}

/// Squared distance between sample `j1` of `s1` translated by `(o1x, o1y)`
/// and sample `j2` of `s2` translated by `(o2x, o2y)`.
pub open spec fn spair_dsq(
    s1: Segment, j1: int, s2: Segment, j2: int, o1x: int, o1y: int, o2x: int, o2y: int,
) -> int {
    dist_sq(
        eval_x(s1, j1) + o1x,
        eval_y(s1, j1) + o1y,
        eval_x(s2, j2) + o2x,
        eval_y(s2, j2) + o2y,
    )
}

/// A squared distance between points drawn from two translated coordinate
/// boxes is at most the square of `dist_cap`.
proof fn lemma_box_dist_cap(
    ux: int, uy: int, vx: int, vy: int, o1x: int, o1y: int, o2x: int, o2y: int,
)
    requires
        -COORD_LIMIT <= ux <= COORD_LIMIT,
        -COORD_LIMIT <= uy <= COORD_LIMIT,
        -COORD_LIMIT <= vx <= COORD_LIMIT,
        -COORD_LIMIT <= vy <= COORD_LIMIT,
    ensures
        dist_sq(ux + o1x, uy + o1y, vx + o2x, vy + o2y) <= dist_cap(o1x, o1y, o2x, o2y)
            * dist_cap(o1x, o1y, o2x, o2y),
        0 <= dist_cap(o1x, o1y, o2x, o2y),
{
    let dx = (ux + o1x) - (vx + o2x);
    let dy = (uy + o1y) - (vy + o2y);
    let a = abs(o1x - o2x) + 2 * COORD_LIMIT;
    let b = abs(o1y - o2y) + 2 * COORD_LIMIT;
    assert(-a <= dx <= a && -b <= dy <= b);
    assert(dx * dx + dy * dy <= (a + b) * (a + b)) by (nonlinear_arith)
        requires -a <= dx <= a, -b <= dy <= b, 0 <= a, 0 <= b,
    {
    }
}

/// Exact squared sample-pair distance, for bounded segments and translations.
pub fn sample_dsq(
    s1: &Segment, j1: usize, s2: &Segment, j2: usize, o1x: i64, o1y: i64, o2x: i64, o2y: i64,
) -> (d: i64)
    requires
        seg_within(*s1, COORD_LIMIT as int),
        seg_within(*s2, COORD_LIMIT as int),
        off_ok(o1x as int, o1y as int),
        off_ok(o2x as int, o2y as int),
        j1 <= 10,
        j2 <= 10,
    ensures
        d == spair_dsq(*s1, j1 as int, *s2, j2 as int, o1x as int, o1y as int, o2x as int,
            o2y as int),
        0 <= d,
        d <= dist_cap(o1x as int, o1y as int, o2x as int, o2y as int) * dist_cap(o1x as int,
            o1y as int, o2x as int, o2y as int),
{
    let p1 = eval_sample(s1, j1);
    let p2 = eval_sample(s2, j2);
    proof {
        lemma_eval_within(*s1, j1 as int, COORD_LIMIT as int);
        lemma_eval_within(*s2, j2 as int, COORD_LIMIT as int);
        lemma_box_dist_cap(eval_x(*s1, j1 as int), eval_y(*s1, j1 as int),
            eval_x(*s2, j2 as int), eval_y(*s2, j2 as int), o1x as int, o1y as int, o2x as int,
            o2y as int);
    }
    let q1 = Point { x: p1.x + o1x, y: p1.y + o1y };
    let q2 = Point { x: p2.x + o2x, y: p2.y + o2y };
    dist_sq_points(q1, q2)
}

/// The floored squared distance from the point `p`, translated by
/// `(pox, poy)`, to the segment `a - b` translated by `(sox, soy)`.
pub open spec fn shifted_psd(
    p: Point, pox: int, poy: int, a: Point, b: Point, sox: int, soy: int,
) -> int {
    point_seg_dist_sq(p.x + pox, p.y + poy, a.x + sox, a.y + soy, b.x + sox, b.y + soy)
}

/// The line-line distance: floor of the square root of the least of the four
/// endpoint-to-opposite-segment squared distances.
pub open spec fn line_line_spec(
    l1: LineSeg, l2: LineSeg, o1x: int, o1y: int, o2x: int, o2y: int,
) -> int {
    let q1 = shifted_psd(l2.p0, o2x, o2y, l1.p0, l1.p1, o1x, o1y);
    let q2 = shifted_psd(l2.p1, o2x, o2y, l1.p0, l1.p1, o1x, o1y);
    let q3 = shifted_psd(l1.p0, o1x, o1y, l2.p0, l2.p1, o2x, o2y);
    let q4 = shifted_psd(l1.p1, o1x, o1y, l2.p0, l2.p1, o2x, o2y);
    let m12 = if q1 <= q2 { q1 } else { q2 };
    let m34 = if q3 <= q4 { q3 } else { q4 };
    isqrt_spec(if m12 <= m34 { m12 } else { m34 })
}

/// Shift a point by a translation, staying within the translated bound.
fn shift_point(p: Point, ox: i64, oy: i64) -> (q: Point)
    requires
        point_within(p, COORD_LIMIT as int),
        off_ok(ox as int, oy as int),
    ensures
        q.x == p.x + ox,
        q.y == p.y + oy,
        point_within(q, TRANS_LIMIT as int),
{
    Point { x: p.x + ox, y: p.y + oy }
}

/// Exact line-line minimum distance (floored), per the four-candidate
/// closed-form rule.
pub fn line_line_dist(
    l1: &LineSeg, l2: &LineSeg, o1x: i64, o1y: i64, o2x: i64, o2y: i64,
) -> (r: i64)
    requires
        seg_within(Segment::Line(*l1), COORD_LIMIT as int),
        seg_within(Segment::Line(*l2), COORD_LIMIT as int),
        off_ok(o1x as int, o1y as int),
        off_ok(o2x as int, o2y as int),
    ensures
        r == line_line_spec(*l1, *l2, o1x as int, o1y as int, o2x as int, o2y as int),
        0 <= r <= dist_cap(o1x as int, o1y as int, o2x as int, o2y as int),
{
    let a0 = shift_point(l1.p0, o1x, o1y);
    let a1 = shift_point(l1.p1, o1x, o1y);
    let b0 = shift_point(l2.p0, o2x, o2y);
    let b1 = shift_point(l2.p1, o2x, o2y);
    let q1 = point_seg_dist(b0, a0, a1);
    let q2 = point_seg_dist(b1, a0, a1);
    let q3 = point_seg_dist(a0, b0, b1);
    let q4 = point_seg_dist(a1, b0, b1);
    let m12 = if q1 <= q2 { q1 } else { q2 };
    let m34 = if q3 <= q4 { q3 } else { q4 };
    let m = if m12 <= m34 { m12 } else { m34 };
    proof {
        lemma_point_seg_dist_sq_range(b0.x as int, b0.y as int, a0.x as int, a0.y as int,
            a1.x as int, a1.y as int);
        lemma_box_dist_cap(l2.p0.x as int, l2.p0.y as int, l1.p0.x as int, l1.p0.y as int,
            o2x as int, o2y as int, o1x as int, o1y as int);
        let cap = dist_cap(o2x as int, o2y as int, o1x as int, o1y as int);
        assert(cap == dist_cap(o1x as int, o1y as int, o2x as int, o2y as int));
        lemma_isqrt_le(m as int, cap);
    }
    let r = isqrt(m as u64);
    r as i64
}

/// The flattened sample grid used by the line-curve approximation: ten line
/// samples against the cubic's eleven samples.
pub open spec fn lc_flat(
    l: LineSeg, lox: int, loy: int, c: CubicSeg, cox: int, coy: int,
) -> spec_fn(int) -> int {
    |t: int|
        spair_dsq(Segment::Line(l), t / 11, Segment::Cubic(c), t % 11, lox, loy, cox, coy)
}

/// The line-curve distance: floor of the square root of the least squared
/// distance between a line sample (parameters 0, 1/10, ..., 9/10) and a
/// cubic sample.
pub open spec fn line_curve_spec(
    l: LineSeg, lox: int, loy: int, c: CubicSeg, cox: int, coy: int,
) -> int {
    isqrt_spec(min_val(lc_flat(l, lox, loy, c, cox, coy), 110))
}

/// Sampled line-curve minimum distance (floored).
pub fn line_curve_dist(
    l: &LineSeg, lox: i64, loy: i64, c: &CubicSeg, cox: i64, coy: i64,
) -> (r: i64)
    requires
        seg_within(Segment::Line(*l), COORD_LIMIT as int),
        seg_within(Segment::Cubic(*c), COORD_LIMIT as int),
        off_ok(lox as int, loy as int),
        off_ok(cox as int, coy as int),
    ensures
        r == line_curve_spec(*l, lox as int, loy as int, *c, cox as int, coy as int),
        0 <= r <= dist_cap(lox as int, loy as int, cox as int, coy as int),
{
    let ghost f = lc_flat(*l, lox as int, loy as int, *c, cox as int, coy as int);
    let mut best: i64 = sample_dsq(&Segment::Line(*l), 0, &Segment::Cubic(*c), 0, lox, loy,
        cox, coy);
    let ghost bt: int = 0;
    let mut t: usize = 1;
    proof {
        assert(f(0) == best as int);
    }
    while t < 110
        invariant
            1 <= t <= 110,
            0 <= bt < t,
            best as int == f(bt),
            seg_within(Segment::Line(*l), COORD_LIMIT as int),
            seg_within(Segment::Cubic(*c), COORD_LIMIT as int),
            off_ok(lox as int, loy as int),
            off_ok(cox as int, coy as int),
            f == lc_flat(*l, lox as int, loy as int, *c, cox as int, coy as int),
            forall|u: int| 0 <= u < t ==> f(bt) <= #[trigger] f(u),
            forall|u: int| 0 <= u < bt ==> #[trigger] f(u) > f(bt),
            0 <= best,
            best as int <= dist_cap(lox as int, loy as int, cox as int, coy as int) * dist_cap(
                lox as int, loy as int, cox as int, coy as int),
        decreases 110 - t,
    {
        let d = sample_dsq(&Segment::Line(*l), t / 11, &Segment::Cubic(*c), t % 11, lox, loy,
            cox, coy);
        proof {
            assert(f(t as int) == d as int);
        }
        if d < best {
            best = d;
            proof {
                bt = t as int;
            }
        }
        t = t + 1;
    }
    proof {
        lemma_first_min_unique(f, 110, bt);
        lemma_isqrt_le(best as int, dist_cap(lox as int, loy as int, cox as int, coy as int));
    }
    let r = isqrt(best as u64);
    r as i64
}

/// The cubic-side sample chosen by the first refinement half-step, seeded at
/// the midpoint sample of each curve.
pub open spec fn cc_j(s1: Segment, s2: Segment, o1x: int, o1y: int, o2x: int, o2y: int) -> int {
    first_min_idx(|j: int| spair_dsq(s1, 5, s2, j, o1x, o1y, o2x, o2y), 0, 11)
}

/// The first-curve sample chosen by the second refinement half-step.
pub open spec fn cc_i(s1: Segment, s2: Segment, o1x: int, o1y: int, o2x: int, o2y: int) -> int {
    let j = cc_j(s1, s2, o1x, o1y, o2x, o2y);
    first_min_idx(|i: int| spair_dsq(s1, i, s2, j, o1x, o1y, o2x, o2y), 0, 11)
}

/// The curve-curve distance: floor of the square root of the squared
/// distance at the refined sample pair.
pub open spec fn curve_curve_spec(
    s1: Segment, s2: Segment, o1x: int, o1y: int, o2x: int, o2y: int,
) -> int {
    isqrt_spec(
        spair_dsq(s1, cc_i(s1, s2, o1x, o1y, o2x, o2y), s2, cc_j(s1, s2, o1x, o1y, o2x, o2y),
            o1x, o1y, o2x, o2y),
    )
}

/// Curve-curve minimum distance by alternating nearest-sample refinement,
/// seeded at both curves' midpoint samples.
pub fn curve_curve_dist(
    s1: &Segment, s2: &Segment, o1x: i64, o1y: i64, o2x: i64, o2y: i64,
) -> (r: i64)
    requires
        seg_within(*s1, COORD_LIMIT as int),
        seg_within(*s2, COORD_LIMIT as int),
        off_ok(o1x as int, o1y as int),
        off_ok(o2x as int, o2y as int),
    ensures
        r == curve_curve_spec(*s1, *s2, o1x as int, o1y as int, o2x as int, o2y as int),
        0 <= r <= dist_cap(o1x as int, o1y as int, o2x as int, o2y as int),
{
    let ghost fj = |j: int| spair_dsq(*s1, 5, *s2, j, o1x as int, o1y as int, o2x as int,
        o2y as int);
    let mut bestj: usize = 0;
    let mut bestjd: i64 = sample_dsq(s1, 5, s2, 0, o1x, o1y, o2x, o2y);
    let mut j: usize = 1;
    while j < 11
        invariant
            1 <= j <= 11,
            0 <= bestj < j,
            bestjd as int == fj(bestj as int),
            seg_within(*s1, COORD_LIMIT as int),
            seg_within(*s2, COORD_LIMIT as int),
            off_ok(o1x as int, o1y as int),
            off_ok(o2x as int, o2y as int),
            fj == (|jj: int| spair_dsq(*s1, 5, *s2, jj, o1x as int, o1y as int, o2x as int,
                o2y as int)),
            forall|u: int| 0 <= u < j ==> fj(bestj as int) <= #[trigger] fj(u),
            forall|u: int| 0 <= u < bestj ==> #[trigger] fj(u) > fj(bestj as int),
            0 <= bestjd,
        decreases 11 - j,
    {
        let d = sample_dsq(s1, 5, s2, j, o1x, o1y, o2x, o2y);
        proof {
            assert(fj(j as int) == d as int);
        }
        if d < bestjd {
            bestjd = d;
            bestj = j;
        }
        j = j + 1;
    }
    proof {
        lemma_first_min_unique(fj, 11, bestj as int);
        assert(bestj as int == cc_j(*s1, *s2, o1x as int, o1y as int, o2x as int, o2y as int));
    }
    let ghost fi = |i: int| spair_dsq(*s1, i, *s2, bestj as int, o1x as int, o1y as int,
        o2x as int, o2y as int);
    let mut besti: usize = 0;
    let mut bestid: i64 = sample_dsq(s1, 0, s2, bestj, o1x, o1y, o2x, o2y);
    let mut i: usize = 1;
    while i < 11
        invariant
            1 <= i <= 11,
            0 <= besti < i,
            bestj <= 10,
            bestid as int == fi(besti as int),
            seg_within(*s1, COORD_LIMIT as int),
            seg_within(*s2, COORD_LIMIT as int),
            off_ok(o1x as int, o1y as int),
            off_ok(o2x as int, o2y as int),
            fi == (|ii: int| spair_dsq(*s1, ii, *s2, bestj as int, o1x as int, o1y as int,
                o2x as int, o2y as int)),
            forall|u: int| 0 <= u < i ==> fi(besti as int) <= #[trigger] fi(u),
            forall|u: int| 0 <= u < besti ==> #[trigger] fi(u) > fi(besti as int),
            0 <= bestid,
            bestid as int <= dist_cap(o1x as int, o1y as int, o2x as int, o2y as int)
                * dist_cap(o1x as int, o1y as int, o2x as int, o2y as int),
        decreases 11 - i,
    {
        let d = sample_dsq(s1, i, s2, bestj, o1x, o1y, o2x, o2y);
        proof {
            assert(fi(i as int) == d as int);
        }
        if d < bestid {
            bestid = d;
            besti = i;
        }
        i = i + 1;
    }
    proof {
        lemma_first_min_unique(fi, 11, besti as int);
        assert(besti as int == cc_i(*s1, *s2, o1x as int, o1y as int, o2x as int, o2y as int));
        lemma_isqrt_le(bestid as int, dist_cap(o1x as int, o1y as int, o2x as int, o2y as int));
    }
    let r = isqrt(bestid as u64);
    r as i64
}

/// The exact (floored) distance for a matched segment pair, dispatched by
/// the two segments' kinds.  All four kind combinations are covered.
pub open spec fn seg_pair_dist(
    s1: Segment, s2: Segment, o1x: int, o1y: int, o2x: int, o2y: int,
) -> int {
    match (s1, s2) {
        (Segment::Line(a), Segment::Line(b)) => line_line_spec(a, b, o1x, o1y, o2x, o2y),
        (Segment::Line(a), Segment::Cubic(b)) => line_curve_spec(a, o1x, o1y, b, o2x, o2y),
        (Segment::Cubic(a), Segment::Line(b)) => line_curve_spec(b, o2x, o2y, a, o1x, o1y),
        (Segment::Cubic(_), Segment::Cubic(_)) => curve_curve_spec(s1, s2, o1x, o1y, o2x, o2y),
    }
}

/// Exact (floored) distance for a matched segment pair.
pub fn seg_pair_distance(
    s1: &Segment, s2: &Segment, o1x: i64, o1y: i64, o2x: i64, o2y: i64,
) -> (r: i64)
    requires
        seg_within(*s1, COORD_LIMIT as int),
        seg_within(*s2, COORD_LIMIT as int),
        off_ok(o1x as int, o1y as int),
        off_ok(o2x as int, o2y as int),
    ensures
        r == seg_pair_dist(*s1, *s2, o1x as int, o1y as int, o2x as int, o2y as int),
        0 <= r <= dist_cap(o1x as int, o1y as int, o2x as int, o2y as int),
{
    match (s1, s2) {
        (Segment::Line(a), Segment::Line(b)) => line_line_dist(a, b, o1x, o1y, o2x, o2y),
        (Segment::Line(a), Segment::Cubic(b)) => line_curve_dist(a, o1x, o1y, b, o2x, o2y),
        (Segment::Cubic(a), Segment::Line(b)) => {
            let r = line_curve_dist(b, o2x, o2y, a, o1x, o1y);
            proof {
                let cap1 = dist_cap(o2x as int, o2y as int, o1x as int, o1y as int);
                assert(cap1 == dist_cap(o1x as int, o1y as int, o2x as int, o2y as int));
            }
            r
        },
        (Segment::Cubic(_), Segment::Cubic(_)) => curve_curve_dist(s1, s2, o1x, o1y, o2x, o2y),
    }
}

/// The matcher's proxy: least of the three zipped sample-pair distances at
/// parameters 0, 1/2 and 1.
pub open spec fn proxy_dsq(
    s1: Segment, s2: Segment, o1x: int, o1y: int, o2x: int, o2y: int,
) -> int {
    let d0 = spair_dsq(s1, 0, s2, 0, o1x, o1y, o2x, o2y);
    let d5 = spair_dsq(s1, 5, s2, 5, o1x, o1y, o2x, o2y);
    let d10 = spair_dsq(s1, 10, s2, 10, o1x, o1y, o2x, o2y);
    let m = if d0 <= d5 { d0 } else { d5 };
    if m <= d10 { m } else { d10 }
}

/// Exact proxy distance for a candidate segment pair.
pub fn proxy_distance(
    s1: &Segment, s2: &Segment, o1x: i64, o1y: i64, o2x: i64, o2y: i64,
) -> (d: i64)
    requires
        seg_within(*s1, COORD_LIMIT as int),
        seg_within(*s2, COORD_LIMIT as int),
        off_ok(o1x as int, o1y as int),
        off_ok(o2x as int, o2y as int),
    ensures
        d == proxy_dsq(*s1, *s2, o1x as int, o1y as int, o2x as int, o2y as int),
        0 <= d,
{
    let d0 = sample_dsq(s1, 0, s2, 0, o1x, o1y, o2x, o2y);
    let d5 = sample_dsq(s1, 5, s2, 5, o1x, o1y, o2x, o2y);
    let d10 = sample_dsq(s1, 10, s2, 10, o1x, o1y, o2x, o2y);
    let m = if d0 <= d5 { d0 } else { d5 };
    if m <= d10 { m } else { d10 }
}

/// The flattened proxy over all segment pairs of two outlines, in row-major
/// order (first outline's segment index times the second's length).
pub open spec fn match_flat(
    a: Seq<Segment>, b: Seq<Segment>, o1x: int, o1y: int, o2x: int, o2y: int,
) -> spec_fn(int) -> int {
    |t: int| proxy_dsq(a[t / b.len() as int], b[t % b.len() as int], o1x, o1y, o2x, o2y)
}

/// The minimum distance between two outlines: the matcher picks the first
/// proxy-minimal segment pair, and the kind-dispatched primitive measures it
/// exactly.  Empty outlines yield no distance.
pub open spec fn outline_pair_value(
    a: Seq<Segment>, b: Seq<Segment>, o1x: int, o1y: int, o2x: int, o2y: int,
) -> int {
    let t = first_min_idx(match_flat(a, b, o1x, o1y, o2x, o2y), 0, a.len() * b.len() as int);
    seg_pair_dist(a[t / b.len() as int], b[t % b.len() as int], o1x, o1y, o2x, o2y)
}

/// Minimum distance between two outlines, or `None` if either has no
/// segments.
pub fn min_distance_outline(
    a: &Outline, b: &Outline, o1x: i64, o1y: i64, o2x: i64, o2y: i64,
) -> (r: Option<i64>)
    requires
        outline_within(*a, COORD_LIMIT as int),
        outline_within(*b, COORD_LIMIT as int),
        a.segments@.len() <= 10000,
        b.segments@.len() <= 10000,
        off_ok(o1x as int, o1y as int),
        off_ok(o2x as int, o2y as int),
    ensures
        r is Some <==> a.segments@.len() > 0 && b.segments@.len() > 0,
        r matches Some(d) ==> d == outline_pair_value(a.segments@, b.segments@, o1x as int,
            o1y as int, o2x as int, o2y as int),
        r matches Some(d) ==> 0 <= d <= dist_cap(o1x as int, o1y as int, o2x as int, o2y as int),
{
    let n = a.segments.len();
    let m = b.segments.len();
    if n == 0 || m == 0 {
        return None;
    }
    let ghost f = match_flat(a.segments@, b.segments@, o1x as int, o1y as int, o2x as int,
        o2y as int);
    proof {
        assert((n as int) * (m as int) <= 100_000_000) by (nonlinear_arith)
            requires 0 <= (n as int) <= 10000, 0 <= (m as int) <= 10000,
        {
        }
    }
    let total = n * m;
    proof {
        assert(a.segments@.len() * b.segments@.len() == total as int) by (nonlinear_arith)
            requires
                (n as int) == a.segments@.len(),
                (m as int) == b.segments@.len(),
                (total as int) == (n as int) * (m as int),
        {
        }
        assert(f(0) == proxy_dsq(a.segments@[0], b.segments@[0], o1x as int, o1y as int,
            o2x as int, o2y as int)) by {
            vstd::arithmetic::div_mod::lemma_div_of0(m as int);
            assert(0int % (m as int) == 0) by (nonlinear_arith)
                requires (m as int) > 0,
            {
            }
        }
        assert(total as int >= 1) by (nonlinear_arith)
            requires
                (total as int) == (n as int) * (m as int),
                (n as int) >= 1,
                (m as int) >= 1,
        {
        }
    }
    let mut best: i64 = proxy_distance(&a.segments[0], &b.segments[0], o1x, o1y, o2x, o2y);
    let ghost bt: int = 0;
    let mut bi: usize = 0;
    let mut bj: usize = 0;
    let mut t: usize = 1;
    while t < total
        invariant
            1 <= t <= total,
            0 <= bt < t,
            bt == bi as int * m as int + bj as int,
            bi < n,
            bj < m,
            total as int == n as int * m as int,
            n as int == a.segments@.len(),
            m as int == b.segments@.len(),
            n > 0,
            m > 0,
            best as int == f(bt),
            outline_within(*a, COORD_LIMIT as int),
            outline_within(*b, COORD_LIMIT as int),
            off_ok(o1x as int, o1y as int),
            off_ok(o2x as int, o2y as int),
            f == match_flat(a.segments@, b.segments@, o1x as int, o1y as int, o2x as int,
                o2y as int),
            forall|u: int| 0 <= u < t ==> f(bt) <= #[trigger] f(u),
            forall|u: int| 0 <= u < bt ==> #[trigger] f(u) > f(bt),
        decreases total - t,
    {
        let i = t / m;
        let j = t % m;
        proof {
            vstd::arithmetic::div_mod::lemma_fundamental_div_mod(t as int, m as int);
            assert((i as int) * (m as int) + (j as int) == (t as int)) by (nonlinear_arith)
                requires
                    (t as int) == (m as int) * ((t as int) / (m as int)) + (t as int) % (m as int),
                    (i as int) == (t as int) / (m as int),
                    (j as int) == (t as int) % (m as int),
            {
            }
            assert(i < n) by (nonlinear_arith)
                requires
                    (t as int) < (n as int) * (m as int),
                    m as int > 0,
                    n as int > 0,
                    (i as int) * (m as int) + (j as int) == (t as int),
                    0 <= (j as int) < (m as int),
                    0 <= (i as int),
            {
            }
        }
        let d = proxy_distance(&a.segments[i], &b.segments[j], o1x, o1y, o2x, o2y);
        proof {
            assert(f(t as int) == d as int);
        }
        if d < best {
            best = d;
            bi = i;
            bj = j;
            proof {
                bt = t as int;
            }
        }
        t = t + 1;
    }
    proof {
        lemma_first_min_unique(f, total as int, bt);
        vstd::arithmetic::div_mod::lemma_div_multiples_vanish_fancy(bi as int, bj as int,
            m as int);
        assert((m as int) * (bi as int) + bj as int == bt) by (nonlinear_arith)
            requires bt == (bi as int) * (m as int) + (bj as int),
        {
        }
        vstd::arithmetic::div_mod::lemma_mod_multiples_vanish(bi as int, bj as int, m as int);
        vstd::arithmetic::div_mod::lemma_small_mod(bj as nat, m as nat);
        assert(bt / (m as int) == bi as int);
        assert(bt % (m as int) == bj as int);
    }
    let r = seg_pair_distance(&a.segments[bi], &b.segments[bj], o1x, o1y, o2x, o2y);
    Some(r)
}

/// Whether outline pair `(i, j)` yields a measurable distance (both sides
/// have segments).
pub open spec fn measurable(a: Seq<Outline>, b: Seq<Outline>, i: int, j: int) -> bool {
    0 <= i < a.len() && 0 <= j < b.len() && a[i].segments@.len() > 0 && b[j].segments@.len() > 0
}

/// Whether any outline pair yields a measurable distance.
pub open spec fn any_measurable(a: Seq<Outline>, b: Seq<Outline>) -> bool {
    exists|i: int, j: int| measurable(a, b, i, j)
}

/// The exact distance of outline pair `(i, j)` when the left side is raised
/// by `y_off` and the right side shifted by `x_off`.
pub open spec fn opv_at(a: Seq<Outline>, b: Seq<Outline>, i: int, j: int, x_off: int, y_off: int) -> int {
    outline_pair_value(a[i].segments@, b[j].segments@, 0, y_off, x_off, 0)
}

/// Every outline of the set has at most 10000 segments.
pub open spec fn outlines_sized(os: Seq<Outline>) -> bool {
    forall|i: int| 0 <= i < os.len() ==> (#[trigger] os[i]).segments@.len() <= 10000
}

/// Minimum measurable distance over all outline pairs, with the left set
/// raised by `y_off` and the right set shifted by `x_off`; `None` when no
/// pair is measurable.
pub fn path_distance(left: &Vec<Outline>, right: &Vec<Outline>, x_off: i64, y_off: i64) -> (r:
    Option<i64>)
    requires
        crate::outline::outlines_within(left@, COORD_LIMIT as int),
        crate::outline::outlines_within(right@, COORD_LIMIT as int),
        outlines_sized(left@),
        outlines_sized(right@),
        -OFF_X_LIMIT <= x_off <= OFF_X_LIMIT,
        -OFF_Y_LIMIT <= y_off <= OFF_Y_LIMIT,
    ensures
        r matches Some(d) ==> path_min_spec(left@, right@, x_off as int, y_off as int)
            == Option::Some(d as int),
        r is None ==> path_min_spec(left@, right@, x_off as int, y_off as int) is None,
        r is Some <==> any_measurable(left@, right@),
        r matches Some(d) ==> 0 <= d <= dist_cap(0, y_off as int, x_off as int, 0),
        r matches Some(d) ==> exists|i: int, j: int|
            measurable(left@, right@, i, j) && d == opv_at(left@, right@, i, j, x_off as int,
                y_off as int),
        r matches Some(d) ==> forall|i: int, j: int|
            measurable(left@, right@, i, j) ==> d <= opv_at(left@, right@, i, j, x_off as int,
                y_off as int),
{
    let nl = left.len();
    let nr = right.len();
    let mut best: Option<i64> = None;
    let ghost mut wi: int = 0;
    let ghost mut wj: int = 0;
    let mut i: usize = 0;
    while i < nl
        invariant
            0 <= i <= nl,
            nl == left@.len(),
            nr == right@.len(),
            crate::outline::outlines_within(left@, COORD_LIMIT as int),
            crate::outline::outlines_within(right@, COORD_LIMIT as int),
            outlines_sized(left@),
            outlines_sized(right@),
            -OFF_X_LIMIT <= x_off <= OFF_X_LIMIT,
            -OFF_Y_LIMIT <= y_off <= OFF_Y_LIMIT,
            best is None ==> forall|ii: int, jj: int|
                ii < i ==> !measurable(left@, right@, ii, jj),
            best matches Some(d) ==> measurable(left@, right@, wi, wj) && wi < i && d == opv_at(
                left@, right@, wi, wj, x_off as int, y_off as int) && 0 <= d <= dist_cap(0,
                y_off as int, x_off as int, 0),
            best matches Some(d) ==> forall|ii: int, jj: int|
                ii < i && measurable(left@, right@, ii, jj) ==> d <= opv_at(left@, right@, ii,
                    jj, x_off as int, y_off as int),
        decreases nl - i,
    {
        let mut j: usize = 0;
        while j < nr
            invariant
                0 <= j <= nr,
                0 <= i < nl,
                nl == left@.len(),
                nr == right@.len(),
                crate::outline::outlines_within(left@, COORD_LIMIT as int),
                crate::outline::outlines_within(right@, COORD_LIMIT as int),
                outlines_sized(left@),
                outlines_sized(right@),
                -OFF_X_LIMIT <= x_off <= OFF_X_LIMIT,
                -OFF_Y_LIMIT <= y_off <= OFF_Y_LIMIT,
                best is None ==> forall|ii: int, jj: int|
                    (ii < i || (ii == i && jj < j)) ==> !measurable(left@, right@, ii, jj),
                best matches Some(d) ==> measurable(left@, right@, wi, wj) && (wi < i || (wi == i
                    && wj < j)) && d == opv_at(left@, right@, wi, wj, x_off as int, y_off as int)
                    && 0 <= d <= dist_cap(0, y_off as int, x_off as int, 0),
                best matches Some(d) ==> forall|ii: int, jj: int|
                    (ii < i || (ii == i && jj < j)) && measurable(left@, right@, ii, jj) ==> d
                        <= opv_at(left@, right@, ii, jj, x_off as int, y_off as int),
            decreases nr - j,
        {
            let dopt = min_distance_outline(&left[i], &right[j], 0, y_off, x_off, 0);
            match dopt {
                Some(d2) => {
                    let take = match best {
                        Some(b0) => d2 < b0,
                        None => true,
                    };
                    if take {
                        best = Some(d2);
                        proof {
                            wi = i as int;
                            wj = j as int;
                        }
                    }
                },
                None => {
                },
            }
            j = j + 1;
        }
        i = i + 1;
    }
    proof {
        if best is None {
            assert forall|ii: int, jj: int| !measurable(left@, right@, ii, jj) by {
                if 0 <= ii < left@.len() && 0 <= jj < right@.len() {
                    assert(ii < i as int);
                }
            }
        }
        let total: int = left@.len() * right@.len() as int;
        lemma_pd_rec_char(left@, right@, x_off as int, y_off as int, total);
        assert(total >= 0) by (nonlinear_arith)
            requires total == left@.len() * right@.len() as int,
        {
        }
        match best {
            Option::None => {
                if path_min_spec(left@, right@, x_off as int, y_off as int) is Some {
                    let (pi, pj): (int, int) = choose|pi: int, pj: int|
                        #[trigger] measurable(left@, right@, pi, pj) && pi * right@.len() + pj
                            < total;
                    assert(measurable(left@, right@, pi, pj));
                }
            },
            Option::Some(d) => {
                lemma_flat_in_range(left@, right@, wi, wj);
                assert(path_min_spec(left@, right@, x_off as int, y_off as int) is Some);
                let v = path_min_spec(left@, right@, x_off as int, y_off as int)->Some_0;
                let (vi, vj): (int, int) = choose|vi: int, vj: int|
                    #[trigger] measurable(left@, right@, vi, vj) && vi * right@.len() + vj
                        < total && v == opv_at(left@, right@, vi, vj, x_off as int, y_off as int);
                assert(d as int <= opv_at(left@, right@, vi, vj, x_off as int, y_off as int));
                assert(v <= opv_at(left@, right@, wi, wj, x_off as int, y_off as int));
            },
        }
    }
    best
}

/// Minimum of two optional distances, treating `None` as "no distance".
pub open spec fn opt_min(a: Option<int>, b: Option<int>) -> Option<int> {
    match (a, b) {
        (Option::None, x) => x,
        (Option::Some(v), Option::None) => Option::Some(v),
        (Option::Some(v), Option::Some(w)) => Option::Some(if v <= w { v } else { w }),
    }
}

/// The minimum measurable outline-pair distance over the first `k` pairs in
/// row-major order (`None` when none of them is measurable).
pub open spec fn pd_rec(a: Seq<Outline>, b: Seq<Outline>, x_off: int, y_off: int, k: int) -> Option<int>
    decreases k,
{
    if k <= 0 {
        Option::None
    } else {
        let t = k - 1;
        let m = b.len() as int;
        let i = t / m;
        let j = t % m;
        opt_min(
            pd_rec(a, b, x_off, y_off, t),
            if measurable(a, b, i, j) {
                Option::Some(opv_at(a, b, i, j, x_off, y_off))
            } else {
                Option::None
            },
        )
    }
}

/// The minimum measurable distance over all outline pairs of the two sets.
pub open spec fn path_min_spec(a: Seq<Outline>, b: Seq<Outline>, x_off: int, y_off: int) -> Option<int> {
    pd_rec(a, b, x_off, y_off, a.len() * b.len() as int)
}

/// A measurable pair's row-major index is within the pair count.
pub proof fn lemma_flat_in_range(a: Seq<Outline>, b: Seq<Outline>, i: int, j: int)
    requires
        measurable(a, b, i, j),
    ensures
        0 <= i * b.len() + j < a.len() * b.len(),
{
    let n = a.len() as int;
    let m = b.len() as int;
    assert(0 <= i * m + j && i * m + j < n * m) by (nonlinear_arith)
        requires 0 <= i < n, 0 <= j < m,
    {
    }
}

/// `pd_rec` over the first `k` pairs is `Some` exactly when a measurable
/// pair lies among them, and then holds the least of their exact distances.
pub proof fn lemma_pd_rec_char(a: Seq<Outline>, b: Seq<Outline>, x_off: int, y_off: int, k: int)
    requires
        0 <= k,
    ensures
        pd_rec(a, b, x_off, y_off, k) is Some <==> exists|i: int, j: int|
            #[trigger] measurable(a, b, i, j) && i * b.len() + j < k,
        pd_rec(a, b, x_off, y_off, k) matches Some(v) ==> exists|i: int, j: int|
            #[trigger] measurable(a, b, i, j) && i * b.len() + j < k && v == opv_at(a, b, i, j,
                x_off, y_off),
        pd_rec(a, b, x_off, y_off, k) matches Some(v) ==> forall|i: int, j: int|
            #[trigger] measurable(a, b, i, j) && i * b.len() + j < k ==> v <= opv_at(a, b, i, j,
                x_off, y_off),
    decreases k,
{
    let m = b.len() as int;
    if k <= 0 {
        assert forall|i: int, j: int| measurable(a, b, i, j) implies !(i * m + j < k) by {
            lemma_flat_in_range(a, b, i, j);
        }
    } else {
        let t = k - 1;
        lemma_pd_rec_char(a, b, x_off, y_off, t);
        if m == 0 {
            assert forall|i: int, j: int| measurable(a, b, i, j) implies false by {
            }
            assert(pd_rec(a, b, x_off, y_off, k) == pd_rec(a, b, x_off, y_off, t));
        } else {
            vstd::arithmetic::div_mod::lemma_fundamental_div_mod(t, m);
            let it = t / m;
            let jt = t % m;
            assert(it * m + jt == t) by (nonlinear_arith)
                requires t == m * (t / m) + t % m, it == t / m, jt == t % m,
            {
            }
            // A measurable pair with row-major index t is exactly (it, jt).
            assert forall|i: int, j: int|
                measurable(a, b, i, j) && i * m + j == t implies i == it && j == jt by {
                assert(t == i * m + j);
                vstd::arithmetic::div_mod::lemma_fundamental_div_mod_converse(t, m, i, j);
            }
            assert forall|i: int, j: int|
                measurable(a, b, i, j) && i * m + j < k implies i * m + j <= t by {
            }
        }
    }
}

} // verus!
