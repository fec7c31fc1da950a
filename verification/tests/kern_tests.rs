use kerndeterminer::distance::{
    curve_curve_dist, line_curve_dist, line_line_dist, min_distance_outline, path_distance,
};
use kerndeterminer::geometry::{isqrt, Point};
use kerndeterminer::outline::{CubicSeg, LineSeg, Outline, Segment};
use kerndeterminer::solver::{
    determine_kern, tuck_floor, Anchor, GlyphSnapshot, KernError, FLOOR_DISABLED,
};

fn pt(x: i64, y: i64) -> Point {
    Point { x, y }
}

fn square(x0: i64, y0: i64, side: i64) -> Outline {
    let a = pt(x0, y0);
    let b = pt(x0 + side, y0);
    let c = pt(x0 + side, y0 + side);
    let d = pt(x0, y0 + side);
    Outline {
        segments: vec![
            Segment::Line(LineSeg { p0: a, p1: b }),
            Segment::Line(LineSeg { p0: b, p1: c }),
            Segment::Line(LineSeg { p0: c, p1: d }),
            Segment::Line(LineSeg { p0: d, p1: a }),
        ],
    }
}

fn snapshot(outlines: Vec<Outline>, width: i64, lsb: Option<i64>) -> GlyphSnapshot {
    GlyphSnapshot {
        outlines,
        width,
        lsb,
        anchors: Vec::new(),
    }
}

#[test]
fn isqrt_exact_values() {
    assert_eq!(isqrt(0), 0);
    assert_eq!(isqrt(1), 1);
    assert_eq!(isqrt(24), 4);
    assert_eq!(isqrt(25), 5);
    assert_eq!(isqrt(26), 5);
    assert_eq!(isqrt(u64::MAX), 0xffff_ffff);
}

#[test]
fn line_line_parallel_offset_five() {
    // Two parallel horizontal segments separated vertically by 5: the exact
    // analytic distance is 5.
    let l1 = LineSeg { p0: pt(0, 0), p1: pt(100, 0) };
    let l2 = LineSeg { p0: pt(0, 5), p1: pt(100, 5) };
    assert_eq!(line_line_dist(&l1, &l2, 0, 0, 0, 0), 5);
}

#[test]
fn line_line_skew_exact() {
    // Point (0, 3) against the segment x axis: nearest point is (0, 0).
    let l1 = LineSeg { p0: pt(0, 0), p1: pt(100, 0) };
    let l2 = LineSeg { p0: pt(0, 3), p1: pt(0, 103) };
    assert_eq!(line_line_dist(&l1, &l2, 0, 0, 0, 0), 3);
}

#[test]
fn line_coincident_degenerate_cubic() {
    // A cubic whose control points all lie on the line itself: the sampled
    // line-curve distance agrees with the (zero) line-line distance.
    let l = LineSeg { p0: pt(0, 0), p1: pt(1000, 0) };
    let c = CubicSeg { p0: pt(0, 0), p1: pt(0, 0), p2: pt(1000, 0), p3: pt(1000, 0) };
    assert_eq!(line_curve_dist(&l, 0, 0, &c, 0, 0), 0);
}

#[test]
fn line_curve_offset_parallel() {
    // Degenerate cubic tracing a parallel line 40 units above: every sampled
    // pair is at least 40 apart, and the minimum sample lands exactly on it.
    let l = LineSeg { p0: pt(0, 0), p1: pt(1000, 0) };
    let c = CubicSeg { p0: pt(0, 40), p1: pt(0, 40), p2: pt(1000, 40), p3: pt(1000, 40) };
    assert_eq!(line_curve_dist(&l, 0, 0, &c, 0, 0), 40);
}

#[test]
fn outline_pair_distance_squares() {
    let a = square(0, 0, 100);
    let b = square(0, 0, 100);
    // Right square shifted 250 to the right: gap between facing edges is 150.
    let d = min_distance_outline(&a, &b, 0, 0, 250, 0).unwrap();
    assert_eq!(d, 150);
}

#[test]
fn path_distance_empty_sides() {
    let a = vec![square(0, 0, 100)];
    let empty: Vec<Outline> = Vec::new();
    assert!(path_distance(&empty, &a, 0, 0).is_none());
    assert!(path_distance(&a, &empty, 0, 0).is_none());
    assert!(path_distance(&a, &a, 300, 0).is_some());
}

#[test]
fn tuck_floor_scenario() {
    // Width 500, tuck 0.65 (650 per mille): permitted overlap 325.
    assert_eq!(tuck_floor(500, 50, 650), -375);
    assert_eq!(tuck_floor(500, -20, 650), -325);
    assert_eq!(tuck_floor(500, 0, 650), -325);
}

#[test]
fn solver_converges_on_squares() {
    let left = snapshot(vec![square(0, 0, 100)], 200, Some(0));
    let right = snapshot(vec![square(0, 0, 100)], 200, Some(0));
    let kern = determine_kern(&left, &right, 150, 0, 0).unwrap();
    // Re-measuring at the returned offset lands within the +-10 tolerance.
    let d = path_distance(&left.outlines, &right.outlines, kern + 200, 0).unwrap();
    assert!((150 - d).abs() <= 10, "distance {} at kern {}", d, kern);
}

#[test]
fn solver_monotone_in_target() {
    let left = snapshot(vec![square(0, 0, 100)], 200, Some(0));
    let right = snapshot(vec![square(0, 0, 100)], 200, Some(0));
    let k1 = determine_kern(&left, &right, 150, 0, 0).unwrap();
    let k2 = determine_kern(&left, &right, 250, 0, 0).unwrap();
    assert!(k2 >= k1, "k1={} k2={}", k1, k2);
}

#[test]
fn solver_empty_outlines_returns_floor() {
    let left = snapshot(Vec::new(), 500, Some(0));
    let right = snapshot(Vec::new(), 400, Some(50));
    // Tuck floor: (-50 clamped to <= 0) - 500 * 650 / 1000 = -375.
    assert_eq!(determine_kern(&left, &right, 150, 0, 650), Ok(-375));
    // With tuck disabled the fallback is the sentinel floor.
    assert_eq!(determine_kern(&left, &right, 150, 0, 0), Ok(FLOOR_DISABLED));
}

#[test]
fn solver_floor_is_hard_bound() {
    let left = snapshot(vec![square(0, 0, 100)], 500, Some(0));
    let right = snapshot(vec![square(0, 0, 100)], 500, Some(50));
    // A deeply negative target drives the offset down into the floor.
    let kern = determine_kern(&left, &right, -60000, 0, 650).unwrap();
    assert!(kern >= -375, "kern {}", kern);
    assert_eq!(kern, -375);
}

#[test]
fn solver_zero_tuck_ignores_floor() {
    let left = snapshot(vec![square(0, 0, 100)], 500, Some(0));
    let right = snapshot(vec![square(0, 0, 100)], 500, Some(50));
    let kern = determine_kern(&left, &right, -5000, 0, 0).unwrap();
    // The offset sails far past where the tuck floor would have stopped it,
    // and the sentinel never masquerades as a result.
    assert!(kern < -375, "kern {}", kern);
    assert!(kern > FLOOR_DISABLED);
}

#[test]
fn solver_missing_lsb_is_error() {
    let left = snapshot(vec![square(0, 0, 100)], 500, Some(0));
    let right = snapshot(vec![square(0, 0, 100)], 500, None);
    assert_eq!(
        determine_kern(&left, &right, 150, 0, 650),
        Err(KernError::MissingLeftSideBearing)
    );
    // With tuck disabled the bearing is not needed.
    assert!(determine_kern(&left, &right, 150, 0, 0).is_ok());
}

#[test]
fn solver_exit_anchor_height() {
    let mut left = snapshot(vec![square(0, 0, 100)], 200, Some(0));
    left.anchors.push(Anchor { name: "exit".to_string(), x: 90, y: 30 });
    let right = snapshot(vec![square(0, 0, 100)], 200, Some(0));
    // A positive height request is measured relative to the exit anchor:
    // raising the left square by 50 - 30 = 20 leaves the horizontal gap the
    // closest approach, so the solve still converges on the target.
    let kern = determine_kern(&left, &right, 150, 50, 0).unwrap();
    let d = path_distance(&left.outlines, &right.outlines, kern + 200, 20).unwrap();
    assert!((150 - d).abs() <= 10);
}

#[test]
fn curve_curve_parallel_degenerates() {
    // Two degenerate cubics tracing parallel horizontal lines 50 apart: the
    // alternating nearest-sample refinement lands on vertically aligned
    // samples, giving exactly 50.
    let c1 = Segment::Cubic(CubicSeg {
        p0: pt(0, 0),
        p1: pt(0, 0),
        p2: pt(1000, 0),
        p3: pt(1000, 0),
    });
    let c2 = Segment::Cubic(CubicSeg {
        p0: pt(0, 50),
        p1: pt(0, 50),
        p2: pt(1000, 50),
        p3: pt(1000, 50),
    });
    assert_eq!(curve_curve_dist(&c1, &c2, 0, 0, 0, 0), 50);
}

#[test]
fn mixed_outline_line_and_cubic() {
    // An outline mixing a line and a cubic against a line outline: the
    // matcher picks the nearest pair and the kind dispatch measures it.
    let a = Outline {
        segments: vec![
            Segment::Line(LineSeg { p0: pt(0, 0), p1: pt(100, 0) }),
            Segment::Cubic(CubicSeg {
                p0: pt(100, 0),
                p1: pt(100, 0),
                p2: pt(0, 0),
                p3: pt(0, 0),
            }),
        ],
    };
    let b = square(0, 0, 100);
    // Right square shifted 180 right: the gap from x = 100 to x = 180 is 80.
    let d = min_distance_outline(&a, &b, 0, 0, 180, 0).unwrap();
    assert_eq!(d, 80);
}
