//! The kern solver: derives the vertical shift from the left glyph's "exit"
//! anchor, computes the tuck floor once, then iterates a one-step linear
//! correction of the horizontal offset until the measured outline distance is
//! within tolerance of the target, the iteration budget runs out, or the
//! floor is hit.

use vstd::prelude::*;
use crate::geometry::COORD_LIMIT;
use crate::outline::{Outline, outlines_within};
use crate::distance::{
    path_distance, any_measurable, dist_cap, outlines_sized, OFF_X_LIMIT, OFF_Y_LIMIT,
};

verus! {

/// The sentinel floor used when the tuck constraint is disabled: far below
/// any offset the bounded iteration can reach.
pub const FLOOR_DISABLED: i64 = -2_000_000_000;

/// Initial measured-distance sentinel, far below any admissible target, so
/// the loop always runs at least once.
pub const DIST_SENTINEL: i64 = -1_000_000;

/// Iteration budget of one solve.
pub const MAX_ITERATIONS: u64 = 10;

/// Convergence tolerance in font units.
pub const TOLERANCE: i64 = 10;

/// A named anchor of a glyph.
#[derive(Clone, Debug)]
pub struct Anchor {
    pub name: String,
    pub x: i64,
    pub y: i64,
}

/// A glyph at one master: its flattened outlines, advance width, optional
/// left side bearing, and named anchors.
#[derive(Clone, Debug)]
pub struct GlyphSnapshot {
    pub outlines: Vec<Outline>,
    pub width: i64,
    pub lsb: Option<i64>,
    pub anchors: Vec<Anchor>,
}

/// The error a kern query can report: the tuck constraint needs the right
/// glyph's left side bearing, and the glyph has none.
#[derive(Clone, Copy, Debug, PartialEq, Eq, Structural)]
pub enum KernError {
    MissingLeftSideBearing,
}

/// Well-formedness of a snapshot: coordinates, width, bearing and anchors in
/// range, and outline sizes within the machine limits of the solver.
pub open spec fn snapshot_wf(g: GlyphSnapshot) -> bool {
    &&& outlines_within(g.outlines@, COORD_LIMIT as int)
    &&& outlines_sized(g.outlines@)
    &&& g.outlines@.len() <= 1000
    &&& 0 <= g.width <= COORD_LIMIT
    &&& match g.lsb {
        Some(l) => -COORD_LIMIT <= l <= COORD_LIMIT,
        None => true,
    }
    &&& forall|i: int| 0 <= i < g.anchors@.len() ==> -COORD_LIMIT
        <= (#[trigger] g.anchors@[i]).x <= COORD_LIMIT && -COORD_LIMIT <= g.anchors@[i].y
        <= COORD_LIMIT
}

/// The tuck floor: the right glyph's leftmost extent (its negated left side
/// bearing, clamped to at most zero) minus the permitted overlap, a
/// `tuck`-per-mille fraction of the left glyph's advance width.
pub open spec fn tuck_floor_spec(width: int, lsb: int, tuck: int) -> int {
    (if -lsb < 0 { -lsb } else { 0 }) - (width * tuck) / 1000
}

/// The floor in force for a query: the tuck floor when the constraint is
/// enabled, else the disabled sentinel.
pub open spec fn floor_spec(width: int, lsb: Option<i64>, tuck: int) -> int {
    if tuck == 0 {
        FLOOR_DISABLED as int
    } else {
        match lsb {
            Some(l) => tuck_floor_spec(width, l as int, tuck),
            None => FLOOR_DISABLED as int,
        }
    }
}

/// Exact tuck floor.
pub fn tuck_floor(width: i64, lsb: i64, tuck: i64) -> (r: i64)
    requires
        0 <= width <= COORD_LIMIT,
        -COORD_LIMIT <= lsb <= COORD_LIMIT,
        0 <= tuck <= 1000,
    ensures
        r == tuck_floor_spec(width as int, lsb as int, tuck as int),
        -2 * COORD_LIMIT <= r <= 0,
{
    let left_edge: i64 = if -lsb < 0 { -lsb } else { 0 };
    proof {
        crate::geometry::lemma_mul_bound2(width as int, tuck as int, COORD_LIMIT as int, 1000);
        assert((width as int) * (tuck as int) >= 0) by (nonlinear_arith)
            requires width as int >= 0, tuck as int >= 0,
        {
        }
        vstd::arithmetic::div_mod::lemma_div_is_ordered(0, (width as int) * (tuck as int), 1000);
        vstd::arithmetic::div_mod::lemma_div_of0(1000);
        vstd::arithmetic::div_mod::lemma_div_is_ordered((width as int) * (tuck as int), 1000
            * COORD_LIMIT as int, 1000);
        vstd::arithmetic::div_mod::lemma_div_multiples_vanish(COORD_LIMIT as int, 1000);
    }
    let overlap: i64 = ((width * tuck) as u64 / 1000) as i64;
    left_edge - overlap
}

/// The maximum magnitude the offset can have after `i` correction steps.
pub open spec fn kern_bound(i: nat) -> int
    decreases i,
{
    if i == 0 {
        0
    } else {
        2 * kern_bound((i - 1) as nat) + 524288
    }
}

/// `kern_bound` is monotone.
pub proof fn lemma_kern_bound_mono(i: nat, j: nat)
    requires
        i <= j,
    ensures
        kern_bound(i) <= kern_bound(j),
    decreases j,
{
    if i < j {
        lemma_kern_bound_mono(i, (j - 1) as nat);
        assert(kern_bound(j) == 2 * kern_bound((j - 1) as nat) + 524288);
        assert(kern_bound((j - 1) as nat) >= 0) by {
            lemma_kern_bound_nonneg((j - 1) as nat);
        }
    }
}

/// `kern_bound` is non-negative.
pub proof fn lemma_kern_bound_nonneg(i: nat)
    ensures
        kern_bound(i) >= 0,
    decreases i,
{
    if i > 0 {
        lemma_kern_bound_nonneg((i - 1) as nat);
    }
}

/// The y coordinate of the first anchor named "exit", if any.
pub open spec fn exit_y_spec(s: Seq<Anchor>) -> Option<int>
    decreases s.len(),
{
    if s.len() == 0 {
        Option::None
    } else if s[0].name@ == "exit"@ {
        Option::Some(s[0].y as int)
    } else {
        exit_y_spec(s.drop_first())
    }
}

/// If `s[i]` is the first anchor named "exit", `exit_y_spec` returns its y.
proof fn lemma_exit_y_found(s: Seq<Anchor>, i: int)
    requires
        0 <= i < s.len(),
        s[i].name@ == "exit"@,
        forall|u: int| 0 <= u < i ==> (#[trigger] s[u]).name@ != "exit"@,
    ensures
        exit_y_spec(s) == Option::Some(s[i].y as int),
    decreases s.len(),
{
    if i == 0 {
    } else {
        assert(s[0].name@ != "exit"@);
        lemma_exit_y_found(s.drop_first(), i - 1);
        assert(s.drop_first()[i - 1] == s[i]);
    }
}

/// With no anchor named "exit", `exit_y_spec` returns nothing.
proof fn lemma_exit_y_none(s: Seq<Anchor>)
    requires
        forall|u: int| 0 <= u < s.len() ==> (#[trigger] s[u]).name@ != "exit"@,
    ensures
        exit_y_spec(s) is None,
    decreases s.len(),
{
    if s.len() > 0 {
        lemma_exit_y_none(s.drop_first());
    }
}

/// Find the y coordinate of the first anchor named "exit", if any.
fn exit_anchor_y(anchors: &Vec<Anchor>) -> (r: Option<i64>)
    ensures
        r matches Some(y) ==> exit_y_spec(anchors@) == Option::Some(y as int),
        r matches Some(y) ==> exists|i: int| 0 <= i < anchors@.len() && y == (#[trigger]
            anchors@[i]).y,
        r is None ==> exit_y_spec(anchors@) is None,
{
    let needle: String = "exit".to_owned();
    let mut k: usize = 0;
    while k < anchors.len()
        invariant
            0 <= k <= anchors@.len(),
            needle@ == "exit"@,
            forall|i: int| 0 <= i < k ==> (#[trigger] anchors@[i]).name@ != "exit"@,
        decreases anchors@.len() - k,
    {
        if anchors[k].name == needle {
            proof {
                lemma_exit_y_found(anchors@, k as int);
            }
            return Some(anchors[k].y);
        }
        k = k + 1;
    }
    proof {
        lemma_exit_y_none(anchors@);
    }
    None
}

/// The vertical shift a query applies to the left outlines: a positive
/// height request is relative to the left glyph's "exit" anchor (0 when
/// absent); zero or negative is used as is.
pub open spec fn vshift_spec(anchors: Seq<Anchor>, height: int) -> int {
    let ey = match exit_y_spec(anchors) {
        Option::Some(y) => y,
        Option::None => 0,
    };
    if height > 0 {
        height - ey
    } else {
        height
    }
}

/// One solve, as a function of its inputs: from the current offset and the
/// last measured distance, with `rounds_left` rounds of budget remaining,
/// the offset the iteration returns.  Each round measures the outline-pair
/// distance at `kern + width`, steps the offset by the remaining error, and
/// stops on convergence (within `TOLERANCE` of the target), on budget
/// exhaustion, on an unmeasurable configuration (returning the floor), or on
/// falling below the floor (returning the floor).
pub open spec fn solve_rec(
    left: Seq<Outline>, right: Seq<Outline>, width: int, vshift: int, target: int, floor: int,
    kern: int, min_dist: int, rounds_left: nat,
) -> int
    decreases rounds_left,
{
    if rounds_left == 0 || !(target - min_dist > TOLERANCE || target - min_dist < -TOLERANCE) {
        kern
    } else {
        match crate::distance::path_min_spec(left, right, kern + width, vshift) {
            Option::None => floor,
            Option::Some(d) => {
                let next = kern + target - d;
                if next < floor {
                    floor
                } else {
                    solve_rec(left, right, width, vshift, target, floor, next, d,
                        (rounds_left - 1) as nat)
                }
            },
        }
    }
}

/// Convergence stop: once the last measured distance is within `TOLERANCE`
/// of the target, the iteration returns the current offset unchanged.
pub proof fn lemma_solve_stops_on_convergence(
    left: Seq<Outline>, right: Seq<Outline>, width: int, vshift: int, target: int, floor: int,
    kern: int, min_dist: int, rounds_left: nat,
)
    requires
        -TOLERANCE <= target - min_dist <= TOLERANCE,
    ensures
        solve_rec(left, right, width, vshift, target, floor, kern, min_dist, rounds_left)
            == kern,
{
}

/// Budget stop: with no rounds left, the iteration returns the current
/// offset unchanged.
pub proof fn lemma_solve_stops_on_budget(
    left: Seq<Outline>, right: Seq<Outline>, width: int, vshift: int, target: int, floor: int,
    kern: int, min_dist: int,
)
    ensures
        solve_rec(left, right, width, vshift, target, floor, kern, min_dist, 0) == kern,
{
}

/// Fallback stop: when a round finds no measurable distance, the iteration
/// returns the floor at once.
pub proof fn lemma_solve_stops_unmeasurable(
    left: Seq<Outline>, right: Seq<Outline>, width: int, vshift: int, target: int, floor: int,
    kern: int, min_dist: int, rounds_left: nat,
)
    requires
        rounds_left > 0,
        target - min_dist > TOLERANCE || target - min_dist < -TOLERANCE,
        crate::distance::path_min_spec(left, right, kern + width, vshift) is None,
    ensures
        solve_rec(left, right, width, vshift, target, floor, kern, min_dist, rounds_left)
            == floor,
{
}

/// Clamp stop: when the corrected offset would fall below the floor, the
/// iteration returns the floor itself, exactly.
pub proof fn lemma_solve_clamps_to_floor(
    left: Seq<Outline>, right: Seq<Outline>, width: int, vshift: int, target: int, floor: int,
    kern: int, min_dist: int, rounds_left: nat, d: int,
)
    requires
        rounds_left > 0,
        target - min_dist > TOLERANCE || target - min_dist < -TOLERANCE,
        crate::distance::path_min_spec(left, right, kern + width, vshift)
            == Option::<int>::Some(d),
        kern + target - d < floor,
    ensures
        solve_rec(left, right, width, vshift, target, floor, kern, min_dist, rounds_left)
            == floor,
{
}

/// The offset `determine_kern` returns on success, as a function of the
/// query alone.
pub open spec fn determine_kern_spec(
    left: GlyphSnapshot, right: GlyphSnapshot, target: int, height: int, tuck: int,
) -> int {
    solve_rec(left.outlines@, right.outlines@, left.width as int,
        vshift_spec(left.anchors@, height), target,
        floor_spec(left.width as int, right.lsb, tuck), 0, DIST_SENTINEL as int, 10)
}

/// Compute the kerning offset that brings the closest approach of the two
/// glyphs' outlines to the target distance.
///
/// On success the result equals `determine_kern_spec`: the bounded
/// fixed-point iteration over the exact outline-pair distance, probing at
/// `kern + width` under the anchor-derived vertical shift.  In particular
/// the offset is never below the tuck floor when the constraint is enabled;
/// with the constraint disabled the floor never cuts the iteration short;
/// and with no measurable geometry the floor itself is returned at once.
pub fn determine_kern(
    left: &GlyphSnapshot, right: &GlyphSnapshot, target_distance: i64, height: i64, max_tuck: i64,
) -> (r: Result<i64, KernError>)
    requires
        snapshot_wf(*left),
        snapshot_wf(*right),
        -COORD_LIMIT <= target_distance <= COORD_LIMIT,
        -COORD_LIMIT <= height <= COORD_LIMIT,
        0 <= max_tuck <= 1000,
    ensures
        r is Err <==> max_tuck != 0 && right.lsb is None,
        r matches Ok(k) ==> max_tuck != 0 ==> (right.lsb matches Some(l) ==> k as int
            >= tuck_floor_spec(left.width as int, l as int, max_tuck as int)),
        r matches Ok(k) ==> !any_measurable(left.outlines@, right.outlines@) ==> k as int
            == floor_spec(left.width as int, right.lsb, max_tuck as int),
        r matches Ok(k) ==> max_tuck == 0 && any_measurable(left.outlines@, right.outlines@)
            ==> k > FLOOR_DISABLED,
        r matches Ok(k) ==> FLOOR_DISABLED <= k <= OFF_X_LIMIT,
        r matches Ok(k) ==> k as int == determine_kern_spec(*left, *right,
            target_distance as int, height as int, max_tuck as int),
{
    let exit_y: i64 = match exit_anchor_y(&left.anchors) {
        Some(y) => y,
        None => 0,
    };
    let vshift: i64 = if height > 0 {
        height - exit_y
    } else {
        height
    };
    let floor: i64 = if max_tuck != 0 {
        match right.lsb {
            Some(l) => tuck_floor(left.width, l, max_tuck),
            None => {
                return Err(KernError::MissingLeftSideBearing);
            },
        }
    } else {
        FLOOR_DISABLED
    };
    let mut kern: i64 = 0;
    let mut min_dist: i64 = DIST_SENTINEL;
    let mut iters: u64 = 0;
    let ghost goal: int = determine_kern_spec(*left, *right, target_distance as int,
        height as int, max_tuck as int);
    proof {
        assert(vshift as int == vshift_spec(left.anchors@, height as int));
        assert(kern_bound(0) == 0);
        assert(kern_bound(1) == 524288);
        assert(kern_bound(2) == 1572864);
        assert(kern_bound(3) == 3670016);
        assert(kern_bound(4) == 7864320);
        assert(kern_bound(5) == 16252928);
        assert(kern_bound(6) == 33030144);
        assert(kern_bound(7) == 66584576);
        assert(kern_bound(8) == 133693440);
        assert(kern_bound(9) == 267911168);
        assert(kern_bound(10) == 536_346_624);
        lemma_kern_bound_nonneg(10);
    }
    while iters < MAX_ITERATIONS && (target_distance - min_dist > TOLERANCE || target_distance
        - min_dist < -TOLERANCE)
        invariant
            snapshot_wf(*left),
            snapshot_wf(*right),
            -COORD_LIMIT <= target_distance <= COORD_LIMIT,
            0 <= max_tuck <= 1000,
            -2 * COORD_LIMIT <= vshift <= 2 * COORD_LIMIT,
            iters <= 10,
            -kern_bound(iters as nat) <= kern <= kern_bound(iters as nat),
            kern_bound(10) == 536_346_624,
            floor as int == floor_spec(left.width as int, right.lsb, max_tuck as int),
            !(max_tuck != 0 && right.lsb is None),
            FLOOR_DISABLED <= floor <= 0,
            max_tuck == 0 ==> floor == FLOOR_DISABLED,
            kern >= floor,
            -1_000_000 <= min_dist <= 1_000_000_000,
            iters == 0 ==> min_dist == DIST_SENTINEL,
            iters > 0 ==> any_measurable(left.outlines@, right.outlines@),
            goal == determine_kern_spec(*left, *right, target_distance as int, height as int,
                max_tuck as int),
            vshift as int == vshift_spec(left.anchors@, height as int),
            goal == solve_rec(left.outlines@, right.outlines@, left.width as int,
                vshift as int, target_distance as int, floor as int, kern as int,
                min_dist as int, (10 - iters) as nat),
        decreases 10 - iters,
    {
        proof {
            lemma_kern_bound_mono(iters as nat, 10);
            lemma_kern_bound_nonneg(iters as nat);
        }
        let x_off: i64 = kern + left.width;
        match path_distance(&left.outlines, &right.outlines, x_off, vshift) {
            Some(d) => {
                proof {
                    assert(dist_cap(0, vshift as int, x_off as int, 0) == vstd::math::abs(
                        0 - x_off as int) + vstd::math::abs(vshift as int) + 4
                        * COORD_LIMIT as int);
                    assert(kern_bound((iters + 1) as nat) == 2 * kern_bound(iters as nat)
                        + 524288);
                    assert(solve_rec(left.outlines@, right.outlines@, left.width as int,
                        vshift as int, target_distance as int, floor as int, kern as int,
                        min_dist as int, (10 - iters) as nat) == {
                        let next = kern as int + target_distance as int - d as int;
                        if next < floor as int {
                            floor as int
                        } else {
                            solve_rec(left.outlines@, right.outlines@, left.width as int,
                                vshift as int, target_distance as int, floor as int, next,
                                d as int, (10 - (iters + 1)) as nat)
                        }
                    });
                }
                min_dist = d;
                kern = kern + (target_distance - d);
                if kern < floor {
                    return Ok(floor);
                }
                iters = iters + 1;
            },
            None => {
                return Ok(floor);
            },
        }
    }
    Ok(kern)
}

} // verus!
