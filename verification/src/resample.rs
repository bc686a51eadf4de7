//! Arc-length resampling: a normalized path of any length becomes
//! [`RESOLUTION`] points, the `i`-th of them at the fraction
//! `i / (RESOLUTION - 1)` of the path's length.
//!
//! Lengths are measured in the fixed-point units of the frame and rounded
//! down to whole units, segment by segment.

use vstd::prelude::*;
use vstd::arithmetic::div_mod::lemma_div_is_ordered;
use vstd::arithmetic::div_mod::lemma_div_multiples_vanish;
use vstd::arithmetic::div_mod::lemma_hoist_over_denominator;
use crate::gesture::PreparedGesture;
use crate::gesture::RESOLUTION;
use crate::numeric::abs_diff;
use crate::numeric::floor_sqrt;
use crate::numeric::isqrt;
use crate::numeric::lemma_floor_sqrt;
use crate::numeric::lemma_floor_sqrt_zero;
use crate::path::lift;
use crate::path::within_frame;
use crate::path::NormalizedPath;
use crate::path::UNIT;

verus! {

/// Euclidean length of the segment from `a` to `b`, rounded down.
pub open spec fn segment_length(a: (int, int), b: (int, int)) -> int {
    floor_sqrt((b.0 - a.0) * (b.0 - a.0) + (b.1 - a.1) * (b.1 - a.1))
}

/// Distance travelled along the path before its `k`-th point is reached.
pub open spec fn arc_start(path: Seq<(int, int)>, k: int) -> int
    decreases k,
{
    if k <= 0 {
        0
    } else {
        arc_start(path, k - 1) + segment_length(path[k - 1], path[k])
    }
}

/// Total length of the path.
pub open spec fn path_length(path: Seq<(int, int)>) -> int {
    arc_start(path, path.len() - 1)
}

/// Arc length at which the `i`-th sample is taken.
pub open spec fn target(path: Seq<(int, int)>, i: int) -> int {
    i * path_length(path) / (RESOLUTION as int - 1)
}

/// The `k`-th segment, both ends included, holds the arc length `d`.
pub open spec fn covers(path: Seq<(int, int)>, k: int, d: int) -> bool {
    arc_start(path, k) <= d <= arc_start(path, k + 1)
}

/// `k` is the first segment, in path order, that holds the arc length `d`.
pub open spec fn first_covering(path: Seq<(int, int)>, d: int, k: int) -> bool {
    &&& 0 <= k < path.len() - 1
    &&& covers(path, k, d)
    &&& forall|j: int| 0 <= j < k ==> !covers(path, j, d)
}

/// The segment on which the arc length `d` is sampled: where `d` is the
/// boundary between two segments, the earlier one.
pub open spec fn locate(path: Seq<(int, int)>, d: int) -> int {
    choose|k: int| first_covering(path, d, k)
}

/// The coordinate at `t` out of `len` of the way from `a` to `b`, rounded
/// down. A segment without length has one point only.
pub open spec fn blend(a: int, b: int, t: int, len: int) -> int {
    if len == 0 {
        a
    } else {
        (a * (len - t) + b * t) / len
    }
}

/// The point of the path at arc length `d`.
pub open spec fn point_at(path: Seq<(int, int)>, d: int) -> (int, int) {
    let k = locate(path, d);
    let t = d - arc_start(path, k);
    let len = segment_length(path[k], path[k + 1]);
    (blend(path[k].0, path[k + 1].0, t, len), blend(path[k].1, path[k + 1].1, t, len))
}

/// The descriptor of a normalized path.
pub open spec fn resampled(path: Seq<(int, int)>) -> Seq<(int, int)> {
    Seq::new(RESOLUTION as nat, |i: int| point_at(path, target(path, i)))
}

/// A sum of two squares is not negative.
proof fn lemma_squares_nonnegative(dx: int, dy: int)
    ensures
        0 <= dx * dx + dy * dy,
        dx * dx + dy * dy == 0 <==> dx == 0 && dy == 0,
{
    assert(0 <= dx * dx + dy * dy && (dx * dx + dy * dy == 0 <==> dx == 0 && dy == 0))
        by (nonlinear_arith);
}

/// A segment's length is not negative, and zero only between equal points.
pub proof fn lemma_segment_length(a: (int, int), b: (int, int))
    ensures
        0 <= segment_length(a, b),
        segment_length(a, b) == 0 <==> a == b,
{
    let dx: int = b.0 - a.0;
    let dy: int = b.1 - a.1;
    lemma_squares_nonnegative(dx, dy);
    lemma_floor_sqrt(dx * dx + dy * dy);
    lemma_floor_sqrt_zero(dx * dx + dy * dy);
}

/// The distance travelled grows along the path.
pub proof fn lemma_arc_start_monotone(path: Seq<(int, int)>, j: int, k: int)
    requires
        0 <= j <= k,
    ensures
        0 <= arc_start(path, j) <= arc_start(path, k),
    decreases k,
{
    if k > 0 {
        lemma_segment_length(path[k - 1], path[k]);
        if j < k {
            lemma_arc_start_monotone(path, j, k - 1);
        } else {
            lemma_arc_start_monotone(path, j - 1, k - 1);
        }
    }
}

/// Where no distance is travelled between two points of the path, they are
/// the same point.
pub proof fn lemma_no_distance_same_point(path: Seq<(int, int)>, j: int, k: int)
    requires
        0 <= j <= k,
        arc_start(path, j) == arc_start(path, k),
    ensures
        path[j] == path[k],
    decreases k,
{
    if j < k {
        lemma_segment_length(path[k - 1], path[k]);
        lemma_arc_start_monotone(path, j, k - 1);
        lemma_no_distance_same_point(path, j, k - 1);
    }
}

/// Every sample is taken at an arc length on the path.
pub proof fn lemma_target_on_path(path: Seq<(int, int)>, i: int)
    requires
        path.len() >= 1,
        0 <= i < RESOLUTION,
    ensures
        0 <= target(path, i) <= path_length(path),
        i == 0 ==> target(path, i) == 0,
        i == RESOLUTION - 1 ==> target(path, i) == path_length(path),
{
    let total: int = path_length(path);
    let last: int = RESOLUTION as int - 1;
    lemma_arc_start_monotone(path, 0, path.len() - 1);
    assert(0 <= i * total <= last * total) by (nonlinear_arith)
        requires
            0 <= i <= last,
            0 <= total,
    ;
    lemma_div_is_ordered(0, i * total, last);
    lemma_div_is_ordered(i * total, last * total, last);
    lemma_div_multiples_vanish(total, last);
    if i == 0 {
        assert(i * total == 0) by (nonlinear_arith)
            requires
                i == 0,
        ;
    }
}

/// Searching forward from segment `k` finds the first segment that holds `d`.
proof fn lemma_first_covering_from(path: Seq<(int, int)>, d: int, k: int) -> (found: int)
    requires
        0 <= k < path.len() - 1,
        arc_start(path, k) <= d <= path_length(path),
        forall|j: int| 0 <= j < k ==> !covers(path, j, d),
    ensures
        first_covering(path, d, found),
    decreases path.len() - k,
{
    if d <= arc_start(path, k + 1) {
        k
    } else {
        lemma_first_covering_from(path, d, k + 1)
    }
}

/// Every arc length on the path lies on exactly one first segment, and
/// `locate` finds it.
pub proof fn lemma_locate(path: Seq<(int, int)>, d: int)
    requires
        path.len() >= 2,
        0 <= d <= path_length(path),
    ensures
        first_covering(path, d, locate(path, d)),
        forall|k: int| first_covering(path, d, k) ==> k == locate(path, d),
{
    let found: int = lemma_first_covering_from(path, d, 0);
    let chosen: int = locate(path, d);
    assert(first_covering(path, d, chosen));
    assert forall|k: int| first_covering(path, d, k) implies k == chosen by {
        if k < chosen {
            assert(covers(path, k, d));
        } else if chosen < k {
            assert(covers(path, chosen, d));
        }
    }
}

/// The first sample is the first point of the path.
pub proof fn lemma_first_sample(path: Seq<(int, int)>)
    requires
        path.len() >= 2,
    ensures
        resampled(path)[0] == path[0],
{
    lemma_target_on_path(path, 0);
    lemma_locate(path, 0);
    lemma_arc_start_monotone(path, 0, 1);
    assert(covers(path, 0, 0));
    assert(first_covering(path, 0, 0));
    let len: int = segment_length(path[0], path[1]);
    if len != 0 {
        lemma_div_multiples_vanish(path[0].0, len);
        lemma_div_multiples_vanish(path[0].1, len);
        assert(path[0].0 * (len - 0) + path[1].0 * 0 == len * path[0].0) by (nonlinear_arith);
        assert(path[0].1 * (len - 0) + path[1].1 * 0 == len * path[0].1) by (nonlinear_arith);
    }
}

/// The last sample is the last point of the path.
pub proof fn lemma_last_sample(path: Seq<(int, int)>)
    requires
        path.len() >= 2,
    ensures
        resampled(path)[RESOLUTION - 1] == path.last(),
{
    let total: int = path_length(path);
    lemma_target_on_path(path, RESOLUTION - 1);
    lemma_locate(path, total);
    let k: int = locate(path, total);
    lemma_arc_start_monotone(path, k + 1, path.len() - 1);
    lemma_no_distance_same_point(path, k + 1, path.len() - 1);
    let a = path[k];
    let b = path[k + 1];
    let len: int = segment_length(a, b);
    lemma_segment_length(a, b);
    assert(total - arc_start(path, k) == len);
    if len != 0 {
        lemma_div_multiples_vanish(b.0, len);
        lemma_div_multiples_vanish(b.1, len);
        assert(a.0 * (len - len) + b.0 * len == len * b.0) by (nonlinear_arith);
        assert(a.1 * (len - len) + b.1 * len == len * b.1) by (nonlinear_arith);
    }
}

/// Length of one segment between two points of the frame.
fn measure(a: (i32, i32), b: (i32, i32)) -> (len: u64)
    requires
        -UNIT <= a.0 <= UNIT,
        -UNIT <= a.1 <= UNIT,
        -UNIT <= b.0 <= UNIT,
        -UNIT <= b.1 <= UNIT,
    ensures
        len == segment_length((a.0 as int, a.1 as int), (b.0 as int, b.1 as int)),
        len < 0x400_0000,
{
    let dx: u64 = abs_diff(a.0, b.0);
    let dy: u64 = abs_diff(a.1, b.1);
    assert(dx * dx <= 0x4_0000_0000_0000 && dy * dy <= 0x4_0000_0000_0000) by (nonlinear_arith)
        requires
            dx <= 0x200_0000,
            dy <= 0x200_0000,
    ;
    assert(dx * dx == (b.0 - a.0) * (b.0 - a.0)) by (nonlinear_arith)
        requires
            dx == b.0 - a.0 || dx == a.0 - b.0,
    ;
    assert(dy * dy == (b.1 - a.1) * (b.1 - a.1)) by (nonlinear_arith)
        requires
            dy == b.1 - a.1 || dy == a.1 - b.1,
    ;
    let len: u64 = isqrt(dx * dx + dy * dy);
    assert(len < 0x400_0000) by (nonlinear_arith)
        requires
            len * len <= 0x8_0000_0000_0000,
    ;
    len
}

/// One coordinate at `t` out of `len` of the way from `a` to `b`.
fn blend_coordinate(a: i32, b: i32, t: u64, len: u64) -> (c: i32)
    requires
        -UNIT <= a <= UNIT,
        -UNIT <= b <= UNIT,
        t <= len < 0x400_0000,
    ensures
        c == blend(a as int, b as int, t as int, len as int),
        -UNIT <= c <= UNIT,
{
    if len == 0 {
        return a;
    }
    let unit: u64 = UNIT as u64;
    let from: u64 = (a as i64 + UNIT as i64) as u64;
    let to: u64 = (b as i64 + UNIT as i64) as u64;
    let rest: u64 = len - t;
    assert(from * rest <= 2 * unit * rest && to * t <= 2 * unit * t) by (nonlinear_arith)
        requires
            from <= 2 * unit,
            to <= 2 * unit,
    ;
    assert(2 * unit * rest + 2 * unit * t == len * (2 * unit)) by (nonlinear_arith)
        requires
            rest + t == len,
    ;
    let weighted: u64 = from * rest + to * t;
    let quotient: u64 = weighted / len;
    proof {
        let plain: int = a * (len - t) + b * t;
        assert(weighted == plain + unit * len) by (nonlinear_arith)
            requires
                weighted == from * rest + to * t,
                from == a + unit,
                to == b + unit,
                rest == len - t,
                plain == a * (len - t) + b * t,
        ;
        lemma_hoist_over_denominator(plain, unit as int, len as nat);
        lemma_div_is_ordered(weighted as int, len * (2 * unit), len as int);
        lemma_div_multiples_vanish(2 * unit, len as int);
    }
    (quotient as i64 - UNIT as i64) as i32
}

/// The first segment that holds the arc length `d`.
fn find_segment(
    points: &Vec<(i32, i32)>,
    starts: &Vec<u128>,
    lengths: &Vec<u64>,
    d: u128,
) -> (k: usize)
    requires
        points.len() >= 2,
        starts.len() == points.len() - 1,
        lengths.len() == points.len() - 1,
        forall|j: int|
            0 <= j < starts.len() ==> #[trigger] starts[j] == arc_start(lift(points@), j),
        forall|j: int|
            0 <= j < lengths.len() ==> #[trigger] lengths[j] == segment_length(
                lift(points@)[j],
                lift(points@)[j + 1],
            ),
        d <= path_length(lift(points@)) <= u128::MAX,
    ensures
        k < points.len() - 1,
        k == locate(lift(points@), d as int),
        first_covering(lift(points@), d as int, k as int),
{
    let ghost path = lift(points@);
    let mut k: usize = 0;
    loop
        invariant
            path == lift(points@),
            points.len() >= 2,
            starts.len() == points.len() - 1,
            lengths.len() == points.len() - 1,
            forall|j: int| 0 <= j < starts.len() ==> #[trigger] starts[j] == arc_start(path, j),
            forall|j: int|
                0 <= j < lengths.len() ==> #[trigger] lengths[j] == segment_length(
                    path[j],
                    path[j + 1],
                ),
            d <= path_length(path) <= u128::MAX,
            0 <= k < points.len() - 1,
            arc_start(path, k as int) <= d,
            forall|j: int| 0 <= j < k ==> !covers(path, j, d as int),
        ensures
            k < points.len() - 1,
            first_covering(path, d as int, k as int),
        decreases points.len() - k,
    {
        proof {
            lemma_arc_start_monotone(path, k as int + 1, points.len() - 1);
            assert(arc_start(path, k as int + 1) == starts[k as int] + lengths[k as int]);
        }
        let start: u128 = starts[k];
        let end: u128 = start + lengths[k] as u128;
        if start <= d && d <= end {
            break;
        }
        k += 1;
    }
    proof {
        lemma_locate(path, d as int);
    }
    k
}

/// Resamples a normalized path into `RESOLUTION` points evenly spaced by
/// arc length. The first sample is the path's first point and the last
/// sample its last point.
pub fn resample(path: &NormalizedPath) -> (gesture: PreparedGesture)
    ensures
        gesture@ == resampled(path@),
        gesture@.len() == RESOLUTION,
        gesture@[0] == path@[0],
        gesture@[RESOLUTION - 1] == path@.last(),
{
    let points = path.points();
    let ghost p = lift(points@);
    let segments: usize = points.len() - 1;
    let mut starts: Vec<u128> = Vec::with_capacity(segments);
    let mut lengths: Vec<u64> = Vec::with_capacity(segments);
    let mut total: u128 = 0;
    let mut k: usize = 0;
    while k < segments
        invariant
            p == lift(points@),
            within_frame(p),
            segments == points.len() - 1,
            k <= segments,
            starts.len() == k,
            lengths.len() == k,
            total == arc_start(p, k as int),
            total <= k * 0x400_0000,
            forall|j: int| 0 <= j < k ==> #[trigger] starts[j] == arc_start(p, j),
            forall|j: int|
                0 <= j < k ==> #[trigger] lengths[j] == segment_length(p[j], p[j + 1])
                    && lengths[j] < 0x400_0000,
        decreases segments - k,
    {
        assert(p[k as int] == (points[k as int].0 as int, points[k as int].1 as int));
        assert(p[k as int + 1] == (points[k as int + 1].0 as int, points[k as int + 1].1 as int));
        let len: u64 = measure(points[k], points[k + 1]);
        starts.push(total);
        lengths.push(len);
        total = total + len as u128;
        k += 1;
    }
    let mut samples: [(i32, i32); RESOLUTION] = [(0i32, 0i32);RESOLUTION];
    let mut i: usize = 0;
    while i < RESOLUTION
        invariant
            p == lift(points@),
            within_frame(p),
            points.len() >= 2,
            segments == points.len() - 1,
            starts.len() == segments,
            lengths.len() == segments,
            total == path_length(p),
            total <= segments * 0x400_0000,
            forall|j: int| 0 <= j < segments ==> #[trigger] starts[j] == arc_start(p, j),
            forall|j: int|
                0 <= j < segments ==> #[trigger] lengths[j] == segment_length(p[j], p[j + 1])
                    && lengths[j] < 0x400_0000,
            i <= RESOLUTION,
            forall|j: int| 0 <= j < i ==> (#[trigger] lift(samples@)[j]) == resampled(p)[j],
        decreases RESOLUTION - i,
    {
        proof {
            lemma_target_on_path(p, i as int);
        }
        let d: u128 = (i as u128) * total / 127;
        let k: usize = find_segment(points, &starts, &lengths, d);
        let a = points[k];
        let b = points[k + 1];
        assert(p[k as int] == (a.0 as int, a.1 as int));
        assert(p[k as int + 1] == (b.0 as int, b.1 as int));
        proof {
            lemma_arc_start_monotone(p, k as int + 1, points.len() - 1);
            assert(arc_start(p, k as int + 1) == starts[k as int] + lengths[k as int]);
        }
        let t: u64 = (d - starts[k]) as u64;
        let len: u64 = lengths[k];
        let x: i32 = blend_coordinate(a.0, b.0, t, len);
        let y: i32 = blend_coordinate(a.1, b.1, t, len);
        let ghost before = samples@;
        samples[i] = (x, y);
        proof {
            assert(point_at(p, target(p, i as int)) == (x as int, y as int));
            assert forall|j: int| 0 <= j < i + 1 implies (#[trigger] lift(samples@)[j])
                == resampled(p)[j] by {
                if j < i {
                    assert(lift(before)[j] == resampled(p)[j]);
                }
            }
        }
        i += 1;
    }
    proof {
        assert(p == path@);
        assert(lift(samples@) =~= resampled(p));
        lemma_first_sample(p);
        lemma_last_sample(p);
    }
    PreparedGesture::from_samples(samples)
}

} // verus!
