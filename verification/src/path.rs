//! Normalization of a raw stroke: consecutive duplicates are collapsed and the
//! remaining points are moved into a square frame of half-extent [`UNIT`]
//! centered on the stroke's bounding box, with the same scale on both axes.
//!
//! Coordinates are integers. A raw stroke lives on whatever grid the caller
//! samples the pointer on; a normalized coordinate is a fixed-point number in
//! which [`UNIT`] stands for one.

use vstd::prelude::*;
use vstd::arithmetic::div_mod::lemma_div_is_ordered;
use vstd::arithmetic::div_mod::lemma_div_multiples_vanish;
use vstd::arithmetic::div_mod::lemma_hoist_over_denominator;

verus! {

/// The normalized coordinate that stands for one.
pub const UNIT: i32 = 16_777_216;

/// The mathematical points that a sequence of grid points stands for.
pub open spec fn lift(points: Seq<(i32, i32)>) -> Seq<(int, int)> {
    points.map_values(|p: (i32, i32)| (p.0 as int, p.1 as int))
}

/// The horizontal coordinates of a path, in order.
pub open spec fn xs(path: Seq<(int, int)>) -> Seq<int> {
    path.map_values(|p: (int, int)| p.0)
}

/// The vertical coordinates of a path, in order.
pub open spec fn ys(path: Seq<(int, int)>) -> Seq<int> {
    path.map_values(|p: (int, int)| p.1)
}

/// The path with every run of equal consecutive points collapsed to its
/// first point.
pub open spec fn dedup(path: Seq<(int, int)>) -> Seq<(int, int)>
    decreases path.len(),
{
    if path.len() <= 1 {
        path
    } else if path.last() == path[path.len() - 2] {
        dedup(path.drop_last())
    } else {
        dedup(path.drop_last()).push(path.last())
    }
}

/// Side of the smallest axis-aligned square that holds the path: the larger
/// of the bounding box's width and height, which is twice the half-size that
/// the frame is scaled by.
pub open spec fn extent(path: Seq<(int, int)>) -> int {
    let width = xs(path).max() - xs(path).min();
    let height = ys(path).max() - ys(path).min();
    if width >= height {
        width
    } else {
        height
    }
}

/// A stroke can be recognized when two or more points remain after
/// consecutive duplicates are collapsed and they do not all coincide.
pub open spec fn recognizable(path: Seq<(int, int)>) -> bool {
    dedup(path).len() >= 2 && extent(dedup(path)) > 0
}

/// One coordinate moved into the frame: its offset from the middle of
/// `low..=high`, divided by half of `extent`, in units of `1 / UNIT`
/// and rounded down.
pub open spec fn rescale(v: int, low: int, high: int, extent: int) -> int {
    (2 * v - (low + high)) * (UNIT as int) / extent
}

/// Every point of the path moved into the frame of the path's bounding box.
pub open spec fn frame(path: Seq<(int, int)>) -> Seq<(int, int)> {
    Seq::new(
        path.len(),
        |i: int|
            (
                rescale(path[i].0, xs(path).min(), xs(path).max(), extent(path)),
                rescale(path[i].1, ys(path).min(), ys(path).max(), extent(path)),
            ),
    )
}

/// The normalized form of a raw path.
pub open spec fn normalized(path: Seq<(int, int)>) -> Seq<(int, int)> {
    frame(dedup(path))
}

/// Every coordinate of the path lies between `-UNIT` and `UNIT`.
pub open spec fn within_frame(path: Seq<(int, int)>) -> bool {
    forall|i: int|
        0 <= i < path.len() ==> -UNIT <= (#[trigger] path[i]).0 <= UNIT && -UNIT <= path[i].1
            <= UNIT
}

/// The stroke has fewer than two distinct points, or no spatial extent.
#[derive(Debug, Clone, Copy, PartialEq, Eq, Structural)]
pub struct DegenerateInput;

/// A stroke in the normalized frame: at least two points, none outside the
/// square of half-extent [`UNIT`] around the origin.
#[derive(Debug)]
pub struct NormalizedPath {
    points: Vec<(i32, i32)>,
}

impl View for NormalizedPath {
    type V = Seq<(int, int)>;

    closed spec fn view(&self) -> Seq<(int, int)> {
        lift(self.points@)
    }
}

impl NormalizedPath {
    #[verifier::type_invariant]
    spec fn well_formed(&self) -> bool {
        self.points.len() >= 2 && within_frame(lift(self.points@))
    }

    /// The points of the path, in stroke order.
    pub fn points(&self) -> (points: &Vec<(i32, i32)>)
        ensures
            lift(points@) == self@,
            points.len() >= 2,
            within_frame(self@),
    {
        proof {
            use_type_invariant(self);
        }
        &self.points
    }
}

/// `dedup` only looks at the last two points of a path and at what it keeps
/// of the rest.
proof fn lemma_dedup_step(path: Seq<(int, int)>, i: int)
    requires
        0 <= i < path.len(),
    ensures
        i == 0 ==> dedup(path.take(i + 1)) == seq![path[0]],
        i > 0 && path[i] == path[i - 1] ==> dedup(path.take(i + 1)) == dedup(path.take(i)),
        i > 0 && path[i] != path[i - 1] ==> dedup(path.take(i + 1)) == dedup(path.take(i)).push(
            path[i],
        ),
{
    let longer = path.take(i + 1);
    assert(longer.last() == path[i]);
    if i == 0 {
        assert(longer =~= seq![path[0]]);
    } else {
        assert(longer[longer.len() - 2] == path[i - 1]);
        assert(longer.drop_last() =~= path.take(i));
    }
}

/// What `dedup` keeps is never empty unless the path is, and ends with the
/// path's last point.
pub proof fn lemma_dedup_last(path: Seq<(int, int)>)
    requires
        path.len() > 0,
    ensures
        dedup(path).len() > 0,
        dedup(path).len() <= path.len(),
        dedup(path).last() == path.last(),
        dedup(path)[0] == path[0],
    decreases path.len(),
{
    if path.len() > 1 {
        lemma_dedup_last(path.drop_last());
    }
}

/// Two points of the path differ.
pub open spec fn has_distinct_points(path: Seq<(int, int)>) -> bool {
    exists|i: int, j: int|
        0 <= i < path.len() && 0 <= j < path.len() && #[trigger] path[i] != #[trigger] path[j]
}

/// `dedup` keeps every point of the path at least once, and nothing else.
pub proof fn lemma_dedup_same_points(path: Seq<(int, int)>)
    ensures
        forall|i: int| 0 <= i < path.len() ==> dedup(path).contains(#[trigger] path[i]),
        forall|j: int| 0 <= j < dedup(path).len() ==> path.contains(#[trigger] dedup(path)[j]),
    decreases path.len(),
{
    if path.len() > 1 {
        let front = path.drop_last();
        let kept = dedup(path);
        lemma_dedup_same_points(front);
        lemma_dedup_last(front);
        assert forall|i: int| 0 <= i < path.len() implies kept.contains(#[trigger] path[i]) by {
            if i < path.len() - 1 {
                assert(front[i] == path[i]);
                let at: int = choose|at: int|
                    0 <= at < dedup(front).len() && dedup(front)[at] == front[i];
                assert(kept[at] == path[i]);
            } else {
                assert(kept[kept.len() - 1] == path[i]);
            }
        }
        assert forall|j: int| 0 <= j < kept.len() implies path.contains(#[trigger] kept[j]) by {
            if j < dedup(front).len() {
                assert(kept[j] == dedup(front)[j]);
                let at: int = choose|at: int| 0 <= at < front.len() && front[at] == dedup(front)[j];
                assert(path[at] == kept[j]);
            } else {
                assert(path[path.len() - 1] == kept[j]);
            }
        }
    }
}

/// A path spans some extent exactly when two of its points differ.
pub proof fn lemma_extent_positive(path: Seq<(int, int)>)
    ensures
        0 <= extent(path),
        extent(path) > 0 <==> has_distinct_points(path),
{
    let px = xs(path);
    let py = ys(path);
    px.min_ensures();
    px.max_ensures();
    py.min_ensures();
    py.max_ensures();
    if path.len() > 0 {
        assert(px.min() <= px[0] <= px.max());
        assert(py.min() <= py[0] <= py.max());
        if extent(path) > 0 {
            if px.max() - px.min() > 0 {
                let i: int = choose|i: int| 0 <= i < px.len() && px[i] == px.min();
                let j: int = choose|j: int| 0 <= j < px.len() && px[j] == px.max();
                assert(path[i] != path[j]);
            } else {
                let i: int = choose|i: int| 0 <= i < py.len() && py[i] == py.min();
                let j: int = choose|j: int| 0 <= j < py.len() && py[j] == py.max();
                assert(path[i] != path[j]);
            }
        }
        if has_distinct_points(path) {
            let (i, j): (int, int) = choose|i: int, j: int|
                0 <= i < path.len() && 0 <= j < path.len() && #[trigger] path[i] != #[trigger] path[j];
            assert(px.min() <= px[i] <= px.max());
            assert(px.min() <= px[j] <= px.max());
            assert(py.min() <= py[i] <= py.max());
            assert(py.min() <= py[j] <= py.max());
        }
    }
}

/// A stroke can be recognized exactly when two of its points differ.
pub proof fn lemma_recognizable(path: Seq<(int, int)>)
    ensures
        recognizable(path) <==> has_distinct_points(path),
{
    let kept = dedup(path);
    lemma_dedup_same_points(path);
    lemma_extent_positive(kept);
    if has_distinct_points(path) {
        let (i, j): (int, int) = choose|i: int, j: int|
            0 <= i < path.len() && 0 <= j < path.len() && #[trigger] path[i] != #[trigger] path[j];
        let a: int = choose|a: int| 0 <= a < kept.len() && kept[a] == path[i];
        let b: int = choose|b: int| 0 <= b < kept.len() && kept[b] == path[j];
        assert(kept[a] != kept[b]);
    }
    if has_distinct_points(kept) {
        let (a, b): (int, int) = choose|a: int, b: int|
            0 <= a < kept.len() && 0 <= b < kept.len() && #[trigger] kept[a] != #[trigger] kept[b];
        let i: int = choose|i: int| 0 <= i < path.len() && path[i] == kept[a];
        let j: int = choose|j: int| 0 <= j < path.len() && path[j] == kept[b];
        assert(path[i] != path[j]);
    }
}

/// Collapses every run of equal consecutive points to its first point.
pub fn dedup_consecutive(points: &[(i32, i32)]) -> (kept: Vec<(i32, i32)>)
    ensures
        lift(kept@) == dedup(lift(points@)),
{
    let ghost path = lift(points@);
    let mut kept: Vec<(i32, i32)> = Vec::new();
    let mut i: usize = 0;
    assert(lift(kept@) =~= dedup(path.take(0)));
    while i < points.len()
        invariant
            i <= points.len(),
            path == lift(points@),
            lift(kept@) == dedup(path.take(i as int)),
        decreases points.len() - i,
    {
        let p = points[i];
        proof {
            lemma_dedup_step(path, i as int);
        }
        if i == 0 {
            kept.push(p);
            assert(lift(kept@) =~= seq![path[0]]);
        } else {
            let q = points[i - 1];
            if p.0 != q.0 || p.1 != q.1 {
                let ghost before = kept@;
                kept.push(p);
                assert(lift(kept@) =~= lift(before).push(path[i as int]));
            }
        }
        i += 1;
    }
    assert(path.take(points.len() as int) =~= path);
    kept
}

/// The bounds `(x_min, x_max, y_min, y_max)` of a non-empty path.
fn bounding_box(points: &Vec<(i32, i32)>) -> (b: (i32, i32, i32, i32))
    requires
        points.len() > 0,
    ensures
        b.0 == xs(lift(points@)).min(),
        b.1 == xs(lift(points@)).max(),
        b.2 == ys(lift(points@)).min(),
        b.3 == ys(lift(points@)).max(),
{
    let ghost px = xs(lift(points@));
    let ghost py = ys(lift(points@));
    let first = points[0];
    let mut x_min: i32 = first.0;
    let mut x_max: i32 = first.0;
    let mut y_min: i32 = first.1;
    let mut y_max: i32 = first.1;
    let ghost mut at_x_min: int = 0;
    let ghost mut at_x_max: int = 0;
    let ghost mut at_y_min: int = 0;
    let ghost mut at_y_max: int = 0;
    let mut i: usize = 1;
    while i < points.len()
        invariant
            1 <= i <= points.len(),
            px == xs(lift(points@)),
            py == ys(lift(points@)),
            0 <= at_x_min < i && px[at_x_min] == x_min,
            0 <= at_x_max < i && px[at_x_max] == x_max,
            0 <= at_y_min < i && py[at_y_min] == y_min,
            0 <= at_y_max < i && py[at_y_max] == y_max,
            forall|j: int| 0 <= j < i ==> x_min <= #[trigger] px[j] <= x_max,
            forall|j: int| 0 <= j < i ==> y_min <= #[trigger] py[j] <= y_max,
        decreases points.len() - i,
    {
        let p = points[i];
        if p.0 < x_min {
            x_min = p.0;
            proof {
                at_x_min = i as int;
            }
        }
        if p.0 > x_max {
            x_max = p.0;
            proof {
                at_x_max = i as int;
            }
        }
        if p.1 < y_min {
            y_min = p.1;
            proof {
                at_y_min = i as int;
            }
        }
        if p.1 > y_max {
            y_max = p.1;
            proof {
                at_y_max = i as int;
            }
        }
        i += 1;
    }
    proof {
        px.min_ensures();
        px.max_ensures();
        py.min_ensures();
        py.max_ensures();
        assert(px.min() <= px[at_x_min]);
        assert(px.max() >= px[at_x_max]);
        assert(py.min() <= py[at_y_min]);
        assert(py.max() >= py[at_y_max]);
    }
    (x_min, x_max, y_min, y_max)
}

/// Moves one coordinate into the frame.
fn rescale_coordinate(v: i32, low: i32, high: i32, extent: u64) -> (r: i32)
    requires
        low <= v <= high,
        high - low <= extent,
        0 < extent <= 0xffff_ffff,
    ensures
        r == rescale(v as int, low as int, high as int, extent as int),
        -UNIT <= r <= UNIT,
{
    let offset: i64 = (v as i64 - low as i64) + (v as i64 - high as i64);
    let shifted: u64 = (offset + extent as i64) as u64;
    let unit: u64 = UNIT as u64;
    assert(shifted * unit <= 2 * extent * unit) by (nonlinear_arith)
        requires
            shifted <= 2 * extent,
            unit >= 0,
    ;
    let scaled: u64 = shifted * unit;
    let quotient: u64 = scaled / extent;
    proof {
        let e: int = extent as int;
        lemma_hoist_over_denominator(offset * unit, unit as int, extent as nat);
        assert(scaled == offset * unit + unit * e) by (nonlinear_arith)
            requires
                scaled == shifted * unit,
                shifted == offset + e,
        ;
        assert(2 * extent * unit == e * (2 * unit)) by (nonlinear_arith)
            requires
                e == extent,
        ;
        lemma_div_is_ordered(scaled as int, e * (2 * unit), e);
        lemma_div_multiples_vanish(2 * unit, e);
    }
    (quotient as i64 - unit as i64) as i32
}

/// Collapses consecutive duplicates and moves what is left into the frame of
/// its bounding box, keeping order and count. Fails when fewer than two
/// points are left or when they span no extent.
pub fn normalize(points: &[(i32, i32)]) -> (result: Result<NormalizedPath, DegenerateInput>)
    ensures
        result.is_ok() == recognizable(lift(points@)),
        result matches Ok(path) ==> path@ == normalized(lift(points@)) && within_frame(path@),
{
    let kept = dedup_consecutive(points);
    if kept.len() < 2 {
        return Err(DegenerateInput);
    }
    let (x_min, x_max, y_min, y_max) = bounding_box(&kept);
    let width: u64 = (x_max as i64 - x_min as i64) as u64;
    let height: u64 = (y_max as i64 - y_min as i64) as u64;
    let side: u64 = if width >= height {
        width
    } else {
        height
    };
    if side == 0 {
        return Err(DegenerateInput);
    }
    let ghost path = lift(kept@);
    let mut framed: Vec<(i32, i32)> = Vec::with_capacity(kept.len());
    let mut i: usize = 0;
    proof {
        xs(path).min_ensures();
        xs(path).max_ensures();
        ys(path).min_ensures();
        ys(path).max_ensures();
    }
    while i < kept.len()
        invariant
            i <= kept.len(),
            path == lift(kept@),
            framed.len() == i,
            0 < side <= 0xffff_ffff,
            side == extent(path),
            x_min == xs(path).min(),
            x_max == xs(path).max(),
            y_min == ys(path).min(),
            y_max == ys(path).max(),
            forall|j: int| 0 <= j < path.len() ==> x_min <= #[trigger] xs(path)[j] <= x_max,
            forall|j: int| 0 <= j < path.len() ==> y_min <= #[trigger] ys(path)[j] <= y_max,
            forall|j: int| 0 <= j < i ==> (#[trigger] lift(framed@)[j]) == frame(path)[j],
            within_frame(lift(framed@)),
        decreases kept.len() - i,
    {
        let p = kept[i];
        assert(xs(path)[i as int] == p.0);
        assert(ys(path)[i as int] == p.1);
        let x: i32 = rescale_coordinate(p.0, x_min, x_max, side);
        let y: i32 = rescale_coordinate(p.1, y_min, y_max, side);
        let ghost before = framed@;
        framed.push((x, y));
        assert(lift(framed@) =~= lift(before).push((x as int, y as int)));
        i += 1;
    }
    assert(lift(framed@) =~= frame(path));
    Ok(NormalizedPath { points: framed })
}

} // verus!
