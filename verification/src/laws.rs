//! Laws that hold of the recognizer as a whole.

use vstd::prelude::*;
use vstd::arithmetic::div_mod::lemma_fundamental_div_mod;
use vstd::arithmetic::div_mod::lemma_fundamental_div_mod_converse;
use vstd::arithmetic::div_mod::lemma_mod_bound;
use crate::gesture::descriptor;
use crate::gesture::distance_between;
use crate::gesture::distance_upto;
use crate::gesture::PreparedGesture;
use crate::gesture::RESOLUTION;
use crate::library::classification;
use crate::library::Template;
use crate::library::TemplateLibrary;
use crate::path::dedup;
use crate::path::extent;
use crate::path::frame;
use crate::path::has_distinct_points;
use crate::path::lemma_dedup_last;
use crate::path::lemma_recognizable;
use crate::path::lift;
use crate::path::normalized;
use crate::path::recognizable;
use crate::path::rescale;
use crate::path::xs;
use crate::path::ys;
use crate::path::UNIT;

verus! {

/// The path scaled by `k` and then moved by `(dx, dy)`.
pub open spec fn similar(path: Seq<(int, int)>, k: int, dx: int, dy: int) -> Seq<(int, int)> {
    Seq::new(path.len(), |i: int| (k * path[i].0 + dx, k * path[i].1 + dy))
}

/// Every value of the sequence scaled by `k` and then moved by `d`.
spec fn affine(values: Seq<int>, k: int, d: int) -> Seq<int> {
    Seq::new(values.len(), |i: int| k * values[i] + d)
}

/// Summing gaps position by position gives the same total whichever
/// descriptor comes first, and that total is not negative.
proof fn lemma_distance_upto(a: Seq<(int, int)>, b: Seq<(int, int)>, n: int)
    ensures
        distance_upto(a, b, n) == distance_upto(b, a, n),
        distance_upto(a, a, n) == 0,
        0 <= distance_upto(a, b, n),
    decreases n,
{
    if n > 0 {
        lemma_distance_upto(a, b, n - 1);
    }
}

/// The distance from a descriptor to itself is zero.
pub proof fn distance_to_self_is_zero(a: PreparedGesture)
    ensures
        distance_between(a@, a@) == 0,
{
    lemma_distance_upto(a@, a@, a@.len() as int);
}

/// The distance between two descriptors is the same in both directions.
pub proof fn distance_is_symmetric(a: PreparedGesture, b: PreparedGesture)
    ensures
        distance_between(a@, b@) == distance_between(b@, a@),
{
    a.lemma_len();
    b.lemma_len();
    lemma_distance_upto(a@, b@, RESOLUTION as int);
}

/// The distance between two descriptors is never negative.
pub proof fn distance_is_not_negative(a: PreparedGesture, b: PreparedGesture)
    ensures
        0 <= distance_between(a@, b@),
{
    lemma_distance_upto(a@, b@, a@.len() as int);
}

/// A stroke of fewer than two points gets no label.
pub proof fn short_stroke_gets_no_label(templates: Seq<Template>, path: Seq<(int, int)>)
    requires
        path.len() < 2,
    ensures
        !recognizable(path),
        classification(templates, path) is None,
{
    if path.len() > 0 {
        lemma_dedup_last(path);
    }
}

/// A stroke whose points are all the same point gets no label, however many
/// they are.
pub proof fn still_stroke_gets_no_label(templates: Seq<Template>, path: Seq<(int, int)>)
    requires
        forall|i: int| 0 <= i < path.len() ==> #[trigger] path[i] == path[0],
    ensures
        !recognizable(path),
        classification(templates, path) is None,
{
    lemma_recognizable(path);
}

/// A stroke with two distinct points has a descriptor, and it has exactly
/// `RESOLUTION` samples, however many points the stroke has.
pub proof fn descriptor_has_fixed_length(path: Seq<(int, int)>)
    requires
        has_distinct_points(path),
    ensures
        recognizable(path),
        descriptor(path).len() == RESOLUTION,
{
    lemma_recognizable(path);
}

/// The label of a stroke is a function of the templates and the stroke's
/// points alone: the same library and the same points give the same label.
pub proof fn classification_is_deterministic(
    first: TemplateLibrary,
    second: TemplateLibrary,
    stroke: Seq<(i32, i32)>,
    again: Seq<(i32, i32)>,
)
    requires
        first@ == second@,
        stroke == again,
    ensures
        classification(first@, lift(stroke)) == classification(second@, lift(again)),
{
}

/// A common positive factor of numerator and denominator does not change a
/// quotient, whatever the sign of the numerator.
proof fn lemma_common_factor(n: int, d: int, k: int)
    requires
        d > 0,
        k > 0,
    ensures
        (k * n) / (k * d) == n / d,
{
    let q: int = n / d;
    let r: int = n % d;
    lemma_fundamental_div_mod(n, d);
    lemma_mod_bound(n, d);
    assert(k * n == q * (k * d) + k * r) by (nonlinear_arith)
        requires
            n == d * q + r,
    ;
    assert(0 <= k * r < k * d) by (nonlinear_arith)
        requires
            0 <= r < d,
            k > 0,
    ;
    lemma_fundamental_div_mod_converse(k * n, k * d, q, k * r);
}

/// Scaling and moving a coordinate together with its bounds leaves its
/// place in the frame unchanged.
proof fn lemma_rescale_similar(v: int, low: int, high: int, side: int, k: int, d: int)
    requires
        side > 0,
        k > 0,
    ensures
        rescale(k * v + d, k * low + d, k * high + d, k * side) == rescale(v, low, high, side),
{
    let n: int = (2 * v - (low + high)) * (UNIT as int);
    assert((2 * (k * v + d) - ((k * low + d) + (k * high + d))) * (UNIT as int) == k * n)
        by (nonlinear_arith)
        requires
            n == (2 * v - (low + high)) * (UNIT as int),
    ;
    lemma_common_factor(n, side, k);
}

/// Scaling by a positive factor and moving a sequence of values does the
/// same to its least and to its greatest value.
proof fn lemma_affine_bounds(values: Seq<int>, k: int, d: int)
    requires
        values.len() > 0,
        k > 0,
    ensures
        affine(values, k, d).min() == k * values.min() + d,
        affine(values, k, d).max() == k * values.max() + d,
{
    let image = affine(values, k, d);
    values.min_ensures();
    values.max_ensures();
    image.min_ensures();
    image.max_ensures();
    let low: int = choose|i: int| 0 <= i < values.len() && values[i] == values.min();
    let high: int = choose|i: int| 0 <= i < values.len() && values[i] == values.max();
    let image_low: int = choose|i: int| 0 <= i < image.len() && image[i] == image.min();
    let image_high: int = choose|i: int| 0 <= i < image.len() && image[i] == image.max();
    assert(image.min() <= image[low]);
    assert(image.max() >= image[high]);
    assert(values.min() <= values[image_low]);
    assert(values.max() >= values[image_high]);
    assert(k * values.min() <= k * values[image_low]) by (nonlinear_arith)
        requires
            values.min() <= values[image_low],
            k > 0,
    ;
    assert(k * values.max() >= k * values[image_high]) by (nonlinear_arith)
        requires
            values.max() >= values[image_high],
            k > 0,
    ;
}

/// Collapsing consecutive duplicates and then scaling and moving gives the
/// same path as doing it the other way round.
proof fn lemma_dedup_similar(path: Seq<(int, int)>, k: int, dx: int, dy: int)
    requires
        k > 0,
    ensures
        dedup(similar(path, k, dx, dy)) == similar(dedup(path), k, dx, dy),
    decreases path.len(),
{
    let image = similar(path, k, dx, dy);
    if path.len() > 1 {
        let front = path.drop_last();
        let a = path[path.len() - 2];
        let b = path.last();
        lemma_dedup_similar(front, k, dx, dy);
        assert(image.drop_last() =~= similar(front, k, dx, dy));
        assert(image.last() == image[image.len() - 2] <==> b == a) by (nonlinear_arith)
            requires
                k > 0,
                image.last() == (k * b.0 + dx, k * b.1 + dy),
                image[image.len() - 2] == (k * a.0 + dx, k * a.1 + dy),
        ;
        if b != a {
            assert(similar(dedup(front), k, dx, dy).push(image.last()) =~= similar(
                dedup(front).push(b),
                k,
                dx,
                dy,
            ));
        }
    } else {
        assert(image =~= similar(dedup(path), k, dx, dy));
    }
}

/// Scaling a path by a positive factor scales its extent by the same
/// factor; moving it changes nothing.
proof fn lemma_extent_similar(path: Seq<(int, int)>, k: int, dx: int, dy: int)
    requires
        path.len() > 0,
        k > 0,
    ensures
        xs(similar(path, k, dx, dy)).min() == k * xs(path).min() + dx,
        xs(similar(path, k, dx, dy)).max() == k * xs(path).max() + dx,
        ys(similar(path, k, dx, dy)).min() == k * ys(path).min() + dy,
        ys(similar(path, k, dx, dy)).max() == k * ys(path).max() + dy,
        extent(similar(path, k, dx, dy)) == k * extent(path),
{
    let image = similar(path, k, dx, dy);
    assert(xs(image) =~= affine(xs(path), k, dx));
    assert(ys(image) =~= affine(ys(path), k, dy));
    lemma_affine_bounds(xs(path), k, dx);
    lemma_affine_bounds(ys(path), k, dy);
    let width: int = xs(path).max() - xs(path).min();
    let height: int = ys(path).max() - ys(path).min();
    assert((k * xs(path).max() + dx) - (k * xs(path).min() + dx) == k * width)
        by (nonlinear_arith)
        requires
            width == xs(path).max() - xs(path).min(),
    ;
    assert((k * ys(path).max() + dy) - (k * ys(path).min() + dy) == k * height)
        by (nonlinear_arith)
        requires
            height == ys(path).max() - ys(path).min(),
    ;
    assert(width >= height <==> k * width >= k * height) by (nonlinear_arith)
        requires
            k > 0,
    ;
}

/// Recognition does not depend on where a stroke is drawn nor on how large:
/// a stroke scaled by a positive whole factor and moved anywhere can be
/// recognized exactly when the stroke itself can, and has the same
/// normalized form.
pub proof fn normalization_ignores_scale_and_position(
    path: Seq<(int, int)>,
    k: int,
    dx: int,
    dy: int,
)
    requires
        k > 0,
    ensures
        recognizable(similar(path, k, dx, dy)) == recognizable(path),
        recognizable(path) ==> normalized(similar(path, k, dx, dy)) == normalized(path),
{
    let kept = dedup(path);
    let image = similar(kept, k, dx, dy);
    lemma_dedup_similar(path, k, dx, dy);
    if kept.len() > 0 {
        lemma_extent_similar(kept, k, dx, dy);
        let side: int = extent(kept);
        assert(k * side > 0 <==> side > 0) by (nonlinear_arith)
            requires
                k > 0,
        ;
        if side > 0 {
            assert forall|i: int| 0 <= i < kept.len() implies frame(image)[i] == frame(kept)[i] by {
                lemma_rescale_similar(kept[i].0, xs(kept).min(), xs(kept).max(), side, k, dx);
                lemma_rescale_similar(kept[i].1, ys(kept).min(), ys(kept).max(), side, k, dy);
            }
            assert(frame(image) =~= frame(kept));
        }
    }
}

/// A stroke gets the same label wherever it is drawn and however large: the
/// label of a stroke scaled by a positive whole factor and moved anywhere is
/// the label of the stroke itself.
pub proof fn classification_ignores_scale_and_position(
    templates: Seq<Template>,
    path: Seq<(int, int)>,
    k: int,
    dx: int,
    dy: int,
)
    requires
        k > 0,
    ensures
        classification(templates, similar(path, k, dx, dy)) == classification(templates, path),
{
    normalization_ignores_scale_and_position(path, k, dx, dy);
}

} // verus!
