//! The reference shapes and the nearest-neighbor choice among them.

use vstd::prelude::*;
use crate::gesture::descriptor;
use crate::gesture::distance_between;
use crate::gesture::PreparedGesture;
use crate::path::has_distinct_points;
use crate::path::lemma_recognizable;
use crate::path::lift;
use crate::path::recognizable;

verus! {

/// A named reference shape. Several templates may carry the same label.
#[derive(Debug, Clone, Copy)]
pub struct Template {
    pub label: &'static str,
    pub gesture: PreparedGesture,
}

/// An ordered collection of templates, fixed once it is built.
#[derive(Debug)]
pub struct TemplateLibrary {
    templates: Vec<Template>,
}

impl View for TemplateLibrary {
    type V = Seq<Template>;

    closed spec fn view(&self) -> Seq<Template> {
        self.templates@
    }
}

/// Template `k` is at the least distance from `gesture`, and no template
/// before it is as near.
pub open spec fn is_nearest(templates: Seq<Template>, gesture: Seq<(int, int)>, k: int) -> bool {
    &&& 0 <= k < templates.len()
    &&& forall|j: int|
        0 <= j < k ==> distance_between(gesture, (#[trigger] templates[j]).gesture@)
            > distance_between(gesture, templates[k].gesture@)
    &&& forall|j: int|
        k <= j < templates.len() ==> distance_between(gesture, (#[trigger] templates[j]).gesture@)
            >= distance_between(gesture, templates[k].gesture@)
}

/// Index of the template that `gesture` is matched to.
pub open spec fn nearest_index(templates: Seq<Template>, gesture: Seq<(int, int)>) -> int {
    choose|k: int| is_nearest(templates, gesture, k)
}

/// The label that a raw stroke is given: that of the nearest template, or
/// none where the stroke cannot be recognized or there is no template.
pub open spec fn classification(templates: Seq<Template>, path: Seq<(int, int)>) -> Option<
    &'static str,
> {
    if recognizable(path) && templates.len() > 0 {
        Some(templates[nearest_index(templates, descriptor(path))].label)
    } else {
        None
    }
}

/// At most one template is the nearest.
pub proof fn lemma_nearest_unique(
    templates: Seq<Template>,
    gesture: Seq<(int, int)>,
    k: int,
    m: int,
)
    requires
        is_nearest(templates, gesture, k),
        is_nearest(templates, gesture, m),
    ensures
        k == m,
{
    if k < m {
        assert(distance_between(gesture, templates[k].gesture@) > distance_between(
            gesture,
            templates[m].gesture@,
        ));
        assert(distance_between(gesture, templates[m].gesture@) >= distance_between(
            gesture,
            templates[k].gesture@,
        ));
    } else if m < k {
        assert(distance_between(gesture, templates[m].gesture@) > distance_between(
            gesture,
            templates[k].gesture@,
        ));
        assert(distance_between(gesture, templates[k].gesture@) >= distance_between(
            gesture,
            templates[m].gesture@,
        ));
    }
}

/// A shape of the library: its label and the corner points of a stroke that
/// draws it, on a grid whose vertical axis points down.
pub type Shape = (&'static str, Seq<(int, int)>);

/// Strokes that set out downward.
pub open spec fn downward_shapes() -> Seq<Shape> {
    seq![
        ("down", seq![(0, 0), (0, 100)]),
        ("down-left", seq![(0, 0), (0, 100), (-100, 100)]),
        ("down-right", seq![(0, 0), (0, 100), (100, 100)]),
        ("down-up", seq![(0, 0), (0, 100), (0, 0)]),
    ]
}

/// Strokes that set out to the left.
pub open spec fn leftward_shapes() -> Seq<Shape> {
    seq![
        ("left", seq![(0, 0), (-100, 0)]),
        ("left-down", seq![(0, 0), (-100, 0), (-100, 100)]),
        ("left-right", seq![(0, 0), (-100, 0), (0, 0)]),
        ("left-up", seq![(0, 0), (-100, 0), (-100, -100)]),
    ]
}

/// Strokes that set out to the right.
pub open spec fn rightward_shapes() -> Seq<Shape> {
    seq![
        ("right", seq![(0, 0), (100, 0)]),
        ("right-down", seq![(0, 0), (100, 0), (100, 100)]),
        ("right-left", seq![(0, 0), (100, 0), (0, 0)]),
        ("right-up", seq![(0, 0), (100, 0), (100, -100)]),
    ]
}

/// Strokes that set out upward.
pub open spec fn upward_shapes() -> Seq<Shape> {
    seq![
        ("up", seq![(0, 0), (0, -100)]),
        ("up-down", seq![(0, 0), (0, -100), (0, 0)]),
        ("up-left", seq![(0, 0), (0, -100), (-100, -100)]),
        ("up-right", seq![(0, 0), (0, -100), (100, -100)]),
    ]
}

/// Single diagonal strokes.
pub open spec fn diagonal_shapes() -> Seq<Shape> {
    seq![
        ("diag-downleft", seq![(0, 0), (-100, 100)]),
        ("diag-downright", seq![(0, 0), (100, 100)]),
        ("diag-upleft", seq![(0, 0), (-100, -100)]),
        ("diag-upright", seq![(0, 0), (100, -100)]),
    ]
}

/// The rectangle, drawn in either winding order.
pub open spec fn rectangle_shapes() -> Seq<Shape> {
    seq![
        ("rectangle", seq![(0, 0), (100, 0), (100, 100), (0, 100)]),
        ("rectangle", seq![(0, 0), (0, 100), (100, 100), (100, 0)]),
    ]
}

/// Arrow heads, open at the base.
pub open spec fn arrow_shapes() -> Seq<Shape> {
    seq![
        ("arrow-up", seq![(0, 100), (50, 0), (100, 100)]),
        ("arrow-down", seq![(0, 0), (50, 100), (100, 0)]),
        ("arrow-left", seq![(100, 0), (0, 50), (100, 100)]),
        ("arrow-right", seq![(0, 0), (100, 50), (0, 100)]),
    ]
}

/// Closed triangles.
pub open spec fn triangle_shapes() -> Seq<Shape> {
    seq![
        ("tri-up", seq![(0, 100), (50, 0), (100, 100), (0, 100)]),
        ("tri-down", seq![(0, 0), (50, 100), (100, 0), (0, 0)]),
        ("tri-left", seq![(100, 0), (0, 50), (100, 100), (100, 0)]),
        ("tri-right", seq![(0, 0), (100, 50), (0, 100), (0, 0)]),
    ]
}

/// Letters drawn in one stroke.
pub open spec fn letter_shapes() -> Seq<Shape> {
    seq![
        ("n", seq![(0, 100), (0, 0), (100, 100), (100, 0)]),
        ("t", seq![(0, 0), (100, 0), (50, 0), (50, 100)]),
        ("x", seq![(0, 0), (100, 100), (100, 0), (0, 100)]),
        ("z", seq![(0, 0), (100, 0), (0, 100), (100, 100)]),
    ]
}

/// The built-in shapes, in library order.
pub open spec fn builtin_shapes() -> Seq<Shape> {
    downward_shapes()
        + leftward_shapes()
        + rightward_shapes()
        + upward_shapes()
        + diagonal_shapes()
        + rectangle_shapes()
        + arrow_shapes()
        + triangle_shapes()
        + letter_shapes()
}

/// Every template carries the label and the descriptor of the shape at the
/// same position.
pub open spec fn holds_shapes(templates: Seq<Template>, shapes: Seq<Shape>) -> bool {
    &&& templates.len() == shapes.len()
    &&& forall|k: int|
        0 <= k < templates.len() ==> (#[trigger] templates[k]).label == shapes[k].0
            && templates[k].gesture@ == descriptor(shapes[k].1)
}

/// Templates that hold one list of shapes, followed by templates that hold
/// another, hold the two lists joined.
proof fn lemma_holds_shapes_joined(
    front: Seq<Template>,
    front_shapes: Seq<Shape>,
    back: Seq<Template>,
    back_shapes: Seq<Shape>,
)
    requires
        holds_shapes(front, front_shapes),
        holds_shapes(back, back_shapes),
    ensures
        holds_shapes(front + back, front_shapes + back_shapes),
{
    let joined = front + back;
    let shapes = front_shapes + back_shapes;
    assert forall|k: int| 0 <= k < joined.len() implies (#[trigger] joined[k]).label
        == shapes[k].0 && joined[k].gesture@ == descriptor(shapes[k].1) by {
        if k < front.len() {
            assert(joined[k] == front[k]);
        } else {
            assert(joined[k] == back[k - front.len()]);
        }
    }
}

/// The template of a shape drawn through the given corner points, of which
/// two must differ.
fn template(label: &'static str, outline: Vec<(i32, i32)>) -> (t: Template)
    requires
        has_distinct_points(lift(outline@)),
    ensures
        t.label == label,
        t.gesture@ == descriptor(lift(outline@)),
{
    proof {
        lemma_recognizable(lift(outline@));
    }
    Template { label, gesture: PreparedGesture::from_positions(outline.as_slice()).unwrap() }
}

/// The template of a stroke with two corner points.
fn stroke2(label: &'static str, a: (i32, i32), b: (i32, i32)) -> (t: Template)
    requires
        a != b,
    ensures
        t.label == label,
        t.gesture@ == descriptor(seq![(a.0 as int, a.1 as int), (b.0 as int, b.1 as int)]),
{
    let outline: Vec<(i32, i32)> = vec![a, b];
    proof {
        let path = lift(outline@);
        assert(path =~= seq![(a.0 as int, a.1 as int), (b.0 as int, b.1 as int)]);
        assert(path[0] != path[1]);
    }
    template(label, outline)
}

/// The template of a stroke with three corner points.
fn stroke3(label: &'static str, a: (i32, i32), b: (i32, i32), c: (i32, i32)) -> (t: Template)
    requires
        a != b || a != c,
    ensures
        t.label == label,
        t.gesture@ == descriptor(
            seq![(a.0 as int, a.1 as int), (b.0 as int, b.1 as int), (c.0 as int, c.1 as int)],
        ),
{
    let outline: Vec<(i32, i32)> = vec![a, b, c];
    proof {
        let path = lift(outline@);
        assert(path =~= seq![
            (a.0 as int, a.1 as int),
            (b.0 as int, b.1 as int),
            (c.0 as int, c.1 as int),
        ]);
        assert(path[0] != path[1] || path[0] != path[2]);
    }
    template(label, outline)
}

/// The template of a stroke with four corner points.
fn stroke4(
    label: &'static str,
    a: (i32, i32),
    b: (i32, i32),
    c: (i32, i32),
    d: (i32, i32),
) -> (t: Template)
    requires
        a != b || a != c || a != d,
    ensures
        t.label == label,
        t.gesture@ == descriptor(
            seq![
                (a.0 as int, a.1 as int),
                (b.0 as int, b.1 as int),
                (c.0 as int, c.1 as int),
                (d.0 as int, d.1 as int),
            ],
        ),
{
    let outline: Vec<(i32, i32)> = vec![a, b, c, d];
    proof {
        let path = lift(outline@);
        assert(path =~= seq![
            (a.0 as int, a.1 as int),
            (b.0 as int, b.1 as int),
            (c.0 as int, c.1 as int),
            (d.0 as int, d.1 as int),
        ]);
        assert(path[0] != path[1] || path[0] != path[2] || path[0] != path[3]);
    }
    template(label, outline)
}

/// Templates of the downward family.
fn downward_templates() -> (templates: Vec<Template>)
    ensures
        holds_shapes(templates@, downward_shapes()),
{
    let mut templates: Vec<Template> = Vec::with_capacity(4);
    templates.push(stroke2("down", (0, 0), (0, 100)));
    templates.push(stroke3("down-left", (0, 0), (0, 100), (-100, 100)));
    templates.push(stroke3("down-right", (0, 0), (0, 100), (100, 100)));
    templates.push(stroke3("down-up", (0, 0), (0, 100), (0, 0)));
    templates
}

/// Templates of the leftward family.
fn leftward_templates() -> (templates: Vec<Template>)
    ensures
        holds_shapes(templates@, leftward_shapes()),
{
    let mut templates: Vec<Template> = Vec::with_capacity(4);
    templates.push(stroke2("left", (0, 0), (-100, 0)));
    templates.push(stroke3("left-down", (0, 0), (-100, 0), (-100, 100)));
    templates.push(stroke3("left-right", (0, 0), (-100, 0), (0, 0)));
    templates.push(stroke3("left-up", (0, 0), (-100, 0), (-100, -100)));
    templates
}

/// Templates of the rightward family.
fn rightward_templates() -> (templates: Vec<Template>)
    ensures
        holds_shapes(templates@, rightward_shapes()),
{
    let mut templates: Vec<Template> = Vec::with_capacity(4);
    templates.push(stroke2("right", (0, 0), (100, 0)));
    templates.push(stroke3("right-down", (0, 0), (100, 0), (100, 100)));
    templates.push(stroke3("right-left", (0, 0), (100, 0), (0, 0)));
    templates.push(stroke3("right-up", (0, 0), (100, 0), (100, -100)));
    templates
}

/// Templates of the upward family.
fn upward_templates() -> (templates: Vec<Template>)
    ensures
        holds_shapes(templates@, upward_shapes()),
{
    let mut templates: Vec<Template> = Vec::with_capacity(4);
    templates.push(stroke2("up", (0, 0), (0, -100)));
    templates.push(stroke3("up-down", (0, 0), (0, -100), (0, 0)));
    templates.push(stroke3("up-left", (0, 0), (0, -100), (-100, -100)));
    templates.push(stroke3("up-right", (0, 0), (0, -100), (100, -100)));
    templates
}

/// Templates of the diagonal family.
fn diagonal_templates() -> (templates: Vec<Template>)
    ensures
        holds_shapes(templates@, diagonal_shapes()),
{
    let mut templates: Vec<Template> = Vec::with_capacity(4);
    templates.push(stroke2("diag-downleft", (0, 0), (-100, 100)));
    templates.push(stroke2("diag-downright", (0, 0), (100, 100)));
    templates.push(stroke2("diag-upleft", (0, 0), (-100, -100)));
    templates.push(stroke2("diag-upright", (0, 0), (100, -100)));
    templates
}

/// Templates of the rectangle family.
fn rectangle_templates() -> (templates: Vec<Template>)
    ensures
        holds_shapes(templates@, rectangle_shapes()),
{
    let mut templates: Vec<Template> = Vec::with_capacity(2);
    templates.push(stroke4("rectangle", (0, 0), (100, 0), (100, 100), (0, 100)));
    templates.push(stroke4("rectangle", (0, 0), (0, 100), (100, 100), (100, 0)));
    templates
}

/// Templates of the arrow family.
fn arrow_templates() -> (templates: Vec<Template>)
    ensures
        holds_shapes(templates@, arrow_shapes()),
{
    let mut templates: Vec<Template> = Vec::with_capacity(4);
    templates.push(stroke3("arrow-up", (0, 100), (50, 0), (100, 100)));
    templates.push(stroke3("arrow-down", (0, 0), (50, 100), (100, 0)));
    templates.push(stroke3("arrow-left", (100, 0), (0, 50), (100, 100)));
    templates.push(stroke3("arrow-right", (0, 0), (100, 50), (0, 100)));
    templates
}

/// Templates of the triangle family.
fn triangle_templates() -> (templates: Vec<Template>)
    ensures
        holds_shapes(templates@, triangle_shapes()),
{
    let mut templates: Vec<Template> = Vec::with_capacity(4);
    templates.push(stroke4("tri-up", (0, 100), (50, 0), (100, 100), (0, 100)));
    templates.push(stroke4("tri-down", (0, 0), (50, 100), (100, 0), (0, 0)));
    templates.push(stroke4("tri-left", (100, 0), (0, 50), (100, 100), (100, 0)));
    templates.push(stroke4("tri-right", (0, 0), (100, 50), (0, 100), (0, 0)));
    templates
}

/// Templates of the letter family.
fn letter_templates() -> (templates: Vec<Template>)
    ensures
        holds_shapes(templates@, letter_shapes()),
{
    let mut templates: Vec<Template> = Vec::with_capacity(4);
    templates.push(stroke4("n", (0, 100), (0, 0), (100, 100), (100, 0)));
    templates.push(stroke4("t", (0, 0), (100, 0), (50, 0), (50, 100)));
    templates.push(stroke4("x", (0, 0), (100, 100), (100, 0), (0, 100)));
    templates.push(stroke4("z", (0, 0), (100, 0), (0, 100), (100, 100)));
    templates
}

impl TemplateLibrary {
    /// Builds the library of built-in shapes, in the order of
    /// [`builtin_shapes`].
    pub fn builtin() -> (library: TemplateLibrary)
        ensures
            holds_shapes(library@, builtin_shapes()),
    {
        let mut templates: Vec<Template> = downward_templates();
        let ghost mut shapes: Seq<Shape> = downward_shapes();
        let mut family: Vec<Template> = leftward_templates();
        proof {
            lemma_holds_shapes_joined(templates@, shapes, family@, leftward_shapes());
            shapes = shapes + leftward_shapes();
        }
        templates.append(&mut family);
        let mut family: Vec<Template> = rightward_templates();
        proof {
            lemma_holds_shapes_joined(templates@, shapes, family@, rightward_shapes());
            shapes = shapes + rightward_shapes();
        }
        templates.append(&mut family);
        let mut family: Vec<Template> = upward_templates();
        proof {
            lemma_holds_shapes_joined(templates@, shapes, family@, upward_shapes());
            shapes = shapes + upward_shapes();
        }
        templates.append(&mut family);
        let mut family: Vec<Template> = diagonal_templates();
        proof {
            lemma_holds_shapes_joined(templates@, shapes, family@, diagonal_shapes());
            shapes = shapes + diagonal_shapes();
        }
        templates.append(&mut family);
        let mut family: Vec<Template> = rectangle_templates();
        proof {
            lemma_holds_shapes_joined(templates@, shapes, family@, rectangle_shapes());
            shapes = shapes + rectangle_shapes();
        }
        templates.append(&mut family);
        let mut family: Vec<Template> = arrow_templates();
        proof {
            lemma_holds_shapes_joined(templates@, shapes, family@, arrow_shapes());
            shapes = shapes + arrow_shapes();
        }
        templates.append(&mut family);
        let mut family: Vec<Template> = triangle_templates();
        proof {
            lemma_holds_shapes_joined(templates@, shapes, family@, triangle_shapes());
            shapes = shapes + triangle_shapes();
        }
        templates.append(&mut family);
        let mut family: Vec<Template> = letter_templates();
        proof {
            lemma_holds_shapes_joined(templates@, shapes, family@, letter_shapes());
            shapes = shapes + letter_shapes();
        }
        templates.append(&mut family);
        TemplateLibrary { templates }
    }

    /// Number of templates.
    pub fn len(&self) -> (n: usize)
        ensures
            n == self@.len(),
    {
        self.templates.len()
    }

    /// The template at position `k`.
    pub fn get(&self, k: usize) -> (template: Option<&Template>)
        ensures
            template.is_some() == (k < self@.len()),
            template matches Some(t) ==> *t == self@[k as int],
    {
        if k < self.templates.len() {
            Some(&self.templates[k])
        } else {
            None
        }
    }

    /// Position of the template nearest to `gesture`: the first one at the
    /// least distance. There is none only in an empty library.
    pub fn nearest(&self, gesture: &PreparedGesture) -> (found: Option<usize>)
        ensures
            found.is_some() == (self@.len() > 0),
            found matches Some(k) ==> is_nearest(self@, gesture@, k as int) && k == nearest_index(
                self@,
                gesture@,
            ),
    {
        if self.templates.len() == 0 {
            return None;
        }
        let mut best: usize = 0;
        let mut least: u64 = gesture.distance(&self.templates[0].gesture);
        let mut j: usize = 1;
        while j < self.templates.len()
            invariant
                1 <= j <= self.templates.len(),
                0 <= best < j,
                least == distance_between(gesture@, self.templates[best as int].gesture@),
                forall|i: int|
                    0 <= i < best ==> distance_between(
                        gesture@,
                        (#[trigger] self.templates[i]).gesture@,
                    ) > least,
                forall|i: int|
                    best <= i < j ==> distance_between(
                        gesture@,
                        (#[trigger] self.templates[i]).gesture@,
                    ) >= least,
            decreases self.templates.len() - j,
        {
            let d: u64 = gesture.distance(&self.templates[j].gesture);
            if d < least {
                best = j;
                least = d;
            }
            j += 1;
        }
        proof {
            assert(is_nearest(self@, gesture@, best as int));
            lemma_nearest_unique(self@, gesture@, best as int, nearest_index(self@, gesture@));
        }
        Some(best)
    }
}

/// Names the reference shape nearest to a raw stroke. A stroke that cannot
/// be recognized gets no label; any other stroke gets the label of the
/// nearest template, however far that is.
pub fn gesture_from_positions(library: &TemplateLibrary, input_positions: &[(i32, i32)]) -> (label:
    Option<&'static str>)
    ensures
        label == classification(library@, lift(input_positions@)),
{
    let gesture = match PreparedGesture::from_positions(input_positions) {
        Some(gesture) => gesture,
        None => {
            return None;
        },
    };
    match library.nearest(&gesture) {
        Some(k) => Some(library.templates[k].label),
        None => None,
    }
}

} // verus!
