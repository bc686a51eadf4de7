use gestures::gesture_from_positions;
use gestures::TemplateLibrary;

fn label(points: &[(i32, i32)]) -> Option<&'static str> {
    gesture_from_positions(&TemplateLibrary::builtin(), points)
}

#[test]
fn downward_stroke_is_down() {
    assert_eq!(label(&[(0, 0), (0, 100)]), Some("down"));
}

#[test]
fn leftward_stroke_is_left() {
    assert_eq!(label(&[(0, 0), (-100, 0)]), Some("left"));
}

#[test]
fn clockwise_square_is_rectangle() {
    assert_eq!(label(&[(0, 0), (100, 0), (100, 100), (0, 100)]), Some("rectangle"));
}

#[test]
fn counter_clockwise_square_is_rectangle() {
    assert_eq!(label(&[(0, 0), (0, 100), (100, 100), (100, 0)]), Some("rectangle"));
}

#[test]
fn empty_stroke_has_no_label() {
    assert_eq!(label(&[]), None);
}

#[test]
fn single_point_has_no_label() {
    assert_eq!(label(&[(7, -3)]), None);
    assert_eq!(label(&[(i32::MAX, i32::MIN)]), None);
}

#[test]
fn identical_points_have_no_label() {
    assert_eq!(label(&[(5, 5), (5, 5), (5, 5)]), None);
}

#[test]
fn same_shape_at_another_scale_and_place_has_same_label() {
    let small = label(&[(0, 0), (0, 100)]);
    let large = label(&[(1000, 1000), (1000, 1300)]);
    assert_eq!(small, large);
    assert_eq!(large, Some("down"));
}

#[test]
fn scaled_and_moved_strokes_keep_their_label() {
    let stroke = [(3, 1), (50, -2), (101, 0), (97, 52), (100, 99)];
    let expected = label(&stroke);
    assert_eq!(expected, Some("right-down"));
    for k in [1, 2, 7, 1000] {
        for (dx, dy) in [(0, 0), (-5000, 12), (99_999, -77_777)] {
            let moved: Vec<(i32, i32)> =
                stroke.iter().map(|p| (k * p.0 + dx, k * p.1 + dy)).collect();
            assert_eq!(label(&moved), expected);
        }
    }
}

#[test]
fn repeated_calls_agree() {
    let library = TemplateLibrary::builtin();
    let stroke = [(0, 0), (2, 30), (-1, 60), (1, 100)];
    let first = gesture_from_positions(&library, &stroke);
    assert_eq!(first, Some("down"));
    for _ in 0..5 {
        assert_eq!(gesture_from_positions(&library, &stroke), first);
    }
    assert_eq!(gesture_from_positions(&TemplateLibrary::builtin(), &stroke), first);
}

#[test]
fn consecutive_duplicates_do_not_matter() {
    assert_eq!(label(&[(0, 0), (0, 0), (0, 100), (0, 100)]), Some("down"));
}

#[test]
fn distant_stroke_still_gets_a_label() {
    let zigzag = [(0, 0), (10, 100), (20, 0), (30, 100), (40, 0), (50, 100)];
    assert_eq!(label(&zigzag), Some("right"));
}

#[test]
fn tie_goes_to_the_earlier_template() {
    // Mirrored in the diagonal, "down-up" and "right-left" are equally far
    // from a stroke along the diagonal and back.
    let library = TemplateLibrary::builtin();
    let stroke = [(0, 0), (100, 100), (0, 0)];
    let gesture = gestures::PreparedGesture::from_positions(&stroke).unwrap();
    let down_up = library.get(3).unwrap();
    let right_left = library.get(10).unwrap();
    assert_eq!(down_up.label, "down-up");
    assert_eq!(right_left.label, "right-left");
    assert_eq!(gesture.distance(&down_up.gesture), 1_082_196_555);
    assert_eq!(gesture.distance(&right_left.gesture), 1_082_196_555);
    assert_eq!(library.nearest(&gesture), Some(3));
    assert_eq!(gesture_from_positions(&library, &stroke), Some("down-up"));
}

#[test]
fn long_stroke_is_recognized() {
    let stroke: Vec<(i32, i32)> = (0..1000).map(|i| (i, (i * i) % 97)).collect();
    assert_eq!(label(&stroke), Some("right"));
}

#[test]
fn extreme_coordinates_are_handled() {
    assert_eq!(label(&[(i32::MIN, i32::MIN), (i32::MIN, i32::MAX)]), Some("down"));
    assert_eq!(label(&[(i32::MAX, 0), (i32::MIN, 0)]), Some("left"));
}
