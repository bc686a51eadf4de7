use gestures::normalize;
use gestures::path::dedup_consecutive;
use gestures::DegenerateInput;
use gestures::UNIT;

fn frame(points: &[(i32, i32)]) -> Vec<(i32, i32)> {
    normalize(points).unwrap().points().clone()
}

#[test]
fn unit_is_two_to_the_twenty_fourth() {
    assert_eq!(UNIT, 1 << 24);
}

#[test]
fn vertical_stroke_touches_both_edges() {
    assert_eq!(frame(&[(0, 0), (0, 100)]), vec![(0, -UNIT), (0, UNIT)]);
}

#[test]
fn shorter_axis_keeps_its_proportion() {
    assert_eq!(frame(&[(0, 0), (200, 100)]), vec![(-UNIT, -UNIT / 2), (UNIT, UNIT / 2)]);
}

#[test]
fn coordinates_are_rounded_down() {
    assert_eq!(frame(&[(0, 0), (3, 0), (1, 0)]), vec![(-UNIT, 0), (UNIT, 0), (-5_592_406, 0)]);
}

#[test]
fn duplicates_are_collapsed_before_framing() {
    assert_eq!(
        frame(&[(5, 5), (5, 5), (7, 5), (7, 5), (7, 9), (5, 5)]),
        vec![(-UNIT / 2, -UNIT), (UNIT / 2, -UNIT), (UNIT / 2, UNIT), (-UNIT / 2, -UNIT)]
    );
}

#[test]
fn frame_ignores_position_and_scale() {
    let stroke = [(3, 1), (50, -2), (101, 0), (97, 52), (100, 99)];
    let moved: Vec<(i32, i32)> = stroke.iter().map(|p| (13 * p.0 - 700, 13 * p.1 + 41)).collect();
    assert_eq!(frame(&moved), frame(&stroke));
}

#[test]
fn full_range_of_the_grid_fits() {
    assert_eq!(frame(&[(i32::MIN, 0), (i32::MAX, 0)]), vec![(-UNIT, 0), (UNIT, 0)]);
    assert_eq!(
        frame(&[(i32::MIN, i32::MAX), (i32::MAX, i32::MIN)]),
        vec![(-UNIT, UNIT), (UNIT, -UNIT)]
    );
}

#[test]
fn dedup_keeps_first_of_each_run_in_order() {
    assert_eq!(
        dedup_consecutive(&[(1, 1), (1, 1), (2, 2), (1, 1), (1, 1), (1, 1), (3, 3)]),
        vec![(1, 1), (2, 2), (1, 1), (3, 3)]
    );
    assert_eq!(dedup_consecutive(&[]), vec![]);
    assert_eq!(dedup_consecutive(&[(4, 2)]), vec![(4, 2)]);
    assert_eq!(dedup_consecutive(&[(1, 2), (2, 1)]), vec![(1, 2), (2, 1)]);
    assert_eq!(dedup_consecutive(&[(1, 2), (1, 3)]), vec![(1, 2), (1, 3)]);
}

#[test]
fn empty_stroke_is_degenerate() {
    assert_eq!(normalize(&[]).err(), Some(DegenerateInput));
}

#[test]
fn single_point_is_degenerate() {
    assert_eq!(normalize(&[(9, 9)]).err(), Some(DegenerateInput));
}

#[test]
fn repeated_point_is_degenerate() {
    assert_eq!(normalize(&[(9, 9), (9, 9), (9, 9), (9, 9)]).err(), Some(DegenerateInput));
}

#[test]
fn two_distinct_points_are_enough() {
    assert!(normalize(&[(9, 9), (9, 10)]).is_ok());
    assert!(normalize(&[(9, 9), (9, 9), (10, 9)]).is_ok());
}
