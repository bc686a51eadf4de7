use gestures::PreparedGesture;

fn gesture(points: &[(i32, i32)]) -> PreparedGesture {
    PreparedGesture::from_positions(points).unwrap()
}

#[test]
fn distance_to_itself_is_zero() {
    let a = gesture(&[(3, 1), (50, -2), (101, 0), (97, 52), (100, 99)]);
    assert_eq!(a.distance(&a), 0);
    let b = gesture(&[(0, 0), (0, 100)]);
    assert_eq!(b.distance(&b), 0);
}

#[test]
fn distance_is_the_same_both_ways() {
    let a = gesture(&[(3, 1), (50, -2), (101, 0), (97, 52), (100, 99)]);
    let b = gesture(&[(0, 0), (100, 0), (100, 100), (0, 100)]);
    assert_eq!(a.distance(&b), b.distance(&a));
    assert!(a.distance(&b) > 0);
}

#[test]
fn distance_sums_both_coordinates_over_all_samples() {
    let down = gesture(&[(0, 0), (0, 100)]);
    let up = gesture(&[(0, 0), (0, -100)]);
    let left = gesture(&[(0, 0), (-100, 0)]);
    let down_up = gesture(&[(0, 0), (0, 100), (0, 0)]);
    assert_eq!(down.distance(&up), 2_164_392_962);
    assert_eq!(down.distance(&left), 2_164_392_962);
    assert_eq!(down.distance(&down_up), 1_437_292_180);
}

#[test]
fn opposite_windings_are_far_apart() {
    let clockwise = gesture(&[(0, 0), (100, 0), (100, 100), (0, 100)]);
    let counter = gesture(&[(0, 0), (0, 100), (100, 100), (100, 0)]);
    assert_eq!(clockwise.distance(&counter), 4_294_967_254);
}
