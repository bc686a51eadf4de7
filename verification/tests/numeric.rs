use gestures::numeric::abs_diff;
use gestures::numeric::isqrt;

#[test]
fn isqrt_rounds_down() {
    assert_eq!(isqrt(0), 0);
    assert_eq!(isqrt(1), 1);
    assert_eq!(isqrt(2), 1);
    assert_eq!(isqrt(3), 1);
    assert_eq!(isqrt(4), 2);
    assert_eq!(isqrt(15), 3);
    assert_eq!(isqrt(16), 4);
    assert_eq!(isqrt(17), 4);
    assert_eq!(isqrt(1 << 51), 47_453_132);
    assert_eq!(isqrt(u64::MAX), 4_294_967_295);
}

#[test]
fn isqrt_of_squares_is_exact() {
    for r in [0u64, 1, 2, 1000, 65_535, 65_536, 4_294_967_295] {
        assert_eq!(isqrt(r * r), r);
        if r > 0 {
            assert_eq!(isqrt(r * r - 1), r - 1);
        }
    }
}

#[test]
fn abs_diff_covers_the_whole_range() {
    assert_eq!(abs_diff(0, 0), 0);
    assert_eq!(abs_diff(3, -4), 7);
    assert_eq!(abs_diff(-4, 3), 7);
    assert_eq!(abs_diff(i32::MIN, i32::MAX), 4_294_967_295);
    assert_eq!(abs_diff(i32::MAX, i32::MIN), 4_294_967_295);
}
