use gestures::normalize;
use gestures::resample;
use gestures::PreparedGesture;
use gestures::RESOLUTION;
use gestures::UNIT;

fn samples(points: &[(i32, i32)]) -> Vec<(i32, i32)> {
    resample(&normalize(points).unwrap()).samples().to_vec()
}

#[test]
fn resolution_is_128() {
    assert_eq!(RESOLUTION, 128);
}

#[test]
fn any_stroke_yields_128_samples() {
    assert_eq!(samples(&[(0, 0), (0, 100)]).len(), 128);
    assert_eq!(samples(&[(0, 0), (0, 100), (100, 100)]).len(), 128);
    let long: Vec<(i32, i32)> = (0..1000).map(|i| (i, (i * i) % 97)).collect();
    assert_eq!(samples(&long).len(), 128);
    assert_eq!(PreparedGesture::from_positions(&long).unwrap().samples().len(), 128);
}

#[test]
fn first_and_last_samples_are_the_ends_of_the_path() {
    let long: Vec<(i32, i32)> = (0..1000).map(|i| (i, (i * i) % 97)).collect();
    let path = normalize(&long).unwrap();
    let gesture = resample(&path);
    assert_eq!(gesture.samples()[0], path.points()[0]);
    assert_eq!(gesture.samples()[127], path.points()[999]);
    assert_eq!(gesture.samples()[0], (-UNIT, -1_612_225));
    assert_eq!(gesture.samples()[127], (UNIT, 570_996));
}

#[test]
fn samples_are_evenly_spaced_on_a_straight_stroke() {
    let s = samples(&[(0, 0), (0, 100)]);
    for (i, p) in s.iter().enumerate() {
        let travelled = (i as i64 * 2 * UNIT as i64 / 127) as i32;
        assert_eq!(*p, (0, -UNIT + travelled));
    }
    assert_eq!(s[1], (0, -16_513_008));
    assert_eq!(s[2], (0, -16_248_800));
    assert_eq!(s[126], (0, 16_513_007));
}

#[test]
fn both_coordinates_are_interpolated() {
    let s = samples(&[(0, 0), (200, 100)]);
    assert_eq!(s[0], (-UNIT, -UNIT / 2));
    assert_eq!(s[1], (-16_513_009, -8_256_505));
    assert_eq!(s[64], (132_103, 66_051));
    assert_eq!(s[126], (16_513_007, 8_256_503));
    assert_eq!(s[127], (UNIT, UNIT / 2));
}

#[test]
fn sample_on_a_shared_boundary_is_the_shared_point() {
    // The first segment is 1/127 of the whole length, so the second sample
    // falls exactly where the first segment ends and the second begins.
    let path = normalize(&[(0, 0), (1, 0), (127, 0)]).unwrap();
    assert_eq!(path.points().clone(), vec![(-UNIT, 0), (-16_513_008, 0), (UNIT, 0)]);
    let gesture = resample(&path);
    assert_eq!(gesture.samples()[1], path.points()[1]);
    assert_eq!(gesture.samples()[2], (-16_248_800, 0));
}

#[test]
fn path_that_turns_back_ends_where_it_began() {
    let s = samples(&[(0, 0), (0, 100), (0, 0)]);
    assert_eq!(s[0], (0, -UNIT));
    assert_eq!(s[63], (0, 16_513_007));
    assert_eq!(s[64], (0, 16_513_008));
    assert_eq!(s[127], (0, -UNIT));
}

#[test]
fn samples_follow_the_corner() {
    let s = samples(&[(0, 0), (100, 0), (100, 100)]);
    assert_eq!(s[63], (16_513_007, -UNIT));
    assert_eq!(s[64], (UNIT, -16_513_008));
}

#[test]
fn descriptor_is_normalize_then_resample() {
    let stroke = [(3, 1), (50, -2), (101, 0), (97, 52), (100, 99)];
    let direct = PreparedGesture::from_positions(&stroke).unwrap();
    assert_eq!(direct.samples().to_vec(), samples(&stroke));
}

#[test]
fn degenerate_stroke_has_no_descriptor() {
    assert!(PreparedGesture::from_positions(&[]).is_none());
    assert!(PreparedGesture::from_positions(&[(1, 1)]).is_none());
    assert!(PreparedGesture::from_positions(&[(1, 1), (1, 1)]).is_none());
}
