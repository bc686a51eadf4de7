use gestures::PreparedGesture;
use gestures::TemplateLibrary;

const LABELS: [&str; 34] = [
    "down", "down-left", "down-right", "down-up",
    "left", "left-down", "left-right", "left-up",
    "right", "right-down", "right-left", "right-up",
    "up", "up-down", "up-left", "up-right",
    "diag-downleft", "diag-downright", "diag-upleft", "diag-upright",
    "rectangle", "rectangle",
    "arrow-up", "arrow-down", "arrow-left", "arrow-right",
    "tri-up", "tri-down", "tri-left", "tri-right",
    "n", "t", "x", "z",
];

#[test]
fn library_holds_the_built_in_shapes_in_order() {
    let library = TemplateLibrary::builtin();
    assert_eq!(library.len(), 34);
    for (k, label) in LABELS.iter().enumerate() {
        assert_eq!(library.get(k).unwrap().label, *label);
    }
    assert!(library.get(34).is_none());
}

#[test]
fn templates_are_descriptors_of_their_outlines() {
    let library = TemplateLibrary::builtin();
    let down = PreparedGesture::from_positions(&[(0, 0), (0, 100)]).unwrap();
    assert_eq!(library.get(0).unwrap().gesture.samples(), down.samples());
    let tri_left =
        PreparedGesture::from_positions(&[(100, 0), (0, 50), (100, 100), (100, 0)]).unwrap();
    assert_eq!(library.get(28).unwrap().gesture.samples(), tri_left.samples());
    let z = PreparedGesture::from_positions(&[(0, 0), (100, 0), (0, 100), (100, 100)]).unwrap();
    assert_eq!(library.get(33).unwrap().gesture.samples(), z.samples());
}

#[test]
fn every_template_is_nearest_to_itself() {
    let library = TemplateLibrary::builtin();
    for k in 0..library.len() {
        let template = library.get(k).unwrap();
        assert_eq!(library.nearest(&template.gesture), Some(k));
    }
}

#[test]
fn both_windings_of_the_rectangle_are_templates() {
    let library = TemplateLibrary::builtin();
    let clockwise = PreparedGesture::from_positions(&[(0, 0), (100, 0), (100, 100), (0, 100)]);
    let counter = PreparedGesture::from_positions(&[(0, 0), (0, 100), (100, 100), (100, 0)]);
    assert_eq!(library.nearest(&clockwise.unwrap()), Some(20));
    assert_eq!(library.nearest(&counter.unwrap()), Some(21));
    assert_eq!(library.get(20).unwrap().label, library.get(21).unwrap().label);
}
