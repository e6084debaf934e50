use vtt::camera_controls::{focus_input, height_input, FocusKeys};
use vtt::map_zones::{ShapeOperation, ZoneShapeKind};

#[test]
fn shape_and_operation_names() {
    assert_eq!(ShapeOperation::Union.name(), "union");
    assert_eq!(ShapeOperation::Subtraction.name(), "subtraction");
    assert_eq!(ZoneShapeKind::Circle.name(), "circle");
    assert_eq!(ZoneShapeKind::Square.name(), "square");
    assert_eq!(ZoneShapeKind::Segment.name(), "segment");
    assert_eq!(ZoneShapeKind::Curve.name(), "curve");
}

#[test]
fn forward_key_wins_over_others() {
    let keys = FocusKeys { w: true, s: true, a: true, d: false, e: false, q: true };
    let input = focus_input(keys);
    assert_eq!((input.x, input.y, input.z, input.turn), (0, 0, 1, -1));
    let keys = FocusKeys { w: false, s: false, a: false, d: true, e: true, q: true };
    let input = focus_input(keys);
    assert_eq!((input.x, input.z, input.turn), (-1, 0, 1));
}

#[test]
fn shift_raises_control_lowers() {
    assert_eq!(height_input(true, true), 1);
    assert_eq!(height_input(false, true), -1);
    assert_eq!(height_input(false, false), 0);
}
