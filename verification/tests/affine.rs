use svgy::affine::{Role, TransformPart, in_user_space, is_vertical, missing_origins, role, transform_parts, units_attribute};

#[test]
fn each_attribute_has_its_role() {
    assert_eq!(role("transform"), Role::Transform);
    assert_eq!(role("gradientTransform"), Role::Transform);
    assert_eq!(role("patternTransform"), Role::Transform);
    assert_eq!(role("d"), Role::PathData);
    assert_eq!(role("points"), Role::Points);
    assert_eq!(role("stroke-dasharray"), Role::LengthList);
    assert_eq!(role("dy"), Role::LengthList);
    assert_eq!(role("fx"), Role::PositionX);
    assert_eq!(role("x2"), Role::PositionX);
    assert_eq!(role("cy"), Role::PositionY);
    assert_eq!(role("fy"), Role::PositionY);
    assert_eq!(role("stroke-dashoffset"), Role::Length);
    assert_eq!(role("font-size"), Role::Length);
    assert_eq!(role("fill"), Role::Kept);
    assert_eq!(role("viewBox"), Role::Kept);
    assert_eq!(role("X"), Role::Kept);
}

#[test]
fn vertical_origins_take_the_vertical_offset() {
    assert!(is_vertical("y"));
    assert!(is_vertical("cy"));
    assert!(is_vertical("y2"));
    assert!(!is_vertical("x"));
    assert!(!is_vertical("x1"));
    assert!(!is_vertical("fy"));
}

#[test]
fn gradients_and_patterns_name_their_units() {
    assert_eq!(units_attribute("pattern"), Some("patternUnits"));
    assert_eq!(units_attribute("linearGradient"), Some("gradientUnits"));
    assert_eq!(units_attribute("radialGradient"), Some("gradientUnits"));
    assert_eq!(units_attribute("rect"), None);
}

#[test]
fn only_user_space_coordinates_move() {
    assert!(in_user_space("rect", None));
    assert!(in_user_space("path", Some("objectBoundingBox")));
    assert!(!in_user_space("radialGradient", None));
    assert!(in_user_space("radialGradient", Some("userSpaceOnUse")));
    assert!(!in_user_space("pattern", Some("objectBoundingBox")));
}

fn call(name: &str, args: &str, part: &TransformPart) -> bool {
    matches!(part, TransformPart::Call(n, a) if n == name && a == args)
}

fn rest(text: &str, part: &TransformPart) -> bool {
    matches!(part, TransformPart::Rest(t) if t == text)
}

#[test]
fn a_transform_list_reads_primitive_by_primitive() {
    let parts = transform_parts("translate(10 20) , rotate(45)");
    assert_eq!(parts.len(), 2);
    assert!(call("translate", "10 20", &parts[0]), "{parts:?}");
    assert!(call("rotate", "45", &parts[1]), "{parts:?}");
}

#[test]
fn a_transform_name_is_trimmed() {
    let parts = transform_parts(" scale (2)");
    assert_eq!(parts.len(), 1);
    assert!(call("scale", "2", &parts[0]), "{parts:?}");
}

#[test]
fn unreadable_transform_text_ends_the_list() {
    let parts = transform_parts("scale(2) junk");
    assert_eq!(parts.len(), 2);
    assert!(call("scale", "2", &parts[0]), "{parts:?}");
    assert!(rest("junk", &parts[1]), "{parts:?}");
    let parts = transform_parts("matrix(1 0");
    assert_eq!(parts.len(), 1);
    assert!(rest("matrix(1 0", &parts[0]), "{parts:?}");
    assert!(transform_parts(" , ").is_empty());
}

#[test]
fn only_the_origins_left_out_are_written() {
    let keys = |ks: &[&str]| ks.iter().map(|k| k.to_string()).collect::<Vec<_>>();
    assert_eq!(missing_origins("rect", &keys(&["width", "height"])), vec!["x", "y"]);
    assert_eq!(missing_origins("rect", &keys(&["y", "width"])), vec!["x"]);
    assert_eq!(missing_origins("line", &keys(&["x1", "y2"])), vec!["y1", "x2"]);
    assert!(missing_origins("circle", &keys(&["cx", "cy", "r"])).is_empty());
    assert!(missing_origins("path", &keys(&[])).is_empty());
}
