use svgy::svg_style::{declarations, is_opacity, join_declarations, Declaration};

fn texts(style: &str) -> Vec<String> {
    declarations(style).iter().map(|d| d.text()).collect()
}

#[test]
fn declarations_are_split_trimmed_and_the_empty_ones_dropped() {
    let ds = declarations(" fill : red ;; stop-opacity:0.98039216;weird ; ");
    assert_eq!(ds.len(), 3);
    match &ds[0] {
        Declaration::Property { name, value } => {
            assert_eq!(name, "fill");
            assert_eq!(value, "red");
        },
        Declaration::Other(_) => panic!("a property"),
    }
    assert!(matches!(&ds[2], Declaration::Other(t) if t == "weird"));
    assert_eq!(texts(" fill : red ;; stop-opacity:0.98039216;weird ; "), vec!["fill:red", "stop-opacity:0.98039216", "weird"]);
}

#[test]
fn a_value_splits_at_its_first_colon() {
    assert_eq!(texts("font-family: a:b"), vec!["font-family:a:b"]);
    assert!(declarations("").is_empty());
    assert!(declarations(" ; ; ").is_empty());
}

#[test]
fn declarations_are_joined_by_semicolons() {
    let parts = vec!["a:1".to_string(), "b:2".to_string()];
    assert_eq!(join_declarations(&parts), "a:1;b:2");
    assert_eq!(join_declarations(&vec![]), "");
    assert_eq!(join_declarations(&vec!["x".to_string()]), "x");
}

#[test]
fn opacities_are_known_whatever_their_case() {
    assert!(is_opacity("opacity"));
    assert!(is_opacity("Stop-Opacity"));
    assert!(is_opacity("FLOOD-OPACITY"));
    assert!(!is_opacity("stroke-width"));
    assert!(!is_opacity("opacity "));
}
