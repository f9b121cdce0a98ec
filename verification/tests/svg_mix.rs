use svgy::svg_mix::{aligned, cost, free_upgrades, parent_of, raise_all, splice, upgrades, Doc};
use svgy::svg_resize::{is_template, use_targets};

const LOW: &str = r#"<svg xmlns="http://www.w3.org/2000/svg" viewBox="0 0 100 100">
	<path d="M0 0h100v100H0Z"/>
	<path d="M10 10h20v20H10Z"/>
</svg>"#;

const HIGH: &str = r#"<svg xmlns="http://www.w3.org/2000/svg" viewBox="0 0 100 100">
	<path d="M0.25 0.25h100.5v100.5H0.25Z"/>
	<path d="M10.25 10.25h20.5v20.5H10.25Z"/>
</svg>"#;

#[test]
fn a_candidate_holds_its_elements_in_order() {
    let doc = Doc::parse(LOW).unwrap();
    assert_eq!(doc.len(), 3);
    assert_eq!(doc.names, vec!["svg", "path", "path"]);
    assert_eq!(doc.depths, vec![0, 1, 1]);
    assert_eq!(doc.tag(1), r#"<path d="M0 0h100v100H0Z"/>"#);
    assert_eq!(doc.paths[2].as_deref(), Some("M10 10h20v20H10Z"));
    assert_eq!(doc.paths[0], None);
    assert_eq!(doc.shapes[0], vec![("xmlns".to_string(), None), ("viewBox".to_string(), None)]);
}

#[test]
fn the_lowest_choice_writes_the_lowest_candidate() {
    let docs = vec![Doc::parse(LOW).unwrap(), Doc::parse(HIGH).unwrap()];
    assert_eq!(splice(&docs, &vec![0, 0, 0]), LOW);
    assert_eq!(splice(&docs, &vec![1, 1, 1]), HIGH);
}

#[test]
fn one_element_can_take_its_numbers_from_another_candidate() {
    let docs = vec![Doc::parse(LOW).unwrap(), Doc::parse(HIGH).unwrap()];
    let mixed = splice(&docs, &vec![0, 1, 0]);
    assert!(mixed.contains("M0.25 0.25"), "{mixed}");
    assert!(mixed.contains(r#"d="M10 10h20v20H10Z""#), "{mixed}");
}

#[test]
fn an_upgrade_costs_the_bytes_it_adds() {
    let docs = vec![Doc::parse(LOW).unwrap(), Doc::parse(HIGH).unwrap()];
    assert_eq!(cost(&docs, 0, 0), 0);
    assert_eq!(cost(&docs, 1, 0), 13);
}

#[test]
fn candidates_of_one_document_align() {
    let low = Doc::parse(LOW).unwrap();
    let high = Doc::parse(HIGH).unwrap();
    assert!(aligned(&low, &high));
    assert!(aligned(&low, &low));
}

#[test]
fn a_missing_element_does_not_align() {
    let other = r#"<svg xmlns="http://www.w3.org/2000/svg" viewBox="0 0 100 100">
	<path d="M0 0h100v100H0Z"/>
</svg>"#;
    assert!(!aligned(&Doc::parse(LOW).unwrap(), &Doc::parse(other).unwrap()));
}

#[test]
fn a_moved_reference_does_not_align() {
    let low = r#"<svg xmlns="http://www.w3.org/2000/svg"><path id="a" d="M0 0h1"/></svg>"#;
    let high = r#"<svg xmlns="http://www.w3.org/2000/svg"><path id="b" d="M0 0h1.5"/></svg>"#;
    assert!(!aligned(&Doc::parse(low).unwrap(), &Doc::parse(high).unwrap()));
}

#[test]
fn the_parent_is_the_closest_shallower_element_before() {
    let doc = Doc::parse("<svg><g><path/><path/></g><rect/></svg>").unwrap();
    assert_eq!(doc.depths, vec![0, 1, 2, 2, 1]);
    assert_eq!(parent_of(&doc, 0), None);
    assert_eq!(parent_of(&doc, 3), Some(1));
    assert_eq!(parent_of(&doc, 4), Some(0));
}

#[test]
fn a_broken_candidate_is_an_error() {
    assert!(Doc::parse("<svg><path d/></svg>").is_err());
}

#[test]
fn a_use_names_its_templates() {
    let src = r##"<svg><use href="#a"/><use xlink:href=" #b "/><use href="c"/></svg>"##;
    assert_eq!(use_targets(src).unwrap(), vec!["a", "b"]);
    let templates = vec!["a".to_string()];
    assert!(is_template(r#"path id="a""#, "path", &templates).unwrap());
    assert!(!is_template(r#"path id="z""#, "path", &templates).unwrap());
    assert!(is_template("svg:symbol", "svg:symbol", &templates).unwrap());
    assert!(!is_template("g", "g", &templates).unwrap());
}

#[test]
fn an_upgrade_that_costs_nothing_is_taken_first() {
    // The root and the short path write the same tag at both levels, so they go up for free.
    let high = LOW.replace("M10 10h20v20H10Z", "M10 10h20v20H10z");
    let docs = vec![Doc::parse(LOW).unwrap(), Doc::parse(&high).unwrap()];
    let mut choice = vec![0, 0, 0];
    free_upgrades(&docs, &mut choice);
    assert_eq!(choice, vec![1, 1, 1]);
    // A level that writes the same tag is no upgrade; the path that changed its spelling is one.
    assert_eq!(upgrades(&docs, &choice), 1);
    let docs = vec![Doc::parse(LOW).unwrap(), Doc::parse(HIGH).unwrap()];
    let mut choice = vec![0, 0, 0];
    free_upgrades(&docs, &mut choice);
    assert_eq!(choice, vec![1, 0, 0]);
    assert_eq!(upgrades(&docs, &choice), 0);
    assert_eq!(upgrades(&docs, &vec![1, 1, 1]), 2);
}

#[test]
fn the_elements_below_the_top_go_up_together() {
    let mut choice = vec![0, 2, 1];
    assert!(raise_all(&mut choice, 2));
    assert_eq!(choice, vec![1, 2, 2]);
    let mut top = vec![2, 2];
    assert!(!raise_all(&mut top, 2));
    assert_eq!(top, vec![2, 2]);
}
