use svgy::svg_resize::{placements, use_targets};

fn placed(src: &str) -> Vec<bool> {
    let templates = use_targets(src).unwrap();
    placements(src, &templates).unwrap()
}

/// A template is placed by its `<use>`, so only the instance takes the translation.
#[test]
fn a_used_template_takes_no_translation() {
    let src = r##"<svg xmlns="http://www.w3.org/2000/svg" viewBox="0 0 200 100"><defs><path id="a" d="M0 0h10"/></defs><use href="#a"/></svg>"##;
    // svg, defs, the template path, the use.
    assert_eq!(placed(src), vec![true, true, false, true]);
}

/// Everything inside a symbol is drawn where its `<use>` puts it.
#[test]
fn the_inside_of_a_symbol_takes_no_translation() {
    let src = r##"<svg><symbol id="s"><g><rect/></g><circle/></symbol><rect/><use href="#s"/></svg>"##;
    assert_eq!(placed(src), vec![true, false, false, false, false, true, true]);
}

/// A group named by a `<use>` keeps its children where they are.
#[test]
fn a_used_group_keeps_its_children_in_place() {
    let src = r##"<svg><g id="g"><path/></g><path/><use xlink:href="#g"/></svg>"##;
    assert_eq!(placed(src), vec![true, false, false, true, true]);
}

/// The root is never a template, even when a `<use>` names it.
#[test]
fn the_root_always_takes_the_translation() {
    let src = r##"<svg id="r"><use href="#r"/></svg>"##;
    assert_eq!(placed(src), vec![true, true]);
}

#[test]
fn a_document_without_templates_is_translated_everywhere() {
    let src = r#"<svg><g><path/></g><rect/></svg>"#;
    assert_eq!(placed(src), vec![true; 4]);
}

#[test]
fn a_broken_document_has_no_placements() {
    assert!(placements("<svg><path d/></svg>", &Vec::new()).is_err());
}
