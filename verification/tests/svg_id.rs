use svgy::svg_id::{is_name_char, mentions, strip_dead_root_id};
use svgy::svg_namespace::strip_unused;
use svgy::svg_optimize::is_dynamic;

#[test]
fn a_dead_root_id_goes() {
    let src = r#"<svg xmlns="http://www.w3.org/2000/svg" id="svg2423"><path d="M0 0"/></svg>"#;
    let out = strip_dead_root_id(src, false).unwrap();
    assert!(!out.contains("id="), "{out}");
    assert!(out.contains(r#"d="M0 0""#), "{out}");
}

/// Only the root is looked at: an `id` further down can be a target of `<use>`.
#[test]
fn an_id_below_the_root_stays() {
    let src = r#"<svg xmlns="http://www.w3.org/2000/svg" id="a"><path id="b" d="M0 0"/></svg>"#;
    let out = strip_dead_root_id(src, false).unwrap();
    assert!(!out.contains(r#"id="a""#), "{out}");
    assert!(out.contains(r#"id="b""#), "{out}");
}

#[test]
fn a_used_root_id_stays() {
    let src = r##"<svg xmlns="http://www.w3.org/2000/svg" id="a"><use href="#a"/></svg>"##;
    let out = strip_dead_root_id(src, false).unwrap();
    assert!(out.contains(r#"id="a""#), "{out}");
}

/// A selector or a script can name the root, and neither is read here.
#[test]
fn a_dynamic_document_keeps_its_root_id() {
    let src = r#"<svg xmlns="http://www.w3.org/2000/svg" id="a"><path d="M0 0"/></svg>"#;
    let out = strip_dead_root_id(src, true).unwrap();
    assert!(out.contains(r#"id="a""#), "{out}");
}

/// A longer name that starts with the `id` is no mention of it.
#[test]
fn a_longer_name_is_no_mention() {
    let src = r##"<svg xmlns="http://www.w3.org/2000/svg" id="a"><use href="#ab"/></svg>"##;
    let out = strip_dead_root_id(src, false).unwrap();
    assert!(!out.contains(r#"id="a""#), "{out}");
}

/// An animation names the element before the dot.
#[test]
fn a_dot_ends_a_name() {
    let src = r#"<svg xmlns="http://www.w3.org/2000/svg" id="a"><animate begin="a.click"/></svg>"#;
    let out = strip_dead_root_id(src, false).unwrap();
    assert!(out.contains(r#"id="a""#), "{out}");
}

/// A document without a root `id` comes back as it is.
#[test]
fn a_document_without_a_root_id_is_untouched() {
    let src = r#"<svg xmlns="http://www.w3.org/2000/svg"><path d="M0 0"/></svg>"#;
    assert_eq!(strip_dead_root_id(src, false).unwrap(), src);
}

/// The root is rebuilt with the rest of its attributes, in order, and nothing else moves.
#[test]
fn the_root_is_written_again_without_its_id() {
    let src = r#"<svg a="1" id="x" b="&lt;"><g/></svg>"#;
    assert_eq!(strip_dead_root_id(src, false).unwrap(), r#"<svg a="1" b="&lt;"><g/></svg>"#);
}

/// An empty `id` is everywhere, so it stays.
#[test]
fn an_empty_root_id_stays() {
    let src = r#"<svg id=""><g/></svg>"#;
    assert_eq!(strip_dead_root_id(src, false).unwrap(), src);
}

#[test]
fn mentions_count_whole_names_only() {
    assert_eq!(mentions(r##"id="a" href="#a""##, "a"), 2);
    assert_eq!(mentions("svg1 svg svg-2 svg.x", "svg"), 2);
    // A match right after the one before looks at no character in front of it.
    assert_eq!(mentions("aa", "a"), 1);
    assert_eq!(mentions("", "a"), 0);
}

#[test]
fn name_chars_are_letters_digits_dash_and_underscore() {
    assert!(is_name_char(Some('a')));
    assert!(is_name_char(Some('7')));
    assert!(is_name_char(Some('-')));
    assert!(is_name_char(Some('_')));
    assert!(is_name_char(Some('é')));
    assert!(!is_name_char(Some('.')));
    assert!(!is_name_char(Some('#')));
    assert!(!is_name_char(None));
}

#[test]
fn an_unused_declaration_goes() {
    let src = r#"<svg xmlns="http://www.w3.org/2000/svg" xmlns:svg="http://www.w3.org/2000/svg"><path xmlns:svg="http://www.w3.org/2000/svg" d="M0 0"/></svg>"#;
    let out = strip_unused(src).unwrap();
    assert!(!out.contains("xmlns:svg"), "{out}");
    assert!(out.contains(r#"xmlns="http://www.w3.org/2000/svg""#), "{out}");
    assert!(out.contains(r#"d="M0 0""#), "{out}");
}

#[test]
fn a_used_declaration_stays() {
    let src = r##"<svg xmlns="http://www.w3.org/2000/svg" xmlns:xlink="http://www.w3.org/1999/xlink"><use xlink:href="#a"/></svg>"##;
    let out = strip_unused(src).unwrap();
    assert!(out.contains("xmlns:xlink"), "{out}");
}

/// A prefix is also used when it qualifies an element name.
#[test]
fn a_prefixed_element_keeps_its_declaration() {
    let src = r#"<svg xmlns="http://www.w3.org/2000/svg" xmlns:svg="http://www.w3.org/2000/svg"><svg:path d="M0 0"/></svg>"#;
    let out = strip_unused(src).unwrap();
    assert!(out.contains("xmlns:svg"), "{out}");
}

/// The values are written again with their entities escaped as the writer escapes them.
#[test]
fn a_kept_value_is_escaped_again() {
    let src = r#"<svg a="x&amp;y" xmlns:q="u"/>"#;
    assert_eq!(strip_unused(src).unwrap(), r#"<svg a="x&amp;y"/>"#);
}

#[test]
fn a_style_or_a_script_makes_a_document_dynamic() {
    assert!(is_dynamic("<svg><style>a{}</style></svg>").unwrap());
    assert!(is_dynamic("<svg><svg:script/></svg>").unwrap());
    assert!(!is_dynamic(r#"<svg style="fill:red"><g/></svg>"#).unwrap());
    // The scan stops at the first one, so what follows is never read.
    assert!(is_dynamic("<svg><style/></g>").unwrap());
    assert!(is_dynamic("<svg></g>").is_err());
}
