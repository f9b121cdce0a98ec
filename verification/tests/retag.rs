use svgy::retag::{retag, tags_of};
use svgy::xml::NewAttr;

#[test]
fn tags_come_with_their_attributes_in_order() {
    let tags = tags_of(r#"<svg a="1 &amp; 2"><g/><!-- c --><path d="M0 0"></path></svg>"#).unwrap();
    assert_eq!(tags.len(), 3);
    assert_eq!(tags[0].name, "svg");
    assert!(!tags[0].empty);
    assert!(tags[1].empty);
    assert_eq!(tags[2].name, "path");
    let a = tags[0].attrs[0].as_ref().unwrap();
    assert_eq!(a.key, "a");
    assert_eq!(a.raw, "1 &amp; 2");
    assert_eq!(a.value.as_deref(), Some("1 & 2"));
}

#[test]
fn a_tag_without_a_replacement_is_written_as_it_was() {
    let src = r#"<svg a="1"><g id="x"/><!-- c --></svg>"#;
    assert_eq!(retag(src, &Vec::new()).unwrap(), src);
    assert_eq!(retag(src, &vec![None, None]).unwrap(), src);
}

#[test]
fn a_replaced_tag_is_written_with_its_new_attributes() {
    let src = r#"<svg a="1"><g id="x"/><!-- c --></svg>"#;
    let reps = vec![
        None,
        Some(vec![
            NewAttr { key: "b".to_string(), value: "x<y".to_string(), escape: true },
            NewAttr { key: "c".to_string(), value: "&amp;".to_string(), escape: false },
        ]),
    ];
    assert_eq!(retag(src, &reps).unwrap(), r#"<svg a="1"><g b="x&lt;y" c="&amp;"/><!-- c --></svg>"#);
}

#[test]
fn a_broken_document_is_refused() {
    assert!(tags_of("<svg").is_err());
    assert!(retag("<svg", &Vec::new()).is_err());
}
