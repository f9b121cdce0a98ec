use svgy::svg_image::strip_images;
use svgy::svg_text::strip_text;

/// The text goes, its siblings stay.
#[test]
fn strips_text_and_keeps_the_artwork() {
    let src = r#"<svg xmlns="http://www.w3.org/2000/svg"><path d="M0 0h8v8z"/><text x="1" y="2">Hi</text><circle r="4"/></svg>"#;
    let (out, removed) = strip_text(src).unwrap();
    assert!(removed);
    assert!(!out.contains("<text"));
    assert!(!out.contains("Hi"));
    assert!(out.contains(r#"<path d="M0 0h8v8z"/>"#));
    assert!(out.contains(r#"<circle r="4"/>"#));
}

/// `<tspan>` and `<textPath>` live inside `<text>` and leave with it.
#[test]
fn strips_nested_text_children() {
    let src = r##"<svg><text><tspan>a</tspan><textPath href="#p">b</textPath></text><rect/></svg>"##;
    let (out, removed) = strip_text(src).unwrap();
    assert!(removed);
    assert_eq!(out, "<svg><rect/></svg>");
}

#[test]
fn strips_empty_and_prefixed_text() {
    let (out, removed) = strip_text(r#"<svg><text x="1"/><rect/></svg>"#).unwrap();
    assert!(removed);
    assert_eq!(out, "<svg><rect/></svg>");

    let (out, removed) = strip_text(r"<svg:svg><svg:text>Hi</svg:text><svg:rect/></svg:svg>").unwrap();
    assert!(removed);
    assert_eq!(out, "<svg:svg><svg:rect/></svg:svg>");
}

/// Path artwork is the common case: nothing removed, nothing to warn about, and neither a
/// `font-size` nor a lookalike element name is a false hit.
#[test]
fn svg_text_path_artwork_is_left_alone() {
    let src = r##"<svg xmlns="http://www.w3.org/2000/svg" font-size="12"><path d="M0 0h8v8z" fill="#000"/></svg>"##;
    let (out, removed) = strip_text(src).unwrap();
    assert!(!removed);
    assert_eq!(out, src);
}

/// An unterminated `<text>` is a broken document, and reported as one rather than silently
/// swallowing the rest of the file.
#[test]
fn unterminated_text_is_an_error() {
    assert!(strip_text("<svg><text>unclosed").is_err());
}

/// A `<text>` inside a `<text>` closes with the outer one.
#[test]
fn a_nested_text_is_counted_to_its_own_end() {
    let (out, removed) = strip_text("<svg><text><text>a</text>b</text><rect/></svg>").unwrap();
    assert!(removed);
    assert_eq!(out, "<svg><rect/></svg>");
}

/// The image goes, its siblings stay.
#[test]
fn strips_images_and_keeps_the_artwork() {
    let src = r#"<svg xmlns="http://www.w3.org/2000/svg"><path d="M0 0h8v8z"/><image x="1" y="2" href="data:image/png;base64,iVBORw0KGgo="/><circle r="4"/></svg>"#;
    let (out, removed) = strip_images(src).unwrap();
    assert!(removed);
    assert!(!out.contains("<image"));
    assert!(!out.contains("base64"));
    assert!(out.contains(r#"<path d="M0 0h8v8z"/>"#));
    assert!(out.contains(r#"<circle r="4"/>"#));
}

/// An `<image>` hides anywhere an element can, such as inside a `<pattern>` in `<defs>`.
#[test]
fn strips_a_nested_image_with_its_children() {
    let src = r#"<svg><defs><pattern id="p"><image href="a.png"><title>t</title></image></pattern></defs><rect fill="url(#p)"/></svg>"#;
    let (out, removed) = strip_images(src).unwrap();
    assert!(removed);
    assert_eq!(out, r#"<svg><defs><pattern id="p"></pattern></defs><rect fill="url(#p)"/></svg>"#);
}

#[test]
fn strips_empty_and_prefixed_images() {
    let (out, removed) = strip_images(r#"<svg><image href="a.png"/><rect/></svg>"#).unwrap();
    assert!(removed);
    assert_eq!(out, "<svg><rect/></svg>");

    let (out, removed) = strip_images(r#"<svg:svg><svg:image href="a.png"/><svg:rect/></svg:svg>"#).unwrap();
    assert!(removed);
    assert_eq!(out, "<svg:svg><svg:rect/></svg:svg>");
}

/// Path artwork is the common case: nothing removed, and neither an `image-rendering` attribute
/// nor a lookalike element name is a false hit.
#[test]
fn svg_image_path_artwork_is_left_alone() {
    let src = r##"<svg xmlns="http://www.w3.org/2000/svg" image-rendering="optimizeSpeed"><path d="M0 0h8v8z" fill="#000"/></svg>"##;
    let (out, removed) = strip_images(src).unwrap();
    assert!(!removed);
    assert_eq!(out, src);
}

/// An unterminated `<image>` is a broken document, and reported as one rather than silently
/// swallowing the rest of the file.
#[test]
fn unterminated_image_is_an_error() {
    assert!(strip_images(r#"<svg><image href="a.png">"#).is_err());
}

#[test]
fn an_unterminated_element_is_named_in_the_error() {
    let e = strip_text("<svg><text>unclosed").unwrap_err();
    assert_eq!(e.message, "unterminated <text> element");
}

#[test]
fn an_unreadable_attribute_is_an_attribute_error() {
    let e = svgy::xml::attr("path d", "path", "id").unwrap_err();
    assert_eq!(e.message, "attribute");
}

/// A byte-order mark is no part of the document: the text after it is read whole.
#[test]
fn a_byte_order_mark_is_read_past() {
    let (out, removed) = strip_text("\u{feff}<a b=\"é\"><text>x</text></a>").unwrap();
    assert!(removed);
    assert_eq!(out, "<a b=\"é\"></a>");
    assert!(strip_text("\u{feff}\u{feff}<a/>").is_err());
}

/// The library's white space is the White_Space set that `char::is_whitespace` tests.
#[test]
fn white_space_is_the_unicode_white_space_set() {
    for u in 0..=0x10FFFFu32 {
        if let Some(c) = char::from_u32(u) {
            assert_eq!(svgy::text::is_whitespace(c), c.is_whitespace(), "{u:#x}");
        }
    }
}
