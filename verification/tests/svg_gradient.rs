use svgy::svg_gradient;
use svgy::svg_gradient::{inline_once, is_href};

/// A gradient that lends its stops to one gradient alone becomes part of it.
#[test]
fn svg_gradient_a_lent_gradient_is_written_into_its_borrower() {
    let src = r##"<svg xmlns="http://www.w3.org/2000/svg"><defs><linearGradient id="a"><stop offset="0" stop-color="#f00"/><stop offset="1" stop-color="#00f"/></linearGradient><linearGradient xlink:href="#a" id="b" x1="0" y1="0" x2="10" y2="10" gradientUnits="userSpaceOnUse"/></defs><rect width="10" height="10" fill="url(#b)"/></svg>"##;
    let out = svg_gradient::inline(src, false).unwrap();
    // One gradient is left, it keeps the `id` that the paint names, and it holds the stops.
    assert_eq!(out.matches("<linearGradient").count(), 1, "{out}");
    assert!(out.contains(r#"id="b""#), "{out}");
    assert!(out.contains(r##"stop-color="#f00""##), "{out}");
    assert!(!out.contains("href"), "{out}");
}

/// The borrower carries the attribute itself, so it wins over the one it would inherit.
#[test]
fn the_borrower_keeps_its_own_attributes() {
    let src = r##"<svg xmlns="http://www.w3.org/2000/svg"><defs><linearGradient id="a" x1="1" spreadMethod="pad"><stop offset="0" stop-color="#f00"/></linearGradient><linearGradient href="#a" id="b" x1="7"/></defs><rect fill="url(#b)"/></svg>"##;
    let out = svg_gradient::inline(src, false).unwrap();
    assert!(out.contains(r#"x1="7""#), "{out}");
    assert!(!out.contains(r#"x1="1""#), "{out}");
    // What the borrower does not carry, it inherits, and the move writes it out.
    assert!(out.contains(r#"spreadMethod="pad""#), "{out}");
}

/// A chain settles one hop per round, from the end that holds the stops.
#[test]
fn a_chain_of_references_settles() {
    let src = r##"<svg xmlns="http://www.w3.org/2000/svg"><defs><linearGradient id="a"><stop offset="0" stop-color="#f00"/></linearGradient><linearGradient href="#a" id="b" spreadMethod="pad"/><linearGradient href="#b" id="c" x1="0" y1="0" x2="4" y2="4"/></defs><rect fill="url(#c)"/></svg>"##;
    let out = svg_gradient::inline(src, false).unwrap();
    assert_eq!(out.matches("<linearGradient").count(), 1, "{out}");
    assert!(out.contains(r#"id="c""#), "{out}");
    assert!(out.contains(r#"spreadMethod="pad""#), "{out}");
    assert!(out.contains("stop-color"), "{out}");
}

/// Two borrowers would each need a copy of the stops, which is not always shorter.
#[test]
fn a_gradient_lent_twice_is_kept() {
    let src = r##"<svg xmlns="http://www.w3.org/2000/svg"><defs><linearGradient id="a"><stop offset="0" stop-color="#f00"/></linearGradient><linearGradient href="#a" id="b" x1="0"/><linearGradient href="#a" id="c" x1="4"/></defs><rect fill="url(#b)"/><rect fill="url(#c)"/></svg>"##;
    let out = svg_gradient::inline(src, false).unwrap();
    assert_eq!(out.matches("<linearGradient").count(), 3, "{out}");
}

/// A paint that names the lender would lose its gradient.
#[test]
fn a_gradient_a_paint_names_is_kept() {
    let src = r##"<svg xmlns="http://www.w3.org/2000/svg"><defs><linearGradient id="a"><stop offset="0" stop-color="#f00"/></linearGradient><linearGradient href="#a" id="b" x1="0"/></defs><rect fill="url(#a)"/><rect fill="url(#b)"/></svg>"##;
    let out = svg_gradient::inline(src, false).unwrap();
    assert_eq!(out.matches("<linearGradient").count(), 2, "{out}");
}

/// A gradient of another kind borrows the stops, and the coordinates it cannot read stay behind.
#[test]
fn a_gradient_of_another_kind_borrows_the_stops() {
    let src = r##"<svg xmlns="http://www.w3.org/2000/svg"><defs><linearGradient id="a" x1="0" y1="0" x2="9" y2="9" spreadMethod="pad"><stop offset="0" stop-color="#f00"/></linearGradient><radialGradient href="#a" id="b" cx="5" cy="5" r="5"/></defs><rect fill="url(#b)"/></svg>"##;
    let out = svg_gradient::inline(src, false).unwrap();
    assert_eq!(out.matches("Gradient id=").count(), 1, "{out}");
    assert!(out.contains("<radialGradient"), "{out}");
    assert!(out.contains("stop-color"), "{out}");
    assert!(!out.contains("href"), "{out}");
    // A radial gradient reads no `x1`, and the attributes both kinds read come along.
    assert!(!out.contains("x1"), "{out}");
    assert!(out.contains(r#"spreadMethod="pad""#), "{out}");
}

/// The other direction: a linear gradient reads no `cx`.
#[test]
fn a_linear_gradient_leaves_the_circle_behind() {
    let src = r##"<svg xmlns="http://www.w3.org/2000/svg"><defs><radialGradient id="a" cx="5" cy="5" r="5" fx="5" fy="5"><stop offset="0" stop-color="#f00"/></radialGradient><linearGradient href="#a" id="b" x1="0" y1="0" x2="9" y2="9"/></defs><rect fill="url(#b)"/></svg>"##;
    let out = svg_gradient::inline(src, false).unwrap();
    assert_eq!(out.matches("Gradient id=").count(), 1, "{out}");
    assert!(out.contains("stop-color"), "{out}");
    for name in ["cx", "cy", "fx", "fy", " r="] {
        assert!(!out.contains(name), "{name} in {out}");
    }
}

/// A stylesheet or a script can name an `id` in a way that the attributes do not show.
#[test]
fn a_dynamic_document_is_left_alone() {
    let src = r##"<svg xmlns="http://www.w3.org/2000/svg"><style>rect{fill:url(#b)}</style><defs><linearGradient id="a"><stop offset="0" stop-color="#f00"/></linearGradient><linearGradient href="#a" id="b" x1="0"/></defs><rect/></svg>"##;
    let out = svg_gradient::inline(src, true).unwrap();
    assert_eq!(out, src);
}

/// The whole of one round on a small pair: the borrower is rewritten with the lender's stops in
/// front of its own, and the lender goes.
#[test]
fn one_round_writes_the_pair_as_one_gradient() {
    let src = r##"<svg><linearGradient id="a" spreadMethod="pad"><stop/></linearGradient><linearGradient href="#a" id="b"/><rect fill="url(#b)"/></svg>"##;
    let out = inline_once(src).unwrap().unwrap();
    assert_eq!(
        out,
        r##"<svg><linearGradient id="b" spreadMethod="pad"><stop/></linearGradient><rect fill="url(#b)"/></svg>"##
    );
}

/// A document without a pair takes no round at all.
#[test]
fn a_document_without_a_pair_is_no_round() {
    let src = r##"<svg><linearGradient id="a"><stop/></linearGradient><rect fill="url(#a)"/></svg>"##;
    assert_eq!(inline_once(src).unwrap(), None);
    assert_eq!(svg_gradient::inline(src, false).unwrap(), src);
}

/// A quoted and padded `url( '#a' )` still names the lender.
#[test]
fn a_quoted_paint_counts_as_a_name() {
    let src = r##"<svg><linearGradient id="a"><stop/></linearGradient><linearGradient href="#a" id="b"/><rect fill="url( '#a' )"/><rect fill="url(#b)"/></svg>"##;
    assert_eq!(inline_once(src).unwrap(), None);
}

/// An attribute the reader cannot read is an error.
#[test]
fn a_broken_attribute_is_an_error() {
    assert!(svg_gradient::inline(r#"<svg><rect fill="a" fill/></svg>"#, false).is_err());
}

#[test]
fn only_the_two_references_are_hrefs() {
    assert!(is_href("href"));
    assert!(is_href("xlink:href"));
    assert!(!is_href("svg:href"));
    assert!(!is_href("hrefs"));
}
