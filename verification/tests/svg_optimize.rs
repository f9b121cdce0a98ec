use svgy::svg_id::strip_dead_root_id;
use svgy::svg_namespace::strip_unused;
use svgy::svg_optimize::{further_passes, is_dynamic, job_list, jobs, keep_pass, run_passes, JobSettings, Rounding};

/// The library's passes in the order the optimization runs them, at the default precision. The
/// folding of gradient transforms and the rounding of opacities, which are floating point, are not
/// among them.
fn fixed(src: &str, keep_dimensions: bool) -> String {
    let dynamic = is_dynamic(src).unwrap();
    let named = strip_dead_root_id(src, dynamic).unwrap();
    let lent = svgy::svg_gradient::inline(&named, dynamic).unwrap();
    let passed = run_passes(&lent, &job_list(jobs(keep_dimensions, None, dynamic))).unwrap();
    strip_unused(&passed).unwrap()
}

#[test]
fn one_number_drives_the_four_rounding_jobs() {
    assert_eq!(
        jobs(false, Some(1), false),
        JobSettings {
            remove_dimensions: true,
            convert_style: true,
            remove_xlink: true,
            rounding: Some(Rounding { numeric: 1, shape: 1, path: 1, transform: 1, transform_precision: 3 }),
        }
    );
    // The precision of the numbers is clamped to what oxvg accepts, and a transform keeps at least
    // one decimal.
    let low = jobs(true, Some(0), true);
    assert!(!low.remove_dimensions && !low.convert_style && low.remove_xlink);
    assert_eq!(low.rounding, Some(Rounding { numeric: 0, shape: 0, path: 0, transform: 1, transform_precision: 2 }));
    assert_eq!(jobs(false, Some(9), false).rounding.unwrap().numeric, 5);
    assert_eq!(jobs(false, Some(-3), false).rounding.unwrap(), Rounding { numeric: 0, shape: -3, path: -3, transform: 1, transform_precision: 1 });
    assert_eq!(jobs(false, None, false).rounding, None);
}

/// Values are shortened, and `Indent::Tabs` keeps the structure readable.
#[test]
fn values_are_minified_and_elements_are_indented() {
    let src = r##"<svg xmlns="http://www.w3.org/2000/svg" viewBox="0 0 10 10"><rect x="1px" y="2px" width="4px" height="6px" fill="#ff0000"/></svg>"##;
    let out = fixed(src, false);
    assert!(!out.contains("px"), "{out}");
    assert!(out.contains(r#"fill="red""#), "{out}");
    assert!(out.contains("\">\n\t<"), "{out}");
}

/// `xml:space` stops the serializer from indenting, so its removal is what makes tabs appear.
#[test]
fn xml_space_goes_and_the_document_is_still_indented() {
    let src = r#"<svg xmlns="http://www.w3.org/2000/svg" xml:space="preserve" viewBox="0 0 10 10"><rect width="10" height="10"/></svg>"#;
    let out = fixed(src, false);
    assert!(!out.contains("xml:space"), "{out}");
    assert!(out.contains("\">\n\t<"), "{out}");
}

/// A rule of a stylesheet beats a presentation attribute, so a dynamic document keeps its `style`.
#[test]
fn a_stylesheet_keeps_the_style_attribute() {
    let src = r#"<svg xmlns="http://www.w3.org/2000/svg" viewBox="0 0 10 10"><style>path{fill:blue}</style><path style="fill:red" d="M0 0h10v10H0Z"/></svg>"#;
    let out = fixed(src, false);
    assert!(out.contains("style=\"fill:red\""), "{out}");
    assert!(!out.contains("#00f"), "{out}");
}

/// The segments are merged before the numbers are rounded, so a run of lines that rounding makes
/// collinear is only merged by the run after it.
#[test]
fn a_second_pass_merges_what_rounding_made_collinear() {
    let src = r##"<svg xmlns="http://www.w3.org/2000/svg" viewBox="0 0 20 40"><path fill="#000" d="M1 1l0.04 10l-0.04 10l0.03 10h5v-30Z"/></svg>"##;
    let many = run_passes(src, &job_list(jobs(false, Some(1), false))).unwrap();
    assert!(many.contains("v30"), "{many}");
}

/// Proves the default preset ran rather than an empty job list.
#[test]
fn comments_and_metadata_are_stripped() {
    let src = r#"<svg xmlns="http://www.w3.org/2000/svg" viewBox="0 0 10 10"><!-- a note --><metadata>x</metadata><rect width="10" height="10"/></svg>"#;
    let out = fixed(src, false);
    assert!(!out.contains("a note"), "{out}");
    assert!(!out.contains("metadata"), "{out}");
}

#[test]
fn dimensions_follow_the_resize_flag() {
    let src = r#"<svg xmlns="http://www.w3.org/2000/svg" width="10" height="10" viewBox="0 0 10 10"><rect width="10" height="10"/></svg>"#;
    let resized = fixed(src, false);
    assert!(!resized.contains(r#"width="10""#), "{resized}");
    let kept = fixed(src, true);
    assert!(kept.contains(r#"width="10""#), "{kept}");
    assert!(kept.contains(r#"height="10""#), "{kept}");
}

#[test]
fn a_document_oxvg_cannot_parse_is_an_error() {
    assert!(run_passes("<svg", &job_list(jobs(false, None, false))).is_err());
}

/// A run that pays nothing is dropped, so the passes stop rather than trade bytes away.
#[test]
fn the_passes_never_write_more_than_the_first_one() {
    let src = r##"<svg xmlns="http://www.w3.org/2000/svg" viewBox="0 0 100 100"><path fill="#000" d="M12.3456 50.7891c4.1357-22.8642 31.9187-33.4501 49.2318-19.7734 12.6429 9.9871 14.3095 30.2286 3.4172 42.1129-11.7433 12.8118-34.8821 11.9042-45.9376-1.4287-4.2119-5.9218-7.1642-13.4419-6.7114-20.9108Z"/></svg>"##;
    let all = job_list(jobs(false, Some(1), false));
    let many = run_passes(src, &all).unwrap();
    assert!(many.len() <= src.len(), "{many}");
    let more = further_passes(many.clone(), &all).unwrap();
    assert!(more.len() <= many.len(), "{more}");
}

/// A run is kept only when it writes fewer bytes than the one before it.
#[test]
fn a_run_is_kept_only_when_it_is_shorter() {
    let (kept, more) = keep_pass("abcd".to_string(), "abc".to_string());
    assert_eq!((kept.as_str(), more), ("abc", true));
    let (kept, more) = keep_pass("abc".to_string(), "xyz".to_string());
    assert_eq!((kept.as_str(), more), ("abc", false));
    // Bytes count, not characters.
    let (kept, more) = keep_pass("abcd".to_string(), "éé".to_string());
    assert_eq!((kept.as_str(), more), ("abcd", false));
}

#[test]
fn xlink_is_replaced_by_the_native_reference() {
    let src = r##"<svg xmlns="http://www.w3.org/2000/svg" xmlns:xlink="http://www.w3.org/1999/xlink" viewBox="0 0 10 10"><defs><linearGradient id="a" gradientUnits="userSpaceOnUse" x1="0" y1="0" x2="10" y2="10"><stop offset="0" stop-color="#f00"/><stop offset="1" stop-color="#00f"/></linearGradient><linearGradient id="b" xlink:href="#a" gradientUnits="userSpaceOnUse" x1="0" y1="0" x2="5" y2="5"/><linearGradient id="c" xlink:href="#a" gradientUnits="userSpaceOnUse" x1="0" y1="0" x2="8" y2="8"/></defs><rect width="10" height="10" fill="url(#b)"/><rect width="4" height="4" fill="url(#c)"/></svg>"##;
    let out = fixed(src, false);
    assert!(!out.contains("xlink"), "{out}");
    assert!(out.contains("href=\"#"), "{out}");
}

/// A gradient that lends its stops to one gradient alone becomes part of it.
#[test]
fn svg_optimize_a_lent_gradient_is_written_into_its_borrower() {
    let src = r##"<svg xmlns="http://www.w3.org/2000/svg" xmlns:xlink="http://www.w3.org/1999/xlink" viewBox="0 0 10 10"><defs><linearGradient id="a"><stop offset="0" stop-color="#f00"/><stop offset="1" stop-color="#00f"/></linearGradient><linearGradient id="b" xlink:href="#a" gradientUnits="userSpaceOnUse" x1="0" y1="0" x2="10" y2="10"/></defs><rect width="10" height="10" fill="url(#b)"/></svg>"##;
    let out = fixed(src, false);
    assert!(!out.contains("href"), "{out}");
    assert_eq!(out.matches("linearGradient").count(), 2, "{out}");
}

/// A style declaration becomes an attribute, and a default then goes with the rest.
#[test]
fn a_style_becomes_attributes_and_loses_the_defaults() {
    let src = r#"<svg xmlns="http://www.w3.org/2000/svg" viewBox="0 0 10 10"><path style="fill:#f00;fill-opacity:1;fill-rule:nonzero" d="M0 0h10v10H0Z"/></svg>"#;
    let out = fixed(src, false);
    assert!(!out.contains("style="), "{out}");
    assert!(out.contains(r#"fill="red""#), "{out}");
    assert!(!out.contains("fill-opacity"), "{out}");
    assert!(!out.contains("fill-rule"), "{out}");
}

/// `removeViewBox` is not in the default preset.
#[test]
fn viewbox_survives_optimization() {
    let src = r#"<svg xmlns="http://www.w3.org/2000/svg" viewBox="0 0 1024 512"><rect width="1024" height="512"/></svg>"#;
    let out = fixed(src, false);
    assert!(out.contains(r#"viewBox="0 0 1024 512""#), "{out}");
}

#[test]
fn referenced_ids_are_never_broken() {
    let src = r##"<svg xmlns="http://www.w3.org/2000/svg" viewBox="0 0 10 10"><defs><linearGradient id="the-gradient" gradientUnits="userSpaceOnUse" x1="0" y1="0" x2="10" y2="10"><stop offset="0" stop-color="#f00"/><stop offset="1" stop-color="#00f"/></linearGradient></defs><rect width="10" height="10" fill="url(#the-gradient)"/></svg>"##;
    let out = fixed(src, false);
    let start = out.find("url(#").expect("reference kept") + "url(#".len();
    let end = start + out[start..].find(')').expect("closed reference");
    let target = &out[start..end];
    assert!(out.contains(&format!(r#"id="{target}""#)), "{out}");
}
