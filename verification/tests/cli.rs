use svgy::affine::implicit_origins;
use svgy::cli::{SizeOpts, Target, Targets, DEFAULT_SIZE};
use svgy::naming::file_name_for;
use svgy::svg_resize::Canvas;

fn opts(size: Option<u32>, width: Option<u32>, height: Option<u32>) -> SizeOpts {
    SizeOpts { size, width, height }
}

#[test]
fn size_beats_width_and_height() {
    assert_eq!(opts(Some(64), Some(10), Some(20)).target(), Some(Target::Square(64)));
    assert_eq!(opts(None, Some(10), Some(20)).target(), Some(Target::Both(10, 20)));
    assert_eq!(opts(None, Some(10), None).target(), Some(Target::Width(10)));
    assert_eq!(opts(None, None, Some(20)).target(), Some(Target::Height(20)));
    assert_eq!(opts(None, None, None).target(), None);
}

#[test]
fn no_size_resizes_to_the_default_square() {
    assert_eq!(opts(None, None, None).target_or_default(), Target::Square(DEFAULT_SIZE));
    assert_eq!(DEFAULT_SIZE, 1024);
    assert_eq!(opts(None, Some(3), None).target_or_default(), Target::Width(3));
    // `--width=200` alone gives a width of 200.
    assert_eq!(opts(None, Some(200), None).target_or_default(), Target::Width(200));
}

#[test]
fn a_target_pads_the_axes_it_fixes() {
    assert_eq!(Target::Square(8).canvas(), (Some(8), Some(8)));
    assert_eq!(Target::Width(8).canvas(), (Some(8), None));
    assert_eq!(Target::Height(8).canvas(), (None, Some(8)));
    assert_eq!(Target::Both(8, 9).canvas(), (Some(8), Some(9)));
    assert_ne!(Canvas::Padded, Canvas::Tight);
}

fn targets() -> Targets {
    Targets { svg: None, png: None, ico: None, icns: None, round: None }
}

#[test]
fn bare_input_implies_svg() {
    let t = targets();
    assert!(t.no_target());
    assert_eq!(t.svg_target(), Some(None));
}

#[test]
fn explicit_target_drops_the_implicit_svg() {
    let t = Targets { png: Some(None), ..targets() };
    assert!(!t.no_target());
    assert_eq!(t.svg_target(), None);
    let t = Targets { png: Some(None), svg: Some(Some("a.svg".to_string())), ..targets() };
    assert_eq!(t.svg_target(), Some(Some("a.svg".to_string())));
}

#[test]
fn svg_can_be_kept_alongside_another_target() {
    let t = Targets { png: Some(None), svg: Some(None), ..targets() };
    assert_eq!(t.svg_target(), Some(None));
    assert_eq!(t.png, Some(None));
}

#[test]
fn a_missing_stem_is_out() {
    assert_eq!(file_name_for(None, "svgy", "png"), "out.svgy.png");
    assert_eq!(file_name_for(Some("logo"), "v2", "ico"), "logo.v2.ico");
}

#[test]
fn origins_that_default_to_zero() {
    assert_eq!(implicit_origins("rect"), &["x", "y"]);
    assert_eq!(implicit_origins("circle"), &["cx", "cy"]);
    assert_eq!(implicit_origins("line"), &["x1", "y1", "x2", "y2"]);
    assert!(implicit_origins("path").is_empty());
}

#[test]
fn a_relative_command_is_written_in_lower_case() {
    let mut out = String::from("M 1 2 ");
    svgy::affine::cmd(&mut out, 'L', false);
    svgy::affine::cmd(&mut out, 'C', true);
    assert_eq!(out, "M 1 2 l C ");
}
