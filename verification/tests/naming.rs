use std::path::Path;

use svgy::cli::{DEFAULT_SUFFIX, ROUND_SUFFIX};
use svgy::naming::default_name;

#[test]
fn default_names_carry_the_suffix() {
    let input = "art/logo.svg";
    assert_eq!(
        Path::new(&default_name(input, DEFAULT_SUFFIX, "png")),
        Path::new("art/logo.svgy.png")
    );
    assert_eq!(
        Path::new(&default_name(input, DEFAULT_SUFFIX, "svg")),
        Path::new("art/logo.svgy.svg")
    );
    assert_eq!(
        Path::new(&default_name(input, "v2", "icns")),
        Path::new("art/logo.v2.icns")
    );
}

/// `--svg` and `--round` both write an SVG, so `--round` uses its own suffix and the two never
/// claim the same path.
#[test]
fn round_never_collides_with_svg() {
    let input = "logo.svg";
    let svg = default_name(input, DEFAULT_SUFFIX, "svg");
    let round = default_name(input, ROUND_SUFFIX, "svg");
    assert_eq!(Path::new(&svg), Path::new("logo.svgy.svg"));
    assert_eq!(Path::new(&round), Path::new("logo.round.svg"));
    assert_ne!(svg, round);
}

/// A custom `--suffix` moves the SVG but leaves `--round` where it is.
#[test]
fn custom_suffix_does_not_move_round() {
    let input = "logo.svg";
    assert_eq!(Path::new(&default_name(input, "v2", "svg")), Path::new("logo.v2.svg"));
    assert_eq!(
        Path::new(&default_name(input, ROUND_SUFFIX, "svg")),
        Path::new("logo.round.svg")
    );
}

#[test]
fn a_path_without_a_stem_is_named_out() {
    assert_eq!(Path::new(&default_name("", "svgy", "png")), Path::new("out.svgy.png"));
}

/// The stem is the name before its last `.`, unless that `.` starts the name.
#[test]
fn the_stem_drops_only_the_last_extension() {
    assert!(default_name("a/b.c.svg", "svgy", "svg").ends_with("b.c.svgy.svg"));
    assert!(default_name(".hidden", "svgy", "png").ends_with(".hidden.svgy.png"));
    assert!(default_name("logo", "svgy", "png").ends_with("logo.svgy.png"));
    assert!(default_name("file.svg", "svgy", "svg").ends_with("file.svgy.svg"));
}
