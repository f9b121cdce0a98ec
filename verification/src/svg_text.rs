//! Remove `<text>` from an SVG document.
//!
//! resvg is built without its `text` feature, so glyphs are never shaped: they do not rasterize,
//! and they do not count in the bounding box that `--round` measures. Text is stripped once, up
//! front, so the `--svg` output shows exactly what the raster targets and the round fit see.

use vstd::prelude::*;

use crate::strip::{strip_elements, stripped};
use crate::xml::XmlError;

verus! {

/// Strip every `<text>` element from `src`, with its `<tspan>` and `<textPath>` children.
///
/// Returns the rewritten document and whether anything was removed. A namespace prefix
/// (`<svg:text>`) is matched on the local name.
pub fn strip_text(src: &str) -> (r: Result<(String, bool), XmlError>)
    ensures
        match r {
            Ok((out, removed)) => stripped(src@, "text"@) == Some((out@, removed)),
            Err(_) => stripped(src@, "text"@) is None,
        },
{
    strip_elements(src, "text")
}

} // verus!
