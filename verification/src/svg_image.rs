//! Remove `<image>` from an SVG document.
//!
//! resvg is built without its `raster-images` feature, so a bitmap never decodes: an `<image>` left
//! in place would survive into the `--svg` output and be missing from the raster targets. An image
//! cannot be turned into paths, so the caller stops, or removes it when asked.

use vstd::prelude::*;

use crate::strip::{strip_elements, stripped};
use crate::xml::XmlError;

verus! {

/// Strip every `<image>` element from `src`, whatever its `href` holds.
///
/// Returns the rewritten document and whether anything was removed. A namespace prefix
/// (`<svg:image>`) is matched on the local name.
pub fn strip_images(src: &str) -> (r: Result<(String, bool), XmlError>)
    ensures
        match r {
            Ok((out, removed)) => stripped(src@, "image"@) == Some((out@, removed)),
            Err(_) => stripped(src@, "image"@) is None,
        },
{
    strip_elements(src, "image")
}

} // verus!
