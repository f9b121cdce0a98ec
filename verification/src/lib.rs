//! Verified core of svgy: the byte formats of the icon files, the naming and sizing rules of the
//! command line, and the passes over an SVG document that need no floating point.

pub mod packbits;
pub mod text;
pub mod cli;
pub mod naming;
pub mod palette;
pub mod pixels;
pub mod bytes;
pub mod bmp;
pub mod png;
pub mod icns;
pub mod ico;
pub mod numeric;
pub mod affine;
pub mod xml;
pub mod strip;
pub mod retag;
pub mod svg_text;
pub mod svg_image;
pub mod svg_namespace;
pub mod svg_id;
pub mod svg_optimize;
pub mod svg_gradient;
pub mod svg_mix;
pub mod svg_resize;
pub mod svg_style;
