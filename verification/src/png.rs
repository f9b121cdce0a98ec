//! PNG images of rendered pixels, and how much effort goes into making them small.

use vstd::prelude::*;

verus! {

/// The oxipng preset used by default.
pub const PRESET: u8 = 4;

/// Why an icon could not be written.
#[derive(Clone, Copy, Debug, PartialEq, Eq, Structural)]
pub enum IconError {
    /// The pixels could not be encoded as a PNG.
    Png,
    /// oxipng refused a PNG.
    Optimize,
    /// The file is too large for the 32-bit sizes and offsets of its format.
    TooLarge,
}

/// How much effort to spend on a PNG.
#[derive(Clone, Copy, Debug, PartialEq, Eq, Structural)]
pub struct Opts {
    /// Whether to run oxipng, cleared by `--no-optimize`.
    pub enabled: bool,
    /// Whether to compress with Zopfli, set by `--zopfli`.
    pub zopfli: bool,
}

/// The PNG that `tiny_skia::PixmapRef::encode_png` writes for premultiplied RGBA pixels, `None`
/// when it refuses them.
pub uninterp spec fn png_encoding(width: u32, height: u32, data: Seq<u8>) -> Option<Seq<u8>>;

/// `tiny_skia::PixmapRef::from_bytes` then `encode_png`: the pixels demultiplied and written as an
/// 8-bit RGBA PNG.
///
/// Claimed: the result is a function of the size and the pixels alone, and a refusal is
/// `IconError::Png`. The bytes of the PNG are not stated.
#[verifier::external_body]
pub fn encode_png(width: u32, height: u32, data: &[u8]) -> (r: Result<Vec<u8>, IconError>)
    ensures
        match r {
            Ok(png) => png_encoding(width, height, data@) == Some(png@),
            Err(e) => png_encoding(width, height, data@) is None && e == IconError::Png,
        },
{
    match resvg::tiny_skia::PixmapRef::from_bytes(data, width, height) {
        Some(pixmap) => pixmap.encode_png().map_err(|_| IconError::Png),
        None => Err(IconError::Png),
    }
}

/// Whether `png` is what a PNG entry holds for `encoded`, the encoder's PNG of its pixels: that
/// PNG itself, or, when oxipng runs, a shorter one.
pub open spec fn png_fits(encoded: Option<Seq<u8>>, opts: Opts, png: Seq<u8>) -> bool {
    match encoded {
        Some(e) => png == e || (opts.enabled && png.len() < e.len()),
        None => false,
    }
}

/// Whether oxipng may change the color of a fully transparent pixel, which nobody sees, when that
/// compresses better.
pub const OPTIMIZE_ALPHA: bool = true;

#[verifier::external_type_specification]
#[verifier::external_body]
pub struct ExDeflater(oxipng::Deflater);

/// The deflater of `oxipng::Options::from_preset(preset)`.
#[verifier::external_body]
fn preset_deflater(preset: u8) -> oxipng::Deflater {
    oxipng::Options::from_preset(preset).deflater
}

/// `oxipng::Deflater::Zopfli` with `ZopfliOptions::default()`.
#[verifier::external_body]
fn zopfli_deflater() -> oxipng::Deflater {
    oxipng::Deflater::Zopfli(oxipng::ZopfliOptions::default())
}

/// `oxipng::optimize_from_memory`, with the options of `preset` but for `optimize_alpha` and the
/// deflater, which are the ones given.
///
/// Claimed: what comes back is the input itself or shorter, since with `force` off, as every
/// preset leaves it, oxipng hands the input back whenever its own output is no shorter. Which
/// shorter output it writes is not stated: oxipng tries its filters in parallel and keeps the
/// smallest, and which of two outputs of one size wins is not shown to be fixed. A refusal is
/// `IconError::Optimize`.
#[verifier::external_body]
fn oxipng_optimize(png: &[u8], preset: u8, optimize_alpha: bool, deflater: oxipng::Deflater) -> (r: Result<Vec<u8>, IconError>)
    ensures
        r matches Ok(out) ==> out@ == png@ || out@.len() < png@.len(),
        r matches Err(e) ==> e == IconError::Optimize,
{
    let options = oxipng::Options { optimize_alpha, deflater, ..oxipng::Options::from_preset(preset) };
    oxipng::optimize_from_memory(png, &options).map_err(|_| IconError::Optimize)
}

/// Optimize PNG bytes with oxipng when enabled, otherwise return them as-is: at [`PRESET`], with
/// [`OPTIMIZE_ALPHA`], and with the Zopfli deflater in place of the preset's when asked. An
/// optimized PNG is never longer than the one it came from.
pub fn maybe_optimize(png: Vec<u8>, opts: Opts) -> (r: Result<Vec<u8>, IconError>)
    ensures
        !opts.enabled ==> (r matches Ok(out) && out@ == png@),
        r matches Ok(out) ==> out@.len() <= png@.len(),
        r matches Ok(out) ==> out@ == png@ || out@.len() < png@.len(),
        r matches Err(e) ==> opts.enabled && e == IconError::Optimize,
{
    if !opts.enabled {
        return Ok(png);
    }
    let deflater = if opts.zopfli {
        zopfli_deflater()
    } else {
        preset_deflater(PRESET)
    };
    oxipng_optimize(png.as_slice(), PRESET, OPTIMIZE_ALPHA, deflater)
}

} // verus!
