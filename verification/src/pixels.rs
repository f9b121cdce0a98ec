//! Rendered pixels: premultiplied RGBA as the renderer writes them, and the straight-alpha colors
//! the icon formats store.

use vstd::prelude::*;

verus! {

/// A color with its alpha: red, green, blue, alpha.
pub type Rgba = (u8, u8, u8, u8);

/// What `PremultipliedColorU8::demultiply` makes of a premultiplied color.
pub uninterp spec fn demultiplied(p: Rgba) -> Rgba;

/// Whether a color is a valid premultiplied one: no channel above its alpha.
pub open spec fn premultiplied(p: Rgba) -> bool {
    p.0 <= p.3 && p.1 <= p.3 && p.2 <= p.3
}

/// `tiny_skia::PremultipliedColorU8::demultiply`, which divides each channel by the alpha.
///
/// Claimed, from its source: the result is a function of the color alone, it keeps the alpha, and
/// an opaque color comes back unchanged. The rounding of the division itself is not stated.
#[verifier::external_body]
fn demultiply(p: Rgba) -> (r: Rgba)
    requires
        premultiplied(p),
    ensures
        r == demultiplied(p),
        r.3 == p.3,
        p.3 == 255 ==> r == p,
{
    match resvg::tiny_skia::PremultipliedColorU8::from_rgba(p.0, p.1, p.2, p.3) {
        Some(c) => {
            let d = c.demultiply();
            (d.red(), d.green(), d.blue(), d.alpha())
        },
        None => p,
    }
}

/// Pixel `i` of premultiplied RGBA bytes.
pub open spec fn pixel_at(data: Seq<u8>, i: int) -> Rgba {
    (data[4 * i], data[4 * i + 1], data[4 * i + 2], data[4 * i + 3])
}

/// Whether `data` holds `n` valid premultiplied pixels.
pub open spec fn valid_pixels(data: Seq<u8>, n: int) -> bool {
    &&& data.len() == 4 * n
    &&& forall|i: int| 0 <= i < n ==> premultiplied(#[trigger] pixel_at(data, i))
}

/// The straight-alpha colors of premultiplied RGBA bytes.
pub open spec fn straight(data: Seq<u8>) -> Seq<Rgba> {
    Seq::new(data.len() / 4, |i: int| demultiplied(pixel_at(data, i)))
}

/// The straight-alpha color of every pixel in `data`, in order.
pub fn straight_pixels(data: &[u8]) -> (r: Vec<Rgba>)
    requires
        valid_pixels(data@, (data@.len() / 4) as int),
    ensures
        r@ == straight(data@),
{
    let n = data.len() / 4;
    assert(data@.len() == data.len());
    let mut r: Vec<Rgba> = Vec::new();
    let mut i: usize = 0;
    while i < n
        invariant
            n == data@.len() / 4,
            valid_pixels(data@, n as int),
            i <= n,
            r@ == straight(data@).take(i as int),
        decreases n - i,
    {
        assert(premultiplied(pixel_at(data@, i as int)));
        assert(4 * i + 4 <= data.len()) by (nonlinear_arith)
            requires
                i < n,
                n == data.len() / 4,
        ;
        let base: usize = 4 * i;
        let p = demultiply((data[base], data[base + 1], data[base + 2], data[base + 3]));
        r.push(p);
        assert(straight(data@).take(i + 1) =~= straight(data@).take(i as int).push(p));
        i += 1;
    }
    assert(straight(data@).take(n as int) =~= straight(data@));
    r
}

} // verus!
