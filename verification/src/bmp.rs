//! 256-color BMP icon entries, for legacy ICO readers.
//!
//! Windows picks the entry whose declared depth best matches the display, so a session capped at
//! 256 colors wants an entry declaring 8 bits per pixel; PNG entries declare 32. Pre-Vista shells
//! cannot read PNG entries at all, so these also keep the two smallest sizes usable there.
//!
//! The layout is the classic one: a bottom-up 8bpp DIB whose height is doubled to cover the 1-bit
//! AND mask that follows the color data.

use vstd::prelude::*;

use crate::bytes::{le16, le32, push_le16, push_le32, push_zeros, zeros};
use crate::palette::{
    distance, lemma_few_colors_are_exact, lemma_nearest_in, lemma_palette_fits, nearest, nearest_in,
    palette_of, quantize, tally, Rgb, PALETTE_LEN,
};
use crate::pixels::{straight, straight_pixels, valid_pixels, Rgba};

verus! {

/// Bytes in a `BITMAPINFOHEADER`.
pub const HEADER_LEN: u32 = 40;

/// The mask is 1 bit, so alpha has to collapse to opaque or fully transparent.
pub const ALPHA_THRESHOLD: u8 = 128;

/// The `BITMAPINFOHEADER` of a `w` x `h` icon: the doubled height marks an icon DIB, and the rest
/// declares 8 bits per pixel, no compression and a full color table.
pub open spec fn bmp_header(w: int, h: int) -> Seq<u8> {
    le32(HEADER_LEN as int) + le32(w) + le32(2 * h) + le16(1) + le16(8) + le32(0) + le32(0) + le32(
        0,
    ) + le32(0) + le32(0) + le32(0)
}

/// The palette entries as BGRA with a zero alpha byte.
pub open spec fn table_entries(p: Seq<Rgb>) -> Seq<u8>
    decreases p.len(),
{
    if p.len() == 0 {
        Seq::empty()
    } else {
        table_entries(p.drop_last()) + seq![p.last().2, p.last().1, p.last().0, 0u8]
    }
}

/// The full color table: the palette, then black up to 256 entries.
pub open spec fn color_table(p: Seq<Rgb>) -> Seq<u8> {
    table_entries(p) + zeros(4 * (PALETTE_LEN - p.len()))
}

/// The color of each straight-alpha pixel, without its alpha.
pub open spec fn rgb_of(px: Seq<Rgba>) -> Seq<Rgb> {
    px.map_values(|p: Rgba| (p.0, p.1, p.2))
}

/// Whether each straight-alpha pixel counts as opaque.
pub open spec fn opaque_of(px: Seq<Rgba>) -> Seq<bool> {
    px.map_values(|p: Rgba| p.3 >= ALPHA_THRESHOLD)
}

/// The palette index of each pixel: the nearest color for an opaque one, 0 for the others.
pub open spec fn indices_of(px: Seq<Rgba>, palette: Seq<Rgb>) -> Seq<u8> {
    Seq::new(
        px.len(),
        |i: int|
            if px[i].3 >= ALPHA_THRESHOLD {
                nearest_in(palette, (px[i].0, px[i].1, px[i].2), palette.len() as int) as u8
            } else {
                0u8
            },
    )
}

/// Rows `h - 1` down to `y` of the color data, each padded to `stride` bytes.
pub open spec fn color_rows(ix: Seq<u8>, w: int, h: int, stride: int, y: int) -> Seq<u8>
    decreases h - y,
{
    if y < 0 || y >= h {
        Seq::empty()
    } else {
        color_rows(ix, w, h, stride, y + 1) + ix.subrange(y * w, y * w + w) + zeros(stride - w)
    }
}

/// The mask bits of the first `n` pixels of `os`: a set bit means transparent, and the leftmost
/// pixel is the high bit.
pub open spec fn mask_bits(os: Seq<bool>, n: int) -> u8
    decreases n,
{
    if n <= 0 {
        0
    } else {
        mask_bits(os, n - 1) | (if !os[n - 1] {
            0x80u8 >> ((n - 1) as u8)
        } else {
            0u8
        })
    }
}

/// The first `k` mask bytes of one row, eight pixels to a byte.
pub open spec fn mask_row(os: Seq<bool>, k: int) -> Seq<u8>
    decreases k,
{
    if k <= 0 {
        Seq::empty()
    } else {
        let start = 8 * (k - 1);
        let end = if start + 8 <= os.len() {
            start + 8
        } else {
            os.len() as int
        };
        mask_row(os, k - 1).push(mask_bits(os.subrange(start, end), end - start))
    }
}

/// Bytes one row of `w` pixels takes in the mask, before padding.
pub open spec fn mask_bytes(w: int) -> int {
    (w + 7) / 8
}

/// Rows `h - 1` down to `y` of the mask, each padded to `stride` bytes.
pub open spec fn mask_rows(os: Seq<bool>, w: int, h: int, stride: int, y: int) -> Seq<u8>
    decreases h - y,
{
    if y < 0 || y >= h {
        Seq::empty()
    } else {
        mask_rows(os, w, h, stride, y + 1) + mask_row(os.subrange(y * w, y * w + w), mask_bytes(w))
            + zeros(stride - mask_bytes(w))
    }
}

/// Bytes a row of color data takes: one per pixel, padded to 4.
pub open spec fn color_stride(w: int) -> int {
    (w + 3) / 4 * 4
}

/// Bytes a row of the mask takes: one bit per pixel, padded to 4 bytes.
pub open spec fn mask_stride(w: int) -> int {
    (mask_bytes(w) + 3) / 4 * 4
}

/// The BMP entry of a `w` x `h` image of straight-alpha pixels: header, color table, color data,
/// mask.
pub open spec fn bmp_of(w: int, h: int, px: Seq<Rgba>) -> Seq<u8> {
    let palette = palette_of(rgb_of(px), opaque_of(px));
    bmp_header(w, h) + color_table(palette) + color_rows(
        indices_of(px, palette),
        w,
        h,
        color_stride(w),
        0,
    ) + mask_rows(opaque_of(px), w, h, mask_stride(w), 0)
}


/// Where the color data starts in an entry: after the header and the full color table.
pub const COLOR_DATA_START: usize = 1064;

/// The color-data byte of pixel (`x`, `y`) of a `w` x `h` entry, `y = 0` being the top row: the
/// rows are stored bottom-up, `color_stride(w)` bytes each.
pub open spec fn color_at(file: Seq<u8>, w: int, h: int, x: int, y: int) -> u8 {
    file[COLOR_DATA_START + (h - 1 - y) * color_stride(w) + x]
}

/// Whether the mask bit of pixel (`x`, `y`) is set: the mask follows the color data, bottom-up
/// too, `mask_stride(w)` bytes a row, and the leftmost pixel of a byte is its high bit.
pub open spec fn mask_bit_at(file: Seq<u8>, w: int, h: int, x: int, y: int) -> bool {
    file[COLOR_DATA_START + h * color_stride(w) + (h - 1 - y) * mask_stride(w) + x / 8] & (0x80u8
        >> ((x % 8) as u8)) != 0
}

proof fn lemma_table_len(p: Seq<Rgb>)
    ensures
        table_entries(p).len() == 4 * p.len(),
    decreases p.len(),
{
    if p.len() > 0 {
        lemma_table_len(p.drop_last());
    }
}

proof fn lemma_row_bounds(w: int, h: int, y: int) by (nonlinear_arith)
    requires
        0 <= y < h,
        0 <= w,
    ensures
        0 <= y * w,
        y * w + w <= w * h,
{
}

proof fn lemma_rows_arith(h: int, y0: int, y: int, s: int) by (nonlinear_arith)
    requires
        0 <= y0 <= y < h,
        s >= 0,
    ensures
        0 <= (h - 1 - y) * s,
        (h - 1 - y) * s + s <= (h - y0) * s,
        (h - y0) * s == (h - y0 - 1) * s + s,
        y == y0 ==> (h - 1 - y) * s == (h - y0 - 1) * s,
        y > y0 ==> (h - 1 - y) * s + s <= (h - y0 - 1) * s,
        y0 + 1 == h ==> (h - y0 - 1) * s == 0,
{
}

proof fn lemma_color_rows(ix: Seq<u8>, w: int, h: int, s: int, y0: int, x: int, y: int)
    requires
        0 <= w <= s,
        ix.len() == w * h,
        0 <= y0 <= h,
        0 <= x < w,
        y0 <= y < h,
    ensures
        color_rows(ix, w, h, s, y0).len() == (h - y0) * s,
        color_rows(ix, w, h, s, y0)[(h - 1 - y) * s + x] == ix[y * w + x],
    decreases h - y0,
{
    lemma_rows_arith(h, y0, y, s);
    lemma_row_bounds(w, h, y0);
    if y0 + 1 < h && y > y0 {
        lemma_color_rows(ix, w, h, s, y0 + 1, x, y);
    } else if y0 + 1 < h {
        lemma_color_rows(ix, w, h, s, y0 + 1, 0, h - 1);
    }
    let rest = color_rows(ix, w, h, s, y0 + 1);
    let row = ix.subrange(y0 * w, y0 * w + w);
    assert(color_rows(ix, w, h, s, y0) == rest + row + zeros(s - w));
    assert(rest.len() == (h - y0 - 1) * s);
}

proof fn lemma_mask_row_len(os: Seq<bool>, k: int)
    requires
        0 <= k,
    ensures
        mask_row(os, k).len() == k,
    decreases k,
{
    if k > 0 {
        lemma_mask_row_len(os, k - 1);
    }
}

proof fn lemma_mask_row(os: Seq<bool>, k: int, b: int)
    requires
        0 <= b < k,
    ensures
        mask_row(os, k).len() == k,
        mask_row(os, k)[b] == ({
            let end = if 8 * b + 8 <= os.len() { 8 * b + 8 } else { os.len() as int };
            mask_bits(os.subrange(8 * b, end), end - 8 * b)
        }),
    decreases k,
{
    lemma_mask_row_len(os, k);
    lemma_mask_row_len(os, k - 1);
    if b < k - 1 {
        lemma_mask_row(os, k - 1, b);
    }
}

proof fn lemma_bit_of_shift(j: u8, k: u8) by (bit_vector)
    requires
        j < 8,
        k < 8,
    ensures
        ((0x80u8 >> k) & (0x80u8 >> j) != 0) == (j == k),
{
}

proof fn lemma_or_and(a: u8, c: u8, m: u8) by (bit_vector)
    ensures
        ((a | c) & m != 0) == ((a & m != 0) || (c & m != 0)),
        (0u8 & m) == 0,
{
}

/// Bit `j` of the mask byte of the first `n` pixels of `os` is set exactly when pixel `j` is one
/// of them and is not opaque.
proof fn lemma_mask_bits(os: Seq<bool>, n: int, j: int)
    requires
        0 <= n <= 8,
        0 <= j < 8,
        n <= os.len(),
    ensures
        (mask_bits(os, n) & (0x80u8 >> (j as u8)) != 0) == (j < n && !os[j]),
    decreases n,
{
    lemma_or_and(0, 0, 0x80u8 >> (j as u8));
    if n > 0 {
        lemma_mask_bits(os, n - 1, j);
        let c: u8 = if !os[n - 1] {
            0x80u8 >> ((n - 1) as u8)
        } else {
            0u8
        };
        lemma_or_and(mask_bits(os, n - 1), c, 0x80u8 >> (j as u8));
        lemma_or_and(0, 0, 0x80u8 >> (j as u8));
        lemma_bit_of_shift(j as u8, (n - 1) as u8);
    }
}

proof fn lemma_mask_rows(os: Seq<bool>, w: int, h: int, s: int, y0: int, x: int, y: int)
    requires
        0 <= mask_bytes(w) <= s,
        0 <= w,
        os.len() == w * h,
        0 <= y0 <= h,
        0 <= x < w,
        y0 <= y < h,
    ensures
        mask_rows(os, w, h, s, y0).len() == (h - y0) * s,
        (mask_rows(os, w, h, s, y0)[(h - 1 - y) * s + x / 8] & (0x80u8 >> ((x % 8) as u8)) != 0)
            == !os[y * w + x],
    decreases h - y0,
{
    lemma_rows_arith(h, y0, y, s);
    lemma_row_bounds(w, h, y0);
    assert(x / 8 < mask_bytes(w));
    if y0 + 1 < h && y > y0 {
        lemma_mask_rows(os, w, h, s, y0 + 1, x, y);
    } else if y0 + 1 < h {
        lemma_mask_rows(os, w, h, s, y0 + 1, 0, h - 1);
    }
    let rest = mask_rows(os, w, h, s, y0 + 1);
    let seg = os.subrange(y0 * w, y0 * w + w);
    let row = mask_row(seg, mask_bytes(w));
    lemma_mask_row(seg, mask_bytes(w), x / 8);
    assert(mask_rows(os, w, h, s, y0) == rest + row + zeros(s - mask_bytes(w)));
    assert(rest.len() == (h - y0 - 1) * s);
    if y == y0 {
        let b = x / 8;
        let end = if 8 * b + 8 <= seg.len() { 8 * b + 8 } else { seg.len() as int };
        let chunk = seg.subrange(8 * b, end);
        lemma_mask_bits(chunk, end - 8 * b, x % 8);
        assert(chunk[x % 8] == os[y * w + x]);
    }
}

proof fn lemma_color_rows_len(ix: Seq<u8>, w: int, h: int, s: int, y0: int)
    requires
        0 <= w <= s,
        ix.len() == w * h,
        0 <= y0 <= h,
    ensures
        color_rows(ix, w, h, s, y0).len() == (h - y0) * s,
    decreases h - y0,
{
    if y0 < h {
        lemma_color_rows_len(ix, w, h, s, y0 + 1);
        lemma_row_bounds(w, h, y0);
        assert((h - y0) * s == (h - y0 - 1) * s + s) by (nonlinear_arith);
    } else {
        assert((h - y0) * s == 0) by (nonlinear_arith)
            requires
                y0 == h,
        ;
    }
}

proof fn lemma_mask_rows_len(os: Seq<bool>, w: int, h: int, s: int, y0: int)
    requires
        0 <= mask_bytes(w) <= s,
        0 <= w,
        os.len() == w * h,
        0 <= y0 <= h,
    ensures
        mask_rows(os, w, h, s, y0).len() == (h - y0) * s,
    decreases h - y0,
{
    if y0 < h {
        lemma_mask_rows_len(os, w, h, s, y0 + 1);
        lemma_row_bounds(w, h, y0);
        lemma_mask_row_len(os.subrange(y0 * w, y0 * w + w), mask_bytes(w));
        assert((h - y0) * s == (h - y0 - 1) * s + s) by (nonlinear_arith);
    } else {
        assert((h - y0) * s == 0) by (nonlinear_arith)
            requires
                y0 == h,
        ;
    }
}

/// The length and the head of an entry: the 40-byte header, the 1 KiB color table, then `h` rows
/// of color data and `h` rows of mask, each row padded to four bytes.
proof fn lemma_entry_shape(w: int, h: int, px: Seq<Rgba>, palette: Seq<Rgb>)
    requires
        px.len() == w * h,
        0 <= w,
        0 <= h,
        palette.len() <= PALETTE_LEN,
    ensures
        ({
            let file = bmp_header(w, h) + color_table(palette) + color_rows(
                indices_of(px, palette),
                w,
                h,
                color_stride(w),
                0,
            ) + mask_rows(opaque_of(px), w, h, mask_stride(w), 0);
            &&& file.len() == COLOR_DATA_START + h * (color_stride(w) + mask_stride(w))
            &&& file.subrange(0, 40) == bmp_header(w, h)
        }),
{
    lemma_table_len(palette);
    let cs = color_stride(w);
    let ms = mask_stride(w);
    assert(w <= cs && mask_bytes(w) <= ms);
    lemma_color_rows_len(indices_of(px, palette), w, h, cs, 0);
    lemma_mask_rows_len(opaque_of(px), w, h, ms, 0);
    assert(h * (cs + ms) == h * cs + h * ms) by (nonlinear_arith);
    let head = bmp_header(w, h);
    let file = head + color_table(palette) + color_rows(indices_of(px, palette), w, h, cs, 0)
        + mask_rows(opaque_of(px), w, h, ms, 0);
    assert(head.len() == 40);
    assert(file.subrange(0, 40) =~= head);
}

/// The pixel facts of [`lemma_transparent_pixels_are_masked`], for any palette of at most 256
/// colors.
proof fn lemma_entry_at(w: int, h: int, px: Seq<Rgba>, palette: Seq<Rgb>, x: int, y: int)
    requires
        px.len() == w * h,
        palette.len() <= PALETTE_LEN,
        0 <= x < w,
        0 <= y < h,
    ensures
        ({
            let file = bmp_header(w, h) + color_table(palette) + color_rows(
                indices_of(px, palette),
                w,
                h,
                color_stride(w),
                0,
            ) + mask_rows(opaque_of(px), w, h, mask_stride(w), 0);
            &&& mask_bit_at(file, w, h, x, y) == (px[y * w + x].3 < ALPHA_THRESHOLD)
            &&& px[y * w + x].3 < ALPHA_THRESHOLD ==> color_at(file, w, h, x, y) == 0
        }),
{
    let head = bmp_header(w, h);
    let table = color_table(palette);
    let ix = indices_of(px, palette);
    let cs = color_stride(w);
    let ms = mask_stride(w);
    let colors = color_rows(ix, w, h, cs, 0);
    let mask = mask_rows(opaque_of(px), w, h, ms, 0);
    lemma_table_len(palette);
    lemma_row_bounds(w, h, y);
    assert(head.len() == 40);
    assert(table.len() == 1024);
    assert(w <= cs && mask_bytes(w) <= ms);
    lemma_color_rows(ix, w, h, cs, 0, x, y);
    lemma_mask_rows(opaque_of(px), w, h, ms, 0, x, y);
    lemma_rows_arith(h, 0, y, cs);
    lemma_rows_arith(h, 0, y, ms);
    assert(x / 8 < ms);
    let file = head + table + colors + mask;
    assert(file[COLOR_DATA_START + (h - 1 - y) * cs + x] == colors[(h - 1 - y) * cs + x]);
    assert(file[COLOR_DATA_START + h * cs + (h - 1 - y) * ms + x / 8] == mask[(h - 1 - y) * ms
        + x / 8]);
    assert(opaque_of(px)[y * w + x] == (px[y * w + x].3 >= ALPHA_THRESHOLD));
    assert(ix[y * w + x] == 0 || px[y * w + x].3 >= ALPHA_THRESHOLD);
}

/// Each pixel of an entry as a reader finds it: the mask bit is set exactly for a pixel whose
/// straight alpha is under [`ALPHA_THRESHOLD`], and such a pixel takes color index 0.
proof fn lemma_transparent_pixels_are_masked(w: int, h: int, px: Seq<Rgba>, x: int, y: int)
    requires
        px.len() == w * h,
        palette_of(rgb_of(px), opaque_of(px)).len() <= PALETTE_LEN,
        0 <= x < w,
        0 <= y < h,
    ensures
        mask_bit_at(bmp_of(w, h, px), w, h, x, y) == (px[y * w + x].3 < ALPHA_THRESHOLD),
        px[y * w + x].3 < ALPHA_THRESHOLD ==> color_at(bmp_of(w, h, px), w, h, x, y) == 0,
{
    lemma_entry_at(w, h, px, palette_of(rgb_of(px), opaque_of(px)), x, y);
}

/// Color-table entry `k` of an entry as a reader finds it: the table follows the header, four
/// bytes an entry, blue first.
pub open spec fn table_color(file: Seq<u8>, k: int) -> Rgb {
    (file[HEADER_LEN + 4 * k + 2], file[HEADER_LEN + 4 * k + 1], file[HEADER_LEN + 4 * k])
}

proof fn lemma_table_entry(p: Seq<Rgb>, k: int)
    requires
        0 <= k < p.len(),
    ensures
        table_entries(p).len() == 4 * p.len(),
        table_entries(p)[4 * k] == p[k].2,
        table_entries(p)[4 * k + 1] == p[k].1,
        table_entries(p)[4 * k + 2] == p[k].0,
    decreases p.len(),
{
    lemma_table_len(p);
    lemma_table_len(p.drop_last());
    if k < p.len() - 1 {
        lemma_table_entry(p.drop_last(), k);
    }
}

/// The color table of an entry holds the palette, in order, and black after it up to
/// [`PALETTE_LEN`] entries.
#[verifier::spinoff_prover]
pub proof fn lemma_color_table_holds_the_palette(w: int, h: int, px: Seq<Rgba>)
    requires
        px.len() == w * h,
        0 <= w,
        0 <= h,
    ensures
        ({
            let file = bmp_of(w, h, px);
            let palette = palette_of(rgb_of(px), opaque_of(px));
            &&& forall|j: int| 0 <= j < palette.len() ==> #[trigger] table_color(file, j) == palette[j]
            &&& forall|j: int|
                palette.len() <= j < PALETTE_LEN ==> #[trigger] table_color(file, j) == (0u8, 0u8, 0u8)
        }),
{
    let palette = palette_of(rgb_of(px), opaque_of(px));
    lemma_palette_fits(rgb_of(px), opaque_of(px));
    let head = bmp_header(w, h);
    let table = color_table(palette);
    let rest = color_rows(indices_of(px, palette), w, h, color_stride(w), 0) + mask_rows(
        opaque_of(px),
        w,
        h,
        mask_stride(w),
        0,
    );
    let file = head + table + rest;
    assert(file =~= bmp_of(w, h, px));
    lemma_table_len(palette);
    assert(head.len() == 40);
    assert(table.len() == 1024);
    let n = palette.len() as int;
    assert forall|j: int| 0 <= j < PALETTE_LEN implies (#[trigger] table_color(file, j)) == (if j < n {
        palette[j]
    } else {
        (0u8, 0u8, 0u8)
    }) by {
        assert(file[40 + 4 * j] == table[4 * j]);
        assert(file[40 + 4 * j + 1] == table[4 * j + 1]);
        assert(file[40 + 4 * j + 2] == table[4 * j + 2]);
        if j < n {
            lemma_table_entry(palette, j);
        } else {
            assert(table[4 * j] == zeros(4 * (PALETTE_LEN - n))[4 * j - 4 * n]);
            assert(table[4 * j + 1] == zeros(4 * (PALETTE_LEN - n))[4 * j + 1 - 4 * n]);
            assert(table[4 * j + 2] == zeros(4 * (PALETTE_LEN - n))[4 * j + 2 - 4 * n]);
        }
    }
}

/// An opaque pixel of an entry shows the table color nearest to its own: the color index stored
/// for it names an entry of the palette's part of the table, no entry there lies closer, by
/// squared distance, to the pixel's own (r, g, b), no entry before it lies as close, and when the
/// image holds at most [`PALETTE_LEN`] distinct opaque colors that entry is the pixel's color
/// itself.
#[verifier::spinoff_prover]
pub proof fn lemma_opaque_pixels_show_the_nearest_color(w: int, h: int, px: Seq<Rgba>, x: int, y: int)
    requires
        px.len() == w * h,
        0 <= x < w,
        0 <= y < h,
        px[y * w + x].3 >= ALPHA_THRESHOLD,
    ensures
        ({
            let file = bmp_of(w, h, px);
            let palette = palette_of(rgb_of(px), opaque_of(px));
            let p = px[y * w + x];
            let c = (p.0, p.1, p.2);
            let k = color_at(file, w, h, x, y) as int;
            &&& k < palette.len()
            &&& forall|j: int| 0 <= j < palette.len() ==> #[trigger] table_color(file, j) == palette[j]
            &&& forall|j: int|
                0 <= j < palette.len() ==> distance(table_color(file, k), c) <= distance(
                    #[trigger] table_color(file, j),
                    c,
                )
            &&& forall|j: int|
                0 <= j < k ==> distance(table_color(file, k), c) < distance(
                    #[trigger] table_color(file, j),
                    c,
                )
            &&& tally(rgb_of(px), opaque_of(px), px.len() as int).len() <= PALETTE_LEN
                ==> table_color(file, k) == c
        }),
{
    let palette = palette_of(rgb_of(px), opaque_of(px));
    lemma_palette_fits(rgb_of(px), opaque_of(px));
    let p = px[y * w + x];
    let c = (p.0, p.1, p.2);
    let head = bmp_header(w, h);
    let table = color_table(palette);
    let ix = indices_of(px, palette);
    let cs = color_stride(w);
    let ms = mask_stride(w);
    let colors = color_rows(ix, w, h, cs, 0);
    let mask = mask_rows(opaque_of(px), w, h, ms, 0);
    let file = head + table + colors + mask;
    assert(file == bmp_of(w, h, px));
    lemma_table_len(palette);
    lemma_row_bounds(w, h, y);
    assert(head.len() == 40);
    assert(table.len() == 1024);
    assert(w <= cs);
    lemma_color_rows(ix, w, h, cs, 0, x, y);
    lemma_rows_arith(h, 0, y, cs);
    let m = y * w + x;
    assert(file[COLOR_DATA_START + (h - 1 - y) * cs + x] == colors[(h - 1 - y) * cs + x]);
    lemma_nearest_in(palette, c, palette.len() as int);
    let nb = nearest_in(palette, c, palette.len() as int);
    assert(ix[m] == nb as u8);
    let k = color_at(file, w, h, x, y) as int;
    assert(k == nb);
    assert forall|j: int| 0 <= j < palette.len() implies #[trigger] table_color(file, j)
        == palette[j] by {
        lemma_table_entry(palette, j);
        assert(file[40 + 4 * j] == table[4 * j]);
        assert(file[40 + 4 * j + 1] == table[4 * j + 1]);
        assert(file[40 + 4 * j + 2] == table[4 * j + 2]);
    }
    assert(table_color(file, k) == palette[k]);
    assert forall|j: int| 0 <= j < palette.len() implies distance(table_color(file, k), c)
        <= distance(#[trigger] table_color(file, j), c) by {
        assert(table_color(file, j) == palette[j]);
    }
    assert forall|j: int| 0 <= j < k implies distance(table_color(file, k), c) < distance(
        #[trigger] table_color(file, j),
        c,
    ) by {
        assert(table_color(file, j) == palette[j]);
    }
    if tally(rgb_of(px), opaque_of(px), px.len() as int).len() <= PALETTE_LEN {
        assert(rgb_of(px)[m] == c);
        assert(opaque_of(px)[m]);
        lemma_few_colors_are_exact(rgb_of(px), opaque_of(px), m);
    }
}

/// The mask byte of up to eight pixels.
fn mask_byte(os: &Vec<bool>, start: usize, end: usize) -> (r: u8)
    requires
        start <= end <= os.len(),
        end - start <= 8,
    ensures
        r == mask_bits(os@.subrange(start as int, end as int), end - start),
{
    let ghost chunk = os@.subrange(start as int, end as int);
    let mut byte: u8 = 0;
    let mut bit: usize = 0;
    while bit < end - start
        invariant
            start <= end <= os.len(),
            end - start <= 8,
            chunk == os@.subrange(start as int, end as int),
            bit <= end - start,
            byte == mask_bits(chunk, bit as int),
        decreases end - start - bit,
    {
        assert(chunk[bit as int] == os@[start + bit]);
        let ghost prev = byte;
        if !os[start + bit] {
            byte = byte | (0x80u8 >> (bit as u8));
        } else {
            assert(prev | 0u8 == prev) by (bit_vector);
        }
        bit += 1;
    }
    byte
}

/// Append the mask bytes of one row of pixels, `os[start..start + w]`.
fn push_mask_row(out: &mut Vec<u8>, os: &Vec<bool>, start: usize, w: usize)
    requires
        start + w <= os.len(),
    ensures
        final(out)@ == old(out)@ + mask_row(
            os@.subrange(start as int, start + w),
            mask_bytes(w as int),
        ),
{
    let ghost row = os@.subrange(start as int, start + w);
    let chunks = w / 8 + if w % 8 == 0 { 0 } else { 1 };
    assert(chunks == mask_bytes(w as int));
    let mut k: usize = 0;
    while k < chunks
        invariant
            start + w <= os.len(),
            row == os@.subrange(start as int, start + w),
            chunks == mask_bytes(w as int),
            k <= chunks,
            out@ == old(out)@ + mask_row(row, k as int),
        decreases chunks - k,
    {
        assert(8 * k < w) by (nonlinear_arith)
            requires
                k < chunks,
                chunks == (w + 7) / 8,
        ;
        let lo = 8 * k;
        let hi = if w - lo >= 8 {
            lo + 8
        } else {
            w
        };
        let byte = mask_byte(os, start + lo, start + hi);
        assert(os@.subrange(start + lo, start + hi) =~= row.subrange(lo as int, hi as int));
        out.push(byte);
        k += 1;
    }
}

/// Append rows `h - 1` down to 0 of the color data.
fn push_color_rows(out: &mut Vec<u8>, ix: &Vec<u8>, w: usize, h: usize, stride: usize)
    requires
        ix.len() == w * h,
        stride >= w,
    ensures
        final(out)@ == old(out)@ + color_rows(ix@, w as int, h as int, stride as int, 0),
{
    let mut y: usize = h;
    while y > 0
        invariant
            ix.len() == w * h,
            stride >= w,
            y <= h,
            out@ == old(out)@ + color_rows(ix@, w as int, h as int, stride as int, y as int),
        decreases y,
    {
        y -= 1;
        assert(y * w + w <= w * h) by (nonlinear_arith)
            requires
                y < h,
        ;
        let start = y * w;
        let ghost before = out@;
        let mut x: usize = 0;
        while x < w
            invariant
                ix.len() == w * h,
                start + w <= ix.len(),
                x <= w,
                out@ == before + ix@.subrange(start as int, start + x),
            decreases w - x,
        {
            out.push(ix[start + x]);
            assert(ix@.subrange(start as int, start + x + 1) =~= ix@.subrange(
                start as int,
                start + x,
            ).push(ix@[start + x]));
            x += 1;
        }
        push_zeros(out, stride - w);
        assert(out@ =~= old(out)@ + color_rows(ix@, w as int, h as int, stride as int, y as int));
    }
}

/// Append rows `h - 1` down to 0 of the mask.
fn push_mask_rows(out: &mut Vec<u8>, os: &Vec<bool>, w: usize, h: usize, stride: usize)
    requires
        os.len() == w * h,
        stride >= mask_bytes(w as int),
    ensures
        final(out)@ == old(out)@ + mask_rows(os@, w as int, h as int, stride as int, 0),
{
    let mut y: usize = h;
    while y > 0
        invariant
            os.len() == w * h,
            stride >= mask_bytes(w as int),
            y <= h,
            out@ == old(out)@ + mask_rows(os@, w as int, h as int, stride as int, y as int),
        decreases y,
    {
        y -= 1;
        assert(y * w + w <= w * h) by (nonlinear_arith)
            requires
                y < h,
        ;
        push_mask_row(out, os, y * w, w);
        let used = w / 8 + if w % 8 == 0 { 0 } else { 1 };
        push_zeros(out, stride - used);
        assert(out@ =~= old(out)@ + mask_rows(os@, w as int, h as int, stride as int, y as int));
    }
}

/// The color and the opacity of each pixel.
fn split_alpha(px: &Vec<Rgba>) -> (r: (Vec<Rgb>, Vec<bool>))
    ensures
        r.0@ == rgb_of(px@),
        r.1@ == opaque_of(px@),
{
    let mut rgb: Vec<Rgb> = Vec::new();
    let mut opaque: Vec<bool> = Vec::new();
    let mut i: usize = 0;
    while i < px.len()
        invariant
            i <= px.len(),
            rgb@ == rgb_of(px@).take(i as int),
            opaque@ == opaque_of(px@).take(i as int),
        decreases px.len() - i,
    {
        let p = px[i];
        rgb.push((p.0, p.1, p.2));
        opaque.push(p.3 >= ALPHA_THRESHOLD);
        assert(rgb_of(px@).take(i + 1) =~= rgb_of(px@).take(i as int).push((p.0, p.1, p.2)));
        assert(opaque_of(px@).take(i + 1) =~= opaque_of(px@).take(i as int).push(
            p.3 >= ALPHA_THRESHOLD,
        ));
        i += 1;
    }
    assert(rgb_of(px@).take(px.len() as int) =~= rgb_of(px@));
    assert(opaque_of(px@).take(px.len() as int) =~= opaque_of(px@));
    (rgb, opaque)
}

/// The palette index of every pixel.
fn palette_indices(px: &Vec<Rgba>, rgb: &Vec<Rgb>, opaque: &Vec<bool>, palette: &Vec<Rgb>) -> (r: Vec<u8>)
    requires
        rgb@ == rgb_of(px@),
        opaque@ == opaque_of(px@),
        1 <= palette.len() <= PALETTE_LEN,
    ensures
        r@ == indices_of(px@, palette@),
{
    let mut indices: Vec<u8> = Vec::new();
    let mut i: usize = 0;
    while i < px.len()
        invariant
            i <= px.len(),
            rgb@ == rgb_of(px@),
            opaque@ == opaque_of(px@),
            1 <= palette.len() <= PALETTE_LEN,
            indices@ == indices_of(px@, palette@).take(i as int),
        decreases px.len() - i,
    {
        let v = if opaque[i] {
            nearest(palette, rgb[i])
        } else {
            0
        };
        indices.push(v);
        assert(indices_of(px@, palette@).take(i + 1) =~= indices_of(px@, palette@).take(
            i as int,
        ).push(v));
        i += 1;
    }
    assert(indices_of(px@, palette@).take(px.len() as int) =~= indices_of(px@, palette@));
    indices
}

/// Append the `BITMAPINFOHEADER`.
fn push_header(out: &mut Vec<u8>, width: u32, height: u32)
    requires
        2 * height <= u32::MAX,
    ensures
        final(out)@ == old(out)@ + bmp_header(width as int, height as int),
{
    push_le32(out, HEADER_LEN);
    push_le32(out, width);
    // The doubled height is what marks this as an icon DIB.
    push_le32(out, 2 * height);
    push_le16(out, 1);  // planes
    push_le16(out, 8);  // bits per pixel
    push_le32(out, 0);  // compression: BI_RGB
    push_le32(out, 0);  // image size, 0 for BI_RGB
    push_le32(out, 0);  // horizontal pixels per meter
    push_le32(out, 0);  // vertical pixels per meter
    push_le32(out, 0);  // colors used: all of them
    push_le32(out, 0);  // colors important: all of them
    assert(final(out)@ =~= old(out)@ + bmp_header(width as int, height as int));
}

/// Append the full color table. A full table is written even when fewer colors are used: this
/// entry exists for old readers.
fn push_color_table(out: &mut Vec<u8>, palette: &Vec<Rgb>)
    requires
        palette.len() <= PALETTE_LEN,
    ensures
        final(out)@ == old(out)@ + color_table(palette@),
{
    let mut k: usize = 0;
    while k < palette.len()
        invariant
            k <= palette.len() <= PALETTE_LEN,
            out@ == old(out)@ + table_entries(palette@.take(k as int)),
        decreases palette.len() - k,
    {
        let c = palette[k];
        out.push(c.2);
        out.push(c.1);
        out.push(c.0);
        out.push(0);
        assert(palette@.take(k + 1).drop_last() =~= palette@.take(k as int));
        assert(out@ =~= old(out)@ + table_entries(palette@.take(k + 1)));
        k += 1;
    }
    assert(palette@.take(palette.len() as int) =~= palette@);
    push_zeros(out, 4 * (PALETTE_LEN - palette.len()));
    assert(final(out)@ =~= old(out)@ + color_table(palette@));
}

/// The bytes a row of `w` palette indices takes, padded to 4 bytes.
fn color_stride_of(w: usize) -> (r: usize)
    requires
        w <= i32::MAX,
    ensures
        r == color_stride(w as int),
        r >= w,
{
    let r = (w / 4 + if w % 4 == 0 { 0 } else { 1 }) * 4;
    assert(r == (w + 3) / 4 * 4 && r >= w) by (nonlinear_arith)
        requires
            w <= i32::MAX,
            r == (w / 4 + if w % 4 == 0 { 0int } else { 1int }) * 4,
    ;
    r
}

/// The bytes a row of the mask of `w` pixels takes, padded to 4 bytes.
fn mask_stride_of(w: usize) -> (r: usize)
    requires
        w <= i32::MAX,
    ensures
        r == mask_stride(w as int),
        r >= mask_bytes(w as int),
{
    let used = w / 8 + if w % 8 == 0 { 0 } else { 1 };
    assert(used == (w + 7) / 8) by (nonlinear_arith)
        requires
            used == w / 8 + if w % 8 == 0 { 0int } else { 1int },
    ;
    let r = (used / 4 + if used % 4 == 0 { 0 } else { 1 }) * 4;
    assert(r == (used + 3) / 4 * 4 && r >= used) by (nonlinear_arith)
        requires
            used <= i32::MAX,
            r == (used / 4 + if used % 4 == 0 { 0int } else { 1int }) * 4,
    ;
    r
}

/// The BMP of pixels already split into palette indices and opacity.
fn write_bmp(width: u32, height: u32, palette: &Vec<Rgb>, indices: &Vec<u8>, opaque: &Vec<bool>) -> (r: Vec<u8>)
    requires
        1 <= palette.len() <= PALETTE_LEN,
        indices.len() == width * height,
        opaque.len() == width * height,
        width <= i32::MAX,
        2 * height <= u32::MAX,
    ensures
        r@ == bmp_header(width as int, height as int) + color_table(palette@) + color_rows(
            indices@,
            width as int,
            height as int,
            color_stride(width as int),
            0,
        ) + mask_rows(opaque@, width as int, height as int, mask_stride(width as int), 0),
{
    let w = width as usize;
    let h = height as usize;
    let mut out: Vec<u8> = Vec::new();
    push_header(&mut out, width, height);
    push_color_table(&mut out, palette);

    // Both bitmaps are stored bottom-up with rows padded to 4 bytes.
    let cstride = color_stride_of(w);
    let mstride = mask_stride_of(w);
    push_color_rows(&mut out, indices, w, h, cstride);
    push_mask_rows(&mut out, opaque, w, h, mstride);
    out
}

/// Encode premultiplied RGBA pixels, `width` x `height` of them, as the payload of an 8bpp BMP
/// icon entry.
pub fn encode_bmp_8bpp(width: u32, height: u32, data: &[u8]) -> (r: Vec<u8>)
    requires
        data@.len() == 4 * width * height,
        valid_pixels(data@, width * height),
        width <= i32::MAX,
        2 * height <= i32::MAX,
        width * height < u32::MAX,
    ensures
        r@ == bmp_of(width as int, height as int, straight(data@)),
        forall|x: int, y: int|
            0 <= x < width && 0 <= y < height ==> #[trigger] mask_bit_at(
                r@,
                width as int,
                height as int,
                x,
                y,
            ) == (straight(data@)[y * width + x].3 < ALPHA_THRESHOLD),
        forall|x: int, y: int|
            0 <= x < width && 0 <= y < height && straight(data@)[y * width + x].3 < ALPHA_THRESHOLD
                ==> #[trigger] color_at(r@, width as int, height as int, x, y) == 0,
        r@.len() == COLOR_DATA_START + height * (color_stride(width as int) + mask_stride(
            width as int,
        )),
        r@.subrange(0, 40) == bmp_header(width as int, height as int),
{
    assert(data@.len() / 4 == width * height);
    let px = straight_pixels(data);
    let (rgb, opaque) = split_alpha(&px);
    let palette = quantize(&rgb, &opaque);
    let indices = palette_indices(&px, &rgb, &opaque, &palette);
    let r = write_bmp(width, height, &palette, &indices, &opaque);
    proof {
        let w = width as int;
        let h = height as int;
        let sp = straight(data@);
        assert(sp.len() == w * h);
        lemma_entry_shape(w, h, sp, palette_of(rgb_of(sp), opaque_of(sp)));
        assert forall|x: int, y: int| 0 <= x < w && 0 <= y < h implies #[trigger] mask_bit_at(
            r@,
            w,
            h,
            x,
            y,
        ) == (sp[y * w + x].3 < ALPHA_THRESHOLD) && (sp[y * w + x].3 < ALPHA_THRESHOLD ==> color_at(
            r@,
            w,
            h,
            x,
            y,
        ) == 0) by {
            lemma_transparent_pixels_are_masked(w, h, sp, x, y);
        }
        assert forall|x: int, y: int|
            0 <= x < w && 0 <= y < h && sp[y * w + x].3 < ALPHA_THRESHOLD implies #[trigger] color_at(
            r@,
            w,
            h,
            x,
            y,
        ) == 0 by {
            lemma_transparent_pixels_are_masked(w, h, sp, x, y);
        }
    }
    r
}

} // verus!
