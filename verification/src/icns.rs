//! Apple Icon Image Format (`.icns`).
//!
//! 16x16 and 32x32 icons are stored as `ic04`/`ic05` (ARGB with a PackBits RLE per channel);
//! every larger size embeds a PNG. Eleven types cover eight distinct sizes, so a size is rendered
//! once, and a PNG that two types share is encoded once.

use vstd::prelude::*;

use crate::bytes::{be32, be32_at, lemma_be32_reads_back, push_all, push_be32};
use crate::packbits::{decode, encode, lemma_decode_encode, rle_encode_channel};
use crate::pixels::{straight, straight_pixels, valid_pixels, Rgba};
use crate::png::{encode_png, maybe_optimize, png_encoding, png_fits, IconError, Opts};

verus! {

/// `icns`, the type of the file.
pub const MAGIC: u32 = 0x69636e73;

/// `ARGB`, the start of an ARGB-RLE payload.
pub const ARGB_MAGIC: u32 = 0x41524742;

/// How many chunks an `.icns` file holds.
pub const ICNS_COUNT: usize = 11;

/// One chunk of the file: its four-letter type, the pixel side length to render, and whether it is
/// stored as ARGB-RLE (small icons) or embedded PNG.
#[derive(Clone, Copy, Debug, PartialEq, Eq, Structural)]
pub struct IconSpec {
    pub ostype: u32,
    pub px: u32,
    pub argb: bool,
}

/// The standard complete set. Ordering does not matter to readers.
pub open spec fn icns_spec(i: int) -> IconSpec {
    if i == 0 {
        IconSpec { ostype: 0x69633034, px: 16, argb: true }  // ic04: 16x16
    } else if i == 1 {
        IconSpec { ostype: 0x69633035, px: 32, argb: true }  // ic05: 32x32
    } else if i == 2 {
        IconSpec { ostype: 0x69633131, px: 32, argb: false }  // ic11: 16x16@2x
    } else if i == 3 {
        IconSpec { ostype: 0x69637036, px: 48, argb: false }  // icp6: 48x48
    } else if i == 4 {
        IconSpec { ostype: 0x69633132, px: 64, argb: false }  // ic12: 32x32@2x
    } else if i == 5 {
        IconSpec { ostype: 0x69633037, px: 128, argb: false }  // ic07: 128x128
    } else if i == 6 {
        IconSpec { ostype: 0x69633133, px: 256, argb: false }  // ic13: 128x128@2x
    } else if i == 7 {
        IconSpec { ostype: 0x69633038, px: 256, argb: false }  // ic08: 256x256
    } else if i == 8 {
        IconSpec { ostype: 0x69633134, px: 512, argb: false }  // ic14: 256x256@2x
    } else if i == 9 {
        IconSpec { ostype: 0x69633039, px: 512, argb: false }  // ic09: 512x512
    } else {
        IconSpec { ostype: 0x69633130, px: 1024, argb: false }  // ic10: 512x512@2x
    }
}

/// The chunks of an `.icns` file, in the order they are written.
pub fn icon_specs() -> (r: Vec<IconSpec>)
    ensures
        r.len() == ICNS_COUNT,
        forall|i: int| 0 <= i < ICNS_COUNT ==> r@[i] == icns_spec(i),
{
    let mut r: Vec<IconSpec> = Vec::new();
    r.push(IconSpec { ostype: 0x69633034, px: 16, argb: true });
    r.push(IconSpec { ostype: 0x69633035, px: 32, argb: true });
    r.push(IconSpec { ostype: 0x69633131, px: 32, argb: false });
    r.push(IconSpec { ostype: 0x69637036, px: 48, argb: false });
    r.push(IconSpec { ostype: 0x69633132, px: 64, argb: false });
    r.push(IconSpec { ostype: 0x69633037, px: 128, argb: false });
    r.push(IconSpec { ostype: 0x69633133, px: 256, argb: false });
    r.push(IconSpec { ostype: 0x69633038, px: 256, argb: false });
    r.push(IconSpec { ostype: 0x69633134, px: 512, argb: false });
    r.push(IconSpec { ostype: 0x69633039, px: 512, argb: false });
    r.push(IconSpec { ostype: 0x69633130, px: 1024, argb: false });
    r
}

/// One channel of straight-alpha pixels: 0 alpha, 1 red, 2 green, 3 blue.
pub open spec fn channel(px: Seq<Rgba>, ch: int) -> Seq<u8> {
    px.map_values(
        |p: Rgba|
            if ch == 0 {
                p.3
            } else if ch == 1 {
                p.0
            } else if ch == 2 {
                p.1
            } else {
                p.2
            },
    )
}

/// The payload of an ARGB chunk: `ARGB`, then the alpha, red, green and blue channels of the
/// straight-alpha pixels, each PackBits encoded.
pub open spec fn argb_payload(data: Seq<u8>) -> Seq<u8> {
    let px = straight(data);
    be32(ARGB_MAGIC as int) + encode(channel(px, 0)) + encode(channel(px, 1)) + encode(
        channel(px, 2),
    ) + encode(channel(px, 3))
}

/// What a reader finds in an ARGB payload: after `ARGB`, four PackBits blocks that decode, in
/// turn, to the alpha, the red, the green and the blue of each straight-alpha pixel.
pub proof fn lemma_argb_blocks_decode_in_order(data: Seq<u8>)
    ensures
        exists|ea: Seq<u8>, er: Seq<u8>, eg: Seq<u8>, eb: Seq<u8>|
            #![trigger decode(ea), decode(er), decode(eg), decode(eb)]
            {
                let px = straight(data);
                &&& argb_payload(data) == be32(ARGB_MAGIC as int) + ea + er + eg + eb
                &&& decode(ea) == Some(px.map_values(|p: Rgba| p.3))
                &&& decode(er) == Some(px.map_values(|p: Rgba| p.0))
                &&& decode(eg) == Some(px.map_values(|p: Rgba| p.1))
                &&& decode(eb) == Some(px.map_values(|p: Rgba| p.2))
            },
{
    let px = straight(data);
    let ea = encode(channel(px, 0));
    let er = encode(channel(px, 1));
    let eg = encode(channel(px, 2));
    let eb = encode(channel(px, 3));
    lemma_decode_encode(channel(px, 0));
    lemma_decode_encode(channel(px, 1));
    lemma_decode_encode(channel(px, 2));
    lemma_decode_encode(channel(px, 3));
    assert(channel(px, 0) =~= px.map_values(|p: Rgba| p.3));
    assert(channel(px, 1) =~= px.map_values(|p: Rgba| p.0));
    assert(channel(px, 2) =~= px.map_values(|p: Rgba| p.1));
    assert(channel(px, 3) =~= px.map_values(|p: Rgba| p.2));
    assert(argb_payload(data) == be32(ARGB_MAGIC as int) + ea + er + eg + eb);
    assert(decode(ea) == Some(px.map_values(|p: Rgba| p.3)));
    assert(decode(er) == Some(px.map_values(|p: Rgba| p.0)));
    assert(decode(eg) == Some(px.map_values(|p: Rgba| p.1)));
    assert(decode(eb) == Some(px.map_values(|p: Rgba| p.2)));
}

/// Build the payload of an ARGB chunk from premultiplied RGBA pixels.
pub fn encode_argb_chunk(data: &[u8]) -> (r: Vec<u8>)
    requires
        valid_pixels(data@, (data@.len() / 4) as int),
    ensures
        r@ == argb_payload(data@),
{
    let px = straight_pixels(data);
    let mut a: Vec<u8> = Vec::new();
    let mut r: Vec<u8> = Vec::new();
    let mut g: Vec<u8> = Vec::new();
    let mut b: Vec<u8> = Vec::new();
    let mut i: usize = 0;
    while i < px.len()
        invariant
            i <= px.len(),
            a@ == channel(px@, 0).take(i as int),
            r@ == channel(px@, 1).take(i as int),
            g@ == channel(px@, 2).take(i as int),
            b@ == channel(px@, 3).take(i as int),
        decreases px.len() - i,
    {
        let p = px[i];
        a.push(p.3);
        r.push(p.0);
        g.push(p.1);
        b.push(p.2);
        assert(channel(px@, 0).take(i + 1) =~= channel(px@, 0).take(i as int).push(p.3));
        assert(channel(px@, 1).take(i + 1) =~= channel(px@, 1).take(i as int).push(p.0));
        assert(channel(px@, 2).take(i + 1) =~= channel(px@, 2).take(i as int).push(p.1));
        assert(channel(px@, 3).take(i + 1) =~= channel(px@, 3).take(i as int).push(p.2));
        i += 1;
    }
    assert(channel(px@, 0).take(px.len() as int) =~= channel(px@, 0));
    assert(channel(px@, 1).take(px.len() as int) =~= channel(px@, 1));
    assert(channel(px@, 2).take(px.len() as int) =~= channel(px@, 2));
    assert(channel(px@, 3).take(px.len() as int) =~= channel(px@, 3));
    let mut out: Vec<u8> = Vec::new();
    push_be32(&mut out, ARGB_MAGIC);
    let ea = rle_encode_channel(a.as_slice());
    let er = rle_encode_channel(r.as_slice());
    let eg = rle_encode_channel(g.as_slice());
    let eb = rle_encode_channel(b.as_slice());
    push_all(&mut out, ea.as_slice());
    push_all(&mut out, er.as_slice());
    push_all(&mut out, eg.as_slice());
    push_all(&mut out, eb.as_slice());
    out
}

/// One chunk: its type, its size including these 8 bytes, big-endian, and its payload.
pub open spec fn chunk(ostype: u32, payload: Seq<u8>) -> Seq<u8> {
    be32(ostype as int) + be32(8 + payload.len() as int) + payload
}

/// Append `OSType + big-endian (len + 8) + data` to the chunk buffer.
pub fn write_chunk(buf: &mut Vec<u8>, ostype: u32, data: &[u8])
    requires
        8 + data@.len() <= u32::MAX,
    ensures
        final(buf)@ == old(buf)@ + chunk(ostype, data@),
{
    push_be32(buf, ostype);
    push_be32(buf, (8 + data.len()) as u32);
    push_all(buf, data);
    assert(final(buf)@ =~= old(buf)@ + chunk(ostype, data@));
}

/// The first `n` chunks, each payload under the type of its spec.
pub open spec fn chunks(payloads: Seq<Seq<u8>>, n: int) -> Seq<u8>
    decreases n,
{
    if n <= 0 {
        Seq::empty()
    } else {
        chunks(payloads, n - 1) + chunk(icns_spec(n - 1).ostype, payloads[n - 1])
    }
}

/// The whole file: `icns`, the total size including these 8 bytes, and the chunks.
pub open spec fn icns_layout(payloads: Seq<Seq<u8>>) -> Seq<u8> {
    let body = chunks(payloads, ICNS_COUNT as int);
    be32(MAGIC as int) + be32(8 + body.len() as int) + body
}

/// The size of the file that the payloads make.
pub open spec fn icns_len(payloads: Seq<Seq<u8>>) -> int {
    8 + chunks(payloads, ICNS_COUNT as int).len() as int
}

proof fn lemma_chunks_grow(payloads: Seq<Seq<u8>>, m: int, n: int)
    requires
        0 <= m <= n <= payloads.len(),
    ensures
        chunks(payloads, m).len() <= chunks(payloads, n).len(),
        m < n ==> chunks(payloads, m).len() + 8 + payloads[m].len() <= chunks(payloads, n).len(),
    decreases n - m,
{
    if m < n {
        lemma_chunks_grow(payloads, m, n - 1);
    }
}

proof fn lemma_chunks_prefix(payloads: Seq<Seq<u8>>, m: int, n: int)
    requires
        0 <= m <= n <= payloads.len(),
    ensures
        chunks(payloads, m).len() <= chunks(payloads, n).len(),
        chunks(payloads, n).subrange(0, chunks(payloads, m).len() as int) == chunks(payloads, m),
    decreases n - m,
{
    if m < n {
        lemma_chunks_prefix(payloads, m, n - 1);
        let a = chunks(payloads, m);
        let b = chunks(payloads, n - 1);
        assert(chunks(payloads, n).subrange(0, a.len() as int) =~= b.subrange(0, a.len() as int));
    } else {
        assert(chunks(payloads, n).subrange(0, chunks(payloads, n).len() as int) =~= chunks(payloads, n));
    }
}

/// What a reader walking an `.icns` file finds: `icns` and the file's own length up front, then
/// at the start of each chunk its type, a length that leads to the start of the next chunk (or to
/// the end of the file after the last), and the chunk's payload between its header and that end.
#[verifier::spinoff_prover]
pub proof fn lemma_icns_reader_walks_the_chunks(payloads: Seq<Seq<u8>>, k: int)
    requires
        payloads.len() == ICNS_COUNT,
        icns_len(payloads) <= u32::MAX,
        0 <= k < ICNS_COUNT,
    ensures
        ({
            let file = icns_layout(payloads);
            let at = 8 + chunks(payloads, k).len() as int;
            let next = if k + 1 < ICNS_COUNT {
                8 + chunks(payloads, k + 1).len() as int
            } else {
                file.len() as int
            };
            &&& be32_at(file, 0) == MAGIC
            &&& be32_at(file, 4) == file.len()
            &&& be32_at(file, at) == icns_spec(k).ostype
            &&& at + be32_at(file, at + 4) == next
            &&& next <= file.len()
            &&& file.subrange(at + 8, next) == payloads[k]
        }),
{
    let body = chunks(payloads, ICNS_COUNT as int);
    let file = icns_layout(payloads);
    let c = chunk(icns_spec(k).ostype, payloads[k]);
    let at = 8 + chunks(payloads, k).len() as int;
    let head = be32(MAGIC as int) + be32(8 + body.len() as int);
    lemma_chunk_in_file(payloads, k);
    lemma_be32_shift(file, c, at, 0);
    lemma_be32_shift(file, c, at, 4);
    lemma_be32_shift(file, head, 0, 0);
    lemma_be32_shift(file, head, 0, 4);
    lemma_be32_shift(c, be32(icns_spec(k).ostype as int), 0, 0);
    lemma_be32_shift(c, be32(8 + payloads[k].len() as int), 4, 0);
    lemma_be32_shift(head, be32(MAGIC as int), 0, 0);
    lemma_be32_shift(head, be32(8 + body.len() as int), 4, 0);
    lemma_be32_reads_back(MAGIC as int);
    lemma_be32_reads_back(8 + body.len() as int);
    lemma_be32_reads_back(icns_spec(k).ostype as int);
    lemma_be32_reads_back(8 + payloads[k].len() as int);
    assert(file.subrange(at + 8, at + c.len()) =~= c.subrange(8, c.len() as int));
    assert(c.subrange(8, c.len() as int) =~= payloads[k]);
}

/// Chunk `k` stands in the file right after the chunks before it and the file's own header.
proof fn lemma_chunk_in_file(payloads: Seq<Seq<u8>>, k: int)
    requires
        payloads.len() == ICNS_COUNT,
        0 <= k < ICNS_COUNT,
    ensures
        ({
            let body = chunks(payloads, ICNS_COUNT as int);
            let file = icns_layout(payloads);
            let c = chunk(icns_spec(k).ostype, payloads[k]);
            let at = 8 + chunks(payloads, k).len() as int;
            let head = be32(MAGIC as int) + be32(8 + body.len() as int);
            &&& file == head + body
            &&& head.len() == 8
            &&& file.len() == 8 + body.len()
            &&& at + c.len() <= file.len()
            &&& at + c.len() == if k + 1 < ICNS_COUNT {
                8 + chunks(payloads, k + 1).len() as int
            } else {
                file.len() as int
            }
            &&& forall|m: int| 0 <= m < c.len() ==> file[at + m] == #[trigger] c[m]
        }),
{
    let body = chunks(payloads, ICNS_COUNT as int);
    let before = chunks(payloads, k);
    let c = chunk(icns_spec(k).ostype, payloads[k]);
    let bl = before.len() as int;
    lemma_chunks_prefix(payloads, k + 1, ICNS_COUNT as int);
    let upto = chunks(payloads, k + 1);
    assert(upto == before + c);
    assert forall|m: int| 0 <= m < c.len() implies body[bl + m] == #[trigger] c[m] by {
        assert(body.subrange(0, upto.len() as int)[bl + m] == upto[bl + m]);
    }
    if k + 1 == ICNS_COUNT {
        assert(upto == body);
    }
}

/// Four bytes of `t` read the same as the bytes of `s` that `t` copies.
proof fn lemma_be32_shift(s: Seq<u8>, t: Seq<u8>, i: int, j: int)
    requires
        0 <= i,
        i + t.len() <= s.len(),
        forall|m: int| 0 <= m < t.len() ==> s[i + m] == #[trigger] t[m],
        0 <= j,
        j + 4 <= t.len(),
    ensures
        be32_at(s, i + j) == be32_at(t, j),
{
    assert(s[i + j] == t[j] && s[i + j + 1] == t[j + 1] && s[i + j + 2] == t[j + 2] && s[i + j + 3]
        == t[j + 3]);
}

/// Assemble the file from one payload per chunk. A file of 4 GiB or more cannot state its size, and
/// is refused.
pub fn assemble_icns(payloads: &Vec<Vec<u8>>) -> (r: Result<Vec<u8>, IconError>)
    requires
        payloads.len() == ICNS_COUNT,
    ensures
        match r {
            Ok(bytes) => icns_len(payloads_view(payloads@)) <= u32::MAX && bytes@ == icns_layout(
                payloads_view(payloads@),
            ),
            Err(e) => e == IconError::TooLarge && icns_len(payloads_view(payloads@)) > u32::MAX,
        },
{
    let ghost pv = payloads_view(payloads@);
    let mut body: Vec<u8> = Vec::new();
    let mut i: usize = 0;
    while i < ICNS_COUNT
        invariant
            payloads.len() == ICNS_COUNT,
            pv == payloads_view(payloads@),
            i <= ICNS_COUNT,
            body@ == chunks(pv, i as int),
            body.len() <= u32::MAX,
        decreases ICNS_COUNT - i,
    {
        proof {
            lemma_chunks_grow(pv, i as int, ICNS_COUNT as int);
            lemma_chunks_grow(pv, (i + 1) as int, ICNS_COUNT as int);
        }
        let data = payloads[i].as_slice();
        assert(data@ == pv[i as int]);
        if body.len() > (u32::MAX as usize) - 16 || data.len() > (u32::MAX as usize) - 16 - body.len() {
            return Err(IconError::TooLarge);
        }
        let spec = icon_spec_at(i);
        write_chunk(&mut body, spec.ostype, data);
        i += 1;
    }
    if body.len() > (u32::MAX as usize) - 8 {
        return Err(IconError::TooLarge);
    }
    let mut file: Vec<u8> = Vec::new();
    push_be32(&mut file, MAGIC);
    push_be32(&mut file, (8 + body.len()) as u32);
    push_all(&mut file, body.as_slice());
    Ok(file)
}

/// The payloads as sequences.
pub open spec fn payloads_view(p: Seq<Vec<u8>>) -> Seq<Seq<u8>> {
    p.map_values(|v: Vec<u8>| v@)
}

/// Entry `i` of [`icon_specs`].
fn icon_spec_at(i: usize) -> (r: IconSpec)
    requires
        i < ICNS_COUNT,
    ensures
        r == icns_spec(i as int),
{
    let specs = icon_specs();
    specs[i]
}


/// The pixels of one rendered size: premultiplied RGBA, `px` x `px` of them.
pub struct Render {
    pub px: u32,
    pub data: Vec<u8>,
}

/// The first render of side `px`, or `renders.len()` when there is none.
pub open spec fn find_render(renders: Seq<Render>, px: u32, i: int) -> int
    decreases renders.len() - i,
{
    if i < 0 || i >= renders.len() || renders[i].px == px {
        i
    } else {
        find_render(renders, px, i + 1)
    }
}

/// The render [`find_render`] finds has the side it was asked for.
pub proof fn lemma_find_render(renders: Seq<Render>, px: u32, i: int)
    requires
        0 <= i <= renders.len(),
    ensures
        i <= find_render(renders, px, i) <= renders.len(),
        find_render(renders, px, i) < renders.len() ==> renders[find_render(renders, px, i)].px
            == px,
    decreases renders.len() - i,
{
    if i < renders.len() && renders[i].px != px {
        lemma_find_render(renders, px, i + 1);
    }
}

/// Whether `r` holds `px` x `px` valid premultiplied pixels.
pub open spec fn render_ok(r: Render) -> bool {
    &&& r.px * r.px < u32::MAX
    &&& valid_pixels(r.data@, r.px * r.px)
}

/// The render a chunk of size `px` takes its pixels from.
pub open spec fn render_for(renders: Seq<Render>, px: u32) -> Render {
    renders[find_render(renders, px, 0)]
}

/// Every size an `.icns` file needs has a render.
pub open spec fn icns_renders_ok(renders: Seq<Render>) -> bool {
    forall|i: int|
        0 <= i < ICNS_COUNT ==> find_render(renders, #[trigger] icns_spec(i).px, 0) < renders.len()
            && render_ok(render_for(renders, icns_spec(i).px))
}

/// What the payloads of the chunks are: the ARGB-RLE of the pixels for a small icon, a PNG for the
/// others, one PNG for every chunk of one size: exactly the encoded PNG when oxipng is off, and that
/// PNG or a shorter one when it runs.
pub open spec fn icns_payloads_ok(renders: Seq<Render>, opts: Opts, p: Seq<Seq<u8>>) -> bool {
    &&& p.len() == ICNS_COUNT
    &&& forall|i: int|
        0 <= i < ICNS_COUNT && (#[trigger] icns_spec(i)).argb ==> p[i] == argb_payload(
            render_for(renders, icns_spec(i).px).data@,
        )
    &&& forall|i: int|
        0 <= i < ICNS_COUNT && !(#[trigger] icns_spec(i)).argb ==> png_fits(
            png_encoding(
                icns_spec(i).px,
                icns_spec(i).px,
                render_for(renders, icns_spec(i).px).data@,
            ),
            opts,
            p[i],
        )
    &&& forall|i: int, j: int|
        0 <= i < ICNS_COUNT && 0 <= j < ICNS_COUNT && !(#[trigger] icns_spec(i)).argb
            && !(#[trigger] icns_spec(j)).argb && icns_spec(i).px == icns_spec(j).px ==> p[i]
            == p[j]
}

/// Whether the encoder takes the pixels of every size that the `.icns` file stores as a PNG.
pub open spec fn icns_pngs_encode(renders: Seq<Render>) -> bool {
    forall|i: int|
        0 <= i < ICNS_COUNT && !(#[trigger] icns_spec(i)).argb ==> png_encoding(
            icns_spec(i).px,
            icns_spec(i).px,
            render_for(renders, icns_spec(i).px).data@,
        ) is Some
}

/// The index of the first render of side `px`.
pub(crate) fn find_render_exec(renders: &Vec<Render>, px: u32) -> (r: usize)
    ensures
        r == find_render(renders@, px, 0),
        r <= renders.len(),
{
    let mut i: usize = 0;
    while i < renders.len() && renders[i].px != px
        invariant
            i <= renders.len(),
            find_render(renders@, px, i as int) == find_render(renders@, px, 0),
        decreases renders.len() - i,
    {
        i += 1;
    }
    i
}

/// The index of the cached PNG of side `px`, if one was encoded.
fn cached(cache: &Vec<(u32, Vec<u8>)>, px: u32) -> (r: Option<usize>)
    ensures
        r matches Some(k) ==> k < cache.len() && cache@[k as int].0 == px,
        r is None ==> forall|k: int| 0 <= k < cache.len() ==> cache@[k].0 != px,
{
    let mut k: usize = 0;
    while k < cache.len()
        invariant
            k <= cache.len(),
            forall|j: int| 0 <= j < k ==> cache@[j].0 != px,
        decreases cache.len() - k,
    {
        if cache[k].0 == px {
            return Some(k);
        }
        k += 1;
    }
    None
}

/// The payload of every chunk. Each size that more than one chunk stores as PNG is encoded once,
/// and the chunks share it. It fails only where a PNG cannot be encoded, or where oxipng, when it
/// runs, refuses one.
pub fn icns_payloads(renders: &Vec<Render>, opts: Opts) -> (r: Result<Vec<Vec<u8>>, IconError>)
    requires
        icns_renders_ok(renders@),
    ensures
        r matches Ok(p) ==> icns_payloads_ok(renders@, opts, payloads_view(p@)),
        !opts.enabled && icns_pngs_encode(renders@) ==> r is Ok,
        r matches Err(e) ==> {
            ||| e == IconError::Png && !icns_pngs_encode(renders@)
            ||| e == IconError::Optimize && opts.enabled
        },
{
    let specs = icon_specs();
    let mut out: Vec<Vec<u8>> = Vec::new();
    let mut cache: Vec<(u32, Vec<u8>)> = Vec::new();
    let mut i: usize = 0;
    while i < ICNS_COUNT
        invariant
            specs.len() == ICNS_COUNT,
            forall|k: int| 0 <= k < ICNS_COUNT ==> specs@[k] == icns_spec(k),
            icns_renders_ok(renders@),
            i <= ICNS_COUNT,
            out.len() == i,
            forall|k: int|
                0 <= k < i && (#[trigger] icns_spec(k)).argb ==> out@[k]@ == argb_payload(
                    render_for(renders@, icns_spec(k).px).data@,
                ),
            forall|k: int|
                0 <= k < i && !(#[trigger] icns_spec(k)).argb ==> exists|c: int|
                    0 <= c < cache.len() && cache@[c].0 == icns_spec(k).px && #[trigger] cache@[c].1@
                        == out@[k]@,
            forall|c: int|
                0 <= c < cache.len() ==> png_fits(
                    png_encoding(
                        cache@[c].0,
                        cache@[c].0,
                        render_for(renders@, cache@[c].0).data@,
                    ),
                    opts,
                    #[trigger] cache@[c].1@,
                ),
            forall|c: int, d: int|
                0 <= c < cache.len() && 0 <= d < cache.len() && #[trigger] cache@[c].0
                    == #[trigger] cache@[d].0 ==> c == d,
        decreases ICNS_COUNT - i,
    {
        let spec = specs[i];
        assert(spec == icns_spec(i as int));
        let j = find_render_exec(renders, spec.px);
        let data = renders[j].data.as_slice();
        let ghost old_cache = cache@;
        let ghost old_out = out@;
        let ghost mut cw: int = 0;
        let payload = if spec.argb {
            encode_argb_chunk(data)
        } else {
            match cached(&cache, spec.px) {
                Some(c) => {
                    let v = cache[c].1.clone();
                    assert(v@ =~= cache@[c as int].1@);
                    proof {
                        cw = c as int;
                    }
                    v
                },
                None => {
                    let raw = match encode_png(spec.px, spec.px, data) {
                        Ok(v) => v,
                        Err(e) => {
                            proof {
                                lemma_find_render(renders@, spec.px, 0);
                                assert(data@ == render_for(renders@, icns_spec(i as int).px).data@);
                                assert(!icns_spec(i as int).argb);
                            }
                            return Err(e);
                        },
                    };
                    let opt = match maybe_optimize(raw, opts) {
                        Ok(v) => v,
                        Err(e) => {
                            return Err(e);
                        },
                    };
                    let v = opt.clone();
                    assert(v@ =~= opt@);
                    cache.push((spec.px, opt));
                    proof {
                        cw = cache.len() - 1;
                    }
                    v
                },
            }
        };
        out.push(payload);
        proof {
            assert forall|k: int|
                0 <= k < i + 1 && !(#[trigger] icns_spec(k)).argb implies exists|c: int|
                    0 <= c < cache.len() && cache@[c].0 == icns_spec(k).px && #[trigger] cache@[c].1@
                        == out@[k]@ by {
                if k == i {
                    assert(cache@[cw].1@ == out@[k]@);
                } else {
                    let c = choose|c: int|
                        0 <= c < old_cache.len() && old_cache[c].0 == icns_spec(k).px
                            && #[trigger] old_cache[c].1@ == old_out[k]@;
                    assert(cache@[c] == old_cache[c]);
                    assert(cache@[c].1@ == out@[k]@);
                }
            }
        }
        i += 1;
    }
    proof {
        let pv = payloads_view(out@);
        assert forall|a: int, b: int|
            0 <= a < ICNS_COUNT && 0 <= b < ICNS_COUNT && !(#[trigger] icns_spec(a)).argb
                && !(#[trigger] icns_spec(b)).argb && icns_spec(a).px == icns_spec(b).px implies pv[a]
            == pv[b] by {
            let ca = choose|c: int|
                0 <= c < cache.len() && cache@[c].0 == icns_spec(a).px && #[trigger] cache@[c].1@
                    == out@[a]@;
            let cb = choose|c: int|
                0 <= c < cache.len() && cache@[c].0 == icns_spec(b).px && #[trigger] cache@[c].1@
                    == out@[b]@;
            assert(cache@[ca].0 == cache@[cb].0);
        }
        assert forall|a: int|
            0 <= a < ICNS_COUNT && !(#[trigger] icns_spec(a)).argb implies png_fits(
            png_encoding(
                icns_spec(a).px,
                icns_spec(a).px,
                render_for(renders@, icns_spec(a).px).data@,
            ),
            opts,
            pv[a],
        ) by {
            let ca = choose|c: int|
                0 <= c < cache.len() && cache@[c].0 == icns_spec(a).px && #[trigger] cache@[c].1@
                    == out@[a]@;
        }
    }
    Ok(out)
}

/// The bytes of an `.icns` file for the rendered sizes. It fails only where a PNG cannot be
/// encoded, where oxipng refuses one, or where the file is too large for its 32-bit sizes.
pub fn icns_bytes(renders: &Vec<Render>, opts: Opts) -> (r: Result<Vec<u8>, IconError>)
    requires
        icns_renders_ok(renders@),
    ensures
        r matches Ok(bytes) ==> exists|p: Seq<Seq<u8>>|
            icns_payloads_ok(renders@, opts, p) && bytes@ == #[trigger] icns_layout(p),
        r matches Err(e) ==> {
            ||| e == IconError::Png && !icns_pngs_encode(renders@)
            ||| e == IconError::Optimize && opts.enabled
            ||| e == IconError::TooLarge && exists|p: Seq<Seq<u8>>|
                icns_payloads_ok(renders@, opts, p) && #[trigger] icns_len(p) > u32::MAX
        },
        !opts.enabled && icns_pngs_encode(renders@) && (forall|p: Seq<Seq<u8>>|
            icns_payloads_ok(renders@, opts, p) ==> #[trigger] icns_len(p) <= u32::MAX) ==> r is Ok,
{
    let payloads = icns_payloads(renders, opts)?;
    let bytes = match assemble_icns(&payloads) {
        Ok(b) => b,
        Err(e) => {
            assert(icns_len(payloads_view(payloads@)) > u32::MAX);
            return Err(e);
        },
    };
    assert(icns_payloads_ok(renders@, opts, payloads_view(payloads@)));
    assert(bytes@ == icns_layout(payloads_view(payloads@)));
    Ok(bytes)
}

} // verus!
