//! Windows icon (`.ico`), written by hand: a directory of entries, then their images.
//!
//! Every size gets a PNG entry. With `legacy`, the two smallest sizes also get a 256-color BMP
//! entry, listed after the PNG of the same size so that a reader that takes the first entry it can
//! use still gets the good one.

use vstd::prelude::*;

use crate::bmp::{bmp_of, encode_bmp_8bpp};
use crate::bytes::{le16, le32, push_all, push_le16, push_le32};
use crate::icns::{find_render, render_for, render_ok, Render};
use crate::pixels::{straight, valid_pixels};
use crate::png::{encode_png, maybe_optimize, png_encoding, png_fits, IconError, Opts};

verus! {

/// Icon (not cursor) resource.
pub const RES_TYPE_ICON: u16 = 1;

/// Bytes per directory entry.
pub const ENTRY_LEN: usize = 16;

/// How many sizes an `.ico` file holds.
pub const SIZE_COUNT: usize = 6;

/// The standard complete set of sizes, fixed on purpose: callers do not choose sizes. 256 is the
/// largest an `.ico` entry can describe (a width byte of 0).
pub open spec fn ico_size(i: int) -> u32 {
    if i == 0 {
        16
    } else if i == 1 {
        32
    } else if i == 2 {
        48
    } else if i == 3 {
        64
    } else if i == 4 {
        128
    } else {
        256
    }
}

/// The sizes of an `.ico` file, smallest first.
pub fn sizes() -> (r: Vec<u32>)
    ensures
        r.len() == SIZE_COUNT,
        forall|i: int| 0 <= i < SIZE_COUNT ==> r@[i] == ico_size(i),
{
    let mut r: Vec<u32> = Vec::new();
    r.push(16);
    r.push(32);
    r.push(48);
    r.push(64);
    r.push(128);
    r.push(256);
    r
}

/// Sizes that also get a 256-color BMP entry. Only the two smallest are worth it: a 256-color
/// session is an old one, where these are the sizes actually drawn, and the color table costs a
/// flat 1 KiB per entry.
pub open spec fn is_legacy_size(px: u32) -> bool {
    px == 16 || px == 32
}

/// One image in the file, already encoded.
pub struct IcoEntry {
    pub px: u32,
    /// Declared bits per pixel, which is what Windows matches against the display depth when
    /// choosing between two entries of the same size.
    pub bits: u16,
    pub data: Vec<u8>,
}

/// An entry as plain values: side, declared depth, bytes.
pub type EntryView = (u32, u16, Seq<u8>);

/// The entries as plain values.
pub open spec fn entries_view(es: Seq<IcoEntry>) -> Seq<EntryView> {
    es.map_values(|e: IcoEntry| (e.px, e.bits, e.data@))
}

/// The bytes of the images of the first `k` entries.
pub open spec fn images(es: Seq<EntryView>, k: int) -> Seq<u8>
    decreases k,
{
    if k <= 0 {
        Seq::empty()
    } else {
        images(es, k - 1) + es[k - 1].2
    }
}

/// Where the images start: after the 6-byte header and the directory.
pub open spec fn data_start(n: int) -> int {
    6 + ENTRY_LEN * n
}

/// The width and height byte of an entry: 256 is written as 0.
pub open spec fn dim_byte(px: u32) -> u8 {
    if px == 256 {
        0
    } else {
        px as u8
    }
}

/// The directory entry of an image of `len` bytes at `offset`.
pub open spec fn dir_entry(e: EntryView, offset: int) -> Seq<u8> {
    seq![dim_byte(e.0), dim_byte(e.0), 0u8, 0u8] + le16(1) + le16(e.1 as int) + le32(
        e.2.len() as int,
    ) + le32(offset)
}

/// The first `k` directory entries, each pointing at its image.
pub open spec fn directory(es: Seq<EntryView>, k: int) -> Seq<u8>
    decreases k,
{
    if k <= 0 {
        Seq::empty()
    } else {
        directory(es, k - 1) + dir_entry(
            es[k - 1],
            data_start(es.len() as int) + images(es, k - 1).len(),
        )
    }
}

/// The whole file: reserved 0, the resource type, the image count, the directory, the images.
pub open spec fn ico_layout(es: Seq<EntryView>) -> Seq<u8> {
    le16(0) + le16(RES_TYPE_ICON as int) + le16(es.len() as int) + directory(es, es.len() as int)
        + images(es, es.len() as int)
}

/// The size of the file.
pub open spec fn ico_len(es: Seq<EntryView>) -> int {
    data_start(es.len() as int) + images(es, es.len() as int).len()
}

proof fn lemma_images_grow(es: Seq<EntryView>, m: int, n: int)
    requires
        0 <= m <= n <= es.len(),
    ensures
        images(es, m).len() <= images(es, n).len(),
        m < n ==> images(es, m).len() + es[m].2.len() <= images(es, n).len(),
    decreases n - m,
{
    if m < n {
        lemma_images_grow(es, m, n - 1);
    }
}

proof fn lemma_directory_len(es: Seq<EntryView>, k: int)
    requires
        0 <= k,
    ensures
        directory(es, k).len() == ENTRY_LEN * k,
    decreases k,
{
    if k > 0 {
        lemma_directory_len(es, k - 1);
    }
}

/// Assemble the file. The sizes and offsets are 32-bit, so a file of 4 GiB or more is refused.
pub fn ico_file(entries: &Vec<IcoEntry>) -> (r: Result<Vec<u8>, IconError>)
    requires
        entries.len() <= u16::MAX,
        forall|k: int| 0 <= k < entries.len() ==> #[trigger] entries@[k].px <= 256,
    ensures
        match r {
            Ok(bytes) => ico_len(entries_view(entries@)) <= u32::MAX && bytes@ == ico_layout(
                entries_view(entries@),
            ),
            Err(e) => e == IconError::TooLarge && ico_len(entries_view(entries@)) > u32::MAX,
        },
{
    let ghost es = entries_view(entries@);
    let n = entries.len();
    // Every image must start and end below 4 GiB.
    let mut total: usize = 0;
    let mut k: usize = 0;
    while k < n
        invariant
            n == entries.len(),
            es == entries_view(entries@),
            k <= n,
            total == images(es, k as int).len(),
            data_start(n as int) + total <= u32::MAX,
        decreases n - k,
    {
        proof {
            lemma_images_grow(es, k as int, n as int);
        }
        let len = entries[k].data.len();
        assert(es[k as int].2.len() == len);
        if total > (u32::MAX as usize) - 6 - ENTRY_LEN * n || len > (u32::MAX as usize) - 6
            - ENTRY_LEN * n - total {
            return Err(IconError::TooLarge);
        }
        total = total + len;
        k += 1;
    }

    let mut buf: Vec<u8> = Vec::new();
    push_le16(&mut buf, 0);
    push_le16(&mut buf, RES_TYPE_ICON);
    push_le16(&mut buf, n as u16);
    let ghost head = buf@;
    // Image data follows the directory, in the same order as the entries.
    let mut offset: u32 = (6 + ENTRY_LEN * n) as u32;
    let mut k: usize = 0;
    while k < n
        invariant
            n == entries.len(),
            es == entries_view(entries@),
            forall|j: int| 0 <= j < entries.len() ==> #[trigger] entries@[j].px <= 256,
            k <= n,
            data_start(n as int) + images(es, n as int).len() <= u32::MAX,
            offset == data_start(n as int) + images(es, k as int).len(),
            buf@ == head + directory(es, k as int),
        decreases n - k,
    {
        proof {
            lemma_images_grow(es, k as int, n as int);
        }
        let e = &entries[k];
        assert(es[k as int] == (e.px, e.bits, e.data@));
        // A dimension of 256 is stored as 0.
        let dim: u8 = if e.px == 256 {
            0
        } else {
            e.px as u8
        };
        buf.push(dim);  // width
        buf.push(dim);  // height
        buf.push(0);  // palette size: 0 means 256, or "not a palette entry"
        buf.push(0);  // reserved
        push_le16(&mut buf, 1);  // color planes
        push_le16(&mut buf, e.bits);
        let len = e.data.len() as u32;
        push_le32(&mut buf, len);
        push_le32(&mut buf, offset);
        assert(buf@ =~= head + directory(es, (k + 1) as int));
        offset = offset + len;
        k += 1;
    }
    let mut k: usize = 0;
    while k < n
        invariant
            n == entries.len(),
            es == entries_view(entries@),
            k <= n,
            buf@ == head + directory(es, n as int) + images(es, k as int),
        decreases n - k,
    {
        let e = &entries[k];
        assert(es[k as int].2 == e.data@);
        push_all(&mut buf, e.data.as_slice());
        assert(buf@ =~= head + directory(es, n as int) + images(es, (k + 1) as int));
        k += 1;
    }
    assert(head =~= le16(0) + le16(RES_TYPE_ICON as int) + le16(n as int));
    assert(buf@ =~= ico_layout(es));
    Ok(buf)
}


proof fn lemma_images_prefix(es: Seq<EntryView>, k: int, n: int)
    requires
        0 <= k < n <= es.len(),
    ensures
        images(es, n).len() >= images(es, k).len() + es[k].2.len(),
        images(es, n).subrange(
            images(es, k).len() as int,
            (images(es, k).len() + es[k].2.len()) as int,
        ) == es[k].2,
    decreases n - k,
{
    if n == k + 1 {
        assert(images(es, n).subrange(
            images(es, k).len() as int,
            (images(es, k).len() + es[k].2.len()) as int,
        ) =~= es[k].2);
    } else {
        lemma_images_prefix(es, k, n - 1);
        assert(images(es, n).subrange(
            images(es, k).len() as int,
            (images(es, k).len() + es[k].2.len()) as int,
        ) =~= images(es, n - 1).subrange(
            images(es, k).len() as int,
            (images(es, k).len() + es[k].2.len()) as int,
        ));
    }
}

proof fn lemma_directory_prefix(es: Seq<EntryView>, k: int, n: int)
    requires
        0 <= k < n,
    ensures
        directory(es, n).subrange(ENTRY_LEN * k, ENTRY_LEN * k + ENTRY_LEN) == dir_entry(
            es[k],
            data_start(es.len() as int) + images(es, k).len(),
        ),
    decreases n - k,
{
    lemma_directory_len(es, n - 1);
    lemma_directory_len(es, k);
    if n == k + 1 {
        assert(directory(es, n).subrange(ENTRY_LEN * k, ENTRY_LEN * k + ENTRY_LEN) =~= dir_entry(
            es[k],
            data_start(es.len() as int) + images(es, k).len(),
        ));
    } else {
        lemma_directory_prefix(es, k, n - 1);
        assert(directory(es, n).subrange(ENTRY_LEN * k, ENTRY_LEN * k + ENTRY_LEN)
            =~= directory(es, n - 1).subrange(ENTRY_LEN * k, ENTRY_LEN * k + ENTRY_LEN));
    }
}

/// Entry `k` of the directory of an `.ico` file describes image `k`, and its offset is where the
/// bytes of that image stand in the file.
pub proof fn lemma_ico_entries_point_at_their_images(es: Seq<EntryView>, k: int)
    requires
        0 <= k < es.len(),
    ensures
        ({
            let file = ico_layout(es);
            let offset = data_start(es.len() as int) + images(es, k).len();
            &&& file.subrange(6 + ENTRY_LEN * k, 6 + ENTRY_LEN * k + ENTRY_LEN) == dir_entry(
                es[k],
                offset,
            )
            &&& file.subrange(offset, offset + es[k].2.len()) == es[k].2
        }),
{
    let n = es.len() as int;
    let file = ico_layout(es);
    let head = le16(0) + le16(RES_TYPE_ICON as int) + le16(n);
    let dir = directory(es, n);
    let imgs = images(es, n);
    lemma_directory_len(es, n);
    lemma_directory_prefix(es, k, n);
    lemma_images_prefix(es, k, n);
    let offset = data_start(n) + images(es, k).len();
    assert(file == head + dir + imgs);
    assert(file.subrange(6 + ENTRY_LEN * k, 6 + ENTRY_LEN * k + ENTRY_LEN) =~= dir.subrange(
        ENTRY_LEN * k,
        ENTRY_LEN * k + ENTRY_LEN,
    ));
    assert(file.subrange(offset, offset + es[k].2.len()) =~= imgs.subrange(
        images(es, k).len() as int,
        (images(es, k).len() + es[k].2.len()) as int,
    ));
}


/// The entries of the first `i` sizes, as side and declared depth: a PNG entry for each size, then
/// with `legacy` a BMP entry for a legacy size.
pub open spec fn ico_plan(legacy: bool, i: int) -> Seq<(u32, u16)>
    decreases i,
{
    if i <= 0 {
        Seq::empty()
    } else {
        let px = ico_size(i - 1);
        let own = if legacy && is_legacy_size(px) {
            seq![(px, 32u16), (px, 8u16)]
        } else {
            seq![(px, 32u16)]
        };
        ico_plan(legacy, i - 1) + own
    }
}

/// The entries of an `.ico` file in order, side and declared depth: every size from 16 to 256 as
/// a PNG, and with `legacy` a BMP right after the PNG of 16 and of 32.
pub open spec fn plan_list(legacy: bool) -> Seq<(u32, u16)> {
    if legacy {
        seq![(16u32, 32u16), (16u32, 8u16), (32u32, 32u16), (32u32, 8u16), (48u32, 32u16), (64u32, 32u16), (128u32, 32u16), (256u32, 32u16)]
    } else {
        seq![(16u32, 32u16), (32u32, 32u16), (48u32, 32u16), (64u32, 32u16), (128u32, 32u16), (256u32, 32u16)]
    }
}

proof fn lemma_plan_list(legacy: bool)
    ensures
        ico_plan(legacy, SIZE_COUNT as int) == plan_list(legacy),
{
    let p1 = ico_plan(legacy, 1);
    let p2 = ico_plan(legacy, 2);
    let p3 = ico_plan(legacy, 3);
    let p4 = ico_plan(legacy, 4);
    let p5 = ico_plan(legacy, 5);
    let p6 = ico_plan(legacy, 6);
    assert(ico_plan(legacy, 0) == Seq::<(u32, u16)>::empty());
    if legacy {
        assert(p1 =~= seq![(16u32, 32u16), (16u32, 8u16)]);
        assert(p2 =~= p1 + seq![(32u32, 32u16), (32u32, 8u16)]);
    } else {
        assert(p1 =~= seq![(16u32, 32u16)]);
        assert(p2 =~= p1 + seq![(32u32, 32u16)]);
    }
    assert(p3 =~= p2 + seq![(48u32, 32u16)]);
    assert(p4 =~= p3 + seq![(64u32, 32u16)]);
    assert(p5 =~= p4 + seq![(128u32, 32u16)]);
    assert(p6 =~= p5 + seq![(256u32, 32u16)]);
    assert(p6 =~= plan_list(legacy));
}

/// The bytes of an `.ico` file whose entries follow the plan: 0 and 1 as two little-endian
/// 16-bit words, the entry count (8 with `legacy`, 6 without), then for entry `k`, in the order
/// of [`plan_list`], a 16-byte directory entry at `6 + 16 * k` (side byte, 0 for 256; declared
/// depth; length; the offset of its image, `6 + 16 * n` plus the images before it) and its image
/// at that offset.
pub proof fn lemma_ico_file_in_plan_order(
    renders: Seq<Render>,
    opts: Opts,
    legacy: bool,
    es: Seq<EntryView>,
    k: int,
)
    requires
        ico_entries_ok(renders, opts, legacy, es),
        0 <= k < es.len(),
    ensures
        ({
            let file = ico_layout(es);
            let n = es.len() as int;
            let offset = data_start(n) + images(es, k).len();
            &&& n == (if legacy { 8int } else { 6int })
            &&& (es[k].0, es[k].1) == plan_list(legacy)[k]
            &&& file.subrange(0, 6) == le16(0) + le16(RES_TYPE_ICON as int) + le16(n)
            &&& file.subrange(6 + ENTRY_LEN * k, 6 + ENTRY_LEN * k + ENTRY_LEN) == dir_entry(
                es[k],
                offset,
            )
            &&& file.subrange(offset, offset + es[k].2.len()) == es[k].2
        }),
{
    lemma_plan_list(legacy);
    lemma_ico_entries_point_at_their_images(es, k);
    let n = es.len() as int;
    let head = le16(0) + le16(RES_TYPE_ICON as int) + le16(n);
    let file = ico_layout(es);
    assert(head.len() == 6);
    assert(file == head + directory(es, n) + images(es, n));
    assert(file.subrange(0, 6) =~= head);
    assert((es[k].0, es[k].1) == ico_plan(legacy, SIZE_COUNT as int)[k]);
}

/// Every size an `.ico` file needs has a render.
pub open spec fn ico_renders_ok(renders: Seq<Render>) -> bool {
    forall|i: int|
        0 <= i < SIZE_COUNT ==> find_render(renders, #[trigger] ico_size(i), 0) < renders.len()
            && render_ok(render_for(renders, ico_size(i)))
}

/// What the entries are: the plan, with the BMP of the pixels in each 8-bit entry, and a PNG in
/// each 32-bit one: exactly the encoded PNG when oxipng is off, and that PNG or a shorter one when
/// it runs.
pub open spec fn ico_entries_ok(renders: Seq<Render>, opts: Opts, legacy: bool, es: Seq<EntryView>) -> bool {
    let plan = ico_plan(legacy, SIZE_COUNT as int);
    &&& es.len() == plan.len()
    &&& forall|k: int| 0 <= k < es.len() ==> (es[k].0, es[k].1) == #[trigger] plan[k]
    &&& forall|k: int|
        0 <= k < es.len() && (#[trigger] es[k]).1 == 8 ==> es[k].2 == bmp_of(
            es[k].0 as int,
            es[k].0 as int,
            straight(render_for(renders, es[k].0).data@),
        )
    &&& forall|k: int|
        0 <= k < es.len() && (#[trigger] es[k]).1 == 32 ==> png_fits(
            png_encoding(es[k].0, es[k].0, render_for(renders, es[k].0).data@),
            opts,
            es[k].2,
        )
}

/// Whether the encoder takes the pixels of every size of an `.ico` file.
pub open spec fn ico_pngs_encode(renders: Seq<Render>) -> bool {
    forall|i: int|
        0 <= i < SIZE_COUNT ==> png_encoding(
            #[trigger] ico_size(i),
            ico_size(i),
            render_for(renders, ico_size(i)).data@,
        ) is Some
}

/// Encode every entry of the file: a PNG for each size, and with `legacy` a 256-color BMP for the
/// two smallest. It fails only where a PNG cannot be encoded, or where oxipng, when it runs,
/// refuses one.
pub fn ico_entries(renders: &Vec<Render>, opts: Opts, legacy: bool) -> (r: Result<Vec<IcoEntry>, IconError>)
    requires
        ico_renders_ok(renders@),
    ensures
        r matches Ok(es) ==> ico_entries_ok(renders@, opts, legacy, entries_view(es@)),
        r matches Ok(es) ==> es.len() <= 2 * SIZE_COUNT && forall|k: int|
            0 <= k < es.len() ==> #[trigger] es@[k].px <= 256,
        !opts.enabled && ico_pngs_encode(renders@) ==> r is Ok,
        r matches Err(e) ==> {
            ||| e == IconError::Png && !ico_pngs_encode(renders@)
            ||| e == IconError::Optimize && opts.enabled
        },
{
    let sizes = sizes();
    let mut entries: Vec<IcoEntry> = Vec::new();
    let mut i: usize = 0;
    while i < SIZE_COUNT
        invariant
            sizes.len() == SIZE_COUNT,
            forall|k: int| 0 <= k < SIZE_COUNT ==> sizes@[k] == ico_size(k),
            ico_renders_ok(renders@),
            i <= SIZE_COUNT,
            entries.len() <= 2 * i,
            forall|k: int| 0 <= k < entries.len() ==> #[trigger] entries@[k].px <= 256,
            entries_view(entries@).len() == ico_plan(legacy, i as int).len(),
            forall|k: int|
                0 <= k < entries.len() ==> (entries_view(entries@)[k].0, entries_view(
                    entries@,
                )[k].1) == #[trigger] ico_plan(legacy, i as int)[k],
            forall|k: int|
                0 <= k < entries.len() && (#[trigger] entries_view(entries@)[k]).1 == 8
                    ==> entries_view(entries@)[k].2 == bmp_of(
                    entries_view(entries@)[k].0 as int,
                    entries_view(entries@)[k].0 as int,
                    straight(render_for(renders@, entries_view(entries@)[k].0).data@),
                ),
            forall|k: int|
                0 <= k < entries.len() && (#[trigger] entries_view(entries@)[k]).1 == 32
                    ==> png_fits(
                    png_encoding(
                        entries_view(entries@)[k].0,
                        entries_view(entries@)[k].0,
                        render_for(renders@, entries_view(entries@)[k].0).data@,
                    ),
                    opts,
                    entries_view(entries@)[k].2,
                ),
        decreases SIZE_COUNT - i,
    {
        let px = sizes[i];
        assert(px == ico_size(i as int));
        let j = crate::icns::find_render_exec(renders, px);
        let data = renders[j].data.as_slice();
        proof {
            crate::icns::lemma_find_render(renders@, px, 0);
        }
        assert(render_ok(render_for(renders@, ico_size(i as int))));
        assert(renders@[j as int] == render_for(renders@, px));
        assert(data@ == renders@[j as int].data@);
        assert(valid_pixels(data@, px * px));
        assert(data@.len() == 4 * px * px) by (nonlinear_arith)
            requires
                data@.len() == 4 * (px * px),
        ;
        let ghost before = entries@;
        let raw = match encode_png(px, px, data) {
            Ok(v) => v,
            Err(e) => {
                assert(data@ == render_for(renders@, ico_size(i as int)).data@);
                return Err(e);
            },
        };
        // The PNG often ends up as an 8-bit palette, but it is a full-color entry as far as the
        // directory is concerned: it keeps its alpha.
        let png = match maybe_optimize(raw, opts) {
            Ok(v) => v,
            Err(e) => {
                return Err(e);
            },
        };
        entries.push(IcoEntry { px, bits: 32, data: png });
        if legacy && (px == 16 || px == 32) {
            let bmp = encode_bmp_8bpp(px, px, data);
            entries.push(IcoEntry { px, bits: 8, data: bmp });
        }
        proof {
            let ev = entries_view(entries@);
            let bv = entries_view(before);
            assert(ico_plan(legacy, (i + 1) as int) == ico_plan(legacy, i as int) + (if legacy
                && is_legacy_size(px) {
                seq![(px, 32u16), (px, 8u16)]
            } else {
                seq![(px, 32u16)]
            }));
            assert forall|k: int| 0 <= k < bv.len() implies ev[k] == bv[k] by {
                assert(entries@[k] == before[k]);
            }
        }
        i += 1;
    }
    Ok(entries)
}

/// The bytes of an `.ico` file for the rendered sizes, and how many entries it holds. It fails
/// only where a PNG cannot be encoded, where oxipng refuses one, or where the file is too large
/// for its 32-bit sizes and offsets.
pub fn ico_bytes(renders: &Vec<Render>, opts: Opts, legacy: bool) -> (r: Result<(Vec<u8>, usize), IconError>)
    requires
        ico_renders_ok(renders@),
    ensures
        r matches Ok((bytes, n)) ==> exists|es: Seq<EntryView>|
            ico_entries_ok(renders@, opts, legacy, es) && n == es.len() && bytes@
                == #[trigger] ico_layout(es),
        r matches Err(e) ==> {
            ||| e == IconError::Png && !ico_pngs_encode(renders@)
            ||| e == IconError::Optimize && opts.enabled
            ||| e == IconError::TooLarge && exists|es: Seq<EntryView>|
                ico_entries_ok(renders@, opts, legacy, es) && #[trigger] ico_len(es) > u32::MAX
        },
        !opts.enabled && ico_pngs_encode(renders@) && (forall|es: Seq<EntryView>|
            ico_entries_ok(renders@, opts, legacy, es) ==> #[trigger] ico_len(es) <= u32::MAX)
            ==> r is Ok,
{
    let entries = ico_entries(renders, opts, legacy)?;
    let bytes = match ico_file(&entries) {
        Ok(b) => b,
        Err(e) => {
            assert(ico_len(entries_view(entries@)) > u32::MAX);
            return Err(e);
        },
    };
    assert(ico_entries_ok(renders@, opts, legacy, entries_view(entries@)));
    Ok((bytes, entries.len()))
}

} // verus!
