use svgy::bmp::encode_bmp_8bpp;
use svgy::icns::{
    assemble_icns, encode_argb_chunk, icns_bytes, icns_payloads, icon_specs, write_chunk, Render,
    ICNS_COUNT,
};
use svgy::ico::{ico_bytes, ico_entries, ico_file, sizes, IcoEntry};
use svgy::png::{encode_png, maybe_optimize, IconError, Opts};

const OFF: Opts = Opts { enabled: false, zopfli: false };

/// A square of one premultiplied color.
fn filled(px: u32, rgba: [u8; 4]) -> Render {
    let mut data = Vec::new();
    for _ in 0..px * px {
        data.extend_from_slice(&rgba);
    }
    Render { px, data }
}

fn every_size() -> Vec<Render> {
    [16, 32, 48, 64, 128, 256, 512, 1024]
        .iter()
        .map(|&px| filled(px, [255, 0, 0, 255]))
        .collect()
}

#[test]
fn a_chunk_is_its_type_its_length_and_its_data() {
    let mut buf = vec![9];
    write_chunk(&mut buf, u32::from_be_bytes(*b"ic07"), &[1, 2, 3]);
    assert_eq!(buf, [&[9][..], b"ic07", &[0, 0, 0, 11], &[1, 2, 3]].concat());
}

#[test]
fn an_argb_chunk_holds_each_channel_run_length_encoded() {
    // Two opaque red pixels: every channel is a literal run of two.
    let data = [255, 0, 0, 255, 255, 0, 0, 255];
    let chunk = encode_argb_chunk(&data);
    assert_eq!(chunk, [&b"ARGB"[..], &[1, 255, 255], &[1, 255, 255], &[1, 0, 0], &[1, 0, 0]].concat());
}

#[test]
fn an_argb_chunk_is_straight_alpha() {
    // Half-transparent red, premultiplied, is written as full red at half alpha.
    let chunk = encode_argb_chunk(&[128, 0, 0, 128]);
    assert_eq!(chunk, [&b"ARGB"[..], &[0, 128], &[0, 255], &[0, 0], &[0, 0]].concat());
}

#[test]
fn the_icns_set_has_eleven_chunks_smallest_as_argb() {
    let specs = icon_specs();
    assert_eq!(specs.len(), ICNS_COUNT);
    assert_eq!(specs[0].ostype, u32::from_be_bytes(*b"ic04"));
    assert!(specs[0].argb && specs[1].argb);
    assert!(specs[2..].iter().all(|s| !s.argb));
    assert_eq!(specs[10].px, 1024);
}

#[test]
fn an_icns_file_is_magic_length_and_chunks() {
    let payloads: Vec<Vec<u8>> = (0..ICNS_COUNT as u8).map(|i| vec![i]).collect();
    let bytes = assemble_icns(&payloads).unwrap();
    assert_eq!(&bytes[..4], b"icns");
    let total = 8 + ICNS_COUNT * 9;
    assert_eq!(bytes.len(), total);
    assert_eq!(u32::from_be_bytes(bytes[4..8].try_into().unwrap()) as usize, total);
    assert_eq!(&bytes[8..12], b"ic04");
    assert_eq!(&bytes[12..16], &[0, 0, 0, 9]);
    assert_eq!(bytes[16], 0);
    assert_eq!(&bytes[bytes.len() - 9..bytes.len() - 5], b"ic10");
}

#[test]
fn one_png_is_shared_by_every_chunk_of_one_size() {
    let payloads = icns_payloads(&every_size(), OFF).unwrap();
    assert_eq!(payloads.len(), ICNS_COUNT);
    // `ic13` and `ic08` are both 256 pixels, `ic14` and `ic09` both 512.
    assert_eq!(payloads[6], payloads[7]);
    assert_eq!(payloads[8], payloads[9]);
    assert!(payloads[2].starts_with(b"\x89PNG"));
    assert_eq!(&payloads[0][..4], b"ARGB");
    let bytes = icns_bytes(&every_size(), OFF).unwrap();
    assert_eq!(u32::from_be_bytes(bytes[4..8].try_into().unwrap()) as usize, bytes.len());
}

#[test]
fn the_ico_sizes_are_fixed() {
    assert_eq!(sizes(), vec![16, 32, 48, 64, 128, 256]);
}

#[test]
fn an_ico_directory_points_at_each_image() {
    let entries = vec![
        IcoEntry { px: 16, bits: 32, data: vec![1, 2, 3] },
        IcoEntry { px: 256, bits: 8, data: vec![4] },
    ];
    let bytes = ico_file(&entries).unwrap();
    assert_eq!(&bytes[..6], &[0, 0, 1, 0, 2, 0]);
    // The first entry: 16 x 16, no palette count, one plane, 32 bits, 3 bytes at offset 38.
    assert_eq!(&bytes[6..22], &[16, 16, 0, 0, 1, 0, 32, 0, 3, 0, 0, 0, 38, 0, 0, 0]);
    // A side of 256 is written as 0, and the image follows the one before it.
    assert_eq!(&bytes[22..38], &[0, 0, 0, 0, 1, 0, 8, 0, 1, 0, 0, 0, 41, 0, 0, 0]);
    assert_eq!(&bytes[38..], &[1, 2, 3, 4]);
}

#[test]
fn legacy_entries_follow_their_png() {
    let renders = every_size();
    let modern = ico_entries(&renders, OFF, false).unwrap();
    assert_eq!(modern.len(), 6);
    assert!(modern.iter().all(|e| e.bits == 32));
    let legacy = ico_entries(&renders, OFF, true).unwrap();
    let shape: Vec<(u32, u16)> = legacy.iter().map(|e| (e.px, e.bits)).collect();
    assert_eq!(shape, vec![(16, 32), (16, 8), (32, 32), (32, 8), (48, 32), (64, 32), (128, 32), (256, 32)]);
    let (bytes, n) = ico_bytes(&renders, OFF, true).unwrap();
    assert_eq!(n, 8);
    assert_eq!(&bytes[4..6], &[8, 0]);
}

#[test]
fn a_bmp_entry_is_header_palette_colors_and_mask() {
    // One opaque red pixel.
    let bmp = encode_bmp_8bpp(1, 1, &[255, 0, 0, 255]);
    assert_eq!(bmp.len(), 40 + 1024 + 4 + 4);
    // Header size, width, doubled height, one plane, eight bits.
    assert_eq!(&bmp[..16], &[40, 0, 0, 0, 1, 0, 0, 0, 2, 0, 0, 0, 1, 0, 8, 0]);
    // The palette holds the red as blue, green, red, zero; the rest of the table is zero.
    assert_eq!(&bmp[40..44], &[0, 0, 255, 0]);
    assert!(bmp[44..1064].iter().all(|&b| b == 0));
    // The pixel takes index 0, and an opaque pixel leaves its mask bit clear.
    assert_eq!(&bmp[1064..1068], &[0, 0, 0, 0]);
    assert_eq!(&bmp[1068..1072], &[0, 0, 0, 0]);
}

#[test]
fn a_transparent_pixel_sets_its_mask_bit() {
    let bmp = encode_bmp_8bpp(2, 1, &[0, 0, 0, 0, 0, 0, 255, 255]);
    // The mask row: the first pixel is transparent, the top bit.
    assert_eq!(bmp[bmp.len() - 4], 0b1000_0000);
}

#[test]
fn a_png_is_encoded_and_optimized_on_request() {
    let png = encode_png(2, 2, &[255, 0, 0, 255].repeat(4)).unwrap();
    assert!(png.starts_with(b"\x89PNG\r\n\x1a\n"));
    assert_eq!(maybe_optimize(png.clone(), OFF).unwrap(), png);
    let small = maybe_optimize(png.clone(), Opts { enabled: true, zopfli: false }).unwrap();
    assert!(small.starts_with(b"\x89PNG\r\n\x1a\n"));
    assert!(small.len() <= png.len());
}

#[test]
fn pixels_that_do_not_fill_the_size_are_no_png() {
    assert_eq!(encode_png(2, 2, &[0; 4]), Err(IconError::Png));
}

#[test]
fn oxipng_refuses_what_is_no_png() {
    assert_eq!(
        maybe_optimize(vec![1, 2, 3], Opts { enabled: true, zopfli: false }),
        Err(IconError::Optimize)
    );
}
