use svgy::palette::{nearest, quantize};
use svgy::pixels::straight_pixels;

#[test]
fn few_colors_are_kept_exactly() {
    let rgb = vec![(1, 2, 3), (200, 0, 0), (1, 2, 3), (0, 0, 9)];
    let opaque = vec![true, true, true, true];
    let palette = quantize(&rgb, &opaque);
    assert_eq!(palette.len(), 3);
    for c in &rgb {
        assert_eq!(palette[nearest(&palette, *c) as usize], *c);
    }
}

#[test]
fn transparent_pixels_take_no_palette_entry() {
    let palette = quantize(&vec![(5, 5, 5), (9, 9, 9)], &vec![false, true]);
    assert_eq!(palette, vec![(9, 9, 9)]);
}

#[test]
fn an_image_without_an_opaque_pixel_has_black() {
    assert_eq!(quantize(&vec![(5, 5, 5)], &vec![false]), vec![(0, 0, 0)]);
    assert_eq!(quantize(&vec![], &vec![]), vec![(0, 0, 0)]);
}

#[test]
fn many_colors_are_cut_to_the_palette_size() {
    let mut rgb = Vec::new();
    for r in 0..20u8 {
        for g in 0..20u8 {
            rgb.push((r * 10, g * 10, 7));
        }
    }
    let opaque = vec![true; rgb.len()];
    let palette = quantize(&rgb, &opaque);
    assert_eq!(palette.len(), 256);
}

#[test]
fn the_nearest_entry_wins_and_the_first_of_a_tie() {
    let palette = vec![(0, 0, 0), (10, 10, 10), (10, 10, 10)];
    assert_eq!(nearest(&palette, (9, 9, 9)), 1);
    assert_eq!(nearest(&palette, (1, 0, 0)), 0);
}

#[test]
fn premultiplied_pixels_are_demultiplied() {
    let px = straight_pixels(&[128, 0, 0, 128, 10, 20, 30, 255, 0, 0, 0, 0]);
    assert_eq!(px, vec![(255, 0, 0, 128), (10, 20, 30, 255), (0, 0, 0, 0)]);
}
