use image_converter::packing::{
    bus_bits, hex_text, pack_pixel, pixel_data_bytes, pixels_dump, push_pixel_bytes,
};
use image_converter::pipeline::{clamp_image, image_hex_dump, resize};
use image_converter::quantize::{clamp_colour, quantize, round, Colour, DEFAULT_COMBINATIONS};
use image_converter::raster::RgbImage;

fn colour(red: u8, green: u8, blue: u8) -> Colour {
    Colour { red, green, blue }
}

fn image_from(width: u32, height: u32, pixels: &[Colour]) -> RgbImage {
    let mut img = RgbImage::new(width, height);
    for y in 0..height {
        for x in 0..width {
            img.put_pixel(x, y, pixels[(y * width + x) as usize]);
        }
    }
    img
}

fn solid(width: u32, height: u32, c: Colour) -> RgbImage {
    image_from(width, height, &vec![c; (width * height) as usize])
}

#[test]
fn round_to_nearest_multiple() {
    assert_eq!(round(70, 85), 85);
    assert_eq!(round(158, 85), 170);
    assert_eq!(round(237, 85), 255);
    assert_eq!(round(42, 85), 0);
    // a tie rounds upward
    assert_eq!(round(2, 4), 4);
    assert_eq!(round(1, 4), 0);
    assert_eq!(round(200, 1), 200);
}

#[test]
fn round_clamps_overshoot_to_255() {
    // 255 / 4 = 63.75 rounds to 64, and 64 * 4 = 256 is clamped
    assert_eq!(round(255, 4), 255);
    assert_eq!(round(254, 4), 255);
    assert_eq!(round(253, 4), 252);
}

#[test]
fn quantize_example_of_three_levels() {
    let input = colour(70, 158, 237);
    assert_eq!(clamp_colour(input, 3, false), colour(85, 170, 255));
    assert_eq!(clamp_colour(input, 3, true), colour(1, 2, 3));
    assert_eq!(DEFAULT_COMBINATIONS, 3);
}

#[test]
fn bus_index_reaches_n_where_block_does_not_divide_255() {
    // n = 4: block 63, 255 rounds to 252 = 4 * 63, index 4
    assert_eq!(quantize(255, 4, false), 252);
    assert_eq!(quantize(255, 4, true), 4);
    // n = 60: block 4, 255 is clamped and its index is 255 / 4 = 63
    assert_eq!(quantize(255, 60, false), 255);
    assert_eq!(quantize(255, 60, true), 63);
}

#[test]
fn expanded_values_are_levels_or_clamped() {
    for n in 1u8..=85 {
        let block = 255 / n;
        for v in 0u8..=255 {
            let q = quantize(v, n, false);
            let clamped = ((2 * v as u32 + block as u32) / (2 * block as u32)) * block as u32 > 255;
            if clamped {
                assert_eq!(q, 255);
            } else {
                assert_eq!(q % block, 0, "n {} v {}", n, v);
            }
        }
    }
}

#[test]
fn quantize_is_idempotent() {
    for n in 1u8..=255 {
        for v in 0u8..=255 {
            let q = quantize(v, n, false);
            assert_eq!(quantize(q, n, false), q, "n {} v {}", n, v);
        }
    }
}

#[test]
fn expanded_is_index_times_block_without_clamping() {
    for n in 1u8..=255 {
        let block = 255 / n;
        for v in 0u8..=255 {
            let expanded = quantize(v, n, false);
            let index = quantize(v, n, true);
            if ((2 * v as u32 + block as u32) / (2 * block as u32)) * (block as u32) <= 255 {
                assert_eq!(expanded as u32, index as u32 * block as u32);
            }
        }
    }
}

#[test]
fn bus_width_values() {
    assert_eq!(bus_bits(1), 1);
    assert_eq!(bus_bits(2), 1);
    assert_eq!(bus_bits(3), 2);
    assert_eq!(bus_bits(4), 2);
    assert_eq!(bus_bits(7), 3);
    assert_eq!(bus_bits(15), 4);
    assert_eq!(bus_bits(254), 7);
    assert_eq!(bus_bits(255), 8);
    assert_eq!(bus_bits(0), 0);
}

#[test]
fn bus_width_is_monotone() {
    let mut last = bus_bits(0);
    for n in 1u8..=255 {
        let b = bus_bits(n);
        assert!(b >= last);
        last = b;
    }
}

#[test]
fn pixel_data_bytes_values() {
    assert_eq!(pixel_data_bytes(0), 0);
    assert_eq!(pixel_data_bytes(1), 1);
    assert_eq!(pixel_data_bytes(2), 1);
    assert_eq!(pixel_data_bytes(3), 2);
    assert_eq!(pixel_data_bytes(4), 2);
    assert_eq!(pixel_data_bytes(6), 3);
    assert_eq!(pixel_data_bytes(8), 3);
}

#[test]
fn pack_places_red_highest() {
    assert_eq!(pack_pixel(colour(1, 2, 3), 2), 0x1b);
    assert_eq!(pack_pixel(colour(15, 8, 1), 4), 0xf81);
    assert_eq!(pack_pixel(colour(255, 255, 255), 8), 0xff_ffff);
    // an index of n = 4 does not fit in 2 bits and spills into the next field
    assert_eq!(pack_pixel(colour(0, 4, 0), 2), 0x10);
}

#[test]
fn pixel_bytes_most_significant_first() {
    let mut out = vec![0xaa];
    push_pixel_bytes(&mut out, colour(15, 8, 1), 4, 2);
    assert_eq!(out, vec![0xaa, 0x0f, 0x81]);
    let mut out = Vec::new();
    push_pixel_bytes(&mut out, colour(0x12, 0x34, 0x56), 8, 3);
    assert_eq!(out, vec![0x12, 0x34, 0x56]);
}

#[test]
fn hex_text_is_lowercase_with_spaces() {
    assert_eq!(hex_text(&vec![0x00, 0xab, 0x5f, 0x10]), b"00 ab 5f 10 ".to_vec());
    assert_eq!(hex_text(&Vec::new()), Vec::<u8>::new());
}

#[test]
fn packing_example_three_levels() {
    let bus = clamp_colour(colour(70, 158, 237), 3, true);
    assert_eq!(bus, colour(1, 2, 3));
    assert_eq!(bus_bits(3), 2);
    assert_eq!(pixel_data_bytes(bus_bits(3)), 1);
    assert_eq!(pixels_dump(&vec![bus], 3), vec![0x1b]);
    let img = clamp_image(&solid(1, 1, colour(70, 158, 237)), 3, true);
    assert_eq!(image_hex_dump(&img, 3), b"1b ".to_vec());
}

#[test]
fn packing_example_fifteen_levels() {
    assert_eq!(255 / 15, 17);
    assert_eq!(bus_bits(15), 4);
    assert_eq!(pixel_data_bytes(4), 2);
    let bus = clamp_colour(colour(255, 136, 17), 15, true);
    assert_eq!(bus, colour(15, 8, 1));
    assert_eq!(pixels_dump(&vec![bus, colour(1, 2, 3)], 15), vec![0x0f, 0x81, 0x01, 0x23]);
    let img = clamp_image(&image_from(2, 1, &[colour(255, 136, 17), colour(17, 34, 51)]), 15, true);
    assert_eq!(image_hex_dump(&img, 15), b"0f 81 01 23 ".to_vec());
}

#[test]
fn end_to_end_solid_image() {
    let img = solid(4, 4, colour(70, 158, 237));
    let resized = resize(&img, (2, 2));
    assert_eq!(resized.dimensions(), (2, 2));
    let preview = clamp_image(&resized, 3, false);
    assert_eq!(preview.pixels(), vec![colour(85, 170, 255); 4]);
    let bus = clamp_image(&resized, 3, true);
    assert_eq!(image_hex_dump(&bus, 3), b"1b 1b 1b 1b ".to_vec());
}

#[test]
fn resize_to_same_size_is_identity() {
    let pixels: Vec<Colour> = (0..6u8).map(|i| colour(i, 10 * i, 255 - i)).collect();
    let img = image_from(3, 2, &pixels);
    let same = resize(&img, (3, 2));
    assert_eq!(same.dimensions(), (3, 2));
    assert_eq!(same.pixels(), pixels);
}

#[test]
fn resize_to_nothing_is_empty() {
    let img = solid(3, 3, colour(1, 2, 3));
    let empty = resize(&img, (0, 0));
    assert_eq!(empty.dimensions(), (0, 0));
    assert!(empty.pixels().is_empty());
    let flat = resize(&img, (5, 0));
    assert_eq!(flat.dimensions(), (5, 0));
    assert!(flat.pixels().is_empty());
}

#[test]
fn resize_down_to_one_pixel() {
    let pixels: Vec<Colour> = (0..4u8).map(|i| colour(i, i, i)).collect();
    let img = image_from(2, 2, &pixels);
    let one = resize(&img, (1, 1));
    assert_eq!(one.pixels(), vec![colour(0, 0, 0)]);
    let img = image_from(2, 2, &[colour(9, 9, 9), colour(1, 1, 1), colour(2, 2, 2), colour(3, 3, 3)]);
    assert_eq!(resize(&img, (1, 1)).pixels(), vec![colour(9, 9, 9)]);
}

#[test]
fn resize_up_repeats_pixels() {
    let img = image_from(2, 1, &[colour(1, 1, 1), colour(2, 2, 2)]);
    let up = resize(&img, (4, 2));
    let a = colour(1, 1, 1);
    let b = colour(2, 2, 2);
    assert_eq!(up.pixels(), vec![a, a, b, b, a, a, b, b]);
}

#[test]
fn resize_down_samples_floor_coordinates() {
    // 3 wide to 2 wide: x = 0 takes 0, x = 1 takes floor(1 * 3 / 2) = 1
    let img = image_from(3, 1, &[colour(1, 0, 0), colour(2, 0, 0), colour(3, 0, 0)]);
    assert_eq!(resize(&img, (2, 1)).pixels(), vec![colour(1, 0, 0), colour(2, 0, 0)]);
}

#[test]
fn resize_of_empty_source_is_black() {
    let img = RgbImage::new(0, 0);
    let out = resize(&img, (2, 1));
    assert_eq!(out.pixels(), vec![colour(0, 0, 0); 2]);
}

#[test]
fn image_access() {
    let mut img = RgbImage::new(2, 2);
    assert_eq!(img.get_pixel_checked(1, 1), Some(colour(0, 0, 0)));
    img.put_pixel(1, 0, colour(5, 6, 7));
    assert_eq!(img.get_pixel_checked(1, 0), Some(colour(5, 6, 7)));
    assert_eq!(img.get_pixel_checked(2, 0), None);
    assert_eq!(img.get_pixel_checked(0, 2), None);
    assert_eq!(img.pixels(), vec![colour(0, 0, 0), colour(5, 6, 7), colour(0, 0, 0), colour(0, 0, 0)]);
}

#[test]
fn fifteen_levels_take_six_characters_per_pixel() {
    let pixels: Vec<Colour> = (0..6u8).map(|i| colour(40 * i, 255 - 40 * i, 17 * i)).collect();
    let bus = clamp_image(&image_from(3, 2, &pixels), 15, true);
    let text = image_hex_dump(&bus, 15);
    assert_eq!(text.len(), 6 * 3 * 2);
    // first pixel (0, 255, 0): indices (0, 15, 0), word 0x0f0
    assert_eq!(&text[0..6], b"00 f0 ");
}
