use crate::packing::{
    bus_bits_spec, dump_spec, hex_text, hex_text_spec, pixel_data_bytes_spec, pixels_dump,
};
use crate::quantize::{clamp_colour, quantize_colour_spec, Colour};
use crate::raster::{black, cell, image_dims, image_pixels, lemma_cell_in_image, lemma_row_end, RgbImage};
use vstd::arithmetic::div_mod::{
    lemma_div_is_ordered, lemma_div_multiples_vanish, lemma_fundamental_div_mod,
    lemma_fundamental_div_mod_converse,
};
use vstd::prelude::*;

verus! {

/// The source coordinate that target coordinate `i` samples when a length of
/// `old_len` is resized to `new_len`: `floor(i * old_len / new_len)`.
pub open spec fn nearest_source(i: int, old_len: int, new_len: int) -> int {
    i * old_len / new_len
}

/// The colour that target pixel `(x, y)` takes: the nearest source pixel, or
/// black where that falls outside the source.
pub open spec fn sample(
    src: Seq<Colour>,
    old_w: int,
    old_h: int,
    new_w: int,
    new_h: int,
    x: int,
    y: int,
) -> Colour {
    let sx = nearest_source(x, old_w, new_w);
    let sy = nearest_source(y, old_h, new_h);
    if sx < old_w && sy < old_h {
        src[cell(sx, sy, old_w)]
    } else {
        black()
    }
}

/// The row-major pixels of `src` (`old_w` by `old_h`) resized to `new_w` by
/// `new_h` with nearest-neighbour sampling.
pub open spec fn resized_pixels(
    src: Seq<Colour>,
    old_w: int,
    old_h: int,
    new_w: int,
    new_h: int,
) -> Seq<Colour> {
    Seq::new(
        (new_w * new_h) as nat,
        |k: int| sample(src, old_w, old_h, new_w, new_h, k % new_w, k / new_w),
    )
}

proof fn lemma_nearest_source_bounds(i: int, old_len: int, new_len: int)
    requires
        0 <= i < new_len,
        0 <= old_len,
    ensures
        0 <= nearest_source(i, old_len, new_len) <= old_len,
{
    assert(0 <= i * old_len <= new_len * old_len) by (nonlinear_arith)
        requires
            0 <= i < new_len,
            0 <= old_len,
    ;
    lemma_div_is_ordered(0, i * old_len, new_len);
    lemma_div_is_ordered(i * old_len, new_len * old_len, new_len);
    lemma_div_multiples_vanish(old_len, new_len);
}

/// Resizes `img` to `new_dimensions` by nearest-neighbour sampling: target
/// pixel `(x, y)` takes source pixel `(x * old_w / new_w, y * old_h / new_h)`,
/// or stays black where that lies outside the source.
pub fn resize(img: &RgbImage, new_dimensions: (u32, u32)) -> (r: RgbImage)
    requires
        3 * (new_dimensions.0 as nat) <= usize::MAX,
        3 * (new_dimensions.0 as nat) * (new_dimensions.1 as nat) <= usize::MAX,
    ensures
        image_dims(r) == new_dimensions,
        image_pixels(r) == resized_pixels(
            image_pixels(*img),
            image_dims(*img).0 as int,
            image_dims(*img).1 as int,
            new_dimensions.0 as int,
            new_dimensions.1 as int,
        ),
{
    let (old_width, old_height) = img.dimensions();
    let (new_width, new_height) = new_dimensions;
    let ghost target = resized_pixels(
        image_pixels(*img),
        old_width as int,
        old_height as int,
        new_width as int,
        new_height as int,
    );
    let mut new_image = RgbImage::new(new_width, new_height);
    let mut y: u32 = 0;
    while y < new_height
        invariant
            (old_width, old_height) == image_dims(*img),
            image_dims(new_image) == new_dimensions,
            (new_width, new_height) == new_dimensions,
            target == resized_pixels(
                image_pixels(*img),
                old_width as int,
                old_height as int,
                new_width as int,
                new_height as int,
            ),
            image_pixels(new_image).len() == target.len(),
            y <= new_height,
            forall|k: int|
                0 <= k < cell(0, y as int, new_width as int) ==> #[trigger] image_pixels(
                    new_image,
                )[k] == target[k],
        decreases new_height - y,
    {
        let mut x: u32 = 0;
        while x < new_width
            invariant
                (old_width, old_height) == image_dims(*img),
                image_dims(new_image) == new_dimensions,
                (new_width, new_height) == new_dimensions,
                target == resized_pixels(
                    image_pixels(*img),
                    old_width as int,
                    old_height as int,
                    new_width as int,
                    new_height as int,
                ),
                image_pixels(new_image).len() == target.len(),
                y < new_height,
                x <= new_width,
                forall|k: int|
                    0 <= k < cell(x as int, y as int, new_width as int) ==> #[trigger] image_pixels(
                        new_image,
                    )[k] == target[k],
            decreases new_width - x,
        {
            assert(x as u64 * old_width as u64 <= 0xffff_ffff_u64 * 0xffff_ffff_u64) by (
            nonlinear_arith)
                requires
                    x <= 0xffff_ffff,
                    old_width <= 0xffff_ffff,
            ;
            assert(y as u64 * old_height as u64 <= 0xffff_ffff_u64 * 0xffff_ffff_u64) by (
            nonlinear_arith)
                requires
                    y <= 0xffff_ffff,
                    old_height <= 0xffff_ffff,
            ;
            let nearest_x: u64 = x as u64 * old_width as u64 / new_width as u64;
            let nearest_y: u64 = y as u64 * old_height as u64 / new_height as u64;
            proof {
                lemma_nearest_source_bounds(x as int, old_width as int, new_width as int);
                lemma_nearest_source_bounds(y as int, old_height as int, new_height as int);
                lemma_cell_in_image(x as int, y as int, new_width as int, new_height as int);
                lemma_fundamental_div_mod_converse(
                    cell(x as int, y as int, new_width as int),
                    new_width as int,
                    y as int,
                    x as int,
                );
            }
            let colour = match img.get_pixel_checked(nearest_x as u32, nearest_y as u32) {
                Some(old_pixel) => old_pixel,
                None => Colour { red: 0, green: 0, blue: 0 },
            };
            assert(colour == target[cell(x as int, y as int, new_width as int)]);
            new_image.put_pixel(x, y, colour);
            x = x + 1;
        }
        proof {
            lemma_row_end(y as int, new_width as int);
        }
        y = y + 1;
    }
    assert(cell(0, new_height as int, new_width as int) == new_width as int * new_height as int)
        by (nonlinear_arith);
    assert(image_pixels(new_image) =~= target);
    new_image
}

/// Resizing an image to its own dimensions gives back its pixels unchanged.
pub proof fn lemma_resize_identity(src: Seq<Colour>, width: u32, height: u32)
    requires
        src.len() == width as nat * height as nat,
    ensures
        resized_pixels(src, width as int, height as int, width as int, height as int) == src,
{
    let w = width as int;
    let h = height as int;
    let r = resized_pixels(src, w, h, w, h);
    assert forall|k: int| 0 <= k < src.len() implies r[k] == src[k] by {
        assert(w > 0) by (nonlinear_arith)
            requires
                0 <= k < w * h,
                h >= 0,
        ;
        lemma_fundamental_div_mod(k, w);
        let x = k % w;
        let y = k / w;
        assert(0 <= y < h) by (nonlinear_arith)
            requires
                k == w * y + x,
                0 <= x < w,
                0 <= k < w * h,
        ;
        assert(x * w == w * x && y * h == h * y) by (nonlinear_arith);
        lemma_div_multiples_vanish(x, w);
        lemma_div_multiples_vanish(y, h);
        assert(cell(x, y, w) == k) by (nonlinear_arith)
            requires
                k == w * y + x,
        ;
    }
    assert(r =~= src);
}

proof fn lemma_nearest_source_inside(i: int, old_len: int, new_len: int)
    requires
        0 <= i < new_len,
        1 <= old_len,
    ensures
        0 <= nearest_source(i, old_len, new_len) < old_len,
{
    lemma_nearest_source_bounds(i, old_len, new_len);
    lemma_fundamental_div_mod(i * old_len, new_len);
    let q = nearest_source(i, old_len, new_len);
    assert(q < old_len) by (nonlinear_arith)
        requires
            i * old_len == new_len * q + (i * old_len) % new_len,
            0 <= (i * old_len) % new_len,
            0 <= i < new_len,
            1 <= old_len,
    ;
}

/// Whether `c` is one of the pixels in `src`.
pub open spec fn is_pixel_of(src: Seq<Colour>, c: Colour) -> bool {
    exists|j: int| 0 <= j < src.len() && src[j] == c
}

/// Resizing a non-empty image, to any size, only repeats or drops its pixels:
/// every sampled source coordinate lies inside it, so each resulting pixel is
/// one of the source's.
pub proof fn lemma_resize_takes_source_pixels(
    src: Seq<Colour>,
    old_w: u32,
    old_h: u32,
    new_w: u32,
    new_h: u32,
)
    requires
        src.len() == old_w as nat * old_h as nat,
        old_w >= 1,
        old_h >= 1,
    ensures
        forall|k: int|
            0 <= k < new_w as int * new_h as int ==> is_pixel_of(
                src,
                #[trigger] resized_pixels(
                    src,
                    old_w as int,
                    old_h as int,
                    new_w as int,
                    new_h as int,
                )[k],
            ),
{
    let (ow, oh, nw, nh) = (old_w as int, old_h as int, new_w as int, new_h as int);
    let r = resized_pixels(src, ow, oh, nw, nh);
    assert forall|k: int| 0 <= k < nw * nh implies is_pixel_of(src, #[trigger] r[k]) by {
        assert(nw > 0) by (nonlinear_arith)
            requires
                0 <= k < nw * nh,
                nh >= 0,
        ;
        lemma_fundamental_div_mod(k, nw);
        let x = k % nw;
        let y = k / nw;
        assert(0 <= y < nh) by (nonlinear_arith)
            requires
                k == nw * y + x,
                0 <= x < nw,
                0 <= k < nw * nh,
        ;
        lemma_nearest_source_inside(x, ow, nw);
        lemma_nearest_source_inside(y, oh, nh);
        let sx = nearest_source(x, ow, nw);
        let sy = nearest_source(y, oh, nh);
        lemma_cell_in_image(sx, sy, ow, oh);
        assert(r[k] == src[cell(sx, sy, ow)]);
    }
}

/// `img` with each channel of each pixel quantized to `combinations` levels,
/// as expanded values or, in bus mode, as level indices.
pub fn clamp_image(img: &RgbImage, combinations: u8, bus_mode: bool) -> (r: RgbImage)
    requires
        combinations > 0,
    ensures
        image_dims(r) == image_dims(*img),
        image_pixels(r) == image_pixels(*img).map_values(
            |c: Colour| quantize_colour_spec(c, combinations, bus_mode),
        ),
{
    let (width, height) = img.dimensions();
    let ghost target = image_pixels(*img).map_values(
        |c: Colour| quantize_colour_spec(c, combinations, bus_mode),
    );
    let mut clamped_image = RgbImage::new(width, height);
    let mut y: u32 = 0;
    while y < height
        invariant
            combinations > 0,
            (width, height) == image_dims(*img),
            image_dims(clamped_image) == image_dims(*img),
            target == image_pixels(*img).map_values(
                |c: Colour| quantize_colour_spec(c, combinations, bus_mode),
            ),
            image_pixels(clamped_image).len() == target.len(),
            target.len() == width as nat * height as nat,
            y <= height,
            forall|k: int|
                0 <= k < cell(0, y as int, width as int) ==> #[trigger] image_pixels(
                    clamped_image,
                )[k] == target[k],
        decreases height - y,
    {
        let mut x: u32 = 0;
        while x < width
            invariant
                combinations > 0,
                (width, height) == image_dims(*img),
                image_dims(clamped_image) == image_dims(*img),
                target == image_pixels(*img).map_values(
                    |c: Colour| quantize_colour_spec(c, combinations, bus_mode),
                ),
                image_pixels(clamped_image).len() == target.len(),
                target.len() == width as nat * height as nat,
                y < height,
                x <= width,
                forall|k: int|
                    0 <= k < cell(x as int, y as int, width as int) ==> #[trigger] image_pixels(
                        clamped_image,
                    )[k] == target[k],
            decreases width - x,
        {
            proof {
                lemma_cell_in_image(x as int, y as int, width as int, height as int);
            }
            if let Some(source_pixel) = img.get_pixel_checked(x, y) {
                clamped_image.put_pixel(x, y, clamp_colour(source_pixel, combinations, bus_mode));
            }
            x = x + 1;
        }
        proof {
            lemma_row_end(y as int, width as int);
        }
        y = y + 1;
    }
    assert(cell(0, height as int, width as int) == width as int * height as int) by (
    nonlinear_arith);
    assert(image_pixels(clamped_image) =~= target);
    clamped_image
}

/// The hex dump of an image whose channels are level indices for
/// `combinations` levels: for each pixel, row by row, the lowest
/// `pixel_data_bytes` bytes of its packed word, most significant first, each
/// as two lowercase hex digits and a space (ASCII).
pub fn image_hex_dump(img: &RgbImage, combinations: u8) -> (r: Vec<u8>)
    ensures
        r@ == hex_text_spec(
            dump_spec(
                image_pixels(*img),
                bus_bits_spec(combinations) as u32,
                pixel_data_bytes_spec(bus_bits_spec(combinations)),
            ),
        ),
{
    let pixels = img.pixels();
    let bytes = pixels_dump(&pixels, combinations);
    hex_text(&bytes)
}

} // verus!
