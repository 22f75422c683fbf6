use crate::quantize::Colour;
use vstd::prelude::*;

verus! {

/// An RGB image with 8-bit channels, stored in a buffer of the `image` crate.
#[verifier::external_body]
pub struct RgbImage {
    buffer: image::RgbImage,
}

/// Width and height of an image.
pub uninterp spec fn image_dims(img: RgbImage) -> (u32, u32);

/// The pixels of an image, row by row from the top left.
pub uninterp spec fn image_pixels(img: RgbImage) -> Seq<Colour>;

/// Index of pixel `(x, y)` in the row-major pixels of an image `width` wide.
pub open spec fn cell(x: int, y: int, width: int) -> int {
    y * width + x
}

/// The all-zero colour of a fresh image.
pub open spec fn black() -> Colour {
    Colour { red: 0, green: 0, blue: 0 }
}

/// Relies on `ImageBuffer::new`: an all-black image of the given size. It
/// panics when `3 * width`, or that times `height`, overflows `usize`.
#[verifier::external_body]
fn blank_buffer(width: u32, height: u32) -> (r: RgbImage)
    requires
        3 * (width as nat) <= usize::MAX,
        3 * (width as nat) * (height as nat) <= usize::MAX,
    ensures
        image_dims(r) == (width, height),
        image_pixels(r) == Seq::new(width as nat * height as nat, |i: int| black()),
{
    RgbImage { buffer: image::RgbImage::new(width, height) }
}

/// Relies on `ImageBuffer::dimensions`: the stored width and height, whose
/// product is the number of pixels; `ImageBuffer::new` admits no size where
/// `3 * width`, or that times `height`, overflows `usize`.
#[verifier::external_body]
fn buffer_dimensions(img: &RgbImage) -> (r: (u32, u32))
    ensures
        r == image_dims(*img),
        image_pixels(*img).len() == r.0 as nat * r.1 as nat,
        3 * (r.0 as nat) <= usize::MAX,
        3 * (r.0 as nat) * (r.1 as nat) <= usize::MAX,
{
    img.buffer.dimensions()
}

/// Relies on `ImageBuffer::get_pixel`: the pixel at `(x, y)`; it panics
/// outside the image.
#[verifier::external_body]
fn buffer_pixel(img: &RgbImage, x: u32, y: u32) -> (r: Colour)
    requires
        x < image_dims(*img).0,
        y < image_dims(*img).1,
    ensures
        r == image_pixels(*img)[cell(x as int, y as int, image_dims(*img).0 as int)],
{
    let p = img.buffer.get_pixel(x, y);
    Colour { red: p.0[0], green: p.0[1], blue: p.0[2] }
}

/// Relies on `ImageBuffer::put_pixel`: overwrites the pixel at `(x, y)`; it
/// panics outside the image.
#[verifier::external_body]
fn buffer_put_pixel(img: &mut RgbImage, x: u32, y: u32, c: Colour)
    requires
        x < image_dims(*old(img)).0,
        y < image_dims(*old(img)).1,
    ensures
        image_dims(*final(img)) == image_dims(*old(img)),
        image_pixels(*final(img)) == image_pixels(*old(img)).update(
            cell(x as int, y as int, image_dims(*old(img)).0 as int),
            c,
        ),
{
    img.buffer.put_pixel(x, y, image::Rgb([c.red, c.green, c.blue]));
}

pub(crate) proof fn lemma_cell_in_image(x: int, y: int, width: int, height: int)
    requires
        0 <= x < width,
        0 <= y < height,
    ensures
        0 <= cell(x, y, width) < width * height,
        cell(x, y, width) + 1 <= width * height,
{
    assert(0 <= y * width + x < width * height) by (nonlinear_arith)
        requires
            0 <= x < width,
            0 <= y < height,
    ;
}

pub(crate) proof fn lemma_row_end(y: int, width: int)
    ensures
        cell(width, y, width) == cell(0, y + 1, width),
{
    assert(y * width + width == (y + 1) * width) by (nonlinear_arith);
}

impl RgbImage {
    /// An all-black image of the given size.
    pub fn new(width: u32, height: u32) -> (r: RgbImage)
        requires
            3 * (width as nat) <= usize::MAX,
            3 * (width as nat) * (height as nat) <= usize::MAX,
        ensures
            image_dims(r) == (width, height),
            image_pixels(r) == Seq::new(width as nat * height as nat, |i: int| black()),
    {
        blank_buffer(width, height)
    }

    /// Width and height.
    pub fn dimensions(&self) -> (r: (u32, u32))
        ensures
            r == image_dims(*self),
            image_pixels(*self).len() == r.0 as nat * r.1 as nat,
            3 * (r.0 as nat) <= usize::MAX,
            3 * (r.0 as nat) * (r.1 as nat) <= usize::MAX,
    {
        buffer_dimensions(self)
    }

    /// The pixel at `(x, y)`, or `None` outside the image.
    pub fn get_pixel_checked(&self, x: u32, y: u32) -> (r: Option<Colour>)
        ensures
            x < image_dims(*self).0 && y < image_dims(*self).1 ==> r == Some(
                image_pixels(*self)[cell(x as int, y as int, image_dims(*self).0 as int)],
            ),
            !(x < image_dims(*self).0 && y < image_dims(*self).1) ==> r is None,
    {
        let (width, height) = buffer_dimensions(self);
        if x < width && y < height {
            Some(buffer_pixel(self, x, y))
        } else {
            None
        }
    }

    /// Overwrites the pixel at `(x, y)`.
    pub fn put_pixel(&mut self, x: u32, y: u32, c: Colour)
        requires
            x < image_dims(*old(self)).0,
            y < image_dims(*old(self)).1,
        ensures
            image_dims(*final(self)) == image_dims(*old(self)),
            image_pixels(*final(self)) == image_pixels(*old(self)).update(
                cell(x as int, y as int, image_dims(*old(self)).0 as int),
                c,
            ),
    {
        buffer_put_pixel(self, x, y, c)
    }

    /// All pixels, row by row from the top left.
    pub fn pixels(&self) -> (r: Vec<Colour>)
        ensures
            r@ == image_pixels(*self),
    {
        let (width, height) = buffer_dimensions(self);
        let ghost all = image_pixels(*self);
        let mut out: Vec<Colour> = Vec::new();
        let mut y: u32 = 0;
        while y < height
            invariant
                (width, height) == image_dims(*self),
                all == image_pixels(*self),
                all.len() == width as nat * height as nat,
                y <= height,
                out@ == all.take(cell(0, y as int, width as int)),
            decreases height - y,
        {
            let mut x: u32 = 0;
            while x < width
                invariant
                    (width, height) == image_dims(*self),
                    all == image_pixels(*self),
                    all.len() == width as nat * height as nat,
                    y < height,
                    x <= width,
                    out@ == all.take(cell(x as int, y as int, width as int)),
                decreases width - x,
            {
                proof {
                    lemma_cell_in_image(x as int, y as int, width as int, height as int);
                }
                out.push(buffer_pixel(self, x, y));
                assert(all.take(cell(x as int, y as int, width as int) + 1) =~= all.take(
                    cell(x as int, y as int, width as int),
                ).push(all[cell(x as int, y as int, width as int)]));
                x = x + 1;
            }
            proof {
                lemma_row_end(y as int, width as int);
            }
            y = y + 1;
        }
        assert(cell(0, height as int, width as int) == width as nat * height as nat) by (
        nonlinear_arith);
        assert(all.take(cell(0, y as int, width as int)) =~= all);
        out
    }
}

} // verus!
