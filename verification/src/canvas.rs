//! Images: rectangles of pixels with eight bits of red, green and blue each,
//! kept in an `RgbImage` of the `image` crate.

use vstd::prelude::*;
use image::{ImageBuffer, Rgb, RgbImage};

verus! {

/// An image. Its pixels are held by the `image` crate; of them the library
/// knows what `canvas_width`, `canvas_height` and `canvas_samples` say.
#[verifier::external_body]
pub struct Canvas {
    img: RgbImage,
}

/// The number of pixels in a row of the image.
pub uninterp spec fn canvas_width(c: Canvas) -> nat;

/// The number of rows of the image.
pub uninterp spec fn canvas_height(c: Canvas) -> nat;

/// The samples of the image: red, green and blue of the pixels, row after
/// row from the top, each row from the left.
pub uninterp spec fn canvas_samples(c: Canvas) -> Seq<u8>;

/// Where the red sample of the pixel `(x, y)` stands among the samples.
pub open spec fn sample_index(c: Canvas, x: int, y: int) -> int {
    3 * (y * canvas_width(c) + x)
}

/// The samples with the pixel `(x, y)` set to `rgb`.
pub open spec fn samples_with(c: Canvas, x: int, y: int, rgb: (u8, u8, u8)) -> Seq<u8> {
    let i = sample_index(c, x, y);
    canvas_samples(c).update(i, rgb.0).update(i + 1, rgb.1).update(i + 2, rgb.2)
}

/// A new image from `ImageBuffer::new` of the `image` crate. The contract
/// claims that it has the given width and height and that all its samples
/// are zero. `ImageBuffer::new` multiplies three by the width and that by
/// the height and panics when either product does not fit in a `usize`,
/// which the precondition rules out.
#[verifier::external_body]
fn blank(width: u32, height: u32) -> (c: Canvas)
    requires
        3 * width <= usize::MAX,
        3 * width * height <= usize::MAX,
    ensures
        canvas_width(c) == width,
        canvas_height(c) == height,
        canvas_samples(c) == Seq::new((3 * width * height) as nat, |i: int| 0u8),
{
    Canvas { img: ImageBuffer::new(width, height) }
}

/// The width and the height of the image, from `ImageBuffer::dimensions` of
/// the `image` crate.
#[verifier::external_body]
fn dimensions(c: &Canvas) -> (d: (u32, u32))
    ensures
        d.0 == canvas_width(*c),
        d.1 == canvas_height(*c),
{
    c.img.dimensions()
}

/// Sets a pixel, by `ImageBuffer::put_pixel` of the `image` crate. The
/// contract claims that the three samples of the pixel `(x, y)` are
/// replaced and nothing else changes. `put_pixel` panics for a pixel outside
/// the image, which the precondition rules out.
#[verifier::external_body]
fn store(c: &mut Canvas, x: u32, y: u32, rgb: (u8, u8, u8))
    requires
        x < canvas_width(*old(c)),
        y < canvas_height(*old(c)),
    ensures
        canvas_width(*final(c)) == canvas_width(*old(c)),
        canvas_height(*final(c)) == canvas_height(*old(c)),
        canvas_samples(*final(c)) == samples_with(*old(c), x as int, y as int, rgb),
{
    c.img.put_pixel(x, y, Rgb([rgb.0, rgb.1, rgb.2]));
}

/// Reads a pixel, by `ImageBuffer::get_pixel` of the `image` crate. The
/// contract claims that the result holds the three samples of the pixel
/// `(x, y)`. `get_pixel` panics for a pixel outside the image, which the
/// precondition rules out.
#[verifier::external_body]
fn load(c: &Canvas, x: u32, y: u32) -> (rgb: (u8, u8, u8))
    requires
        x < canvas_width(*c),
        y < canvas_height(*c),
    ensures
        rgb.0 == canvas_samples(*c)[sample_index(*c, x as int, y as int)],
        rgb.1 == canvas_samples(*c)[sample_index(*c, x as int, y as int) + 1],
        rgb.2 == canvas_samples(*c)[sample_index(*c, x as int, y as int) + 2],
{
    let p = c.img.get_pixel(x, y);
    (p.0[0], p.0[1], p.0[2])
}

/// A copy of the samples, from `ImageBuffer::as_raw` of the `image` crate.
#[verifier::external_body]
fn raw_samples(c: &Canvas) -> (v: Vec<u8>)
    ensures
        v@ == canvas_samples(*c),
{
    c.img.as_raw().clone()
}

impl Canvas {
    /// The image has three samples for each of its pixels.
    #[verifier::type_invariant]
    pub open spec fn wf(self) -> bool {
        canvas_samples(self).len() == 3 * canvas_width(self) * canvas_height(self)
    }

    /// The pixel `(x, y)`: its red, green and blue.
    pub open spec fn spec_get(self, x: int, y: int) -> (u8, u8, u8) {
        let i = sample_index(self, x, y);
        (canvas_samples(self)[i], canvas_samples(self)[i + 1], canvas_samples(self)[i + 2])
    }

    /// Whether the image has a pixel `(x, y)`.
    pub open spec fn has(self, x: int, y: int) -> bool {
        0 <= x < canvas_width(self) && 0 <= y < canvas_height(self)
    }

    /// Whether the machine can address the samples of a row of the given
    /// width and of an image of the given width and height.
    pub open spec fn spec_fits(width: u32, height: u32) -> bool {
        3 * width <= usize::MAX && 3 * width * height <= usize::MAX
    }

    /// Whether the machine can address the samples of an image of the given
    /// width and height, and those of one row of it even if it has no rows.
    #[verifier::when_used_as_spec(spec_fits)]
    pub fn fits(width: u32, height: u32) -> (r: bool)
        ensures
            r == Canvas::spec_fits(width, height),
    {
        assert(0 <= 3 * width * height <= 3 * 0xffff_ffff * 0xffff_ffff) by (nonlinear_arith)
            requires
                0 <= width <= 0xffff_ffff,
                0 <= height <= 0xffff_ffff,
        ;
        let row: u128 = 3 * (width as u128);
        let samples: u128 = row * (height as u128);
        row <= usize::MAX as u128 && samples <= usize::MAX as u128
    }

    /// A black image of the given width and height; none if it, or one row
    /// of it, would have more samples than the machine can address.
    pub fn new(width: u32, height: u32) -> (r: Option<Canvas>)
        ensures
            r is Some <==> Canvas::spec_fits(width, height),
            r matches Some(c) ==> {
                &&& canvas_width(c) == width
                &&& canvas_height(c) == height
                &&& forall|i: int| 0 <= i < 3 * width * height ==> canvas_samples(c)[i] == 0
            },
    {
        if Canvas::fits(width, height) {
            Some(blank(width, height))
        } else {
            None
        }
    }

    /// The number of pixels in a row.
    pub fn width(&self) -> (w: u32)
        ensures
            w == canvas_width(*self),
    {
        dimensions(self).0
    }

    /// The number of rows.
    pub fn height(&self) -> (h: u32)
        ensures
            h == canvas_height(*self),
    {
        dimensions(self).1
    }

    /// The pixel `(x, y)`, if the image has one.
    pub fn get_pixel(&self, x: u32, y: u32) -> (r: Option<(u8, u8, u8)>)
        ensures
            r == (if self.has(x as int, y as int) {
                Some(self.spec_get(x as int, y as int))
            } else {
                None
            }),
    {
        let d = dimensions(self);
        if x < d.0 && y < d.1 {
            Some(load(self, x, y))
        } else {
            None
        }
    }

    /// Sets the pixel `(x, y)` to `rgb`, if the image has such a pixel, and
    /// says whether it has.
    pub fn put_pixel(&mut self, x: u32, y: u32, rgb: (u8, u8, u8)) -> (done: bool)
        ensures
            done == old(self).has(x as int, y as int),
            canvas_width(*final(self)) == canvas_width(*old(self)),
            canvas_height(*final(self)) == canvas_height(*old(self)),
            canvas_samples(*final(self)) == (if done {
                samples_with(*old(self), x as int, y as int, rgb)
            } else {
                canvas_samples(*old(self))
            }),
    {
        let d = dimensions(self);
        if x < d.0 && y < d.1 {
            store(self, x, y, rgb);
            true
        } else {
            false
        }
    }

    /// A copy of the samples: red, green and blue of the pixels, row after
    /// row from the top.
    pub fn to_vec(&self) -> (v: Vec<u8>)
        ensures
            v@ == canvas_samples(*self),
    {
        raw_samples(self)
    }
}

/// In an image with three samples for each pixel, setting a pixel changes
/// that pixel and no other.
pub proof fn lemma_samples_with(c: Canvas, x: int, y: int, rgb: (u8, u8, u8), x2: int, y2: int)
    requires
        c.wf(),
        c.has(x, y),
        c.has(x2, y2),
    ensures
        0 <= sample_index(c, x, y),
        sample_index(c, x, y) + 2 < canvas_samples(c).len(),
        samples_with(c, x, y, rgb).len() == canvas_samples(c).len(),
        (x2, y2) == (x, y) ==> {
            &&& samples_with(c, x, y, rgb)[sample_index(c, x2, y2)] == rgb.0
            &&& samples_with(c, x, y, rgb)[sample_index(c, x2, y2) + 1] == rgb.1
            &&& samples_with(c, x, y, rgb)[sample_index(c, x2, y2) + 2] == rgb.2
        },
        (x2, y2) != (x, y) ==> {
            &&& samples_with(c, x, y, rgb)[sample_index(c, x2, y2)] == canvas_samples(
                c,
            )[sample_index(c, x2, y2)]
            &&& samples_with(c, x, y, rgb)[sample_index(c, x2, y2) + 1] == canvas_samples(
                c,
            )[sample_index(c, x2, y2) + 1]
            &&& samples_with(c, x, y, rgb)[sample_index(c, x2, y2) + 2] == canvas_samples(
                c,
            )[sample_index(c, x2, y2) + 2]
        },
{
    let w = canvas_width(c) as int;
    let h = canvas_height(c) as int;
    lemma_pixel_index(w, h, x, y);
    lemma_pixel_index(w, h, x2, y2);
    if y2 != y {
        lemma_rows_apart(w, x, y, x2, y2);
    }
}

/// The number of a pixel, counted row by row, is less than the number of pixels.
proof fn lemma_pixel_index(w: int, h: int, x: int, y: int)
    by (nonlinear_arith)
    requires
        0 <= x < w,
        0 <= y < h,
    ensures
        0 <= y * w + x < w * h,
        3 * (y * w + x) + 2 < 3 * w * h,
{
}

/// Pixels of different rows have different numbers.
proof fn lemma_rows_apart(w: int, x: int, y: int, x2: int, y2: int)
    by (nonlinear_arith)
    requires
        0 <= x < w,
        0 <= x2 < w,
        y != y2,
    ensures
        y * w + x != y2 * w + x2,
{
}

} // verus!
