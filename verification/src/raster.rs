//! An RGBA image in memory, held in an `image::RgbaImage`.
//!
//! Verus does not look inside the `image` crate. The private functions at the
//! end of this file each make one call into it, and their contracts state what
//! its source shows of that call; nothing here proves them. Everything else in
//! this file is proved from those contracts.

use vstd::prelude::*;
use crate::grid::{Grid, lemma_index_of_position};
use crate::pixel::Rgba;

verus! {

/// An image of four 8-bit samples per pixel. Verus cannot take the
/// declaration of the buffer type of the `image` crate, so the buffer is
/// hidden from it here: what is known of an image is what the private
/// functions at the end of this file state.
#[verifier::external_body]
pub struct Raster {
    image: image::RgbaImage,
}

/// The number of columns of an image.
pub uninterp spec fn raster_width(raster: Raster) -> u32;

/// The number of rows of an image.
pub uninterp spec fn raster_height(raster: Raster) -> u32;

/// The samples that an image holds: four for each pixel (red, green, blue,
/// alpha), the pixels row by row from the top, each row from the left. What
/// lies behind the last pixel's samples belongs to no pixel.
pub uninterp spec fn raster_samples(raster: Raster) -> Seq<u8>;

/// The pixel whose samples start at `4 * k`.
pub open spec fn sample_pixel(samples: Seq<u8>, k: int) -> Rgba {
    Rgba { r: samples[4 * k], g: samples[4 * k + 1], b: samples[4 * k + 2], a: samples[4 * k + 3] }
}

/// What stands at `i` once the four samples from `4 * k` on have been
/// replaced by those of `pixel`.
pub open spec fn sample_with(samples: Seq<u8>, k: int, pixel: Rgba, i: int) -> u8 {
    if i == 4 * k {
        pixel.r
    } else if i == 4 * k + 1 {
        pixel.g
    } else if i == 4 * k + 2 {
        pixel.b
    } else if i == 4 * k + 3 {
        pixel.a
    } else {
        samples[i]
    }
}

/// The image of `width * height` pixels that the samples describe.
pub open spec fn grid_of_samples(width: nat, height: nat, samples: Seq<u8>) -> Grid {
    Grid { width, height, pixels: Seq::new(width * height, |k: int| sample_pixel(samples, k)) }
}

impl View for Raster {
    type V = Grid;

    open spec fn view(&self) -> Grid {
        grid_of_samples(
            raster_width(*self) as nat,
            raster_height(*self) as nat,
            raster_samples(*self),
        )
    }
}

impl Clone for Raster {
    fn clone(&self) -> (copy: Raster)
        ensures
            copy@ == self@,
            copy.spare() == self.spare(),
    {
        buffer_clone(self)
    }
}

impl Raster {
    /// The samples behind those of the last pixel. An image made from
    /// exactly four samples for each pixel has none.
    pub open spec fn spare(&self) -> Seq<u8> {
        raster_samples(*self).skip((4 * raster_width(*self) * raster_height(*self)) as int)
    }

    /// An image of `width * height` pixels over `data`, which holds four
    /// samples for each pixel, row by row; `None` when `data` is too short
    /// for that.
    pub fn from_raw(width: u32, height: u32, data: Vec<u8>) -> (made: Option<Raster>)
        ensures
            made.is_some() <==> 4 * width <= usize::MAX && 4 * width * height <= data@.len(),
            made matches Some(raster) ==> raster@ == grid_of_samples(
                width as nat,
                height as nat,
                data@,
            ) && raster.spare() == data@.skip(4 * width * height),
    {
        buffer_from_raw(width, height, data)
    }

    /// The samples of the image: four for each pixel, row by row, and behind
    /// them the spare ones.
    pub fn into_raw(self) -> (data: Vec<u8>)
        ensures
            data@.len() >= 4 * self@.width * self@.height,
            grid_of_samples(self@.width, self@.height, data@) == self@,
            data@.skip((4 * self@.width * self@.height) as int) == self.spare(),
    {
        buffer_into_raw(self)
    }

    /// The number of columns.
    pub fn width(&self) -> (w: u32)
        ensures
            w == self@.width,
            self@.width * self@.height <= usize::MAX,
    {
        let w = buffer_width(self);
        assert(self@.width * self@.height <= usize::MAX) by (nonlinear_arith)
            requires
                4 * self@.width * self@.height <= usize::MAX,
        ;
        w
    }

    /// The number of rows.
    pub fn height(&self) -> (h: u32)
        ensures
            h == self@.height,
            self@.width * self@.height <= usize::MAX,
    {
        let h = buffer_height(self);
        assert(self@.width * self@.height <= usize::MAX) by (nonlinear_arith)
            requires
                4 * self@.width * self@.height <= usize::MAX,
        ;
        h
    }

    /// The pixel in column `x` of row `y`.
    pub fn get_pixel(&self, x: u32, y: u32) -> (pixel: Rgba)
        requires
            self@.contains(x as int, y as int),
        ensures
            pixel == self@.at(x as int, y as int),
    {
        proof {
            lemma_index_of_position(self@.width, self@.height, x as int, y as int);
        }
        buffer_get_pixel(self, x, y)
    }

    /// Replaces the pixel in column `x` of row `y` and no other.
    pub fn put_pixel(&mut self, x: u32, y: u32, pixel: Rgba)
        requires
            old(self)@.contains(x as int, y as int),
        ensures
            final(self)@.width == old(self)@.width,
            final(self)@.height == old(self)@.height,
            final(self)@.pixels == old(self)@.pixels.update(y * old(self)@.width + x, pixel),
            forall|u: int, v: int|
                old(self)@.contains(u, v) ==> #[trigger] final(self)@.at(u, v) == if u == x && v
                    == y {
                    pixel
                } else {
                    old(self)@.at(u, v)
                },
            final(self).spare() == old(self).spare(),
    {
        let ghost k = y * self@.width + x;
        let ghost n = self@.width * self@.height;
        proof {
            lemma_index_of_position(self@.width, self@.height, x as int, y as int);
            assert(4 * n == 4 * self@.width * self@.height) by (nonlinear_arith)
                requires
                    n == self@.width * self@.height,
            ;
        }
        buffer_put_pixel(self, x, y, pixel);
        assert(self@.pixels =~= old(self)@.pixels.update(k, pixel));
        assert(self.spare() =~= old(self).spare());
        assert forall|u: int, v: int| old(self)@.contains(u, v) implies #[trigger] self@.at(u, v)
            == if u == x && v == y {
            pixel
        } else {
            old(self)@.at(u, v)
        } by {
            lemma_index_of_position(self@.width, self@.height, u, v);
        }
    }
}

/// `ImageBuffer::from_raw` makes a buffer over `data` as it is, and refuses
/// when four samples for each pixel, counted in `usize`, are more than
/// `data` holds.
#[verifier::external_body]
fn buffer_from_raw(width: u32, height: u32, data: Vec<u8>) -> (made: Option<Raster>)
    ensures
        made.is_some() <==> (4 * width <= usize::MAX && 4 * width * height <= data@.len()),
        made.is_some() ==> raster_width(made.unwrap()) == width,
        made.is_some() ==> raster_height(made.unwrap()) == height,
        made.is_some() ==> raster_samples(made.unwrap()) == data@,
{
    match image::RgbaImage::from_raw(width, height, data) {
        Some(image) => Some(Raster { image }),
        None => None,
    }
}

/// `ImageBuffer::into_raw` hands out the samples that the buffer holds, which
/// are at least four for each pixel, as said of `buffer_width`.
#[verifier::external_body]
fn buffer_into_raw(raster: Raster) -> (data: Vec<u8>)
    ensures
        data@ == raster_samples(raster),
        4 * raster_width(raster) * raster_height(raster) <= data@.len(),
{
    raster.image.into_raw()
}

/// `ImageBuffer::width` returns the width that the buffer was made with. The
/// buffer holds at least four samples for each of its `width * height`
/// pixels: `from_raw` checks that when it makes a buffer, and no method
/// changes the sizes or the number of samples.
#[verifier::external_body]
fn buffer_width(raster: &Raster) -> (w: u32)
    ensures
        w == raster_width(*raster),
        4 * w * raster_height(*raster) <= raster_samples(*raster).len() <= usize::MAX,
{
    raster.image.width()
}

/// `ImageBuffer::height` returns the height that the buffer was made with;
/// the buffer holds at least four samples for each pixel, as said of
/// `buffer_width`.
#[verifier::external_body]
fn buffer_height(raster: &Raster) -> (h: u32)
    ensures
        h == raster_height(*raster),
        4 * raster_width(*raster) * h <= raster_samples(*raster).len() <= usize::MAX,
{
    raster.image.height()
}

/// `ImageBuffer::get_pixel` returns the pixel made of the four samples from
/// `4 * (y * width + x)` on. It panics outside the image.
#[verifier::external_body]
fn buffer_get_pixel(raster: &Raster, x: u32, y: u32) -> (pixel: Rgba)
    requires
        x < raster_width(*raster),
        y < raster_height(*raster),
    ensures
        pixel == sample_pixel(raster_samples(*raster), y * raster_width(*raster) + x),
{
    let p = raster.image.get_pixel(x, y);
    Rgba { r: p[0], g: p[1], b: p[2], a: p[3] }
}

/// `ImageBuffer::put_pixel` writes the four samples from
/// `4 * (y * width + x)` on and nothing else; the buffer goes on holding at
/// least four samples for each pixel. It panics outside the image.
#[verifier::external_body]
fn buffer_put_pixel(raster: &mut Raster, x: u32, y: u32, pixel: Rgba)
    requires
        x < raster_width(*old(raster)),
        y < raster_height(*old(raster)),
    ensures
        raster_width(*final(raster)) == raster_width(*old(raster)),
        raster_height(*final(raster)) == raster_height(*old(raster)),
        raster_samples(*final(raster)).len() == raster_samples(*old(raster)).len(),
        forall|i: int|
            0 <= i < raster_samples(*old(raster)).len() ==> #[trigger] raster_samples(
                *final(raster),
            )[i] == sample_with(
                raster_samples(*old(raster)),
                y * raster_width(*old(raster)) + x,
                pixel,
                i,
            ),
        4 * raster_width(*final(raster)) * raster_height(*final(raster)) <= raster_samples(
            *final(raster),
        ).len(),
{
    raster.image.put_pixel(x, y, image::Rgba([pixel.r, pixel.g, pixel.b, pixel.a]));
}

/// `ImageBuffer::clone` copies the sizes and the samples.
#[verifier::external_body]
fn buffer_clone(raster: &Raster) -> (copy: Raster)
    ensures
        raster_width(copy) == raster_width(*raster),
        raster_height(copy) == raster_height(*raster),
        raster_samples(copy) == raster_samples(*raster),
{
    Raster { image: raster.image.clone() }
}

} // verus!
