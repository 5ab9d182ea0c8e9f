//! The boundary to the `image` crate: an RGBA image seen as its width and
//! height and a flat sequence of samples, four to a pixel, rows from top to
//! bottom.
//!
//! The wrappers in this file are not proved. Each contract states what the
//! crate's source shows of the call that the body makes.
use image::{Pixel, Rgba, RgbaImage};
use vstd::prelude::*;

verus! {

/// An `image::RgbaImage`. The verifier does not look inside; what the image
/// holds is spoken of through [`raster_samples`] and [`raster_size`].
#[verifier::external_body]
pub struct Raster {
    image: RgbaImage,
}

/// The samples of an image's pixels in the order in which
/// `ImageBuffer::pixels` yields them: left to right, then top to bottom, and
/// red, green, blue, alpha within a pixel.
pub uninterp spec fn raster_samples(raster: Raster) -> Seq<u8>;

/// The width and the height of an image in pixels, as `ImageBuffer::dimensions`
/// gives them.
pub uninterp spec fn raster_size(raster: Raster) -> (u32, u32);

/// A buffer of `len` samples holds an image of `width` by `height` pixels:
/// four times the width fits the machine word, and the buffer has four
/// samples for every pixel.
pub open spec fn holds_image(width: u32, height: u32, len: nat) -> bool {
    4 * width <= usize::MAX && 4 * width * height <= len
}

/// Calls `ImageBuffer::from_raw`.
///
/// That function multiplies 4 by the width and the product by the height,
/// in machine words, and accepts the buffer exactly when neither product
/// overflows and the buffer holds at least `4 * width * height` samples. The
/// image then has the given width and height, and its pixels are the first
/// `4 * width * height` samples of the buffer.
#[verifier::external_body]
fn raster_from_raw(width: u32, height: u32, samples: Vec<u8>) -> (raster: Option<Raster>)
    ensures
        raster is Some <==> holds_image(width, height, samples@.len()),
        raster is Some ==> raster_samples(raster->0) == samples@.take(4 * width * height),
        raster is Some ==> raster_size(raster->0) == (width, height),
{
    match RgbaImage::from_raw(width, height, samples) {
        Some(image) => Some(Raster { image }),
        None => None,
    }
}

/// Calls `ImageBuffer::dimensions`.
///
/// The result is the width and the height that [`raster_size`] names. The
/// pixels that `ImageBuffer::pixels` yields are those of the first
/// `4 * width * height` samples of the image's buffer, so there are four
/// samples for each pixel of that width and height.
#[verifier::external_body]
fn read_size(raster: &Raster) -> (size: (u32, u32))
    ensures
        size == raster_size(*raster),
        raster_samples(*raster).len() == 4 * size.0 * size.1,
{
    raster.image.dimensions()
}

/// Walks `ImageBuffer::pixels` and appends the four samples that
/// `Pixel::channels` gives for each pixel.
///
/// The result is the sequence that [`raster_samples`] names. It holds four
/// samples for each pixel.
#[verifier::external_body]
fn read_samples(raster: &Raster) -> (samples: Vec<u8>)
    ensures
        samples@ == raster_samples(*raster),
        samples@.len() % 4 == 0,
{
    let mut samples = Vec::new();
    for pixel in raster.image.pixels() {
        samples.extend_from_slice(pixel.channels());
    }
    samples
}

/// Walks `ImageBuffer::pixels_mut` and assigns to each pixel an `Rgba` made
/// of the next four samples of `samples`.
///
/// Afterwards the image holds exactly `samples`. Its width and height are
/// not touched.
#[verifier::external_body]
fn write_samples(raster: &mut Raster, samples: &Vec<u8>)
    requires
        samples@.len() == raster_samples(*old(raster)).len(),
    ensures
        raster_samples(*final(raster)) == samples@,
        raster_size(*final(raster)) == raster_size(*old(raster)),
{
    for (pixel, chunk) in raster.image.pixels_mut().zip(samples.chunks_exact(4)) {
        *pixel = Rgba::from([chunk[0], chunk[1], chunk[2], chunk[3]]);
    }
}

impl Raster {
    /// The samples of the pixels, as a specification value.
    pub open spec fn samples(self) -> Seq<u8> {
        raster_samples(self)
    }

    /// The width of the image in pixels, as a specification value.
    pub open spec fn width(self) -> u32 {
        raster_size(self).0
    }

    /// The height of the image in pixels, as a specification value.
    pub open spec fn height(self) -> u32 {
        raster_size(self).1
    }

    /// An image of `width` by `height` pixels over the first
    /// `4 * width * height` samples of `samples`, or `None` if there are
    /// fewer, or if four times the width is beyond the machine word.
    pub fn from_raw(width: u32, height: u32, samples: Vec<u8>) -> (raster: Option<Raster>)
        ensures
            raster is Some <==> holds_image(width, height, samples@.len()),
            raster is Some ==> {
                &&& (raster->0).samples() == samples@.take(4 * width * height)
                &&& (raster->0).width() == width
                &&& (raster->0).height() == height
            },
    {
        raster_from_raw(width, height, samples)
    }

    /// The width and the height of the image in pixels. The image holds four
    /// samples for each pixel.
    pub fn dimensions(&self) -> (size: (u32, u32))
        ensures
            size == (self.width(), self.height()),
            self.samples().len() == 4 * self.width() * self.height(),
    {
        read_size(self)
    }

    /// The image holds no pixel: its width or its height is 0.
    pub fn is_empty(&self) -> (empty: bool)
        ensures
            empty == (self.samples().len() == 0),
            empty == (self.width() == 0 || self.height() == 0),
    {
        let (width, height) = read_size(self);
        assert((4 * width * height == 0) == (width == 0 || height == 0)) by (nonlinear_arith);
        width == 0 || height == 0
    }

    /// A copy of the samples of every pixel, in raster order.
    pub fn to_samples(&self) -> (samples: Vec<u8>)
        ensures
            samples@ == self.samples(),
            samples@.len() % 4 == 0,
            samples@.len() <= usize::MAX,
    {
        let samples = read_samples(self);
        assert(samples@.len() == samples.len());
        samples
    }

    /// Replaces the samples of every pixel. The width and the height stay.
    pub fn set_samples(&mut self, samples: &Vec<u8>)
        requires
            samples@.len() == old(self).samples().len(),
        ensures
            final(self).samples() == samples@,
            final(self).width() == old(self).width(),
            final(self).height() == old(self).height(),
    {
        write_samples(self, samples)
    }
}

} // verus!
