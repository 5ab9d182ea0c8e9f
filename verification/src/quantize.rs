//! The three entry points on flat buffers of RGBA pixels: building a palette,
//! mapping to it, and mapping with error diffusion.
//!
//! A buffer holds four samples to a pixel: red, green, blue, alpha. A buffer
//! without pixels, a buffer whose length is no multiple of four, an empty
//! palette and a width that does not divide the pixels into scanlines are
//! refused with an error of their own.
use vstd::prelude::*;

use crate::dither::{dither_samples, dithered, drawn_from};
use crate::histogram::histogram_of;
use crate::median_cut::{is_palette_for, lemma_palette_of, palette_of, reduce_colors, ColorNode};
use crate::nearest::{map_samples, mapped, maps_to_nearest};
use crate::ranking::sort_by_count;

verus! {

/// Why a buffer or a palette was refused.
#[derive(Debug, Clone, Copy, PartialEq, Eq, Structural)]
pub enum QuantizeError {
    /// The palette holds no colour.
    EmptyPalette,
    /// The buffer holds no pixel.
    EmptyBuffer,
    /// The length of the buffer is no multiple of four.
    RaggedBuffer,
    /// The width is zero, or the pixels do not fill whole scanlines of it.
    BadWidth,
}

/// What is wrong with a buffer of `len` samples, if anything.
pub open spec fn buffer_fault(len: nat) -> Option<QuantizeError> {
    if len == 0 {
        Some(QuantizeError::EmptyBuffer)
    } else if len % 4 != 0 {
        Some(QuantizeError::RaggedBuffer)
    } else {
        None
    }
}

/// What is wrong with a palette of `colors` entries and a buffer of `len`
/// samples, if anything. The palette is looked at first.
pub open spec fn mapping_fault(colors: nat, len: nat) -> Option<QuantizeError> {
    if colors == 0 {
        Some(QuantizeError::EmptyPalette)
    } else {
        buffer_fault(len)
    }
}

/// What is wrong with a palette, a buffer and a width, if anything. The
/// width is looked at last.
pub open spec fn dithering_fault(colors: nat, len: nat, width: nat) -> Option<QuantizeError> {
    if mapping_fault(colors, len) is Some {
        mapping_fault(colors, len)
    } else if width == 0 || (len / 4) % width != 0 {
        Some(QuantizeError::BadWidth)
    } else {
        None
    }
}

impl QuantizeError {
    /// The sentence that says what was refused.
    pub open spec fn sentence(self) -> Seq<char> {
        match self {
            QuantizeError::EmptyPalette => "the palette holds no colour"@,
            QuantizeError::EmptyBuffer => "the buffer holds no pixel"@,
            QuantizeError::RaggedBuffer => "the length of the buffer is no multiple of four"@,
            QuantizeError::BadWidth => "the pixels do not fill whole scanlines of the width"@,
        }
    }

    /// A sentence that says what was refused.
    pub fn message(&self) -> (text: &'static str)
        ensures
            text@ == self.sentence(),
    {
        match self {
            QuantizeError::EmptyPalette => "the palette holds no colour",
            QuantizeError::EmptyBuffer => "the buffer holds no pixel",
            QuantizeError::RaggedBuffer => "the length of the buffer is no multiple of four",
            QuantizeError::BadWidth => "the pixels do not fill whole scanlines of the width",
        }
    }
}

fn check_buffer(pixels: &[u8]) -> (fault: Option<QuantizeError>)
    ensures
        fault == buffer_fault(pixels@.len()),
        pixels@.len() <= usize::MAX,
{
    if pixels.len() == 0 {
        Some(QuantizeError::EmptyBuffer)
    } else if pixels.len() % 4 != 0 {
        Some(QuantizeError::RaggedBuffer)
    } else {
        None
    }
}

/// The palette of a buffer of RGBA pixels: at most `k_max` colours, and one
/// where `k_max` is 0, most frequent first.
///
/// The colours of the buffer are counted, alpha apart. If there are at most
/// `k_max` of them they are the palette, each with the number of pixels that
/// have it. Otherwise they are cut into exactly `k_max` boxes by median cut
/// and the palette holds the average of each box, counting the pixels of the
/// box. Either way the counts of the palette add up to the number of pixels.
pub fn build_palette(pixels: &[u8], k_max: u32) -> (result: Result<Vec<ColorNode>, QuantizeError>)
    ensures
        match result {
            Ok(palette) => {
                &&& buffer_fault(pixels@.len()) is None
                &&& palette@ == palette_of(pixels@, k_max as nat)
                &&& is_palette_for(palette@, pixels@, k_max as nat)
            },
            Err(e) => buffer_fault(pixels@.len()) == Some(e),
        },
{
    match check_buffer(pixels) {
        Some(e) => Err(e),
        None => {
            proof {
                lemma_palette_of(pixels@, k_max as nat);
            }
            let colors = histogram_of(pixels);
            let reduced = reduce_colors(colors, k_max);
            Ok(sort_by_count(reduced))
        },
    }
}

/// Replaces every pixel of a buffer by the palette colour nearest to it, with
/// an alpha of 255. Of colours at the same distance the first in the palette
/// is taken.
pub fn map_to_palette(pixels: &[u8], palette: &Vec<ColorNode>) -> (result: Result<
    Vec<u8>,
    QuantizeError,
>)
    ensures
        match result {
            Ok(quantized) => {
                &&& mapping_fault(palette@.len(), pixels@.len()) is None
                &&& quantized@ == mapped(pixels@, palette@)
                &&& maps_to_nearest(pixels@, quantized@, palette@)
            },
            Err(e) => mapping_fault(palette@.len(), pixels@.len()) == Some(e),
        },
{
    if palette.len() == 0 {
        return Err(QuantizeError::EmptyPalette);
    }
    match check_buffer(pixels) {
        Some(e) => Err(e),
        None => Ok(map_samples(pixels, palette)),
    }
}

/// Maps a buffer of `width` pixels to the scanline to a palette with error
/// diffusion: every pixel becomes the palette colour nearest to its own
/// colour as adjusted by the error that earlier pixels left it, with an alpha
/// of 255.
pub fn dither_and_map(pixels: &[u8], palette: &Vec<ColorNode>, width: u32) -> (result: Result<
    Vec<u8>,
    QuantizeError,
>)
    ensures
        match result {
            Ok(quantized) => {
                &&& dithering_fault(palette@.len(), pixels@.len(), width as nat) is None
                &&& quantized@ == dithered(pixels@, palette@, width as nat)
                &&& quantized@.len() == pixels@.len()
                &&& drawn_from(quantized@, palette@)
            },
            Err(e) => dithering_fault(palette@.len(), pixels@.len(), width as nat) == Some(e),
        },
{
    if palette.len() == 0 {
        return Err(QuantizeError::EmptyPalette);
    }
    match check_buffer(pixels) {
        Some(e) => Err(e),
        None => {
            let n = pixels.len() / 4;
            if width == 0 || n % (width as usize) != 0 {
                Err(QuantizeError::BadWidth)
            } else {
                assert(width <= n) by (nonlinear_arith)
                    requires
                        n >= 1,
                        width >= 1,
                        (n as int) % (width as int) == 0,
                ;
                Ok(dither_samples(pixels, palette, width as usize))
            }
        },
    }
}

} // verus!
