//! Colour reduction for raster images: a median-cut palette, nearest-colour
//! mapping and an error-diffusion buffer.
//!
//! The entry points on flat buffers of RGBA pixels are [`build_palette`],
//! [`map_to_palette`] and [`dither_and_map`]; [`MedianCut`] offers the same
//! on images of the `image` crate. Every function is verified against a
//! contract over the specification functions of its module:
//!
//! - `packing`, `distance`: packed colours and the distance between colours;
//! - `histogram`: counting the colours of a buffer;
//! - `tally`, `arrange`, `color_box`, `partition`: boxes of colours and how
//!   median cut divides them;
//! - `ranking`: the order of a palette;
//! - `nearest`, `error_diffusion`, `dither`: mapping pixels to a palette;
//! - `raster`: the boundary to the `image` crate, which is trusted.
use vstd::prelude::*;

pub mod arrange;
pub mod color_box;
pub mod distance;
pub mod dither;
pub mod error_diffusion;
pub mod histogram;
pub mod median_cut;
pub mod nearest;
pub mod packing;
pub mod partition;
pub mod quantize;
pub mod ranking;
pub mod raster;
pub mod tally;

pub use crate::median_cut::MedianCut;
pub use crate::quantize::{build_palette, dither_and_map, map_to_palette, QuantizeError};

use crate::distance::{distance_between, squared_distance};
use crate::packing::{
    byte0, byte1, byte2, byte3, lemma_pack_unpack_argb, lemma_unpack_pack_argb, pack_argb,
    pack_channels, unpack_channels,
};

verus! {

/// A colour with an alpha channel and the number of times it is used.
///
/// Its packed form is the canonical one, `a << 24 | r << 16 | g << 8 | b`.
/// The same 32 bits read as `a, b, g, r` are offered for callers whose
/// buffers hold red and blue the other way round.
#[derive(Debug, Clone, Copy, PartialEq, Eq, Structural)]
pub struct ColorNode {
    pub a: u8,
    pub r: u8,
    pub g: u8,
    pub b: u8,
    pub uses: usize,
}

impl ColorNode {
    /// The packed form of this colour, alpha highest.
    pub open spec fn argb(self) -> u32 {
        pack_argb(self.a, self.r, self.g, self.b)
    }

    /// The packed form of this colour with red and blue exchanged.
    pub open spec fn abgr(self) -> u32 {
        pack_argb(self.a, self.b, self.g, self.r)
    }

    /// The colour that `argb` packs, used `uses` times.
    pub open spec fn of_argb(argb: u32, uses: usize) -> ColorNode {
        ColorNode { a: byte3(argb), r: byte2(argb), g: byte1(argb), b: byte0(argb), uses }
    }

    /// The colour that `abgr` packs with red and blue exchanged, used `uses`
    /// times.
    pub open spec fn of_abgr(abgr: u32, uses: usize) -> ColorNode {
        ColorNode { a: byte3(abgr), r: byte0(abgr), g: byte1(abgr), b: byte2(abgr), uses }
    }

    /// Packs four channels into 32 bits, alpha highest.
    #[inline]
    pub fn convert_argb_to_u32(a: u8, r: u8, g: u8, b: u8) -> (argb: u32)
        ensures
            argb == pack_argb(a, r, g, b),
    {
        pack_channels(a, r, g, b)
    }

    /// Splits 32 bits into the four channels they pack, alpha first.
    #[inline]
    pub fn convert_u32_to_argb(argb: u32) -> (channels: [u8; 4])
        ensures
            channels[0] == byte3(argb),
            channels[1] == byte2(argb),
            channels[2] == byte1(argb),
            channels[3] == byte0(argb),
    {
        unpack_channels(argb)
    }

    /// The colour packed in `argb`.
    pub fn from_argb(argb: u32, uses: usize) -> (node: ColorNode)
        ensures
            node == ColorNode::of_argb(argb, uses),
    {
        let c = ColorNode::convert_u32_to_argb(argb);
        ColorNode { a: c[0], r: c[1], g: c[2], b: c[3], uses }
    }

    /// The colour packed in `abgr`, whose lowest byte is red.
    pub fn from_abgr(abgr: u32, uses: usize) -> (node: ColorNode)
        ensures
            node == ColorNode::of_abgr(abgr, uses),
    {
        let c = ColorNode::convert_u32_to_argb(abgr);
        ColorNode { a: c[0], r: c[3], g: c[2], b: c[1], uses }
    }

    /// This colour packed with alpha highest and blue lowest.
    pub fn to_argb(&self) -> (argb: u32)
        ensures
            argb == self.argb(),
    {
        ColorNode::convert_argb_to_u32(self.a, self.r, self.g, self.b)
    }

    /// This colour packed with alpha highest and red lowest.
    pub fn to_abgr(&self) -> (abgr: u32)
        ensures
            abgr == self.abgr(),
    {
        ColorNode::convert_argb_to_u32(self.a, self.b, self.g, self.r)
    }

    /// A colour from its channels and its number of uses.
    pub fn from_color(a: u8, r: u8, g: u8, b: u8, uses: usize) -> (node: ColorNode)
        ensures
            node == (ColorNode { a, r, g, b, uses }),
    {
        ColorNode { a, r, g, b, uses }
    }

    /// The squared distance from this colour to `(r, g, b)`. Alpha is left out.
    pub fn distance2(&self, r: u8, g: u8, b: u8) -> (d: i32)
        ensures
            d == squared_distance(self.r, self.g, self.b, r, g, b),
    {
        distance_between(self.r, self.g, self.b, r, g, b)
    }

    /// Packing a colour and unpacking it gives the colour back, in either
    /// channel order.
    pub proof fn lemma_pack_then_unpack(self)
        ensures
            ColorNode::of_argb(self.argb(), self.uses) == self,
            ColorNode::of_abgr(self.abgr(), self.uses) == self,
    {
        lemma_unpack_pack_argb(self.a, self.r, self.g, self.b);
        lemma_unpack_pack_argb(self.a, self.b, self.g, self.r);
    }

    /// Unpacking any 32-bit value and packing the colour gives the value back,
    /// in either channel order.
    pub proof fn lemma_unpack_then_pack(packed: u32, uses: usize)
        ensures
            ColorNode::of_argb(packed, uses).argb() == packed,
            ColorNode::of_abgr(packed, uses).abgr() == packed,
    {
        lemma_pack_unpack_argb(packed);
    }
}

} // verus!
