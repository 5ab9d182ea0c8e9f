//! The packed integer encodings of a colour and the laws that tie them to the
//! channel tuple.
//!
//! One packing is canonical: `alpha << 24 | red << 16 | green << 8 | blue`.
//! The 24-bit form used for alpha-free samples is the same packing with the
//! alpha byte left at zero. Both are stated here arithmetically, so that
//! proofs about them need no bit-level reasoning.
use vstd::prelude::*;

verus! {

/// The canonical 32-bit packing of four channels.
pub open spec fn pack_argb(a: u8, r: u8, g: u8, b: u8) -> u32 {
    (a * 0x100_0000 + r * 0x1_0000 + g * 0x100 + b) as u32
}

/// The 24-bit packing of an alpha-free colour.
pub open spec fn pack_rgb(r: u8, g: u8, b: u8) -> u32 {
    (r * 0x1_0000 + g * 0x100 + b) as u32
}

/// Bits 24..32 of a packed value.
pub open spec fn byte3(v: u32) -> u8 {
    (v / 0x100_0000) as u8
}

/// Bits 16..24 of a packed value.
pub open spec fn byte2(v: u32) -> u8 {
    ((v / 0x1_0000) % 0x100) as u8
}

/// Bits 8..16 of a packed value.
pub open spec fn byte1(v: u32) -> u8 {
    ((v / 0x100) % 0x100) as u8
}

/// Bits 0..8 of a packed value.
pub open spec fn byte0(v: u32) -> u8 {
    (v % 0x100) as u8
}

/// Packing four channels and unpacking the result gives the channels back, in
/// the same order.
pub proof fn lemma_unpack_pack_argb(a: u8, r: u8, g: u8, b: u8)
    ensures
        byte3(pack_argb(a, r, g, b)) == a,
        byte2(pack_argb(a, r, g, b)) == r,
        byte1(pack_argb(a, r, g, b)) == g,
        byte0(pack_argb(a, r, g, b)) == b,
{
    let (a, r, g, b) = (a as u32, r as u32, g as u32, b as u32);
    assert({
        let v = a * 0x100_0000 + r * 0x1_0000 + g * 0x100 + b;
        &&& v < 0x1_0000_0000
        &&& v / 0x100_0000 == a
        &&& (v / 0x1_0000) % 0x100 == r
        &&& (v / 0x100) % 0x100 == g
        &&& v % 0x100 == b
    }) by (bit_vector)
        requires
            a < 0x100,
            r < 0x100,
            g < 0x100,
            b < 0x100,
    ;
}

/// Unpacking any 32-bit value and packing the channels gives the value back.
pub proof fn lemma_pack_unpack_argb(v: u32)
    ensures
        pack_argb(byte3(v), byte2(v), byte1(v), byte0(v)) == v,
{
    assert((v / 0x100_0000) * 0x100_0000 + ((v / 0x1_0000) % 0x100) * 0x1_0000 + ((v / 0x100)
        % 0x100) * 0x100 + v % 0x100 == v && v / 0x100_0000 < 0x100) by (bit_vector);
}

/// Packing three channels and unpacking the result gives the channels back,
/// with an alpha byte of zero.
pub proof fn lemma_unpack_pack_rgb(r: u8, g: u8, b: u8)
    ensures
        pack_rgb(r, g, b) < 0x100_0000,
        byte3(pack_rgb(r, g, b)) == 0,
        byte2(pack_rgb(r, g, b)) == r,
        byte1(pack_rgb(r, g, b)) == g,
        byte0(pack_rgb(r, g, b)) == b,
{
    lemma_unpack_pack_argb(0, r, g, b);
}

/// Unpacking a value of the 24-bit range and packing the channels gives the
/// value back.
pub proof fn lemma_pack_unpack_rgb(v: u32)
    requires
        v < 0x100_0000,
    ensures
        pack_rgb(byte2(v), byte1(v), byte0(v)) == v,
{
    lemma_pack_unpack_argb(v);
}

/// The 24-bit packing is the canonical packing with no alpha.
pub proof fn lemma_pack_rgb_is_argb_without_alpha(r: u8, g: u8, b: u8)
    ensures
        pack_rgb(r, g, b) == pack_argb(0, r, g, b),
{
}

/// Two colours have the same 24-bit packing only if they are the same colour.
pub proof fn lemma_pack_rgb_injective(r1: u8, g1: u8, b1: u8, r2: u8, g2: u8, b2: u8)
    requires
        pack_rgb(r1, g1, b1) == pack_rgb(r2, g2, b2),
    ensures
        r1 == r2,
        g1 == g2,
        b1 == b2,
{
    lemma_unpack_pack_rgb(r1, g1, b1);
    lemma_unpack_pack_rgb(r2, g2, b2);
}

/// Packs four channels with shifts, as `a << 24 | r << 16 | g << 8 | b`.
pub fn pack_channels(a: u8, r: u8, g: u8, b: u8) -> (v: u32)
    ensures
        v == pack_argb(a, r, g, b),
{
    assert(((a as u32) << 24 | (r as u32) << 16 | (g as u32) << 8 | (b as u32)) == (a as u32)
        * 0x100_0000 + (r as u32) * 0x1_0000 + (g as u32) * 0x100 + (b as u32)) by (bit_vector);
    (a as u32) << 24 | (r as u32) << 16 | (g as u32) << 8 | (b as u32)
}

/// Splits a packed value into its four bytes, highest first.
pub fn unpack_channels(v: u32) -> (c: [u8; 4])
    ensures
        c[0] == byte3(v),
        c[1] == byte2(v),
        c[2] == byte1(v),
        c[3] == byte0(v),
{
    assert(((v & 0xff00_0000) >> 24) == v / 0x100_0000) by (bit_vector);
    assert(((v & 0xff_0000) >> 16) == (v / 0x1_0000) % 0x100) by (bit_vector);
    assert(((v & 0xff00) >> 8) == (v / 0x100) % 0x100) by (bit_vector);
    assert((v & 0xff) == v % 0x100) by (bit_vector);
    let a = ((v & 0xff00_0000) >> 24) as u8;
    let r = ((v & 0xff_0000) >> 16) as u8;
    let g = ((v & 0xff00) >> 8) as u8;
    let b = (v & 0xff) as u8;
    [a, r, g, b]
}

} // verus!
