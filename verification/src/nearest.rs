//! Mapping colours to the nearest entry of a palette.
//!
//! Distance is the squared Euclidean distance over red, green and blue. Of
//! entries at the same distance the first in the palette is the nearest.
use vstd::prelude::*;

use crate::distance::lemma_squared_distance_zero;
use crate::median_cut::ColorNode;

verus! {

/// Among the first `n` entries of a palette, the index of the first one at
/// least distance from `color`.
pub open spec fn nearest_among(palette: Seq<ColorNode>, color: ColorNode, n: int) -> int
    decreases n,
{
    if n <= 1 {
        0
    } else {
        let best = nearest_among(palette, color, n - 1);
        if palette[n - 1].distance_to(color) < palette[best].distance_to(color) {
            n - 1
        } else {
            best
        }
    }
}

/// The index of the palette entry nearest to `color`.
pub open spec fn nearest_index(palette: Seq<ColorNode>, color: ColorNode) -> int {
    nearest_among(palette, color, palette.len() as int)
}

/// Entry `i` is the nearest to `color`: no entry is nearer, and every entry
/// before it is farther.
pub open spec fn is_nearest(palette: Seq<ColorNode>, color: ColorNode, i: int) -> bool {
    &&& 0 <= i < palette.len()
    &&& forall|j: int|
        0 <= j < palette.len() ==> palette[i].distance_to(color) <= (#[trigger] palette[j]).distance_to(
            color,
        )
    &&& forall|j: int|
        0 <= j < i ==> palette[i].distance_to(color) < (#[trigger] palette[j]).distance_to(color)
}

/// The colour of pixel `i` of a buffer of RGBA pixels, as a sample that counts
/// nothing.
pub open spec fn pixel_color(samples: Seq<u8>, i: int) -> ColorNode {
    ColorNode::of_channels(samples[4 * i], samples[4 * i + 1], samples[4 * i + 2], 0)
}

/// Sample `k` of a buffer after mapping: red, green or blue of the palette
/// entry nearest to the pixel that `k` lies in, and 255 for alpha.
pub open spec fn mapped_sample(samples: Seq<u8>, palette: Seq<ColorNode>, k: int) -> u8 {
    let entry = palette[nearest_index(palette, pixel_color(samples, k / 4))];
    if k % 4 == 0 {
        entry.red
    } else if k % 4 == 1 {
        entry.green
    } else if k % 4 == 2 {
        entry.blue
    } else {
        255
    }
}

/// A buffer of RGBA pixels with every pixel replaced by the palette entry
/// nearest to it, opaque.
pub open spec fn mapped(samples: Seq<u8>, palette: Seq<ColorNode>) -> Seq<u8> {
    Seq::new(samples.len(), |k: int| mapped_sample(samples, palette, k))
}

/// The palette holds an entry of the colour of `c`.
pub open spec fn has_color(palette: Seq<ColorNode>, c: ColorNode) -> bool {
    exists|i: int|
        0 <= i < palette.len() && (#[trigger] palette[i]).red == c.red && palette[i].green
            == c.green && palette[i].blue == c.blue
}

/// No entry of the palette is nearer to `color` than `chosen` is.
pub open spec fn none_nearer(palette: Seq<ColorNode>, chosen: ColorNode, color: ColorNode) -> bool {
    forall|j: int|
        0 <= j < palette.len() ==> chosen.distance_to(color) <= (#[trigger] palette[j]).distance_to(
            color,
        )
}

/// The alpha of pixel `i` of a buffer of RGBA pixels.
pub open spec fn pixel_alpha(samples: Seq<u8>, i: int) -> u8 {
    samples[4 * i + 3]
}

/// Every pixel of `out` is opaque and has the colour of a palette entry, and
/// no entry is nearer than it to the pixel of `samples` in the same place.
pub open spec fn maps_to_nearest(samples: Seq<u8>, out: Seq<u8>, palette: Seq<ColorNode>) -> bool {
    &&& out.len() == samples.len()
    &&& forall|p: int|
        0 <= p < samples.len() / 4 ==> {
            &&& has_color(palette, #[trigger] pixel_color(out, p))
            &&& none_nearer(palette, pixel_color(out, p), pixel_color(samples, p))
            &&& pixel_alpha(out, p) == 255
        }
}

proof fn lemma_nearest_among(palette: Seq<ColorNode>, color: ColorNode, n: int)
    requires
        1 <= n <= palette.len(),
    ensures
        0 <= nearest_among(palette, color, n) < n,
        forall|j: int|
            0 <= j < n ==> palette[nearest_among(palette, color, n)].distance_to(color)
                <= (#[trigger] palette[j]).distance_to(color),
        forall|j: int|
            0 <= j < nearest_among(palette, color, n) ==> palette[nearest_among(
                palette,
                color,
                n,
            )].distance_to(color) < (#[trigger] palette[j]).distance_to(color),
    decreases n,
{
    if n > 1 {
        lemma_nearest_among(palette, color, n - 1);
    }
}

/// In a palette that is not empty, `nearest_index` is the nearest entry.
pub proof fn lemma_nearest(palette: Seq<ColorNode>, color: ColorNode)
    requires
        palette.len() > 0,
    ensures
        is_nearest(palette, color, nearest_index(palette, color)),
{
    lemma_nearest_among(palette, color, palette.len() as int);
}

/// Only one entry is the nearest.
pub proof fn lemma_nearest_unique(palette: Seq<ColorNode>, color: ColorNode, i: int, j: int)
    requires
        is_nearest(palette, color, i),
        is_nearest(palette, color, j),
    ensures
        i == j,
{
    if i < j {
        assert(palette[j].distance_to(color) < palette[i].distance_to(color));
    } else if j < i {
        assert(palette[i].distance_to(color) < palette[j].distance_to(color));
    }
}

/// The entry nearest to a colour of the palette has that colour.
pub proof fn lemma_nearest_of_entry(palette: Seq<ColorNode>, i: int, color: ColorNode)
    requires
        0 <= i < palette.len(),
        color.red == palette[i].red,
        color.green == palette[i].green,
        color.blue == palette[i].blue,
    ensures
        palette[nearest_index(palette, color)].red == color.red,
        palette[nearest_index(palette, color)].green == color.green,
        palette[nearest_index(palette, color)].blue == color.blue,
{
    let e = palette[i];
    let n = palette[nearest_index(palette, color)];
    lemma_nearest(palette, color);
    lemma_squared_distance_zero(e.red, e.green, e.blue, color.red, color.green, color.blue);
    lemma_squared_distance_zero(n.red, n.green, n.blue, color.red, color.green, color.blue);
    crate::distance::lemma_squared_distance_bounds(
        n.red,
        n.green,
        n.blue,
        color.red,
        color.green,
        color.blue,
    );
    assert(n.distance_to(color) <= e.distance_to(color));
}

/// Mapping chooses for every pixel an entry of the palette than which none
/// is nearer to the pixel's colour, and writes that entry's colour, opaque.
pub proof fn lemma_mapped_is_nearest(samples: Seq<u8>, palette: Seq<ColorNode>, p: int)
    requires
        palette.len() > 0,
        samples.len() % 4 == 0,
        0 <= p < samples.len() / 4,
    ensures
        mapped(samples, palette).len() == samples.len(),
        ({
            let entry = palette[nearest_index(palette, pixel_color(samples, p))];
            &&& is_nearest(palette, pixel_color(samples, p), nearest_index(palette, pixel_color(samples, p)))
            &&& mapped(samples, palette)[4 * p] == entry.red
            &&& mapped(samples, palette)[4 * p + 1] == entry.green
            &&& mapped(samples, palette)[4 * p + 2] == entry.blue
            &&& mapped(samples, palette)[4 * p + 3] == 255
            &&& forall|j: int|
                0 <= j < palette.len() ==> pixel_color(mapped(samples, palette), p).distance_to(
                    pixel_color(samples, p),
                ) <= (#[trigger] palette[j]).distance_to(pixel_color(samples, p))
        }),
{
    lemma_nearest(palette, pixel_color(samples, p));
    assert((4 * p) / 4 == p && (4 * p + 1) / 4 == p && (4 * p + 2) / 4 == p && (4 * p + 3) / 4 == p);
    assert((4 * p) % 4 == 0 && (4 * p + 1) % 4 == 1 && (4 * p + 2) % 4 == 2 && (4 * p + 3) % 4 == 3);
}

/// Mapping gives every pixel the colour of a palette entry than which none
/// is nearer to the pixel.
pub proof fn lemma_mapped_to_nearest(samples: Seq<u8>, palette: Seq<ColorNode>)
    requires
        palette.len() > 0,
        samples.len() % 4 == 0,
    ensures
        maps_to_nearest(samples, mapped(samples, palette), palette),
{
    let out = mapped(samples, palette);
    assert forall|p: int| 0 <= p < samples.len() / 4 implies {
        &&& has_color(palette, #[trigger] pixel_color(out, p))
        &&& none_nearer(palette, pixel_color(out, p), pixel_color(samples, p))
        &&& pixel_alpha(out, p) == 255
    } by {
        lemma_mapped_is_nearest(samples, palette, p);
        let i = nearest_index(palette, pixel_color(samples, p));
        assert(palette[i].red == pixel_color(out, p).red);
    }
}

/// Mapping a mapped buffer through the same palette changes nothing.
pub proof fn lemma_mapped_idempotent(samples: Seq<u8>, palette: Seq<ColorNode>)
    requires
        palette.len() > 0,
        samples.len() % 4 == 0,
    ensures
        mapped(mapped(samples, palette), palette) == mapped(samples, palette),
{
    let once = mapped(samples, palette);
    let twice = mapped(once, palette);
    assert forall|k: int| 0 <= k < samples.len() implies twice[k] == once[k] by {
        let p = k / 4;
        lemma_mapped_is_nearest(samples, palette, p);
        let chosen = nearest_index(palette, pixel_color(samples, p));
        lemma_nearest_of_entry(palette, chosen, pixel_color(once, p));
    }
    assert(twice =~= once);
}

/// Finds the entry of a palette nearest to a colour.
pub fn closest_index(palette: &Vec<ColorNode>, color: &ColorNode) -> (index: usize)
    requires
        palette@.len() > 0,
    ensures
        index == nearest_index(palette@, *color),
        is_nearest(palette@, *color, index as int),
{
    let mut min_idx: usize = 0;
    let mut min_distance: i32 = i32::MAX;
    let mut i: usize = 0;
    while i < palette.len()
        invariant
            i <= palette.len(),
            palette@.len() > 0,
            i == 0 ==> min_idx == 0 && min_distance == i32::MAX,
            i > 0 ==> min_idx == nearest_among(palette@, *color, i as int) && min_distance
                == palette@[min_idx as int].distance_to(*color),
        decreases palette.len() - i,
    {
        let d = palette[i].distance2(color);
        if d < min_distance {
            min_distance = d;
            min_idx = i;
        }
        i += 1;
    }
    proof {
        lemma_nearest(palette@, *color);
    }
    min_idx
}

/// Replaces every pixel of a buffer of RGBA pixels by the palette entry
/// nearest to it, with an alpha of 255.
pub fn map_samples(samples: &[u8], palette: &Vec<ColorNode>) -> (out: Vec<u8>)
    requires
        palette@.len() > 0,
        samples@.len() % 4 == 0,
    ensures
        out@ == mapped(samples@, palette@),
        maps_to_nearest(samples@, out@, palette@),
{
    let n = samples.len() / 4;
    let mut out: Vec<u8> = Vec::new();
    proof {
        lemma_mapped_to_nearest(samples@, palette@);
    }
    let mut p: usize = 0;
    while p < n
        invariant
            p <= n,
            4 * n == samples@.len(),
            samples@.len() <= usize::MAX,
            palette@.len() > 0,
            out@ == mapped(samples@, palette@).take(4 * p),
        decreases n - p,
    {
        let color = ColorNode::from(samples[4 * p], samples[4 * p + 1], samples[4 * p + 2], 0);
        let entry = palette[closest_index(palette, &color)];
        proof {
            lemma_mapped_is_nearest(samples@, palette@, p as int);
        }
        out.push(entry.red);
        out.push(entry.green);
        out.push(entry.blue);
        out.push(255);
        p += 1;
        assert(out@ =~= mapped(samples@, palette@).take(4 * p));
    }
    assert(mapped(samples@, palette@).take(4 * n) =~= mapped(samples@, palette@));
    out
}

} // verus!
