//! Mapping with error diffusion: three buffers, one for each of red, green
//! and blue, carried over the pixels of an image in raster order.
use vstd::prelude::*;

use crate::error_diffusion::{blank, Diffusion, ErrorDiffusion};
use crate::median_cut::ColorNode;
use crate::nearest::{
    closest_index, has_color, is_nearest, lemma_mapped_is_nearest, lemma_nearest,
    lemma_nearest_of_entry, mapped, nearest_index, pixel_alpha, pixel_color,
};

verus! {

/// The three error buffers of an image.
pub struct Dither {
    pub red: Diffusion,
    pub green: Diffusion,
    pub blue: Diffusion,
}

impl Dither {
    /// The buffers at the start of an image `width` pixels wide.
    pub open spec fn fresh(width: nat) -> Dither {
        Dither {
            red: Diffusion::fresh(width),
            green: Diffusion::fresh(width),
            blue: Diffusion::fresh(width),
        }
    }

    /// The three buffers are well formed, as wide as the image, and at the
    /// same column.
    pub open spec fn well_formed(self, width: nat) -> bool {
        &&& self.red.well_formed()
        &&& self.green.well_formed()
        &&& self.blue.well_formed()
        &&& self.red.width() == width
        &&& self.green.width() == width
        &&& self.blue.width() == width
        &&& self.green.column == self.red.column
        &&& self.blue.column == self.red.column
    }

    /// The buffers on entering the next pixel: gone on to the next scanline
    /// where the last one is done.
    pub open spec fn ready(self) -> Dither {
        if self.red.column >= self.red.width() {
            Dither {
                red: self.red.advanced(),
                green: self.green.advanced(),
                blue: self.blue.advanced(),
            }
        } else {
            self
        }
    }

    /// The colour `(r, g, b)` with each channel adjusted by its buffer.
    pub open spec fn adjusted(self, r: u8, g: u8, b: u8) -> ColorNode {
        ColorNode::of_channels(
            self.red.adjusted(r),
            self.green.adjusted(g),
            self.blue.adjusted(b),
            0,
        )
    }

    /// The palette entry for a pixel of colour `(r, g, b)`: the one nearest
    /// to the adjusted colour.
    pub open spec fn chosen(self, palette: Seq<ColorNode>, r: u8, g: u8, b: u8) -> ColorNode {
        palette[nearest_index(palette, self.adjusted(r, g, b))]
    }

    /// The buffers after a pixel of colour `(r, g, b)`: each has spread the
    /// residual between the pixel's own channel value and that of the chosen
    /// entry.
    pub open spec fn stepped(self, palette: Seq<ColorNode>, r: u8, g: u8, b: u8) -> Dither {
        let entry = self.chosen(palette, r, g, b);
        Dither {
            red: self.red.propagated(r, entry.red),
            green: self.green.propagated(g, entry.green),
            blue: self.blue.propagated(b, entry.blue),
        }
    }

    /// Going on to the next scanline where the last one is done leaves the
    /// buffers well formed and at a column of the scanline.
    pub proof fn lemma_ready(self, width: nat)
        requires
            self.well_formed(width),
            width >= 1,
        ensures
            self.ready().well_formed(width),
            self.ready().red.column < width,
    {
        self.red.lemma_advanced();
        self.green.lemma_advanced();
        self.blue.lemma_advanced();
    }

    /// Spreading the residuals of a pixel leaves the buffers well formed.
    pub proof fn lemma_stepped(self, width: nat, palette: Seq<ColorNode>, r: u8, g: u8, b: u8)
        requires
            self.well_formed(width),
            self.red.column < width,
        ensures
            self.stepped(palette, r, g, b).well_formed(width),
    {
        let entry = self.chosen(palette, r, g, b);
        self.red.lemma_propagated(r, entry.red);
        self.green.lemma_propagated(g, entry.green);
        self.blue.lemma_propagated(b, entry.blue);
    }
}

/// The buffers after the first `p` pixels of a buffer of RGBA pixels.
pub open spec fn dither_after(samples: Seq<u8>, palette: Seq<ColorNode>, width: nat, p: int) -> Dither
    decreases p,
{
    if p <= 0 {
        Dither::fresh(width)
    } else {
        dither_after(samples, palette, width, p - 1).ready().stepped(
            palette,
            samples[4 * (p - 1)],
            samples[4 * (p - 1) + 1],
            samples[4 * (p - 1) + 2],
        )
    }
}

/// The palette entry that dithering gives pixel `p`.
pub open spec fn dithered_entry(
    samples: Seq<u8>,
    palette: Seq<ColorNode>,
    width: nat,
    p: int,
) -> ColorNode {
    dither_after(samples, palette, width, p).ready().chosen(
        palette,
        samples[4 * p],
        samples[4 * p + 1],
        samples[4 * p + 2],
    )
}

/// Sample `k` of a buffer after dithering: red, green or blue of the entry
/// given to the pixel that `k` lies in, and 255 for alpha.
pub open spec fn dithered_sample(
    samples: Seq<u8>,
    palette: Seq<ColorNode>,
    width: nat,
    k: int,
) -> u8 {
    let entry = dithered_entry(samples, palette, width, k / 4);
    if k % 4 == 0 {
        entry.red
    } else if k % 4 == 1 {
        entry.green
    } else if k % 4 == 2 {
        entry.blue
    } else {
        255
    }
}

/// A buffer of RGBA pixels, `width` to a scanline, mapped to a palette with
/// error diffusion, opaque.
pub open spec fn dithered(samples: Seq<u8>, palette: Seq<ColorNode>, width: nat) -> Seq<u8> {
    Seq::new(samples.len(), |k: int| dithered_sample(samples, palette, width, k))
}

/// The buffers stay well formed from pixel to pixel.
pub proof fn lemma_dither_after(samples: Seq<u8>, palette: Seq<ColorNode>, width: nat, p: int)
    requires
        width >= 1,
        0 <= p,
    ensures
        dither_after(samples, palette, width, p).well_formed(width),
    decreases p,
{
    if p == 0 {
        Diffusion::lemma_fresh(width);
    } else {
        lemma_dither_after(samples, palette, width, p - 1);
        let before = dither_after(samples, palette, width, p - 1);
        before.lemma_ready(width);
        before.ready().lemma_stepped(
            width,
            palette,
            samples[4 * (p - 1)],
            samples[4 * (p - 1) + 1],
            samples[4 * (p - 1) + 2],
        );
    }
}

/// Dithering gives every pixel an entry of the palette: the one nearest to
/// the pixel's colour as the error buffers adjust it. The entry's colour is
/// written with an alpha of 255.
pub proof fn lemma_dithered_is_nearest(
    samples: Seq<u8>,
    palette: Seq<ColorNode>,
    width: nat,
    p: int,
)
    requires
        palette.len() > 0,
        samples.len() % 4 == 0,
        0 <= p < samples.len() / 4,
    ensures
        dithered(samples, palette, width).len() == samples.len(),
        ({
            let ready = dither_after(samples, palette, width, p).ready();
            let color = ready.adjusted(samples[4 * p], samples[4 * p + 1], samples[4 * p + 2]);
            let entry = dithered_entry(samples, palette, width, p);
            &&& is_nearest(palette, color, nearest_index(palette, color))
            &&& entry == palette[nearest_index(palette, color)]
            &&& dithered(samples, palette, width)[4 * p] == entry.red
            &&& dithered(samples, palette, width)[4 * p + 1] == entry.green
            &&& dithered(samples, palette, width)[4 * p + 2] == entry.blue
            &&& dithered(samples, palette, width)[4 * p + 3] == 255
        }),
{
    let ready = dither_after(samples, palette, width, p).ready();
    lemma_nearest(palette, ready.adjusted(samples[4 * p], samples[4 * p + 1], samples[4 * p + 2]));
    assert((4 * p) / 4 == p && (4 * p + 1) / 4 == p && (4 * p + 2) / 4 == p && (4 * p + 3) / 4 == p);
    assert((4 * p) % 4 == 0 && (4 * p + 1) % 4 == 1 && (4 * p + 2) % 4 == 2 && (4 * p + 3) % 4 == 3);
}

/// Every pixel of `out` is opaque and has the colour of a palette entry.
pub open spec fn drawn_from(out: Seq<u8>, palette: Seq<ColorNode>) -> bool {
    forall|p: int|
        0 <= p < out.len() / 4 ==> has_color(palette, #[trigger] pixel_color(out, p)) && pixel_alpha(
            out,
            p,
        ) == 255
}

/// Dithering gives back as many samples as it was given, and every pixel is
/// opaque and has the colour of a palette entry.
pub proof fn lemma_dithered_drawn_from(samples: Seq<u8>, palette: Seq<ColorNode>, width: nat)
    requires
        palette.len() > 0,
        samples.len() % 4 == 0,
    ensures
        dithered(samples, palette, width).len() == samples.len(),
        drawn_from(dithered(samples, palette, width), palette),
{
    let out = dithered(samples, palette, width);
    assert forall|p: int| 0 <= p < out.len() / 4 implies has_color(
        palette,
        #[trigger] pixel_color(out, p),
    ) && pixel_alpha(out, p) == 255 by {
        lemma_dithered_is_nearest(samples, palette, width, p);
        let ready = dither_after(samples, palette, width, p).ready();
        let color = ready.adjusted(samples[4 * p], samples[4 * p + 1], samples[4 * p + 2]);
        let i = nearest_index(palette, color);
        assert(palette[i].red == pixel_color(out, p).red);
    }
}

/// No buffer of the three holds any error.
pub open spec fn quiet(state: Dither) -> bool {
    &&& state.red.row1 == blank(state.red.row1.len())
    &&& state.red.row2 == blank(state.red.row1.len())
    &&& state.red.row3 == blank(state.red.row1.len())
    &&& state.green.row1 == blank(state.green.row1.len())
    &&& state.green.row2 == blank(state.green.row1.len())
    &&& state.green.row3 == blank(state.green.row1.len())
    &&& state.blue.row1 == blank(state.blue.row1.len())
    &&& state.blue.row2 == blank(state.blue.row1.len())
    &&& state.blue.row3 == blank(state.blue.row1.len())
}

proof fn lemma_quiet_after(samples: Seq<u8>, palette: Seq<ColorNode>, width: nat, p: int)
    requires
        palette.len() > 0,
        samples.len() % 4 == 0,
        width >= 1,
        0 <= p <= samples.len() / 4,
        forall|q: int| 0 <= q < samples.len() / 4 ==> has_color(palette, #[trigger] pixel_color(samples, q)),
    ensures
        quiet(dither_after(samples, palette, width, p)),
        quiet(dither_after(samples, palette, width, p).ready()),
        p < samples.len() / 4 ==> {
            let entry = dithered_entry(samples, palette, width, p);
            &&& entry.red == samples[4 * p]
            &&& entry.green == samples[4 * p + 1]
            &&& entry.blue == samples[4 * p + 2]
        },
    decreases p,
{
    lemma_dither_after(samples, palette, width, p);
    if p > 0 {
        lemma_quiet_after(samples, palette, width, p - 1);
        let ready = dither_after(samples, palette, width, p - 1).ready();
        let entry = dithered_entry(samples, palette, width, p - 1);
        let next = dither_after(samples, palette, width, p);
        assert(next.red.row1 =~= ready.red.row1);
        assert(next.red.row2 =~= ready.red.row2);
        assert(next.red.row3 =~= ready.red.row3);
        assert(next.green.row1 =~= ready.green.row1);
        assert(next.green.row2 =~= ready.green.row2);
        assert(next.green.row3 =~= ready.green.row3);
        assert(next.blue.row1 =~= ready.blue.row1);
        assert(next.blue.row2 =~= ready.blue.row2);
        assert(next.blue.row3 =~= ready.blue.row3);
    }
    let now = dither_after(samples, palette, width, p);
    now.lemma_ready(width);
    if p < samples.len() / 4 {
        let ready = now.ready();
        let own = pixel_color(samples, p);
        assert(has_color(palette, own));
        let i = choose|i: int|
            0 <= i < palette.len() && (#[trigger] palette[i]).red == own.red && palette[i].green
                == own.green && palette[i].blue == own.blue;
        assert(ready.adjusted(samples[4 * p], samples[4 * p + 1], samples[4 * p + 2]) == own);
        lemma_nearest_of_entry(palette, i, own);
    }
}

/// Where every pixel has the colour of a palette entry, no error arises, and
/// dithering only makes the pixels opaque.
pub proof fn lemma_dithered_of_palette_colours(
    samples: Seq<u8>,
    palette: Seq<ColorNode>,
    width: nat,
    k: int,
)
    requires
        palette.len() > 0,
        samples.len() % 4 == 0,
        width >= 1,
        0 <= k < samples.len(),
        forall|q: int| 0 <= q < samples.len() / 4 ==> has_color(palette, #[trigger] pixel_color(samples, q)),
    ensures
        dithered(samples, palette, width)[k] == if k % 4 == 3 {
            255u8
        } else {
            samples[k]
        },
{
    lemma_quiet_after(samples, palette, width, k / 4);
}

/// Dithering a buffer that was mapped to the palette changes nothing.
pub proof fn lemma_dithered_of_mapped(samples: Seq<u8>, palette: Seq<ColorNode>, width: nat)
    requires
        palette.len() > 0,
        samples.len() % 4 == 0,
        width >= 1,
    ensures
        dithered(mapped(samples, palette), palette, width) == mapped(samples, palette),
{
    let once = mapped(samples, palette);
    assert forall|q: int| 0 <= q < once.len() / 4 implies has_color(
        palette,
        #[trigger] pixel_color(once, q),
    ) by {
        lemma_mapped_is_nearest(samples, palette, q);
        let i = nearest_index(palette, pixel_color(samples, q));
        assert(palette[i].red == pixel_color(once, q).red);
    }
    assert forall|k: int| 0 <= k < once.len() implies dithered(once, palette, width)[k]
        == once[k] by {
        lemma_dithered_of_palette_colours(once, palette, width, k);
        lemma_mapped_is_nearest(samples, palette, k / 4);
    }
    assert(dithered(once, palette, width) =~= once);
}

/// Takes the three buffers over one pixel of colour `(r, g, b)` and gives the
/// palette entry for it.
fn dither_pixel(
    red: &mut ErrorDiffusion,
    green: &mut ErrorDiffusion,
    blue: &mut ErrorDiffusion,
    palette: &Vec<ColorNode>,
    width: usize,
    r: u8,
    g: u8,
    b: u8,
) -> (entry: ColorNode)
    requires
        palette@.len() > 0,
        width >= 1,
        (Dither { red: old(red)@, green: old(green)@, blue: old(blue)@ }).well_formed(width as nat),
    ensures
        ({
            let before = Dither { red: old(red)@, green: old(green)@, blue: old(blue)@ };
            let after = Dither { red: final(red)@, green: final(green)@, blue: final(blue)@ };
            &&& entry == before.ready().chosen(palette@, r, g, b)
            &&& after == before.ready().stepped(palette@, r, g, b)
            &&& after.well_formed(width as nat)
        }),
{
    let ghost before = Dither { red: red@, green: green@, blue: blue@ };
    proof {
        before.lemma_ready(width as nat);
    }
    if red.column() == width {
        red.next_row();
        green.next_row();
        blue.next_row();
    }
    assert(Dither { red: red@, green: green@, blue: blue@ } == before.ready());
    let color = ColorNode::from(red.adjust(r), green.adjust(g), blue.adjust(b), 0);
    let entry = palette[closest_index(palette, &color)];
    red.calculate(r, entry.red);
    green.calculate(g, entry.green);
    blue.calculate(b, entry.blue);
    entry
}

/// Maps a buffer of RGBA pixels, `width` to a scanline, to a palette with
/// error diffusion. The alpha of every pixel becomes 255.
pub fn dither_samples(samples: &[u8], palette: &Vec<ColorNode>, width: usize) -> (out: Vec<u8>)
    requires
        palette@.len() > 0,
        samples@.len() % 4 == 0,
        1 <= width <= usize::MAX - 4,
    ensures
        out@ == dithered(samples@, palette@, width as nat),
        out@.len() == samples@.len(),
        drawn_from(out@, palette@),
{
    let n = samples.len() / 4;
    proof {
        lemma_dithered_drawn_from(samples@, palette@, width as nat);
    }
    let mut red = ErrorDiffusion::with_width(width);
    let mut green = ErrorDiffusion::with_width(width);
    let mut blue = ErrorDiffusion::with_width(width);
    let mut out: Vec<u8> = Vec::new();
    let mut p: usize = 0;
    while p < n
        invariant
            p <= n,
            4 * n == samples@.len(),
            samples@.len() <= usize::MAX,
            palette@.len() > 0,
            width >= 1,
            (Dither { red: red@, green: green@, blue: blue@ }) == dither_after(
                samples@,
                palette@,
                width as nat,
                p as int,
            ),
            out@ == dithered(samples@, palette@, width as nat).take(4 * p),
        decreases n - p,
    {
        proof {
            lemma_dither_after(samples@, palette@, width as nat, p as int);
            lemma_dithered_is_nearest(samples@, palette@, width as nat, p as int);
        }
        let entry = dither_pixel(
            &mut red,
            &mut green,
            &mut blue,
            palette,
            width,
            samples[4 * p],
            samples[4 * p + 1],
            samples[4 * p + 2],
        );
        out.push(entry.red);
        out.push(entry.green);
        out.push(entry.blue);
        out.push(255);
        p += 1;
        assert(out@ =~= dithered(samples@, palette@, width as nat).take(4 * p));
    }
    assert(dithered(samples@, palette@, width as nat).take(4 * n) =~= dithered(
        samples@,
        palette@,
        width as nat,
    ));
    out
}

} // verus!
