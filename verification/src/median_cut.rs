//! Colour samples and the palette built from them by median cut.
use vstd::prelude::*;
use vstd::std_specs::cmp::PartialEqSpecImpl;

use crate::color_box::ColorBox;
use crate::distance::{distance_between, squared_distance};
use crate::histogram::{
    counts_colors, distinct, histogram, histogram_of, lemma_distinct, lemma_histogram_counts,
    lemma_histogram_mass, lemma_occurs, lemma_pixel_keys, occurrences, pixel_keys,
};
use crate::nearest::{
    closest_index, is_nearest, map_samples, mapped, maps_to_nearest, nearest_index,
};
use crate::packing::{
    byte0, byte1, byte2, lemma_pack_unpack_argb, lemma_unpack_pack_rgb, pack_channels, pack_rgb,
    unpack_channels,
};
use crate::partition::{
    averages, first_best, is_next_box, lemma_first_best, lemma_next_box, lemma_refined,
    lemma_representatives, lemma_split_keeps_tiling, lemma_whole_tiled, next_box, refined,
    representatives, tiled, whole,
};
use crate::ranking::{
    by_descending_count, descending, lemma_by_descending_count, lemma_same_members, sort_by_count,
};
use crate::raster::Raster;
use crate::tally::mass;

verus! {

/// One of the three channels along which a box of colours can be cut.
#[derive(Debug, Clone, Copy, PartialEq, Eq, Structural)]
pub enum ColorDimension {
    Red,
    Green,
    Blue,
}

/// A colour without alpha and the number of pixels that have it.
///
/// `rgb` is the packed form `red << 16 | green << 8 | blue`. Every function
/// of this crate that makes a sample keeps `rgb` in step with the channels;
/// [`ColorNode::well_formed`] says so.
#[derive(Debug, Clone, Copy)]
pub struct ColorNode {
    pub rgb: u32,
    pub red: u8,
    pub green: u8,
    pub blue: u8,
    pub count: usize,
}

/// Two samples are the same colour when their packed forms agree. The count
/// takes no part in it.
impl PartialEq for ColorNode {
    fn eq(&self, other: &Self) -> (equal: bool) {
        self.rgb == other.rgb
    }
}

impl PartialEqSpecImpl for ColorNode {
    open spec fn obeys_eq_spec() -> bool {
        true
    }

    open spec fn eq_spec(&self, other: &Self) -> bool {
        self.rgb == other.rgb
    }
}

impl ColorNode {
    /// The packed form agrees with the channels.
    pub open spec fn well_formed(self) -> bool {
        self.rgb == pack_rgb(self.red, self.green, self.blue)
    }

    /// The sample with the given channels and count.
    pub open spec fn of_channels(red: u8, green: u8, blue: u8, count: usize) -> ColorNode {
        ColorNode { rgb: pack_rgb(red, green, blue), red, green, blue, count }
    }

    /// The sample whose colour the low 24 bits of `rgb` pack.
    pub open spec fn of_rgb(rgb: u32, count: usize) -> ColorNode {
        ColorNode::of_channels(byte2(rgb), byte1(rgb), byte0(rgb), count)
    }

    /// The value of one channel.
    pub open spec fn channel(self, dim: ColorDimension) -> u8 {
        match dim {
            ColorDimension::Red => self.red,
            ColorDimension::Green => self.green,
            ColorDimension::Blue => self.blue,
        }
    }

    /// The same colour with another count.
    pub open spec fn with_count(self, count: usize) -> ColorNode {
        ColorNode { count, ..self }
    }

    /// The squared distance between the colours of two samples.
    pub open spec fn distance_to(self, other: ColorNode) -> int {
        squared_distance(self.red, self.green, self.blue, other.red, other.green, other.blue)
    }

    /// The sample whose colour the low 24 bits of `rgb` pack, red highest.
    /// Bits 24 and above are ignored.
    #[inline]
    pub fn from_rgb(rgb: u32, count: usize) -> (node: ColorNode)
        ensures
            node == ColorNode::of_rgb(rgb, count),
            node.well_formed(),
            rgb < 0x100_0000 ==> node.rgb == rgb,
    {
        let c = unpack_channels(rgb);
        proof {
            lemma_pack_unpack_argb(rgb);
        }
        ColorNode::from(c[1], c[2], c[3], count)
    }

    /// The sample with the given channels and count.
    #[inline]
    pub fn from(red: u8, green: u8, blue: u8, count: usize) -> (node: ColorNode)
        ensures
            node == ColorNode::of_channels(red, green, blue, count),
            node.well_formed(),
    {
        ColorNode { rgb: ColorNode::convert_rgb_to_u32(red, green, blue), blue, green, red, count }
    }

    /// Packs three channels into 24 bits, red highest.
    #[inline]
    pub fn convert_rgb_to_u32(red: u8, green: u8, blue: u8) -> (rgb: u32)
        ensures
            rgb == pack_rgb(red, green, blue),
            rgb < 0x100_0000,
    {
        proof {
            lemma_unpack_pack_rgb(red, green, blue);
        }
        pack_channels(0, red, green, blue)
    }

    /// The squared distance between the colours of two samples.
    pub fn distance2(&self, other: &ColorNode) -> (d: i32)
        ensures
            d == self.distance_to(*other),
            0 <= d <= 195075,
    {
        distance_between(self.red, self.green, self.blue, other.red, other.green, other.blue)
    }

    /// Reads one channel.
    pub fn get_channel(&self, dim: ColorDimension) -> (value: u8)
        ensures
            value == self.channel(dim),
    {
        match dim {
            ColorDimension::Red => self.red,
            ColorDimension::Green => self.green,
            ColorDimension::Blue => self.blue,
        }
    }

    /// Unpacking a packed colour gives its channels back, and a sample made
    /// from 24 bits packs to those bits again.
    pub proof fn lemma_round_trip(red: u8, green: u8, blue: u8, rgb: u32, count: usize)
        ensures
            ColorNode::of_rgb(pack_rgb(red, green, blue), count) == ColorNode::of_channels(
                red,
                green,
                blue,
                count,
            ),
            rgb < 0x100_0000 ==> ColorNode::of_rgb(rgb, count).rgb == rgb,
    {
        lemma_unpack_pack_rgb(red, green, blue);
        lemma_pack_unpack_argb(rgb);
    }
}

/// The palette of a buffer of RGBA pixels: the representatives of its
/// histogram, most frequent first.
pub open spec fn palette_of(samples: Seq<u8>, k_max: nat) -> Seq<ColorNode> {
    by_descending_count(representatives(histogram(pixel_keys(samples)), k_max))
}

/// What a palette is to the buffer it was built from. It descends in count,
/// its counts add up to the number of pixels, and its colours are well
/// formed. Where the buffer has at most `k_max` colours, the palette holds
/// exactly these, each once and with the number of pixels that have it. Where
/// it has more, the palette holds exactly `k_max` colours, or one where
/// `k_max` is 0.
pub open spec fn is_palette_for(palette: Seq<ColorNode>, samples: Seq<u8>, k_max: nat) -> bool {
    let keys = pixel_keys(samples);
    &&& descending(palette)
    &&& mass(palette) == samples.len() / 4
    &&& samples.len() >= 4 ==> palette.len() >= 1
    &&& forall|i: int| 0 <= i < palette.len() ==> (#[trigger] palette[i]).well_formed()
    &&& distinct(keys).len() <= k_max ==> counts_colors(palette, keys) && palette.to_multiset()
        == histogram(keys).to_multiset()
    &&& distinct(keys).len() > k_max ==> palette.len() == if k_max == 0 {
        1
    } else {
        k_max
    }
}

/// The palette of a buffer is a palette for it.
pub proof fn lemma_palette_of(samples: Seq<u8>, k_max: nat)
    requires
        samples.len() % 4 == 0,
        samples.len() <= usize::MAX,
        k_max <= u32::MAX,
    ensures
        is_palette_for(palette_of(samples, k_max), samples, k_max),
{
    let keys = pixel_keys(samples);
    let h = histogram(keys);
    let d = distinct(keys);
    let r = representatives(h, k_max);
    let p = palette_of(samples, k_max);
    lemma_pixel_keys(samples);
    lemma_distinct(keys);
    lemma_histogram_mass(keys);
    lemma_histogram_counts(keys);
    lemma_representatives(h, k_max);
    lemma_by_descending_count(r);
    assert forall|i: int| 0 <= i < d.len() implies #[trigger] d[i] < 0x100_0000 by {
        assert(d.contains(d[i]));
        assert(occurrences(keys, d[i]) > 0);
        lemma_occurs(keys, d[i]);
    }
    assert forall|i: int| 0 <= i < p.len() implies (#[trigger] p[i]).well_formed() by {
        lemma_same_members(r, p[i]);
        assert(p.contains(p[i]));
    }
    if d.len() <= k_max {
        assert(r == h);
        assert forall|i: int| 0 <= i < p.len() implies (#[trigger] p[i]).count == occurrences(
            keys,
            p[i].rgb,
        ) && p[i].count > 0 by {
            lemma_same_members(h, p[i]);
            assert(p.contains(p[i]));
        }
        assert forall|key: u32| occurrences(keys, key) > 0 implies exists|i: int|
            0 <= i < p.len() && (#[trigger] p[i]).rgb == key by {
            let j = choose|j: int| 0 <= j < h.len() && #[trigger] d[j] == key;
            lemma_same_members(h, h[j]);
            assert(h.contains(h[j]));
            let i = choose|i: int| 0 <= i < p.len() && p[i] == h[j];
            assert(p[i].rgb == key);
        }
        assert forall|i: int, j: int| 0 <= i < j < p.len() implies (#[trigger] p[i]).rgb != (
        #[trigger] p[j]).rgb by {
            if p[i].rgb == p[j].rgb {
                lemma_same_members(h, p[i]);
                lemma_same_members(h, p[j]);
                assert(p.contains(p[i]) && p.contains(p[j]));
                let a = choose|a: int| 0 <= a < h.len() && h[a] == p[i];
                let b = choose|b: int| 0 <= b < h.len() && h[b] == p[j];
                assert(d[a] == d[b]);
                assert(a == b);
                assert(p[i] == p[j]);
                lemma_no_repeats(h, p);
            }
        }
    }
}

/// Where a sequence holds no sample twice, no sequence with the same samples
/// as often does.
proof fn lemma_no_repeats(h: Seq<ColorNode>, p: Seq<ColorNode>)
    requires
        h.to_multiset() == p.to_multiset(),
        forall|a: int, b: int| 0 <= a < b < h.len() ==> h[a] != h[b],
    ensures
        p.no_duplicates(),
{
    assert(h.no_duplicates());
    h.lemma_multiset_has_no_duplicates();
    p.lemma_multiset_has_no_duplicates_conv();
}

/// Reduces an array of samples to at most `k_max` colours, or to one where
/// `k_max` is 0.
///
/// An array of at most `k_max` samples comes back as it is. A longer one is
/// cut into boxes, always the shallowest box that holds two samples or more
/// and of those the oldest, until there are `k_max` boxes; each box then
/// gives its average. The colours come out in the order in which the boxes
/// were made, exactly `k_max` of them (one where `k_max` is 0), and together
/// they weigh what the array weighed.
pub fn reduce_colors(colors: Vec<ColorNode>, k_max: u32) -> (reduced: Vec<ColorNode>)
    requires
        mass(colors@) <= usize::MAX,
    ensures
        reduced@ == representatives(colors@, k_max as nat),
        colors@.len() <= k_max ==> reduced@ == colors@,
        colors@.len() > k_max ==> {
            &&& reduced@.len() == if k_max == 0 {
                1u32
            } else {
                k_max
            }
            &&& mass(reduced@) == mass(colors@)
            &&& forall|i: int| 0 <= i < reduced@.len() ==> (#[trigger] reduced@[i]).well_formed()
        },
{
    let mut colors = colors;
    let ghost given = colors@;
    let color_num = colors.len();
    proof {
        lemma_representatives(given, k_max as nat);
    }
    if color_num <= k_max as usize {
        // few enough colours: nothing to cut
        colors
    } else {
        assert(colors@.subrange(0, color_num as int) =~= colors@);
        let initial_box = ColorBox::new(0, color_num, 0, &colors);
        let mut color_set: Vec<ColorBox> = Vec::new();
        color_set.push(initial_box);
        let mut k: u32 = 1;
        let mut done = false;
        proof {
            lemma_whole_tiled(given);
            assert(color_set@ =~= seq![whole(given)]);
        }
        while k < k_max && !done
            invariant
                k == color_set@.len(),
                given.len() > k_max,
                colors@.len() == given.len(),
                tiled(colors@, color_set@),
                refined(colors@, color_set@, k_max as nat) == refined(
                    given,
                    seq![whole(given)],
                    k_max as nat,
                ),
                done ==> next_box(color_set@) is None,
            decreases
                    k_max - k,
                    if done {
                        0int
                    } else {
                        1int
                    },
        {
            proof {
                lemma_next_box(color_set@);
            }
            match MedianCut::find_box_to_split(&color_set) {
                Some(i) => {
                    proof {
                        lemma_split_keeps_tiling(colors@, color_set@, i as int);
                    }
                    let mut next_box = color_set[i];
                    let new_box = next_box.split_box(&mut colors);
                    color_set.set(i, next_box);
                    if let Some(new_box) = new_box {
                        color_set.push(new_box);
                        k += 1;
                    }
                },
                None => {
                    done = true;
                },
            }
        }
        proof {
            lemma_refined(colors@, color_set@, k_max as nat);
            lemma_next_box(color_set@);
        }
        MedianCut::average_colors(&color_set, &colors)
    }
}

/// A palette: colours to which the pixels of an image are reduced.
pub struct MedianCut {
    colors: Vec<ColorNode>,
}

impl View for MedianCut {
    type V = Seq<ColorNode>;

    closed spec fn view(&self) -> Seq<ColorNode> {
        self.colors@
    }
}

impl MedianCut {
    /// A palette of the given colours, in the given order.
    pub fn new(colors: Vec<ColorNode>) -> (palette: MedianCut)
        ensures
            palette@ == colors@,
    {
        MedianCut { colors }
    }

    /// The palette of an image: at most `k_max` colours (one where `k_max` is
    /// 0), most frequent first. The image holds a pixel, and so does the
    /// palette a colour.
    pub fn from_pixels_u8_rgba(image: &Raster, k_max: u32) -> (palette: MedianCut)
        requires
            image.samples().len() > 0,
        ensures
            palette@.len() > 0,
            palette@ == palette_of(image.samples(), k_max as nat),
            is_palette_for(palette@, image.samples(), k_max as nat),
    {
        let samples = image.to_samples();
        proof {
            lemma_palette_of(samples@, k_max as nat);
        }
        let quant_colors = reduce_colors(histogram_of(samples.as_slice()), k_max);
        MedianCut { colors: sort_by_count(quant_colors) }
    }

    /// Replaces every pixel of the image by the palette colour nearest to it,
    /// opaque. The image keeps its width and height. The palette holds a
    /// colour and the image a pixel.
    pub fn quantize_image_from(&self, image: &mut Raster)
        requires
            self@.len() > 0,
            old(image).samples().len() > 0,
        ensures
            final(image).samples() == mapped(old(image).samples(), self@),
            maps_to_nearest(old(image).samples(), final(image).samples(), self@),
            final(image).width() == old(image).width(),
            final(image).height() == old(image).height(),
    {
        let samples = image.to_samples();
        let quantized = map_samples(samples.as_slice(), &self.colors);
        image.set_samples(&quantized);
    }

    /// The colours of an image, each once, in order of first appearance, with
    /// the number of pixels that have it. The image holds a pixel.
    pub fn create_histogram(image: &Raster) -> (colors: Vec<ColorNode>)
        requires
            image.samples().len() > 0,
        ensures
            colors@ == histogram(pixel_keys(image.samples())),
            counts_colors(colors@, pixel_keys(image.samples())),
            mass(colors@) == image.samples().len() / 4,
            mass(colors@) <= usize::MAX,
    {
        let samples = image.to_samples();
        histogram_of(samples.as_slice())
    }

    /// A copy of the palette's colours.
    pub fn colors(&self) -> (colors: Vec<ColorNode>)
        ensures
            colors@ == self@,
    {
        let mut colors: Vec<ColorNode> = Vec::new();
        let mut i: usize = 0;
        while i < self.colors.len()
            invariant
                i <= self.colors.len(),
                colors@ == self.colors@.take(i as int),
            decreases self.colors.len() - i,
        {
            colors.push(self.colors[i]);
            i += 1;
            assert(colors@ =~= self.colors@.take(i as int));
        }
        assert(self.colors@.take(i as int) =~= self.colors@);
        colors
    }

    /// At most `k_max` colours to stand for the image, in the order in which
    /// their boxes were made. The image holds a pixel.
    pub fn find_representative_colors(image: &Raster, k_max: u32) -> (colors: Vec<ColorNode>)
        requires
            image.samples().len() > 0,
        ensures
            colors@ == representatives(histogram(pixel_keys(image.samples())), k_max as nat),
    {
        let colors = MedianCut::create_histogram(image);
        reduce_colors(colors, k_max)
    }

    /// The palette colour nearest to `color`; of colours at the same distance
    /// the first.
    pub fn find_closest_color(&self, color: &ColorNode) -> (nearest: ColorNode)
        requires
            self@.len() > 0,
        ensures
            nearest == self@[nearest_index(self@, *color)],
            is_nearest(self@, *color, nearest_index(self@, *color)),
    {
        self.colors[closest_index(&self.colors, color)]
    }

    /// The colours that stand for the boxes, box by box.
    pub fn average_colors(boxes: &Vec<ColorBox>, pixels: &Vec<ColorNode>) -> (avg_colors: Vec<
        ColorNode,
    >)
        requires
            forall|i: int|
                0 <= i < boxes@.len() ==> (#[trigger] boxes@[i]).within(pixels@) && mass(
                    boxes@[i].range(pixels@),
                ) <= usize::MAX,
        ensures
            avg_colors@ == averages(pixels@, boxes@),
    {
        let n = boxes.len();
        let mut avg_colors: Vec<ColorNode> = Vec::new();
        let mut i: usize = 0;
        while i < n
            invariant
                i <= n,
                n == boxes@.len(),
                forall|i: int|
                    0 <= i < boxes@.len() ==> (#[trigger] boxes@[i]).within(pixels@) && mass(
                        boxes@[i].range(pixels@),
                    ) <= usize::MAX,
                avg_colors@ == averages(pixels@, boxes@).take(i as int),
            decreases n - i,
        {
            assert(boxes@[i as int].within(pixels@));
            avg_colors.push(boxes[i].get_average_color(pixels));
            i += 1;
            assert(avg_colors@ =~= averages(pixels@, boxes@).take(i as int));
        }
        assert(averages(pixels@, boxes@).take(n as int) =~= averages(pixels@, boxes@));
        avg_colors
    }

    /// The box to cut next: of the boxes that hold two samples or more the
    /// shallowest, and of those the first. `None` where no box can be cut.
    pub fn find_box_to_split(boxes: &Vec<ColorBox>) -> (found: Option<usize>)
        ensures
            match found {
                Some(i) => is_next_box(boxes@, i as int) && next_box(boxes@) == Some(i as int),
                None => next_box(boxes@) is None && forall|j: int|
                    0 <= j < boxes@.len() ==> (#[trigger] boxes@[j]).size() < 2,
            },
    {
        let mut box_to_split: Option<usize> = None;
        let mut min_level: u32 = u32::MAX;
        let mut i: usize = 0;
        while i < boxes.len()
            invariant
                i <= boxes.len(),
                match box_to_split {
                    Some(best) => best < i && best == first_best(boxes@, i as int) && min_level
                        == boxes@[best as int].level,
                    None => first_best(boxes@, i as int) == -1,
                },
            decreases boxes.len() - i,
        {
            let b = &boxes[i];
            if b.lower < b.upper && b.color_count() >= 2 {
                if box_to_split.is_none() || b.level < min_level {
                    min_level = b.level;
                    box_to_split = Some(i);
                }
            }
            i += 1;
        }
        proof {
            lemma_first_best(boxes@, boxes@.len() as int);
            lemma_next_box(boxes@);
        }
        box_to_split
    }
}

} // verus!
