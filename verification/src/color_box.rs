//! A box of colours: a range of the sample array together with the extent
//! and the mass of the samples in it.
use vstd::prelude::*;

use crate::arrange::{lemma_sorted_range_parts, sort_range, sorted_by_channel, sorted_range};
use crate::median_cut::{ColorDimension, ColorNode};
use crate::tally::{
    highest, lemma_mass_of_parts, lemma_subrange_step, lemma_weighted_sum_bound, lowest, mass,
    weighted_sum,
};

verus! {

/// The samples at `lower..upper` of an array, with what is cached of them:
/// their mass, the least and greatest value of each channel, and how many
/// cuts led to this box.
///
/// A box says nothing of an array until it is trimmed against it, and it goes
/// stale when the samples in its range are exchanged for others.
#[derive(Debug, Clone, Copy, PartialEq, Eq, Structural)]
pub struct ColorBox {
    pub lower: usize,
    pub upper: usize,
    pub level: u32,
    pub count: usize,
    pub min_r: u8,
    pub max_r: u8,
    pub min_g: u8,
    pub max_g: u8,
    pub min_b: u8,
    pub max_b: u8,
}

/// The mean `sum / n` rounded to the nearest integer, halves upwards, and 0
/// where `n` is 0.
pub open spec fn rounded_mean(sum: nat, n: nat) -> nat {
    if n == 0 {
        0
    } else {
        (2 * sum + n) / (2 * n)
    }
}

/// A rounded mean of values up to 255 is itself at most 255.
pub proof fn lemma_rounded_mean_bound(sum: nat, n: nat)
    requires
        sum <= 255 * n,
    ensures
        rounded_mean(sum, n) <= 255,
{
    if n > 0 {
        assert((2 * sum + n) / (2 * n) <= 255) by (nonlinear_arith)
            requires
                n > 0,
                sum <= 255 * n,
        ;
    }
}

/// The samples of `s` up to and including index `i` weigh at least `half`.
pub open spec fn reaches(s: Seq<ColorNode>, half: nat, i: int) -> bool {
    mass(s.take(i + 1)) >= half
}

/// The first index of `s` from `i` on up to which the samples of `s` together
/// weigh at least `half`; 0 where there is none.
pub open spec fn median_from(s: Seq<ColorNode>, half: nat, i: int) -> int
    decreases s.len() - i,
{
    if i < 0 || i >= s.len() {
        0
    } else if reaches(s, half, i) {
        i
    } else {
        median_from(s, half, i + 1)
    }
}

/// The weighted median of `s`: the first index up to which the samples
/// together weigh at least `half`. Where no index of `s` does, it is 0.
pub open spec fn weighted_median(s: Seq<ColorNode>, half: nat) -> int {
    median_from(s, half, 0)
}

proof fn lemma_median_from(s: Seq<ColorNode>, half: nat, i: int)
    requires
        0 <= i,
    ensures
        ({
            let m = median_from(s, half, i);
            &&& 0 <= m
            &&& m != 0 ==> i <= m
            &&& s.len() >= 1 ==> m < s.len()
            &&& forall|j: int|
                i <= j < s.len() && #[trigger] reaches(s, half, j) ==> i <= m <= j && reaches(
                    s,
                    half,
                    m,
                )
            &&& (forall|j: int| i <= j < s.len() ==> !#[trigger] reaches(s, half, j)) ==> m == 0
        }),
    decreases s.len() - i,
{
    if i < s.len() && !reaches(s, half, i) {
        lemma_median_from(s, half, i + 1);
        if forall|j: int| i <= j < s.len() ==> !#[trigger] reaches(s, half, j) {
            assert forall|j: int| i + 1 <= j < s.len() implies !#[trigger] reaches(s, half, j) by {}
        }
    }
}

/// The weighted median is an index of `s`. Where some index reaches `half`,
/// the weighted median is the least that does; where none does, it is 0. And
/// some index does where `s` holds a sample and weighs at least `half`.
pub proof fn lemma_weighted_median(s: Seq<ColorNode>, half: nat)
    ensures
        0 <= weighted_median(s, half),
        s.len() >= 1 ==> weighted_median(s, half) < s.len(),
        s.len() == 0 ==> weighted_median(s, half) == 0,
        forall|j: int|
            0 <= j < s.len() && #[trigger] reaches(s, half, j) ==> weighted_median(s, half) <= j
                && reaches(s, half, weighted_median(s, half)),
        (forall|j: int| 0 <= j < s.len() ==> !#[trigger] reaches(s, half, j)) ==> weighted_median(
            s,
            half,
        ) == 0,
        s.len() >= 1 && half <= mass(s) ==> reaches(s, half, weighted_median(s, half)),
{
    lemma_median_from(s, half, 0);
    if s.len() >= 1 && half <= mass(s) {
        assert(s.take(s.len() as int) =~= s);
        assert(reaches(s, half, s.len() - 1));
    }
}

impl ColorBox {
    /// The samples of `colors` that the box covers.
    pub open spec fn range(self, colors: Seq<ColorNode>) -> Seq<ColorNode> {
        colors.subrange(self.lower as int, self.upper as int)
    }

    /// The box's range lies inside `colors`.
    pub open spec fn within(self, colors: Seq<ColorNode>) -> bool {
        self.lower <= self.upper <= colors.len()
    }

    /// The number of samples in the box.
    pub open spec fn size(self) -> int {
        self.upper - self.lower
    }

    /// The box over `lower..upper` of `colors` with everything cached as the
    /// samples have it.
    pub open spec fn bounding(
        lower: usize,
        upper: usize,
        level: u32,
        colors: Seq<ColorNode>,
    ) -> ColorBox {
        let s = colors.subrange(lower as int, upper as int);
        ColorBox {
            lower,
            upper,
            level,
            count: mass(s) as usize,
            min_r: lowest(s, ColorDimension::Red),
            max_r: highest(s, ColorDimension::Red),
            min_g: lowest(s, ColorDimension::Green),
            max_g: highest(s, ColorDimension::Green),
            min_b: lowest(s, ColorDimension::Blue),
            max_b: highest(s, ColorDimension::Blue),
        }
    }

    /// What the box caches is what the samples in its range have: their mass,
    /// which fits the machine word, and the extremes of each channel.
    pub open spec fn trimmed(self, colors: Seq<ColorNode>) -> bool {
        &&& self.within(colors)
        &&& mass(self.range(colors)) <= usize::MAX
        &&& self == ColorBox::bounding(self.lower, self.upper, self.level, colors)
    }

    /// The cached least value of a channel.
    pub open spec fn low(self, dim: ColorDimension) -> u8 {
        match dim {
            ColorDimension::Red => self.min_r,
            ColorDimension::Green => self.min_g,
            ColorDimension::Blue => self.min_b,
        }
    }

    /// The cached greatest value of a channel.
    pub open spec fn high(self, dim: ColorDimension) -> u8 {
        match dim {
            ColorDimension::Red => self.max_r,
            ColorDimension::Green => self.max_g,
            ColorDimension::Blue => self.max_b,
        }
    }

    /// The cached extent of a channel: greatest minus least value.
    pub open spec fn spread(self, dim: ColorDimension) -> int {
        self.high(dim) - self.low(dim)
    }

    /// The channel of greatest extent. Where extents tie, blue goes before
    /// green and green before red.
    pub open spec fn longest_dimension(self) -> ColorDimension {
        let r = self.spread(ColorDimension::Red);
        let g = self.spread(ColorDimension::Green);
        let b = self.spread(ColorDimension::Blue);
        if b >= r && b >= g {
            ColorDimension::Blue
        } else if g >= r && g >= b {
            ColorDimension::Green
        } else {
            ColorDimension::Red
        }
    }

    /// The one colour that stands for the box: each channel is the mean of
    /// the samples' values weighted by their counts, rounded halves upwards,
    /// and the count is the mass of the box.
    pub open spec fn average(self, colors: Seq<ColorNode>) -> ColorNode {
        let s = self.range(colors);
        ColorNode::of_channels(
            rounded_mean(weighted_sum(s, ColorDimension::Red), mass(s)) as u8,
            rounded_mean(weighted_sum(s, ColorDimension::Green), mass(s)) as u8,
            rounded_mean(weighted_sum(s, ColorDimension::Blue), mass(s)) as u8,
            mass(s) as usize,
        )
    }

    /// The samples of `colors` after the box is cut: those of its range
    /// ordered by its longest channel.
    pub open spec fn cut_colors(self, colors: Seq<ColorNode>) -> Seq<ColorNode> {
        sorted_range(colors, self.lower as int, self.upper as int, self.longest_dimension())
    }

    /// The weighted median of the box: the first index of the array up to
    /// which the ordered samples of the box weigh at least half its cached
    /// mass, and the first index of the box where none does.
    pub open spec fn median(self, colors: Seq<ColorNode>) -> int {
        self.lower + weighted_median(
            sorted_by_channel(self.range(colors), self.longest_dimension()),
            (self.count / 2) as nat,
        )
    }

    /// Where the box is cut: just behind the weighted median, and before the
    /// last sample where the median is the last, so that the upper half holds
    /// a sample. The lower half ends here and the upper half begins.
    pub open spec fn cut(self, colors: Seq<ColorNode>) -> int {
        if self.median(colors) + 1 < self.upper {
            self.median(colors) + 1
        } else {
            self.upper - 1
        }
    }

    /// The half that keeps the lower samples, one level down.
    pub open spec fn lower_half(self, colors: Seq<ColorNode>) -> ColorBox {
        ColorBox::bounding(
            self.lower,
            self.cut(colors) as usize,
            (self.level + 1) as u32,
            self.cut_colors(colors),
        )
    }

    /// The half that takes the upper samples, one level down.
    pub open spec fn upper_half(self, colors: Seq<ColorNode>) -> ColorBox {
        ColorBox::bounding(
            self.cut(colors) as usize,
            self.upper,
            (self.level + 1) as u32,
            self.cut_colors(colors),
        )
    }

    /// What a cut does to a box of two samples or more. The array keeps its
    /// length and its mass, and changes only inside the box. The median is a
    /// sample of the box, and in a trimmed box the samples up to it weigh at
    /// least half the box. The cut falls strictly inside the box, so both
    /// halves hold a sample. Both halves are trimmed against the reordered
    /// array, and together they weigh what the samples of the box weigh.
    pub proof fn lemma_cut(self, colors: Seq<ColorNode>)
        requires
            self.within(colors),
            mass(self.range(colors)) <= usize::MAX,
            self.size() >= 2,
        ensures
            self.lower <= self.median(colors) < self.upper,
            self.trimmed(colors) ==> reaches(
                self.range(self.cut_colors(colors)),
                (self.count / 2) as nat,
                self.median(colors) - self.lower,
            ),
            self.lower < self.cut(colors) < self.upper,
            self.cut_colors(colors).len() == colors.len(),
            mass(self.cut_colors(colors)) == mass(colors),
            forall|i: int|
                0 <= i < self.lower || self.upper <= i < colors.len() ==> #[trigger] self.cut_colors(
                    colors,
                )[i] == colors[i],
            self.lower_half(colors).trimmed(self.cut_colors(colors)),
            self.upper_half(colors).trimmed(self.cut_colors(colors)),
            self.lower_half(colors).count + self.upper_half(colors).count == mass(
                self.range(colors),
            ),
            self.lower_half(colors).lower == self.lower,
            self.lower_half(colors).upper == self.cut(colors),
            self.upper_half(colors).lower == self.cut(colors),
            self.upper_half(colors).upper == self.upper,
            self.lower_half(colors).level == self.level + 1 || self.level == u32::MAX,
            self.upper_half(colors).level == self.level + 1 || self.level == u32::MAX,
    {
        let dim = self.longest_dimension();
        let after = self.cut_colors(colors);
        let (l, u, n) = (self.lower as int, self.upper as int, colors.len() as int);
        lemma_sorted_range_parts(colors, l, u, dim);
        lemma_weighted_median(sorted_by_channel(self.range(colors), dim), (self.count / 2) as nat);
        lemma_mass_of_parts(after, l, self.cut(colors), u);
        lemma_mass_of_parts(after, 0, l, u);
        lemma_mass_of_parts(after, 0, u, n);
        lemma_mass_of_parts(colors, 0, l, u);
        lemma_mass_of_parts(colors, 0, u, n);
        assert(after.subrange(0, l) =~= colors.subrange(0, l));
        assert(after.subrange(u, n) =~= colors.subrange(u, n));
        assert(after.subrange(0, n) =~= after);
        assert(colors.subrange(0, n) =~= colors);
    }

    /// The box over `lower..upper` of `colors`, trimmed.
    pub fn new(lower: usize, upper: usize, level: u32, colors: &Vec<ColorNode>) -> (b: ColorBox)
        requires
            lower <= upper <= colors.len(),
            mass(colors@.subrange(lower as int, upper as int)) <= usize::MAX,
        ensures
            b == ColorBox::bounding(lower, upper, level, colors@),
            b.trimmed(colors@),
    {
        let mut b = ColorBox {
            lower,
            upper,
            level,
            count: 0,
            min_r: 255,
            max_r: 0,
            min_g: 255,
            max_g: 0,
            min_b: 255,
            max_b: 0,
        };
        b.trim(colors);
        b
    }

    /// The number of samples in the box.
    pub fn color_count(&self) -> (n: usize)
        requires
            self.lower <= self.upper,
        ensures
            n == self.size(),
    {
        self.upper - self.lower
    }

    /// Recomputes what the box caches from the samples now in its range.
    pub fn trim(&mut self, colors: &Vec<ColorNode>)
        requires
            old(self).within(colors@),
            mass(old(self).range(colors@)) <= usize::MAX,
        ensures
            *final(self) == ColorBox::bounding(
                old(self).lower,
                old(self).upper,
                old(self).level,
                colors@,
            ),
            final(self).trimmed(colors@),
    {
        let lower = self.lower;
        let upper = self.upper;
        let mut min_r: u8 = 255;
        let mut max_r: u8 = 0;
        let mut min_g: u8 = 255;
        let mut max_g: u8 = 0;
        let mut min_b: u8 = 255;
        let mut max_b: u8 = 0;
        let mut count: usize = 0;
        let mut i: usize = lower;
        while i < upper
            invariant
                lower <= i <= upper <= colors.len(),
                mass(colors@.subrange(lower as int, upper as int)) <= usize::MAX,
                count == mass(colors@.subrange(lower as int, i as int)),
                min_r == lowest(colors@.subrange(lower as int, i as int), ColorDimension::Red),
                max_r == highest(colors@.subrange(lower as int, i as int), ColorDimension::Red),
                min_g == lowest(colors@.subrange(lower as int, i as int), ColorDimension::Green),
                max_g == highest(colors@.subrange(lower as int, i as int), ColorDimension::Green),
                min_b == lowest(colors@.subrange(lower as int, i as int), ColorDimension::Blue),
                max_b == highest(colors@.subrange(lower as int, i as int), ColorDimension::Blue),
            decreases upper - i,
        {
            let color = &colors[i];
            proof {
                lemma_subrange_step(colors@, lower as int, i as int);
                lemma_mass_of_parts(colors@, lower as int, i + 1, upper as int);
            }
            count += color.count;
            if color.red < min_r {
                min_r = color.red;
            }
            if color.red > max_r {
                max_r = color.red;
            }
            if color.green < min_g {
                min_g = color.green;
            }
            if color.green > max_g {
                max_g = color.green;
            }
            if color.blue < min_b {
                min_b = color.blue;
            }
            if color.blue > max_b {
                max_b = color.blue;
            }
            i += 1;
        }
        self.min_r = min_r;
        self.max_r = max_r;
        self.min_g = min_g;
        self.max_g = max_g;
        self.min_b = min_b;
        self.max_b = max_b;
        self.count = count;
    }

    /// The channel along which the box is cut: the one of greatest extent,
    /// blue before green before red where extents tie.
    pub fn get_longest_color_dimension(&self) -> (dim: ColorDimension)
        ensures
            dim == self.longest_dimension(),
    {
        let count_r: i32 = self.max_r as i32 - self.min_r as i32;
        let count_g: i32 = self.max_g as i32 - self.min_g as i32;
        let count_b: i32 = self.max_b as i32 - self.min_b as i32;
        if count_b >= count_r && count_b >= count_g {
            ColorDimension::Blue
        } else if count_g >= count_r && count_g >= count_b {
            ColorDimension::Green
        } else {
            ColorDimension::Red
        }
    }

    /// Cuts the box in two along its longest channel.
    ///
    /// A box of fewer than two samples is left alone and `None` comes back.
    /// Otherwise the samples of the box are ordered by that channel, the box
    /// keeps those up to and including the weighted median, and the box that
    /// comes back takes the rest. Where the median is the last sample of the
    /// box, that sample alone goes to the box that comes back. So both
    /// halves hold at least one sample; both are trimmed against the
    /// reordered array, and together they weigh what the samples of the box
    /// weigh. The channel and the median go by what the box has cached, so
    /// the box should be trimmed.
    pub fn split_box(&mut self, colors: &mut Vec<ColorNode>) -> (new_box: Option<ColorBox>)
        requires
            old(self).within(old(colors)@),
            mass(old(self).range(old(colors)@)) <= usize::MAX,
            old(self).level < u32::MAX,
        ensures
            old(self).size() < 2 ==> {
                &&& new_box is None
                &&& *final(self) == *old(self)
                &&& final(colors)@ == old(colors)@
            },
            old(self).size() >= 2 ==> {
                &&& final(colors)@ == old(self).cut_colors(old(colors)@)
                &&& *final(self) == old(self).lower_half(old(colors)@)
                &&& new_box == Some(old(self).upper_half(old(colors)@))
                &&& old(self).lower < old(self).cut(old(colors)@) < old(self).upper
                &&& final(self).trimmed(final(colors)@)
                &&& (new_box->0).trimmed(final(colors)@)
                &&& final(self).count + (new_box->0).count == mass(
                    old(self).range(old(colors)@),
                )
            },
    {
        if self.color_count() < 2 {
            None
        } else {
            let ghost before = colors@;
            let dim = self.get_longest_color_dimension();
            let med = self.find_median(dim, colors);
            proof {
                self.lemma_cut(before);
            }
            let cut = if med + 1 < self.upper {
                med + 1
            } else {
                self.upper - 1
            };
            let next_level = self.level + 1;
            let new_box = ColorBox::new(cut, self.upper, next_level, colors);
            self.upper = cut;
            self.level = next_level;
            self.trim(colors);
            Some(new_box)
        }
    }

    /// Orders the samples of the box by one channel and finds their weighted
    /// median: the first index up to which the samples of the box together
    /// weigh at least half its cached mass. Where no index of the box does,
    /// it is the first of the box.
    pub fn find_median(&self, dim: ColorDimension, colors: &mut Vec<ColorNode>) -> (median: usize)
        requires
            self.within(old(colors)@),
            mass(self.range(old(colors)@)) <= usize::MAX,
        ensures
            final(colors)@ == sorted_range(
                old(colors)@,
                self.lower as int,
                self.upper as int,
                dim,
            ),
            median == self.lower + weighted_median(
                sorted_by_channel(self.range(old(colors)@), dim),
                (self.count / 2) as nat,
            ),
            self.lower <= median,
            self.size() >= 1 ==> median < self.upper,
    {
        let lower = self.lower;
        let upper = self.upper;
        let ghost before = colors@;
        let ghost sorted = sorted_by_channel(self.range(before), dim);
        proof {
            lemma_sorted_range_parts(before, lower as int, upper as int, dim);
        }
        sort_range(colors, lower, upper, dim);
        let half = self.count / 2;
        let mut uses: usize = 0;
        let mut i: usize = lower;
        proof {
            lemma_weighted_median(sorted, half as nat);
        }
        while i < upper
            invariant
                lower <= i <= upper <= colors.len(),
                lower == self.lower,
                upper == self.upper,
                half == self.count / 2,
                before == old(colors)@,
                colors@ == sorted_range(before, lower as int, upper as int, dim),
                sorted == sorted_by_channel(self.range(before), dim),
                colors@.subrange(lower as int, upper as int) == sorted,
                sorted.len() == upper - lower,
                mass(sorted) <= usize::MAX,
                uses == mass(sorted.take(i - lower)),
                median_from(sorted, half as nat, i - lower) == weighted_median(sorted, half as nat),
            decreases upper - i,
        {
            proof {
                lemma_subrange_step(sorted, 0, i - lower);
                lemma_mass_of_parts(sorted, 0, i - lower + 1, sorted.len() as int);
                assert(sorted.subrange(0, sorted.len() as int) =~= sorted);
                assert(sorted[i - lower] == colors@[i as int]);
            }
            uses += colors[i].count;
            if uses >= half {
                assert(reaches(sorted, half as nat, i - lower));
                return i;
            }
            assert(!reaches(sorted, half as nat, i - lower));
            i += 1;
        }
        lower
    }

    /// The colour that stands for the box.
    pub fn get_average_color(&self, colors: &Vec<ColorNode>) -> (node: ColorNode)
        requires
            self.within(colors@),
            mass(self.range(colors@)) <= usize::MAX,
        ensures
            node == self.average(colors@),
            node.well_formed(),
            node.count == mass(self.range(colors@)),
    {
        let lower = self.lower;
        let upper = self.upper;
        let mut sum_r: u128 = 0;
        let mut sum_g: u128 = 0;
        let mut sum_b: u128 = 0;
        let mut n: usize = 0;
        let mut i: usize = lower;
        while i < upper
            invariant
                lower <= i <= upper <= colors.len(),
                mass(colors@.subrange(lower as int, upper as int)) <= usize::MAX,
                n == mass(colors@.subrange(lower as int, i as int)),
                sum_r == weighted_sum(colors@.subrange(lower as int, i as int), ColorDimension::Red),
                sum_g == weighted_sum(
                    colors@.subrange(lower as int, i as int),
                    ColorDimension::Green,
                ),
                sum_b == weighted_sum(
                    colors@.subrange(lower as int, i as int),
                    ColorDimension::Blue,
                ),
            decreases upper - i,
        {
            let color = &colors[i];
            let count: u128 = color.count as u128;
            proof {
                let next = colors@.subrange(lower as int, i + 1);
                lemma_subrange_step(colors@, lower as int, i as int);
                lemma_mass_of_parts(colors@, lower as int, i + 1, upper as int);
                lemma_weighted_sum_bound(next, ColorDimension::Red);
                lemma_weighted_sum_bound(next, ColorDimension::Green);
                lemma_weighted_sum_bound(next, ColorDimension::Blue);
            }
            sum_r += count * color.red as u128;
            sum_g += count * color.green as u128;
            sum_b += count * color.blue as u128;
            n += color.count;
            i += 1;
        }
        proof {
            let s = self.range(colors@);
            lemma_weighted_sum_bound(s, ColorDimension::Red);
            lemma_weighted_sum_bound(s, ColorDimension::Green);
            lemma_weighted_sum_bound(s, ColorDimension::Blue);
            lemma_rounded_mean_bound(weighted_sum(s, ColorDimension::Red), mass(s));
            lemma_rounded_mean_bound(weighted_sum(s, ColorDimension::Green), mass(s));
            lemma_rounded_mean_bound(weighted_sum(s, ColorDimension::Blue), mass(s));
        }
        let avg_r = round_mean(sum_r, n);
        let avg_g = round_mean(sum_g, n);
        let avg_b = round_mean(sum_b, n);
        ColorNode::from(avg_r, avg_g, avg_b, n)
    }
}

/// The mean `sum / n`, rounded halves upwards; 0 where `n` is 0.
pub fn round_mean(sum: u128, n: usize) -> (mean: u8)
    requires
        sum <= 255 * n,
    ensures
        mean == rounded_mean(sum as nat, n as nat),
{
    if n == 0 {
        0
    } else {
        proof {
            lemma_rounded_mean_bound(sum as nat, n as nat);
        }
        let twice: u128 = 2 * sum + n as u128;
        let mean: u128 = twice / (2 * n as u128);
        mean as u8
    }
}

} // verus!
