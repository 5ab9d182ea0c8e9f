//! Ordering a range of samples by one channel, samples of equal value staying
//! in the order they had.
//!
//! A channel has 256 values, so the ordered sequence can be said outright:
//! first the samples whose channel is 0, in their old order, then those whose
//! channel is 1, and so on up to 255.
use vstd::prelude::*;
use vstd::seq_lib::{lemma_multiset_commutative, to_multiset_build, to_multiset_len};

use crate::median_cut::{ColorDimension, ColorNode};
use crate::tally::{lemma_mass_concat, lemma_subrange_step, mass};

verus! {

broadcast use vstd::multiset::group_multiset_axioms;

/// The samples of `s` whose channel is `value`, in the order they have in `s`.
pub open spec fn having(s: Seq<ColorNode>, dim: ColorDimension, value: int) -> Seq<ColorNode>
    decreases s.len(),
{
    if s.len() == 0 {
        Seq::empty()
    } else if s.last().channel(dim) == value {
        having(s.drop_last(), dim, value).push(s.last())
    } else {
        having(s.drop_last(), dim, value)
    }
}

/// The samples of `s` whose channel is less than `limit`, in the order they
/// have in `s`.
pub open spec fn under(s: Seq<ColorNode>, dim: ColorDimension, limit: int) -> Seq<ColorNode>
    decreases s.len(),
{
    if s.len() == 0 {
        Seq::empty()
    } else if s.last().channel(dim) < limit {
        under(s.drop_last(), dim, limit).push(s.last())
    } else {
        under(s.drop_last(), dim, limit)
    }
}

/// The samples of `s` whose channel is less than `limit`, ordered by that
/// channel; samples of equal value keep their order.
pub open spec fn below(s: Seq<ColorNode>, dim: ColorDimension, limit: int) -> Seq<ColorNode>
    decreases limit,
{
    if limit <= 0 {
        Seq::empty()
    } else {
        below(s, dim, limit - 1) + having(s, dim, limit - 1)
    }
}

/// `s` ordered by one channel, ascending; samples of equal value keep their
/// order.
pub open spec fn sorted_by_channel(s: Seq<ColorNode>, dim: ColorDimension) -> Seq<ColorNode> {
    below(s, dim, 256)
}

/// `colors` with the samples at `lower..upper` ordered by one channel and
/// every other sample where it was.
pub open spec fn sorted_range(
    colors: Seq<ColorNode>,
    lower: int,
    upper: int,
    dim: ColorDimension,
) -> Seq<ColorNode> {
    colors.subrange(0, lower) + sorted_by_channel(colors.subrange(lower, upper), dim)
        + colors.subrange(upper, colors.len() as int)
}

/// Every sample of `having(s, dim, value)` has that value.
pub proof fn lemma_having_channel(s: Seq<ColorNode>, dim: ColorDimension, value: int)
    ensures
        forall|i: int|
            0 <= i < having(s, dim, value).len() ==> (#[trigger] having(s, dim, value)[i]).channel(
                dim,
            ) == value,
    decreases s.len(),
{
    if s.len() > 0 {
        let rest = having(s.drop_last(), dim, value);
        lemma_having_channel(s.drop_last(), dim, value);
        assert forall|i: int| 0 <= i < having(s, dim, value).len() implies (#[trigger] having(
            s,
            dim,
            value,
        )[i]).channel(dim) == value by {
            if i < rest.len() {
                assert(having(s, dim, value)[i] == rest[i]);
            }
        }
    }
}

/// Where no sample has the value, `having` is empty.
pub proof fn lemma_having_none(s: Seq<ColorNode>, dim: ColorDimension, value: int)
    requires
        forall|i: int| 0 <= i < s.len() ==> (#[trigger] s[i]).channel(dim) != value,
    ensures
        having(s, dim, value) == Seq::<ColorNode>::empty(),
    decreases s.len(),
{
    if s.len() > 0 {
        assert(s[s.len() - 1].channel(dim) != value);
        assert forall|i: int| 0 <= i < s.drop_last().len() implies (#[trigger] s.drop_last()[i]).channel(
            dim,
        ) != value by {
            assert(s.drop_last()[i] == s[i]);
        }
        lemma_having_none(s.drop_last(), dim, value);
    }
}

/// Where every sample is at least `limit`, nothing lies below it.
pub proof fn lemma_below_none(s: Seq<ColorNode>, dim: ColorDimension, limit: int)
    requires
        forall|i: int| 0 <= i < s.len() ==> (#[trigger] s[i]).channel(dim) >= limit,
    ensures
        below(s, dim, limit) == Seq::<ColorNode>::empty(),
    decreases limit,
{
    if limit > 0 {
        lemma_below_none(s, dim, limit - 1);
        lemma_having_none(s, dim, limit - 1);
        assert(below(s, dim, limit) =~= Seq::<ColorNode>::empty());
    }
}

/// Where every sample is less than `limit`, raising the limit adds nothing.
pub proof fn lemma_below_saturates(s: Seq<ColorNode>, dim: ColorDimension, limit: int, more: int)
    requires
        forall|i: int| 0 <= i < s.len() ==> (#[trigger] s[i]).channel(dim) < limit,
        limit <= more,
    ensures
        below(s, dim, more) == below(s, dim, limit),
    decreases more - limit,
{
    if limit < more {
        lemma_below_saturates(s, dim, limit, more - 1);
        lemma_having_none(s, dim, more - 1);
        assert(below(s, dim, more) =~= below(s, dim, more - 1));
    }
}

proof fn lemma_mass_push(s: Seq<ColorNode>, c: ColorNode)
    ensures
        mass(s.push(c)) == mass(s) + c.count,
{
    assert(s.push(c).drop_last() =~= s);
}

/// Raising the limit of `under` by one adds the samples that have the old
/// limit as their value: as many, and as heavy.
proof fn lemma_under_step(s: Seq<ColorNode>, dim: ColorDimension, limit: int)
    ensures
        under(s, dim, limit + 1).len() == under(s, dim, limit).len() + having(s, dim, limit).len(),
        mass(under(s, dim, limit + 1)) == mass(under(s, dim, limit)) + mass(having(s, dim, limit)),
    decreases s.len(),
{
    if s.len() > 0 {
        let t = s.drop_last();
        let c = s.last();
        lemma_under_step(t, dim, limit);
        lemma_mass_push(under(t, dim, limit + 1), c);
        lemma_mass_push(under(t, dim, limit), c);
        lemma_mass_push(having(t, dim, limit), c);
    }
}

proof fn lemma_under_nothing(s: Seq<ColorNode>, dim: ColorDimension)
    ensures
        under(s, dim, 0) == Seq::<ColorNode>::empty(),
    decreases s.len(),
{
    if s.len() > 0 {
        lemma_under_nothing(s.drop_last(), dim);
    }
}

proof fn lemma_under_everything(s: Seq<ColorNode>, dim: ColorDimension)
    ensures
        under(s, dim, 256) == s,
    decreases s.len(),
{
    if s.len() > 0 {
        lemma_under_everything(s.drop_last(), dim);
        assert(s.drop_last().push(s.last()) =~= s);
    }
}

proof fn lemma_below_measures(s: Seq<ColorNode>, dim: ColorDimension, limit: int)
    requires
        0 <= limit,
    ensures
        below(s, dim, limit).len() == under(s, dim, limit).len(),
        mass(below(s, dim, limit)) == mass(under(s, dim, limit)),
    decreases limit,
{
    if limit == 0 {
        lemma_under_nothing(s, dim);
    } else {
        lemma_below_measures(s, dim, limit - 1);
        lemma_under_step(s, dim, limit - 1);
        lemma_mass_concat(below(s, dim, limit - 1), having(s, dim, limit - 1));
    }
}

/// Ordering keeps the number of samples and their mass.
pub proof fn lemma_sorted_measures(s: Seq<ColorNode>, dim: ColorDimension)
    ensures
        sorted_by_channel(s, dim).len() == s.len(),
        mass(sorted_by_channel(s, dim)) == mass(s),
{
    lemma_below_measures(s, dim, 256);
    lemma_under_everything(s, dim);
}

/// The samples below a limit come out in ascending order of the channel.
pub proof fn lemma_below_ordered(s: Seq<ColorNode>, dim: ColorDimension, limit: int)
    ensures
        forall|i: int|
            0 <= i < below(s, dim, limit).len() ==> (#[trigger] below(s, dim, limit)[i]).channel(dim)
                < limit,
        forall|i: int, j: int|
            0 <= i <= j < below(s, dim, limit).len() ==> (#[trigger] below(s, dim, limit)[i]).channel(
                dim,
            ) <= (#[trigger] below(s, dim, limit)[j]).channel(dim),
    decreases limit,
{
    if limit > 0 {
        lemma_below_ordered(s, dim, limit - 1);
        lemma_having_channel(s, dim, limit - 1);
        let a = below(s, dim, limit - 1);
        let b = having(s, dim, limit - 1);
        assert forall|i: int| 0 <= i < (a + b).len() implies (#[trigger] (a + b)[i]).channel(dim)
            < limit by {
            if i < a.len() {
                assert((a + b)[i] == a[i]);
            } else {
                assert((a + b)[i] == b[i - a.len()]);
            }
        }
        assert forall|i: int, j: int| 0 <= i <= j < (a + b).len() implies (#[trigger] (a + b)[i]).channel(
            dim,
        ) <= (#[trigger] (a + b)[j]).channel(dim) by {
            if j < a.len() {
                assert((a + b)[i] == a[i] && (a + b)[j] == a[j]);
            } else if i < a.len() {
                assert((a + b)[i] == a[i] && (a + b)[j] == b[j - a.len()]);
            } else {
                assert((a + b)[i] == b[i - a.len()] && (a + b)[j] == b[j - a.len()]);
            }
        }
    }
}

/// A sequence ordered by a channel ascends in that channel.
pub proof fn lemma_sorted_is_ordered(s: Seq<ColorNode>, dim: ColorDimension)
    ensures
        forall|i: int, j: int|
            0 <= i <= j < sorted_by_channel(s, dim).len() ==> (#[trigger] sorted_by_channel(
                s,
                dim,
            )[i]).channel(dim) <= (#[trigger] sorted_by_channel(s, dim)[j]).channel(dim),
{
    lemma_below_ordered(s, dim, 256);
}

proof fn lemma_under_step_members(s: Seq<ColorNode>, dim: ColorDimension, limit: int)
    ensures
        under(s, dim, limit + 1).to_multiset() == under(s, dim, limit).to_multiset().add(
            having(s, dim, limit).to_multiset(),
        ),
    decreases s.len(),
{
    if s.len() == 0 {
        to_multiset_len(Seq::<ColorNode>::empty());
        assert(under(s, dim, limit + 1).to_multiset() =~= under(s, dim, limit).to_multiset().add(
            having(s, dim, limit).to_multiset(),
        ));
    } else {
        let t = s.drop_last();
        let c = s.last();
        lemma_under_step_members(t, dim, limit);
        to_multiset_build(under(t, dim, limit + 1), c);
        to_multiset_build(under(t, dim, limit), c);
        to_multiset_build(having(t, dim, limit), c);
        assert(under(s, dim, limit + 1).to_multiset() =~= under(s, dim, limit).to_multiset().add(
            having(s, dim, limit).to_multiset(),
        ));
    }
}

proof fn lemma_below_members(s: Seq<ColorNode>, dim: ColorDimension, limit: int)
    requires
        0 <= limit,
    ensures
        below(s, dim, limit).to_multiset() == under(s, dim, limit).to_multiset(),
    decreases limit,
{
    if limit == 0 {
        lemma_under_nothing(s, dim);
    } else {
        lemma_below_members(s, dim, limit - 1);
        lemma_under_step_members(s, dim, limit - 1);
        lemma_multiset_commutative(below(s, dim, limit - 1), having(s, dim, limit - 1));
    }
}

/// Ordering neither adds nor drops a sample: the ordered sequence holds the
/// same samples, each as often.
pub proof fn lemma_sorted_is_permutation(s: Seq<ColorNode>, dim: ColorDimension)
    ensures
        sorted_by_channel(s, dim).to_multiset() == s.to_multiset(),
{
    lemma_below_members(s, dim, 256);
    lemma_under_everything(s, dim);
}

proof fn lemma_having_concat(a: Seq<ColorNode>, b: Seq<ColorNode>, dim: ColorDimension, value: int)
    ensures
        having(a + b, dim, value) == having(a, dim, value) + having(b, dim, value),
    decreases b.len(),
{
    if b.len() == 0 {
        assert(a + b =~= a);
        assert(having(a, dim, value) + having(b, dim, value) =~= having(a, dim, value));
    } else {
        assert((a + b).drop_last() =~= a + b.drop_last());
        lemma_having_concat(a, b.drop_last(), dim, value);
        assert(having(a + b, dim, value) =~= having(a, dim, value) + having(b, dim, value));
    }
}

proof fn lemma_having_twice(s: Seq<ColorNode>, dim: ColorDimension, first: int, then: int)
    ensures
        having(having(s, dim, first), dim, then) == if first == then {
            having(s, dim, first)
        } else {
            Seq::empty()
        },
    decreases s.len(),
{
    if s.len() > 0 {
        lemma_having_twice(s.drop_last(), dim, first, then);
        if s.last().channel(dim) == first {
            let rest = having(s.drop_last(), dim, first);
            assert(rest.push(s.last()).drop_last() =~= rest);
        }
    }
}

proof fn lemma_below_keeps_order(s: Seq<ColorNode>, dim: ColorDimension, limit: int, value: int)
    ensures
        having(below(s, dim, limit), dim, value) == if 0 <= value < limit {
            having(s, dim, value)
        } else {
            Seq::empty()
        },
    decreases limit,
{
    if limit > 0 {
        lemma_below_keeps_order(s, dim, limit - 1, value);
        lemma_having_concat(below(s, dim, limit - 1), having(s, dim, limit - 1), dim, value);
        lemma_having_twice(s, dim, limit - 1, value);
        assert(having(below(s, dim, limit), dim, value) =~= if 0 <= value < limit {
            having(s, dim, value)
        } else {
            Seq::empty()
        });
    }
}

/// Ordering is stable: the samples that share a value of the channel stand in
/// the ordered sequence as they stood before.
pub proof fn lemma_sorted_is_stable(s: Seq<ColorNode>, dim: ColorDimension, value: int)
    ensures
        having(sorted_by_channel(s, dim), dim, value) == having(s, dim, value),
{
    lemma_below_keeps_order(s, dim, 256, value);
    if !(0 <= value < 256) {
        lemma_having_none(s, dim, value);
    }
}

/// Ordering a range leaves the array as long as it was, puts the ordered
/// samples in the range and leaves the samples outside it alone.
pub proof fn lemma_sorted_range_parts(
    colors: Seq<ColorNode>,
    lower: int,
    upper: int,
    dim: ColorDimension,
)
    requires
        0 <= lower <= upper <= colors.len(),
    ensures
        sorted_range(colors, lower, upper, dim).len() == colors.len(),
        sorted_range(colors, lower, upper, dim).subrange(lower, upper) == sorted_by_channel(
            colors.subrange(lower, upper),
            dim,
        ),
        forall|i: int|
            0 <= i < lower || upper <= i < colors.len() ==> #[trigger] sorted_range(
                colors,
                lower,
                upper,
                dim,
            )[i] == colors[i],
        mass(sorted_range(colors, lower, upper, dim).subrange(lower, upper)) == mass(
            colors.subrange(lower, upper),
        ),
{
    lemma_sorted_measures(colors.subrange(lower, upper), dim);
    assert(sorted_range(colors, lower, upper, dim).subrange(lower, upper) =~= sorted_by_channel(
        colors.subrange(lower, upper),
        dim,
    ));
}

/// Orders the samples at `lower..upper` by one channel, ascending. Samples of
/// equal value keep their order, and samples outside the range stay where
/// they are.
pub fn sort_range(colors: &mut Vec<ColorNode>, lower: usize, upper: usize, dim: ColorDimension)
    requires
        lower <= upper <= old(colors).len(),
    ensures
        final(colors)@ == sorted_range(old(colors)@, lower as int, upper as int, dim),
{
    let ghost before = colors@;
    let ghost range = before.subrange(lower as int, upper as int);
    // the values that occur lie between `low` and `high`: no other needs a pass
    let mut low: u8 = 255;
    let mut high: u8 = 0;
    let mut i: usize = lower;
    while i < upper
        invariant
            lower <= i <= upper <= colors.len(),
            colors@ == before,
            forall|j: int| lower <= j < i ==> low <= (#[trigger] before[j]).channel(dim) <= high,
        decreases upper - i,
    {
        let value = colors[i].get_channel(dim);
        if value < low {
            low = value;
        }
        if value > high {
            high = value;
        }
        i += 1;
    }
    let mut sorted: Vec<ColorNode> = Vec::new();
    let mut value: u16 = low as u16;
    proof {
        assert forall|i: int| 0 <= i < range.len() implies (#[trigger] range[i]).channel(dim)
            >= low by {
            assert(range[i] == before[lower + i]);
        }
        lemma_below_none(range, dim, low as int);
    }
    while value <= high as u16
        invariant
            lower <= upper <= colors.len(),
            colors@ == before,
            range == before.subrange(lower as int, upper as int),
            low <= value <= 256,
            sorted@ == below(range, dim, value as int),
        decreases 256 - value,
    {
        let mut i: usize = lower;
        while i < upper
            invariant
                lower <= i <= upper <= colors.len(),
                colors@ == before,
                range == before.subrange(lower as int, upper as int),
                value < 256,
                sorted@ == below(range, dim, value as int) + having(
                    before.subrange(lower as int, i as int),
                    dim,
                    value as int,
                ),
            decreases upper - i,
        {
            let c = colors[i];
            proof {
                lemma_subrange_step(before, lower as int, i as int);
            }
            if c.get_channel(dim) as u16 == value {
                sorted.push(c);
                assert(sorted@ =~= below(range, dim, value as int) + having(
                    before.subrange(lower as int, i + 1),
                    dim,
                    value as int,
                ));
            }
            i += 1;
        }
        value += 1;
    }
    proof {
        assert forall|i: int| 0 <= i < range.len() implies (#[trigger] range[i]).channel(dim)
            < value by {
            assert(range[i] == before[lower + i]);
        }
        lemma_below_saturates(range, dim, value as int, 256);
        lemma_sorted_measures(range, dim);
    }
    let mut k: usize = 0;
    while k < sorted.len()
        invariant
            lower <= upper <= before.len(),
            colors@.len() == before.len(),
            sorted@.len() == upper - lower,
            k <= sorted@.len(),
            colors@ == before.subrange(0, lower as int) + sorted@.take(k as int) + before.subrange(
                lower + k,
                before.len() as int,
            ),
        decreases sorted.len() - k,
    {
        colors.set(lower + k, sorted[k]);
        k += 1;
        assert(colors@ =~= before.subrange(0, lower as int) + sorted@.take(k as int)
            + before.subrange(lower + k, before.len() as int));
    }
    assert(sorted@.take(k as int) =~= sorted@);
}

} // verus!
