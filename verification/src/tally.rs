//! Sums and extremes over a sequence of samples: the quantities that a box
//! of colours caches.
use vstd::prelude::*;

use crate::median_cut::{ColorDimension, ColorNode};

verus! {

/// The number of pixels that the samples of `s` stand for.
pub open spec fn mass(s: Seq<ColorNode>) -> nat
    decreases s.len(),
{
    if s.len() == 0 {
        0
    } else {
        mass(s.drop_last()) + s.last().count as nat
    }
}

/// The sum over `s` of count times channel value.
pub open spec fn weighted_sum(s: Seq<ColorNode>, dim: ColorDimension) -> nat
    decreases s.len(),
{
    if s.len() == 0 {
        0
    } else {
        weighted_sum(s.drop_last(), dim) + (s.last().count * s.last().channel(dim)) as nat
    }
}

/// The least value of a channel over `s`, and 255 where `s` is empty.
pub open spec fn lowest(s: Seq<ColorNode>, dim: ColorDimension) -> u8
    decreases s.len(),
{
    if s.len() == 0 {
        255
    } else if s.last().channel(dim) < lowest(s.drop_last(), dim) {
        s.last().channel(dim)
    } else {
        lowest(s.drop_last(), dim)
    }
}

/// The greatest value of a channel over `s`, and 0 where `s` is empty.
pub open spec fn highest(s: Seq<ColorNode>, dim: ColorDimension) -> u8
    decreases s.len(),
{
    if s.len() == 0 {
        0
    } else if s.last().channel(dim) > highest(s.drop_last(), dim) {
        s.last().channel(dim)
    } else {
        highest(s.drop_last(), dim)
    }
}

/// Extending a range by one sample puts that sample last.
pub proof fn lemma_subrange_step<A>(s: Seq<A>, from: int, to: int)
    requires
        0 <= from <= to < s.len(),
    ensures
        s.subrange(from, to + 1).drop_last() == s.subrange(from, to),
        s.subrange(from, to + 1).last() == s[to],
{
    assert(s.subrange(from, to + 1).drop_last() =~= s.subrange(from, to));
}

/// The mass of two sequences joined is the sum of their masses.
pub proof fn lemma_mass_concat(a: Seq<ColorNode>, b: Seq<ColorNode>)
    ensures
        mass(a + b) == mass(a) + mass(b),
    decreases b.len(),
{
    if b.len() == 0 {
        assert(a + b =~= a);
    } else {
        assert((a + b).drop_last() =~= a + b.drop_last());
        lemma_mass_concat(a, b.drop_last());
    }
}

/// The mass of a range is the sum of the masses of its two parts.
pub proof fn lemma_mass_of_parts(s: Seq<ColorNode>, from: int, mid: int, to: int)
    requires
        0 <= from <= mid <= to <= s.len(),
    ensures
        mass(s.subrange(from, to)) == mass(s.subrange(from, mid)) + mass(s.subrange(mid, to)),
{
    assert(s.subrange(from, to) =~= s.subrange(from, mid) + s.subrange(mid, to));
    lemma_mass_concat(s.subrange(from, mid), s.subrange(mid, to));
}

/// A weighted sum is at most 255 times the mass.
pub proof fn lemma_weighted_sum_bound(s: Seq<ColorNode>, dim: ColorDimension)
    ensures
        weighted_sum(s, dim) <= 255 * mass(s),
    decreases s.len(),
{
    if s.len() > 0 {
        lemma_weighted_sum_bound(s.drop_last(), dim);
        let c = s.last().count as int;
        let v = s.last().channel(dim) as int;
        assert(c * v <= 255 * c) by (nonlinear_arith)
            requires
                0 <= c,
                0 <= v <= 255,
        ;
    }
}

/// `lowest` is a lower bound of the channel, and some sample attains it.
pub proof fn lemma_lowest_is_minimum(s: Seq<ColorNode>, dim: ColorDimension)
    ensures
        forall|i: int| 0 <= i < s.len() ==> lowest(s, dim) <= (#[trigger] s[i]).channel(dim),
        s.len() > 0 ==> exists|i: int| 0 <= i < s.len() && (#[trigger] s[i]).channel(dim) == lowest(s, dim),
    decreases s.len(),
{
    if s.len() > 0 {
        let t = s.drop_last();
        lemma_lowest_is_minimum(t, dim);
        assert forall|i: int| 0 <= i < s.len() implies lowest(s, dim) <= (#[trigger] s[i]).channel(
            dim,
        ) by {
            if i < t.len() {
                assert(t[i] == s[i]);
            }
        }
        if s.last().channel(dim) < lowest(t, dim) || t.len() == 0 {
            assert(s[s.len() - 1].channel(dim) == lowest(s, dim));
        } else {
            let i = choose|i: int| 0 <= i < t.len() && (#[trigger] t[i]).channel(dim) == lowest(t, dim);
            assert(s[i].channel(dim) == lowest(s, dim));
        }
    }
}

/// `highest` is an upper bound of the channel, and some sample attains it.
pub proof fn lemma_highest_is_maximum(s: Seq<ColorNode>, dim: ColorDimension)
    ensures
        forall|i: int| 0 <= i < s.len() ==> highest(s, dim) >= (#[trigger] s[i]).channel(dim),
        s.len() > 0 ==> exists|i: int| 0 <= i < s.len() && (#[trigger] s[i]).channel(dim) == highest(s, dim),
    decreases s.len(),
{
    if s.len() > 0 {
        let t = s.drop_last();
        lemma_highest_is_maximum(t, dim);
        assert forall|i: int| 0 <= i < s.len() implies highest(s, dim) >= (#[trigger] s[i]).channel(
            dim,
        ) by {
            if i < t.len() {
                assert(t[i] == s[i]);
            }
        }
        if s.last().channel(dim) > highest(t, dim) || t.len() == 0 {
            assert(s[s.len() - 1].channel(dim) == highest(s, dim));
        } else {
            let i = choose|i: int| 0 <= i < t.len() && (#[trigger] t[i]).channel(dim) == highest(t, dim);
            assert(s[i].channel(dim) == highest(s, dim));
        }
    }
}

} // verus!
