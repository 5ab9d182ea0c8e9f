//! The order of a palette: by descending count, samples of equal count
//! staying in the order they had.
use vstd::prelude::*;
use vstd::seq_lib::{to_multiset_build, to_multiset_contains, to_multiset_insert};

use crate::median_cut::ColorNode;
use crate::tally::{lemma_mass_concat, mass};

verus! {

/// How many samples of `r` have a count of at least `count`.
pub open spec fn at_least(r: Seq<ColorNode>, count: int) -> int
    decreases r.len(),
{
    if r.len() == 0 {
        0
    } else if r.last().count >= count {
        at_least(r.drop_last(), count) + 1
    } else {
        at_least(r.drop_last(), count)
    }
}

/// The counts of `r` never rise from one sample to the next.
pub open spec fn descending(r: Seq<ColorNode>) -> bool {
    forall|i: int, j: int| 0 <= i <= j < r.len() ==> r[i].count >= r[j].count
}

/// `r` with `c` put in behind the samples that are at least as frequent.
pub open spec fn placed(r: Seq<ColorNode>, c: ColorNode) -> Seq<ColorNode> {
    r.insert(at_least(r, c.count as int), c)
}

/// `s` ordered by descending count. It is built by placing the samples of `s`
/// one after the other, so that of two samples with the same count the one
/// that came first in `s` comes first.
pub open spec fn by_descending_count(s: Seq<ColorNode>) -> Seq<ColorNode>
    decreases s.len(),
{
    if s.len() == 0 {
        Seq::empty()
    } else {
        placed(by_descending_count(s.drop_last()), s.last())
    }
}

/// `at_least` counts some of the samples.
pub proof fn lemma_at_least_bounds(r: Seq<ColorNode>, count: int)
    ensures
        0 <= at_least(r, count) <= r.len(),
    decreases r.len(),
{
    if r.len() > 0 {
        lemma_at_least_bounds(r.drop_last(), count);
    }
}

/// Where the first `p` samples have at least `count` and the others have
/// less, `at_least` is `p`.
pub proof fn lemma_at_least_is_boundary(r: Seq<ColorNode>, count: int, p: int)
    requires
        0 <= p <= r.len(),
        forall|j: int| 0 <= j < p ==> (#[trigger] r[j]).count >= count,
        forall|j: int| p <= j < r.len() ==> (#[trigger] r[j]).count < count,
    ensures
        at_least(r, count) == p,
    decreases r.len(),
{
    if r.len() > 0 {
        let t = r.drop_last();
        assert forall|j: int| 0 <= j < t.len() implies t[j] == r[j] by {}
        if p == r.len() {
            assert(r[r.len() - 1].count >= count);
            assert forall|j: int| 0 <= j < p - 1 implies (#[trigger] t[j]).count >= count by {
                assert(t[j] == r[j]);
            }
            lemma_at_least_is_boundary(t, count, p - 1);
        } else {
            assert(r[r.len() - 1].count < count);
            assert forall|j: int| 0 <= j < p implies (#[trigger] t[j]).count >= count by {
                assert(t[j] == r[j]);
            }
            assert forall|j: int| p <= j < t.len() implies (#[trigger] t[j]).count < count by {
                assert(t[j] == r[j]);
            }
            lemma_at_least_is_boundary(t, count, p);
        }
    }
}

/// In a descending sequence the samples that have at least `count` are the
/// first ones.
pub proof fn lemma_boundary_of_descending(r: Seq<ColorNode>, count: int)
    requires
        descending(r),
    ensures
        forall|j: int| 0 <= j < at_least(r, count) ==> (#[trigger] r[j]).count >= count,
        forall|j: int| at_least(r, count) <= j < r.len() ==> (#[trigger] r[j]).count < count,
    decreases r.len(),
{
    lemma_at_least_bounds(r, count);
    if r.len() > 0 {
        let t = r.drop_last();
        assert forall|i: int, j: int| 0 <= i <= j < t.len() implies t[i].count >= t[j].count by {
            assert(t[i] == r[i] && t[j] == r[j]);
        }
        lemma_boundary_of_descending(t, count);
        lemma_at_least_bounds(t, count);
        assert forall|j: int| 0 <= j < t.len() implies t[j] == r[j] by {}
        if r.last().count >= count {
            assert forall|j: int| 0 <= j < t.len() implies (#[trigger] t[j]).count >= count by {
                assert(r[j].count >= r[r.len() - 1].count);
            }
            lemma_at_least_is_boundary(t, count, t.len() as int);
        }
    }
}

/// Placing a sample in a descending sequence leaves it descending.
pub proof fn lemma_placed_descending(r: Seq<ColorNode>, c: ColorNode)
    requires
        descending(r),
    ensures
        descending(placed(r, c)),
        placed(r, c).len() == r.len() + 1,
{
    lemma_at_least_bounds(r, c.count as int);
    lemma_boundary_of_descending(r, c.count as int);
}

proof fn lemma_mass_insert(r: Seq<ColorNode>, p: int, c: ColorNode)
    requires
        0 <= p <= r.len(),
    ensures
        mass(r.insert(p, c)) == mass(r) + c.count,
{
    let head = r.subrange(0, p);
    let tail = r.subrange(p, r.len() as int);
    assert(r.insert(p, c) =~= head.push(c) + tail);
    assert(r =~= head + tail);
    assert(head.push(c).drop_last() =~= head);
    lemma_mass_concat(head.push(c), tail);
    lemma_mass_concat(head, tail);
}

/// The ordered palette descends in count and holds the samples that it was
/// given: as many, the same ones as often, and of the same mass.
pub proof fn lemma_by_descending_count(s: Seq<ColorNode>)
    ensures
        descending(by_descending_count(s)),
        by_descending_count(s).len() == s.len(),
        by_descending_count(s).to_multiset() == s.to_multiset(),
        mass(by_descending_count(s)) == mass(s),
    decreases s.len(),
{
    if s.len() == 0 {
        assert(s =~= Seq::<ColorNode>::empty());
    } else {
        let rest = by_descending_count(s.drop_last());
        lemma_by_descending_count(s.drop_last());
        lemma_placed_descending(rest, s.last());
        lemma_at_least_bounds(rest, s.last().count as int);
        lemma_mass_insert(rest, at_least(rest, s.last().count as int), s.last());
        to_multiset_insert(rest, at_least(rest, s.last().count as int), s.last());
        to_multiset_build(s.drop_last(), s.last());
        assert(s.drop_last().push(s.last()) =~= s);
    }
}

/// The samples of `s` whose count is `count`, in the order they have in `s`.
pub open spec fn counting(s: Seq<ColorNode>, count: int) -> Seq<ColorNode>
    decreases s.len(),
{
    if s.len() == 0 {
        Seq::empty()
    } else if s.last().count == count {
        counting(s.drop_last(), count).push(s.last())
    } else {
        counting(s.drop_last(), count)
    }
}

proof fn lemma_counting_concat(a: Seq<ColorNode>, b: Seq<ColorNode>, count: int)
    ensures
        counting(a + b, count) == counting(a, count) + counting(b, count),
    decreases b.len(),
{
    if b.len() == 0 {
        assert(a + b =~= a);
        assert(counting(a, count) + counting(b, count) =~= counting(a, count));
    } else {
        assert((a + b).drop_last() =~= a + b.drop_last());
        lemma_counting_concat(a, b.drop_last(), count);
        assert(counting(a + b, count) =~= counting(a, count) + counting(b, count));
    }
}

proof fn lemma_counting_none(s: Seq<ColorNode>, count: int)
    requires
        forall|i: int| 0 <= i < s.len() ==> (#[trigger] s[i]).count != count,
    ensures
        counting(s, count) == Seq::<ColorNode>::empty(),
    decreases s.len(),
{
    if s.len() > 0 {
        assert(s[s.len() - 1].count != count);
        assert forall|i: int| 0 <= i < s.drop_last().len() implies (#[trigger] s.drop_last()[i]).count
            != count by {
            assert(s.drop_last()[i] == s[i]);
        }
        lemma_counting_none(s.drop_last(), count);
    }
}

/// The order is stable: the samples that share a count stand in the ordered
/// palette as they stood before.
pub proof fn lemma_by_descending_count_is_stable(s: Seq<ColorNode>, count: int)
    ensures
        counting(by_descending_count(s), count) == counting(s, count),
    decreases s.len(),
{
    if s.len() > 0 {
        let rest = by_descending_count(s.drop_last());
        let c = s.last();
        let p = at_least(rest, c.count as int);
        lemma_by_descending_count_is_stable(s.drop_last(), count);
        lemma_by_descending_count(s.drop_last());
        lemma_at_least_bounds(rest, c.count as int);
        lemma_boundary_of_descending(rest, c.count as int);
        let head = rest.subrange(0, p);
        let tail = rest.subrange(p, rest.len() as int);
        assert(rest =~= head + tail);
        assert(rest.insert(p, c) =~= head.push(c) + tail);
        lemma_counting_concat(head, tail, count);
        lemma_counting_concat(head.push(c), tail, count);
        assert(head.push(c).drop_last() =~= head);
        if c.count == count {
            assert forall|i: int| 0 <= i < tail.len() implies (#[trigger] tail[i]).count
                != count by {
                assert(tail[i] == rest[p + i]);
            }
            lemma_counting_none(tail, count);
            assert(counting(rest.insert(p, c), count) =~= counting(rest, count).push(c));
        }
    }
}

/// The ordered palette holds a sample exactly when the sequence it was made
/// from holds it.
pub proof fn lemma_same_members(s: Seq<ColorNode>, c: ColorNode)
    ensures
        by_descending_count(s).contains(c) <==> s.contains(c),
{
    lemma_by_descending_count(s);
    to_multiset_contains(by_descending_count(s), c);
    to_multiset_contains(s, c);
}

/// `r` holds the samples of `s` in descending order of count, with the samples
/// that share a count in the order they have in `s`.
pub open spec fn is_stable_order(r: Seq<ColorNode>, s: Seq<ColorNode>) -> bool {
    &&& descending(r)
    &&& forall|count: int| #[trigger] counting(r, count) == counting(s, count)
}

proof fn lemma_counting_last(r: Seq<ColorNode>)
    requires
        r.len() > 0,
    ensures
        counting(r, r.last().count as int).len() > 0,
        counting(r, r.last().count as int).last() == r.last(),
        counting(r, r.last().count as int).drop_last() == counting(
            r.drop_last(),
            r.last().count as int,
        ),
        forall|count: int|
            count != r.last().count ==> #[trigger] counting(r, count) == counting(
                r.drop_last(),
                count,
            ),
{
    let rest = counting(r.drop_last(), r.last().count as int);
    assert(rest.push(r.last()).drop_last() =~= rest);
}

proof fn lemma_descending_drop_last(r: Seq<ColorNode>)
    requires
        descending(r),
        r.len() > 0,
    ensures
        descending(r.drop_last()),
        forall|i: int| 0 <= i < r.len() ==> (#[trigger] r[i]).count >= r.last().count,
{
    assert forall|i: int, j: int| 0 <= i <= j < r.drop_last().len() implies r.drop_last()[i].count
        >= r.drop_last()[j].count by {
        assert(r.drop_last()[i] == r[i] && r.drop_last()[j] == r[j]);
    }
}

/// Only one sequence is the stable descending order of a given one: two
/// descending sequences that agree, count by count, on the samples with that
/// count are the same sequence.
pub proof fn lemma_stable_order_unique(r1: Seq<ColorNode>, r2: Seq<ColorNode>)
    requires
        descending(r1),
        descending(r2),
        forall|count: int| #[trigger] counting(r1, count) == counting(r2, count),
    ensures
        r1 == r2,
    decreases r1.len(),
{
    if r1.len() == 0 {
        if r2.len() > 0 {
            lemma_counting_last(r2);
            assert(counting(r1, r2.last().count as int) == counting(r2, r2.last().count as int));
        }
        assert(r1 =~= r2);
    } else {
        let c1 = r1.last().count as int;
        lemma_counting_last(r1);
        lemma_descending_drop_last(r1);
        assert(counting(r1, c1) == counting(r2, c1));
        assert(r2.len() > 0);
        let c2 = r2.last().count as int;
        lemma_counting_last(r2);
        lemma_descending_drop_last(r2);
        assert(counting(r1, c2) == counting(r2, c2));
        if c1 < c2 {
            assert forall|i: int| 0 <= i < r2.len() implies (#[trigger] r2[i]).count != c1 by {}
            lemma_counting_none(r2, c1);
        } else if c2 < c1 {
            assert forall|i: int| 0 <= i < r1.len() implies (#[trigger] r1[i]).count != c2 by {}
            lemma_counting_none(r1, c2);
        }
        assert(c1 == c2);
        assert(r1.last() == r2.last());
        assert forall|count: int| #[trigger]
            counting(r1.drop_last(), count) == counting(r2.drop_last(), count) by {
            assert(counting(r1, count) == counting(r2, count));
        }
        lemma_stable_order_unique(r1.drop_last(), r2.drop_last());
        assert(r1 =~= r1.drop_last().push(r1.last()));
        assert(r2 =~= r2.drop_last().push(r2.last()));
    }
}

/// `by_descending_count` is the stable descending order, and what is the
/// stable descending order of `s` is `by_descending_count(s)`.
pub proof fn lemma_by_descending_count_is_stable_order(s: Seq<ColorNode>, r: Seq<ColorNode>)
    ensures
        is_stable_order(by_descending_count(s), s),
        is_stable_order(r, s) ==> r == by_descending_count(s),
{
    lemma_by_descending_count(s);
    assert forall|count: int| #[trigger]
        counting(by_descending_count(s), count) == counting(s, count) by {
        lemma_by_descending_count_is_stable(s, count);
    }
    if is_stable_order(r, s) {
        assert forall|count: int| #[trigger]
            counting(r, count) == counting(by_descending_count(s), count) by {
            assert(counting(r, count) == counting(s, count));
        }
        lemma_stable_order_unique(r, by_descending_count(s));
    }
}

/// Merges two descending sequences into one. Of samples with the same count
/// those of `a` go first.
fn merge_by_count(a: &Vec<ColorNode>, b: &Vec<ColorNode>) -> (out: Vec<ColorNode>)
    requires
        descending(a@),
        descending(b@),
    ensures
        is_stable_order(out@, a@ + b@),
{
    let mut out: Vec<ColorNode> = Vec::new();
    let mut i: usize = 0;
    let mut j: usize = 0;
    proof {
        assert forall|count: int| #[trigger]
            counting(out@, count) == counting(a@.take(0), count) + counting(
                b@.take(0),
                count,
            ) by {
            assert(a@.take(0) =~= Seq::<ColorNode>::empty());
            assert(b@.take(0) =~= Seq::<ColorNode>::empty());
            assert(out@ =~= Seq::<ColorNode>::empty());
            assert(counting(out@, count) =~= counting(a@.take(0), count) + counting(
                b@.take(0),
                count,
            ));
        }
    }
    while i < a.len() || j < b.len()
        invariant
            i <= a.len(),
            j <= b.len(),
            descending(a@),
            descending(b@),
            descending(out@),
            forall|k: int|
                0 <= k < out@.len() && i < a@.len() ==> (#[trigger] out@[k]).count >= a@[i as int].count,
            forall|k: int|
                0 <= k < out@.len() && j < b@.len() ==> (#[trigger] out@[k]).count >= b@[j as int].count,
            j > 0 && i < a@.len() ==> b@[j - 1].count > a@[i as int].count,
            forall|count: int| #[trigger]
                counting(out@, count) == counting(a@.take(i as int), count) + counting(
                    b@.take(j as int),
                    count,
                ),
        decreases a.len() - i + b.len() - j,
    {
        let ghost before = out@;
        if j >= b.len() || (i < a.len() && a[i].count >= b[j].count) {
            let c = a[i];
            out.push(c);
            proof {
                assert(a@.take(i + 1).drop_last() =~= a@.take(i as int));
                assert(before.push(c).drop_last() =~= before);
                assert forall|k: int| 0 <= k < b@.take(j as int).len() implies (#[trigger] b@.take(
                    j as int,
                )[k]).count != c.count by {
                    assert(b@[k].count >= b@[j - 1].count);
                }
                lemma_counting_none(b@.take(j as int), c.count as int);
                assert forall|count: int| #[trigger]
                    counting(out@, count) == counting(a@.take(i + 1), count) + counting(
                        b@.take(j as int),
                        count,
                    ) by {
                    assert(counting(before, count) == counting(a@.take(i as int), count)
                        + counting(b@.take(j as int), count));
                    assert(counting(out@, count) =~= counting(a@.take(i + 1), count) + counting(
                        b@.take(j as int),
                        count,
                    ));
                }
                assert forall|x: int, y: int| 0 <= x <= y < out@.len() implies out@[x].count
                    >= out@[y].count by {
                    if y < before.len() {
                        assert(before[x].count >= before[y].count);
                    } else if x < before.len() {
                        assert(before[x].count >= a@[i as int].count);
                    }
                }
            }
            i += 1;
            proof {
                assert forall|k: int| 0 <= k < out@.len() && i < a@.len() implies (#[trigger] out@[k]).count
                    >= a@[i as int].count by {
                    assert(a@[i - 1].count >= a@[i as int].count);
                    if k < before.len() {
                        assert(before[k].count >= a@[i - 1].count);
                    }
                }
                assert forall|k: int| 0 <= k < out@.len() && j < b@.len() implies (#[trigger] out@[k]).count
                    >= b@[j as int].count by {
                    if k < before.len() {
                        assert(before[k].count >= b@[j as int].count);
                    }
                }
                if j > 0 && i < a@.len() {
                    assert(a@[i - 1].count >= a@[i as int].count);
                }
            }
        } else {
            let c = b[j];
            out.push(c);
            proof {
                assert(b@.take(j + 1).drop_last() =~= b@.take(j as int));
                assert(before.push(c).drop_last() =~= before);
                assert forall|count: int| #[trigger]
                    counting(out@, count) == counting(a@.take(i as int), count) + counting(
                        b@.take(j + 1),
                        count,
                    ) by {
                    assert(counting(before, count) == counting(a@.take(i as int), count)
                        + counting(b@.take(j as int), count));
                    assert(counting(out@, count) =~= counting(a@.take(i as int), count) + counting(
                        b@.take(j + 1),
                        count,
                    ));
                }
                assert forall|x: int, y: int| 0 <= x <= y < out@.len() implies out@[x].count
                    >= out@[y].count by {
                    if y < before.len() {
                        assert(before[x].count >= before[y].count);
                    } else if x < before.len() {
                        assert(before[x].count >= b@[j as int].count);
                    }
                }
            }
            j += 1;
            proof {
                assert forall|k: int| 0 <= k < out@.len() && j < b@.len() implies (#[trigger] out@[k]).count
                    >= b@[j as int].count by {
                    assert(b@[j - 1].count >= b@[j as int].count);
                    if k < before.len() {
                        assert(before[k].count >= b@[j - 1].count);
                    }
                }
                assert forall|k: int| 0 <= k < out@.len() && i < a@.len() implies (#[trigger] out@[k]).count
                    >= a@[i as int].count by {
                    if k < before.len() {
                        assert(before[k].count >= a@[i as int].count);
                    }
                }
            }
        }
    }
    proof {
        assert(a@.take(i as int) =~= a@);
        assert(b@.take(j as int) =~= b@);
        assert forall|count: int| #[trigger] counting(out@, count) == counting(a@ + b@, count) by {
            lemma_counting_concat(a@, b@, count);
        }
    }
    out
}

/// The samples at `lo..hi` in stable descending order of count.
fn sorted_copy(colors: &Vec<ColorNode>, lo: usize, hi: usize) -> (out: Vec<ColorNode>)
    requires
        lo <= hi <= colors@.len(),
    ensures
        is_stable_order(out@, colors@.subrange(lo as int, hi as int)),
    decreases hi - lo,
{
    if hi - lo <= 1 {
        let mut out: Vec<ColorNode> = Vec::new();
        if lo < hi {
            out.push(colors[lo]);
        }
        assert(out@ =~= colors@.subrange(lo as int, hi as int));
        out
    } else {
        let mid = lo + (hi - lo) / 2;
        let a = sorted_copy(colors, lo, mid);
        let b = sorted_copy(colors, mid, hi);
        let out = merge_by_count(&a, &b);
        proof {
            let whole = colors@.subrange(lo as int, hi as int);
            let left = colors@.subrange(lo as int, mid as int);
            let right = colors@.subrange(mid as int, hi as int);
            assert(whole =~= left + right);
            assert forall|count: int| #[trigger] counting(out@, count) == counting(whole, count) by {
                assert(counting(out@, count) == counting(a@ + b@, count));
                lemma_counting_concat(a@, b@, count);
                lemma_counting_concat(left, right, count);
                assert(counting(a@, count) == counting(left, count));
                assert(counting(b@, count) == counting(right, count));
            }
        }
        out
    }
}

/// Orders samples by descending count. Samples of equal count keep their
/// order.
pub fn sort_by_count(colors: Vec<ColorNode>) -> (sorted: Vec<ColorNode>)
    ensures
        sorted@ == by_descending_count(colors@),
        is_stable_order(sorted@, colors@),
        sorted@.len() == colors@.len(),
        sorted@.to_multiset() == colors@.to_multiset(),
        mass(sorted@) == mass(colors@),
{
    let sorted = sorted_copy(&colors, 0, colors.len());
    proof {
        assert(colors@.subrange(0, colors@.len() as int) =~= colors@);
        lemma_by_descending_count_is_stable_order(colors@, sorted@);
        lemma_by_descending_count(colors@);
    }
    sorted
}

} // verus!
