//! The state of a median cut: the sample array and the boxes that divide it,
//! how one cut changes them, and what stays true from cut to cut.
use vstd::prelude::*;

use crate::color_box::ColorBox;
use crate::median_cut::ColorNode;
use crate::tally::mass;

verus! {

/// The number of samples that the boxes hold together.
pub open spec fn sizes(boxes: Seq<ColorBox>) -> int
    decreases boxes.len(),
{
    if boxes.len() == 0 {
        0
    } else {
        sizes(boxes.drop_last()) + boxes.last().size()
    }
}

/// The mass that the boxes cache together.
pub open spec fn masses(boxes: Seq<ColorBox>) -> int
    decreases boxes.len(),
{
    if boxes.len() == 0 {
        0
    } else {
        masses(boxes.drop_last()) + boxes.last().count
    }
}

/// Two boxes share no sample.
pub open spec fn apart(a: ColorBox, b: ColorBox) -> bool {
    a.upper <= b.lower || b.upper <= a.lower
}

/// The boxes divide the array: each is trimmed against it and holds a sample,
/// no two share one, and together they hold all of them. The array's mass
/// fits the machine word, and no box lies deeper than there are boxes.
pub open spec fn tiled(colors: Seq<ColorNode>, boxes: Seq<ColorBox>) -> bool {
    &&& mass(colors) <= usize::MAX
    &&& forall|i: int|
        0 <= i < boxes.len() ==> {
            &&& (#[trigger] boxes[i]).trimmed(colors)
            &&& boxes[i].size() >= 1
            &&& boxes[i].level < boxes.len()
        }
    &&& forall|i: int, j: int|
        0 <= i < j < boxes.len() ==> apart(#[trigger] boxes[i], #[trigger] boxes[j])
    &&& sizes(boxes) == colors.len()
    &&& masses(boxes) == mass(colors)
}

/// Box `i` is the one to cut next: it holds two samples or more, no such box
/// lies higher, and of those at its level it is the first.
pub open spec fn is_next_box(boxes: Seq<ColorBox>, i: int) -> bool {
    &&& 0 <= i < boxes.len()
    &&& boxes[i].size() >= 2
    &&& forall|j: int|
        0 <= j < boxes.len() && (#[trigger] boxes[j]).size() >= 2 ==> boxes[i].level
            <= boxes[j].level
    &&& forall|j: int|
        0 <= j < i && (#[trigger] boxes[j]).size() >= 2 ==> boxes[i].level < boxes[j].level
}

/// The index of the box to cut next, if any box can be cut.
pub open spec fn next_box(boxes: Seq<ColorBox>) -> Option<int> {
    if exists|i: int| is_next_box(boxes, i) {
        Some(choose|i: int| is_next_box(boxes, i))
    } else {
        None
    }
}

/// The array and the boxes after box `i` is cut: the box keeps its lower
/// half, and the upper half goes to the end.
pub open spec fn split_at(colors: Seq<ColorNode>, boxes: Seq<ColorBox>, i: int) -> (
    Seq<ColorNode>,
    Seq<ColorBox>,
) {
    (
        boxes[i].cut_colors(colors),
        boxes.update(i, boxes[i].lower_half(colors)).push(boxes[i].upper_half(colors)),
    )
}

/// The array and the boxes once cutting has stopped: there are `k_max` boxes
/// or more, or no box is left that can be cut.
pub open spec fn refined(colors: Seq<ColorNode>, boxes: Seq<ColorBox>, k_max: nat) -> (
    Seq<ColorNode>,
    Seq<ColorBox>,
)
    decreases k_max - boxes.len(),
{
    if boxes.len() >= k_max {
        (colors, boxes)
    } else {
        match next_box(boxes) {
            None => (colors, boxes),
            Some(i) => {
                let (c, b) = split_at(colors, boxes, i);
                refined(c, b, k_max)
            },
        }
    }
}

/// The colours that stand for the boxes, box by box.
pub open spec fn averages(colors: Seq<ColorNode>, boxes: Seq<ColorBox>) -> Seq<ColorNode> {
    Seq::new(boxes.len(), |i: int| boxes[i].average(colors))
}

/// The single box over the whole array, at level 0.
pub open spec fn whole(colors: Seq<ColorNode>) -> ColorBox {
    ColorBox::bounding(0, colors.len() as usize, 0, colors)
}

/// At most `k_max` colours to stand for `colors`, and one where `k_max` is 0.
/// Few enough colours stand for themselves. Otherwise the array is cut into
/// boxes and each box gives its average.
pub open spec fn representatives(colors: Seq<ColorNode>, k_max: nat) -> Seq<ColorNode> {
    if colors.len() <= k_max {
        colors
    } else {
        let (c, b) = refined(colors, seq![whole(colors)], k_max);
        averages(c, b)
    }
}

/// Only one box is the next to cut.
pub proof fn lemma_next_box_unique(boxes: Seq<ColorBox>, i: int, j: int)
    requires
        is_next_box(boxes, i),
        is_next_box(boxes, j),
    ensures
        i == j,
{
}

/// `next_box` is the box that `is_next_box` points out, and it is `None`
/// exactly when no box holds two samples.
pub proof fn lemma_next_box(boxes: Seq<ColorBox>)
    ensures
        forall|i: int| is_next_box(boxes, i) ==> next_box(boxes) == Some(i),
        (forall|j: int| 0 <= j < boxes.len() ==> (#[trigger] boxes[j]).size() < 2) ==> next_box(
            boxes,
        ) is None,
{
    assert forall|i: int| is_next_box(boxes, i) implies next_box(boxes) == Some(i) by {
        lemma_next_box_unique(boxes, i, choose|k: int| is_next_box(boxes, k));
    }
}

proof fn lemma_sums_update(boxes: Seq<ColorBox>, i: int, a: ColorBox)
    requires
        0 <= i < boxes.len(),
    ensures
        sizes(boxes.update(i, a)) == sizes(boxes) - boxes[i].size() + a.size(),
        masses(boxes.update(i, a)) == masses(boxes) - boxes[i].count + a.count,
    decreases boxes.len(),
{
    if i == boxes.len() - 1 {
        assert(boxes.update(i, a).drop_last() =~= boxes.drop_last());
    } else {
        assert(boxes.update(i, a).drop_last() =~= boxes.drop_last().update(i, a));
        lemma_sums_update(boxes.drop_last(), i, a);
    }
}

/// Boxes of at most one sample each hold no more samples than there are
/// boxes.
pub proof fn lemma_sizes_of_small_boxes(boxes: Seq<ColorBox>)
    requires
        forall|j: int| 0 <= j < boxes.len() ==> (#[trigger] boxes[j]).size() < 2,
    ensures
        sizes(boxes) <= boxes.len(),
    decreases boxes.len(),
{
    if boxes.len() > 0 {
        assert forall|j: int| 0 <= j < boxes.drop_last().len() implies (#[trigger] boxes.drop_last()[j]).size()
            < 2 by {
            assert(boxes.drop_last()[j] == boxes[j]);
        }
        lemma_sizes_of_small_boxes(boxes.drop_last());
        assert(boxes[boxes.len() - 1].size() < 2);
    }
}

/// A box that is trimmed against an array is trimmed against any array that
/// agrees with it on the box's range.
pub proof fn lemma_trimmed_elsewhere(b: ColorBox, colors: Seq<ColorNode>, other: Seq<ColorNode>)
    requires
        b.trimmed(colors),
        other.len() == colors.len(),
        forall|i: int| b.lower <= i < b.upper ==> other[i] == colors[i],
    ensures
        b.trimmed(other),
{
    assert(b.range(other) =~= b.range(colors));
}

/// The single box over an array divides it.
pub proof fn lemma_whole_tiled(colors: Seq<ColorNode>)
    requires
        colors.len() >= 1,
        colors.len() <= usize::MAX,
        mass(colors) <= usize::MAX,
    ensures
        tiled(colors, seq![whole(colors)]),
{
    let boxes = seq![whole(colors)];
    assert(boxes.drop_last() =~= Seq::<ColorBox>::empty());
    assert(colors.subrange(0, colors.len() as int) =~= colors);
    assert(sizes(boxes) == sizes(boxes.drop_last()) + boxes.last().size());
    assert(masses(boxes) == masses(boxes.drop_last()) + boxes.last().count);
}

/// Any two different boxes of a divided array share no sample.
pub proof fn lemma_apart(colors: Seq<ColorNode>, boxes: Seq<ColorBox>, i: int, j: int)
    requires
        tiled(colors, boxes),
        0 <= i < boxes.len(),
        0 <= j < boxes.len(),
        i != j,
    ensures
        apart(boxes[i], boxes[j]),
{
    if i < j {
        assert(apart(boxes[i], boxes[j]));
    } else {
        assert(apart(boxes[j], boxes[i]));
    }
}

/// Cutting a box that holds two samples or more leaves the array divided,
/// with one box more, and keeps the array's length and mass.
pub proof fn lemma_split_keeps_tiling(colors: Seq<ColorNode>, boxes: Seq<ColorBox>, i: int)
    requires
        tiled(colors, boxes),
        0 <= i < boxes.len(),
        boxes[i].size() >= 2,
        boxes.len() < u32::MAX,
    ensures
        tiled(split_at(colors, boxes, i).0, split_at(colors, boxes, i).1),
        split_at(colors, boxes, i).0.len() == colors.len(),
        mass(split_at(colors, boxes, i).0) == mass(colors),
        split_at(colors, boxes, i).1.len() == boxes.len() + 1,
{
    let (after, next) = split_at(colors, boxes, i);
    let b = boxes[i];
    let lo = b.lower_half(colors);
    let hi = b.upper_half(colors);
    b.lemma_cut(colors);
    assert forall|j: int| 0 <= j < next.len() implies {
        &&& (#[trigger] next[j]).trimmed(after)
        &&& next[j].size() >= 1
        &&& next[j].level < next.len()
    } by {
        if j != i && j < boxes.len() {
            lemma_apart(colors, boxes, i, j);
            lemma_trimmed_elsewhere(boxes[j], colors, after);
        }
    }
    assert forall|j: int, k: int| 0 <= j < k < next.len() implies apart(
        #[trigger] next[j],
        #[trigger] next[k],
    ) by {
        if j != i && j < boxes.len() {
            lemma_apart(colors, boxes, i, j);
        }
        if k != i && k < boxes.len() {
            lemma_apart(colors, boxes, i, k);
        }
        if j < boxes.len() && k < boxes.len() {
            lemma_apart(colors, boxes, j, k);
        }
    }
    lemma_sums_update(boxes, i, lo);
    assert(next.drop_last() =~= boxes.update(i, lo));
}

/// Cutting goes on until there are `k_max` boxes, as long as the array has
/// that many samples; and it leaves the array divided, as long and as heavy
/// as it was.
pub proof fn lemma_refined(colors: Seq<ColorNode>, boxes: Seq<ColorBox>, k_max: nat)
    requires
        tiled(colors, boxes),
        k_max <= u32::MAX,
    ensures
        tiled(refined(colors, boxes, k_max).0, refined(colors, boxes, k_max).1),
        refined(colors, boxes, k_max).0.len() == colors.len(),
        mass(refined(colors, boxes, k_max).0) == mass(colors),
        boxes.len() <= k_max <= colors.len() ==> refined(colors, boxes, k_max).1.len() == k_max,
        boxes.len() >= k_max ==> refined(colors, boxes, k_max) == (colors, boxes),
    decreases k_max - boxes.len(),
{
    if boxes.len() < k_max {
        match next_box(boxes) {
            None => {
                if k_max <= colors.len() {
                    assert forall|j: int| 0 <= j < boxes.len() implies (#[trigger] boxes[j]).size()
                        < 2 by {
                        if boxes[j].size() >= 2 {
                            lemma_some_box_is_next(boxes, j);
                        }
                    }
                    lemma_sizes_of_small_boxes(boxes);
                }
            },
            Some(i) => {
                lemma_split_keeps_tiling(colors, boxes, i);
                let (c, b) = split_at(colors, boxes, i);
                lemma_refined(c, b, k_max);
            },
        }
    }
}

/// Where some box holds two samples or more, one box is the next to cut.
pub proof fn lemma_some_box_is_next(boxes: Seq<ColorBox>, j: int)
    requires
        0 <= j < boxes.len(),
        boxes[j].size() >= 2,
    ensures
        exists|i: int| is_next_box(boxes, i),
{
    let i = first_best(boxes, boxes.len() as int);
    lemma_first_best(boxes, boxes.len() as int);
    assert(is_next_box(boxes, i));
}

/// Among the first `n` boxes, the index of the first one of least level that
/// holds two samples or more; -1 where there is none.
pub open spec fn first_best(boxes: Seq<ColorBox>, n: int) -> int
    decreases n,
{
    if n <= 0 {
        -1
    } else {
        let best = first_best(boxes, n - 1);
        if boxes[n - 1].size() >= 2 && (best < 0 || boxes[n - 1].level < boxes[best].level) {
            n - 1
        } else {
            best
        }
    }
}

/// `first_best` is what its name says.
pub proof fn lemma_first_best(boxes: Seq<ColorBox>, n: int)
    requires
        0 <= n <= boxes.len(),
    ensures
        -1 <= first_best(boxes, n) < n,
        first_best(boxes, n) < 0 ==> forall|j: int| 0 <= j < n ==> (#[trigger] boxes[j]).size() < 2,
        first_best(boxes, n) >= 0 ==> {
            let i = first_best(boxes, n);
            &&& boxes[i].size() >= 2
            &&& forall|j: int|
                0 <= j < n && (#[trigger] boxes[j]).size() >= 2 ==> boxes[i].level <= boxes[j].level
            &&& forall|j: int|
                0 <= j < i && (#[trigger] boxes[j]).size() >= 2 ==> boxes[i].level < boxes[j].level
        },
    decreases n,
{
    if n > 0 {
        lemma_first_best(boxes, n - 1);
    }
}

/// The colours that stand for the boxes of a divided array are well formed
/// and weigh together what the array weighs.
pub proof fn lemma_averages(colors: Seq<ColorNode>, boxes: Seq<ColorBox>)
    requires
        forall|i: int| 0 <= i < boxes.len() ==> (#[trigger] boxes[i]).trimmed(colors),
    ensures
        averages(colors, boxes).len() == boxes.len(),
        mass(averages(colors, boxes)) == masses(boxes),
        forall|i: int|
            0 <= i < boxes.len() ==> (#[trigger] averages(colors, boxes)[i]).well_formed(),
    decreases boxes.len(),
{
    if boxes.len() > 0 {
        assert forall|i: int| 0 <= i < boxes.drop_last().len() implies (#[trigger] boxes.drop_last()[i]).trimmed(
            colors,
        ) by {
            assert(boxes.drop_last()[i] == boxes[i]);
        }
        lemma_averages(colors, boxes.drop_last());
        assert(averages(colors, boxes).drop_last() =~= averages(colors, boxes.drop_last()));
        assert(boxes[boxes.len() - 1].trimmed(colors));
    }
}

/// What the representatives are. An array of at most `k_max` colours stands
/// for itself. A longer one is reduced to exactly `k_max` colours, or to one
/// where `k_max` is 0, and these are well formed and weigh together what the
/// array weighs.
pub proof fn lemma_representatives(colors: Seq<ColorNode>, k_max: nat)
    requires
        colors.len() <= usize::MAX,
        mass(colors) <= usize::MAX,
        k_max <= u32::MAX,
    ensures
        colors.len() <= k_max ==> representatives(colors, k_max) == colors,
        colors.len() > k_max ==> {
            &&& representatives(colors, k_max).len() == if k_max == 0 {
                1
            } else {
                k_max
            }
            &&& mass(representatives(colors, k_max)) == mass(colors)
            &&& forall|i: int|
                0 <= i < representatives(colors, k_max).len() ==> (#[trigger] representatives(
                    colors,
                    k_max,
                )[i]).well_formed()
        },
{
    if colors.len() > k_max {
        let start = seq![whole(colors)];
        lemma_whole_tiled(colors);
        lemma_refined(colors, start, k_max);
        let (c, b) = refined(colors, start, k_max);
        lemma_averages(c, b);
    }
}

} // verus!
