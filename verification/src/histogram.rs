//! Counting the colours of a pixel buffer.
//!
//! A buffer holds four samples to a pixel: red, green, blue, alpha. Two
//! pixels have the same colour when red, green and blue agree; alpha takes no
//! part. The histogram lists each colour once, in the order in which the
//! colours first appear, with the number of pixels that have it.
use std::collections::HashMap;
use vstd::prelude::*;

use crate::median_cut::ColorNode;
use crate::packing::{lemma_unpack_pack_rgb, pack_rgb};
use crate::tally::mass;

verus! {

broadcast use vstd::std_specs::hash::group_hash_axioms;

/// The packed colour of pixel `i` of a buffer.
pub open spec fn pixel_key(samples: Seq<u8>, i: int) -> u32 {
    pack_rgb(samples[4 * i], samples[4 * i + 1], samples[4 * i + 2])
}

/// The packed colours of the pixels of a buffer, in order.
pub open spec fn pixel_keys(samples: Seq<u8>) -> Seq<u32> {
    Seq::new((samples.len() / 4) as nat, |i: int| pixel_key(samples, i))
}

/// How often `key` occurs in `keys`.
pub open spec fn occurrences(keys: Seq<u32>, key: u32) -> nat
    decreases keys.len(),
{
    if keys.len() == 0 {
        0
    } else if keys.last() == key {
        occurrences(keys.drop_last(), key) + 1
    } else {
        occurrences(keys.drop_last(), key)
    }
}

/// The keys of `keys` without repetition, each where it first occurs.
pub open spec fn distinct(keys: Seq<u32>) -> Seq<u32>
    decreases keys.len(),
{
    if keys.len() == 0 {
        Seq::empty()
    } else if distinct(keys.drop_last()).contains(keys.last()) {
        distinct(keys.drop_last())
    } else {
        distinct(keys.drop_last()).push(keys.last())
    }
}

/// The histogram of a sequence of packed colours: one sample for each
/// distinct colour, in order of first occurrence, counting its occurrences.
pub open spec fn histogram(keys: Seq<u32>) -> Seq<ColorNode> {
    Seq::new(
        distinct(keys).len(),
        |i: int| ColorNode::of_rgb(distinct(keys)[i], occurrences(keys, distinct(keys)[i]) as usize),
    )
}

/// The samples of `colors` count the colours of `keys`: every sample is well
/// formed and counts how often its colour occurs, which is at least once; no
/// colour has two samples; and every colour that occurs has one.
pub open spec fn counts_colors(colors: Seq<ColorNode>, keys: Seq<u32>) -> bool {
    &&& colors.len() == distinct(keys).len()
    &&& forall|i: int|
        0 <= i < colors.len() ==> {
            &&& (#[trigger] colors[i]).well_formed()
            &&& colors[i].count == occurrences(keys, colors[i].rgb)
            &&& colors[i].count > 0
        }
    &&& forall|i: int, j: int|
        0 <= i < j < colors.len() ==> (#[trigger] colors[i]).rgb != (#[trigger] colors[j]).rgb
    &&& forall|key: u32|
        occurrences(keys, key) > 0 ==> exists|i: int|
            0 <= i < colors.len() && (#[trigger] colors[i]).rgb == key
}

/// A key occurs no more often than there are keys.
pub proof fn lemma_occurrences_bound(keys: Seq<u32>, key: u32)
    ensures
        occurrences(keys, key) <= keys.len(),
    decreases keys.len(),
{
    if keys.len() > 0 {
        lemma_occurrences_bound(keys.drop_last(), key);
    }
}

/// `distinct` holds exactly the keys that occur, and none of them twice.
pub proof fn lemma_distinct(keys: Seq<u32>)
    ensures
        forall|key: u32| #[trigger] distinct(keys).contains(key) <==> occurrences(keys, key) > 0,
        distinct(keys).no_duplicates(),
        distinct(keys).len() <= keys.len(),
    decreases keys.len(),
{
    if keys.len() > 0 {
        let rest = distinct(keys.drop_last());
        let last = keys.last();
        lemma_distinct(keys.drop_last());
        if !rest.contains(last) {
            assert forall|key: u32| #[trigger] rest.push(last).contains(key) <==> occurrences(
                keys,
                key,
            ) > 0 by {
                if key == last {
                    assert(rest.push(last)[rest.len() as int] == key);
                } else if rest.contains(key) {
                    let i = choose|i: int| 0 <= i < rest.len() && rest[i] == key;
                    assert(rest.push(last)[i] == key);
                } else if rest.push(last).contains(key) {
                    let i = choose|i: int| 0 <= i < rest.push(last).len() && rest.push(last)[i] == key;
                    assert(rest[i] == key);
                }
            }
        }
    }
}

/// What one more key does to a histogram: a key seen before has its count
/// raised by one where it stands, and a new key goes to the end with a count
/// of one.
pub proof fn lemma_histogram_push(keys: Seq<u32>, key: u32)
    requires
        keys.len() < usize::MAX,
    ensures
        forall|i: int|
            0 <= i < distinct(keys).len() && #[trigger] distinct(keys)[i] == key ==> histogram(
                keys.push(key),
            ) == histogram(keys).update(
                i,
                histogram(keys)[i].with_count((histogram(keys)[i].count + 1) as usize),
            ) && histogram(keys)[i].count < usize::MAX,
        !distinct(keys).contains(key) ==> histogram(keys.push(key)) == histogram(keys).push(
            ColorNode::of_rgb(key, 1),
        ),
        distinct(keys.push(key)) == if distinct(keys).contains(key) {
            distinct(keys)
        } else {
            distinct(keys).push(key)
        },
{
    let more = keys.push(key);
    assert(more.drop_last() =~= keys);
    lemma_distinct(keys);
    assert forall|k: u32| occurrences(more, k) == occurrences(keys, k) + if k == key {
        1nat
    } else {
        0nat
    } by {}
    assert forall|k: u32| #[trigger] occurrences(keys, k) <= keys.len() by {
        lemma_occurrences_bound(keys, k);
    }
    if distinct(keys).contains(key) {
        assert forall|i: int|
            0 <= i < distinct(keys).len() && #[trigger] distinct(keys)[i] == key implies histogram(
            more,
        ) == histogram(keys).update(
            i,
            histogram(keys)[i].with_count((histogram(keys)[i].count + 1) as usize),
        ) && histogram(keys)[i].count < usize::MAX by {
            assert(histogram(more) =~= histogram(keys).update(
                i,
                histogram(keys)[i].with_count((histogram(keys)[i].count + 1) as usize),
            ));
        }
    } else {
        assert(occurrences(keys, key) == 0);
        assert(histogram(more) =~= histogram(keys).push(ColorNode::of_rgb(key, 1)));
    }
}

proof fn lemma_mass_update(s: Seq<ColorNode>, i: int, c: ColorNode)
    requires
        0 <= i < s.len(),
    ensures
        mass(s.update(i, c)) == mass(s) - s[i].count + c.count,
    decreases s.len(),
{
    if i == s.len() - 1 {
        assert(s.update(i, c).drop_last() =~= s.drop_last());
    } else {
        assert(s.update(i, c).drop_last() =~= s.drop_last().update(i, c));
        lemma_mass_update(s.drop_last(), i, c);
    }
}

/// A histogram weighs as much as there are keys: every pixel is counted once.
pub proof fn lemma_histogram_mass(keys: Seq<u32>)
    requires
        keys.len() <= usize::MAX,
    ensures
        mass(histogram(keys)) == keys.len(),
    decreases keys.len(),
{
    if keys.len() == 0 {
        assert(histogram(keys) =~= Seq::<ColorNode>::empty());
    } else {
        let rest = keys.drop_last();
        let key = keys.last();
        assert(rest.push(key) =~= keys);
        lemma_histogram_mass(rest);
        lemma_histogram_push(rest, key);
        if distinct(rest).contains(key) {
            let i = choose|i: int| 0 <= i < distinct(rest).len() && distinct(rest)[i] == key;
            lemma_mass_update(
                histogram(rest),
                i,
                histogram(rest)[i].with_count((histogram(rest)[i].count + 1) as usize),
            );
        } else {
            assert(histogram(rest).push(ColorNode::of_rgb(key, 1)).drop_last() =~= histogram(rest));
        }
    }
}

/// What a histogram says of the keys it was made from: each of its samples is
/// well formed and counts the occurrences of its colour, which are at least
/// one; no colour has two samples; and every key that occurs has a sample.
pub proof fn lemma_histogram_counts(keys: Seq<u32>)
    requires
        keys.len() <= usize::MAX,
    ensures
        histogram(keys).len() == distinct(keys).len(),
        forall|i: int|
            0 <= i < histogram(keys).len() && distinct(keys)[i] < 0x100_0000 ==> (#[trigger] histogram(
                keys,
            )[i]).rgb == distinct(keys)[i],
        forall|i: int|
            0 <= i < histogram(keys).len() ==> {
                &&& (#[trigger] histogram(keys)[i]).well_formed()
                &&& histogram(keys)[i].count == occurrences(keys, distinct(keys)[i])
                &&& histogram(keys)[i].count > 0
            },
        forall|i: int, j: int|
            0 <= i < j < histogram(keys).len() ==> distinct(keys)[i] != distinct(keys)[j],
        forall|key: u32|
            occurrences(keys, key) > 0 ==> exists|i: int|
                0 <= i < histogram(keys).len() && #[trigger] distinct(keys)[i] == key,
{
    lemma_distinct(keys);
    assert forall|i: int|
        0 <= i < histogram(keys).len() && distinct(keys)[i] < 0x100_0000 implies (#[trigger] histogram(
        keys,
    )[i]).rgb == distinct(keys)[i] by {
        crate::packing::lemma_pack_unpack_rgb(distinct(keys)[i]);
    }
    assert forall|i: int| 0 <= i < histogram(keys).len() implies {
        &&& (#[trigger] histogram(keys)[i]).well_formed()
        &&& histogram(keys)[i].count == occurrences(keys, distinct(keys)[i])
        &&& histogram(keys)[i].count > 0
    } by {
        lemma_occurrences_bound(keys, distinct(keys)[i]);
        assert(distinct(keys).contains(distinct(keys)[i]));
    }
    assert forall|key: u32| occurrences(keys, key) > 0 implies exists|i: int|
        0 <= i < histogram(keys).len() && #[trigger] distinct(keys)[i] == key by {
        assert(distinct(keys).contains(key));
    }
}

/// The packed colour of a pixel lies in the 24-bit range.
pub proof fn lemma_pixel_keys(samples: Seq<u8>)
    ensures
        pixel_keys(samples).len() == samples.len() / 4,
        forall|i: int|
            0 <= i < pixel_keys(samples).len() ==> #[trigger] pixel_keys(samples)[i] < 0x100_0000,
{
    assert forall|i: int| 0 <= i < pixel_keys(samples).len() implies #[trigger] pixel_keys(
        samples,
    )[i] < 0x100_0000 by {
        lemma_unpack_pack_rgb(samples[4 * i], samples[4 * i + 1], samples[4 * i + 2]);
    }
}

/// The histogram of a buffer counts the colours of its pixels.
pub proof fn lemma_histogram_counts_colors(samples: Seq<u8>)
    requires
        samples.len() <= usize::MAX,
    ensures
        counts_colors(histogram(pixel_keys(samples)), pixel_keys(samples)),
{
    let keys = pixel_keys(samples);
    let d = distinct(keys);
    lemma_pixel_keys(samples);
    lemma_distinct(keys);
    lemma_histogram_counts(keys);
    let h = histogram(keys);
    assert forall|i: int| 0 <= i < d.len() implies #[trigger] d[i] < 0x100_0000 by {
        assert(d.contains(d[i]));
        lemma_occurs(keys, d[i]);
    }
    assert forall|i: int| 0 <= i < h.len() implies {
        &&& (#[trigger] h[i]).well_formed()
        &&& h[i].count == occurrences(keys, h[i].rgb)
        &&& h[i].count > 0
    } by {
        assert(h[i].rgb == d[i]);
    }
    assert forall|i: int, j: int| 0 <= i < j < h.len() implies (#[trigger] h[i]).rgb != (
    #[trigger] h[j]).rgb by {
        assert(h[i].rgb == d[i] && h[j].rgb == d[j]);
    }
    assert forall|key: u32| occurrences(keys, key) > 0 implies exists|i: int|
        0 <= i < h.len() && (#[trigger] h[i]).rgb == key by {
        let i = choose|i: int| 0 <= i < h.len() && #[trigger] d[i] == key;
        assert(h[i].rgb == key);
    }
}

/// A key that occurs in a sequence is one of its elements.
pub proof fn lemma_occurs(keys: Seq<u32>, key: u32)
    requires
        occurrences(keys, key) > 0,
    ensures
        exists|i: int| 0 <= i < keys.len() && #[trigger] keys[i] == key,
    decreases keys.len(),
{
    if keys.last() == key {
        assert(keys[keys.len() - 1] == key);
    } else {
        lemma_occurs(keys.drop_last(), key);
        let i = choose|i: int| 0 <= i < keys.drop_last().len() && #[trigger] keys.drop_last()[i] == key;
        assert(keys[i] == key);
    }
}

/// Counts the colours of a buffer of RGBA pixels.
pub fn histogram_of(samples: &[u8]) -> (colors: Vec<ColorNode>)
    requires
        samples@.len() % 4 == 0,
    ensures
        colors@ == histogram(pixel_keys(samples@)),
        counts_colors(colors@, pixel_keys(samples@)),
        mass(colors@) == samples@.len() / 4,
        mass(colors@) <= usize::MAX,
{
    let ghost keys = pixel_keys(samples@);
    let n = samples.len() / 4;
    let mut index_of: HashMap<u32, usize> = HashMap::new();
    let mut colors: Vec<ColorNode> = Vec::new();
    let mut p: usize = 0;
    assert(keys.take(0) =~= Seq::<u32>::empty());
    assert(histogram(Seq::<u32>::empty()) =~= Seq::<ColorNode>::empty());
    while p < n
        invariant
            n == samples@.len() / 4,
            4 * n == samples@.len(),
            samples@.len() <= usize::MAX,
            keys == pixel_keys(samples@),
            p <= n,
            colors@ == histogram(keys.take(p as int)),
            forall|k: u32|
                index_of@.contains_key(k) <==> #[trigger] distinct(keys.take(p as int)).contains(k),
            forall|k: u32| #[trigger]
                index_of@.contains_key(k) ==> index_of@[k] < distinct(keys.take(p as int)).len()
                    && distinct(keys.take(p as int))[index_of@[k] as int] == k,
        decreases n - p,
    {
        let red = samples[4 * p];
        let green = samples[4 * p + 1];
        let blue = samples[4 * p + 2];
        let key = ColorNode::convert_rgb_to_u32(red, green, blue);
        let ghost seen = keys.take(p as int);
        proof {
            assert(keys[p as int] == key);
            assert(keys.take(p + 1) =~= seen.push(key));
            lemma_histogram_push(seen, key);
            lemma_unpack_pack_rgb(red, green, blue);
        }
        let found: Option<usize> = match index_of.get(&key) {
            Some(i) => Some(*i),
            None => None,
        };
        match found {
            Some(i) => {
                let node = colors[i];
                colors.set(
                    i,
                    ColorNode {
                        rgb: node.rgb,
                        red: node.red,
                        green: node.green,
                        blue: node.blue,
                        count: node.count + 1,
                    },
                );
            },
            None => {
                index_of.insert(key, colors.len());
                colors.push(ColorNode::from(red, green, blue, 1));
                proof {
                    let d = distinct(seen).push(key);
                    assert forall|k: u32|
                        index_of@.contains_key(k) <==> #[trigger] d.contains(k) by {
                        if k == key {
                            assert(d[d.len() - 1] == k);
                        } else if distinct(seen).contains(k) {
                            let j = choose|j: int| 0 <= j < distinct(seen).len() && distinct(seen)[j] == k;
                            assert(d[j] == k);
                        } else if d.contains(k) {
                            let j = choose|j: int| 0 <= j < d.len() && d[j] == k;
                            assert(distinct(seen)[j] == k);
                        }
                    }
                }
            },
        }
        p += 1;
    }
    proof {
        assert(keys.take(n as int) =~= keys);
        lemma_histogram_mass(keys);
        lemma_histogram_counts_colors(samples@);
    }
    colors
}

} // verus!
