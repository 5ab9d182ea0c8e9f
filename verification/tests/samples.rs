use reduced_color::arrange::sort_range;
use reduced_color::color_box::{round_mean, ColorBox};
use reduced_color::histogram::histogram_of;
use reduced_color::median_cut::{reduce_colors, ColorDimension, ColorNode};
use reduced_color::ranking::sort_by_count;
use reduced_color::MedianCut;

fn fields(c: &ColorNode) -> (u8, u8, u8, usize) {
    (c.red, c.green, c.blue, c.count)
}

fn all_fields(colors: &[ColorNode]) -> Vec<(u8, u8, u8, usize)> {
    colors.iter().map(fields).collect()
}

#[test]
fn sample_packs_red_highest() {
    assert_eq!(ColorNode::convert_rgb_to_u32(0x11, 0x22, 0x33), 0x0011_2233);
    let node = ColorNode::from(0x11, 0x22, 0x33, 9);
    assert_eq!(node.rgb, 0x0011_2233);
    assert_eq!(fields(&node), (0x11, 0x22, 0x33, 9));
}

#[test]
fn from_rgb_unpacks_what_from_packs() {
    let node = ColorNode::from_rgb(0x0011_2233, 4);
    assert_eq!(fields(&node), (0x11, 0x22, 0x33, 4));
    assert_eq!(node.rgb, 0x0011_2233);
    for (r, g, b) in [(0u8, 0u8, 0u8), (255, 255, 255), (1, 2, 3), (255, 0, 128), (0, 255, 7)] {
        let packed = ColorNode::convert_rgb_to_u32(r, g, b);
        let back = ColorNode::from_rgb(packed, 1);
        assert_eq!(fields(&back), (r, g, b, 1));
        assert_eq!(back.rgb, packed);
    }
}

#[test]
fn from_rgb_ignores_the_high_byte() {
    let node = ColorNode::from_rgb(0xab11_2233, 1);
    assert_eq!(fields(&node), (0x11, 0x22, 0x33, 1));
    assert_eq!(node.rgb, 0x0011_2233);
}

#[test]
fn samples_are_equal_by_colour_alone() {
    assert!(ColorNode::from(1, 2, 3, 10) == ColorNode::from(1, 2, 3, 99));
    assert!(ColorNode::from(1, 2, 3, 10) != ColorNode::from(1, 2, 4, 10));
}

#[test]
fn sample_distance_and_channels() {
    let a = ColorNode::from(10, 20, 30, 1);
    let b = ColorNode::from(13, 16, 30, 5);
    assert_eq!(a.distance2(&b), 25);
    assert_eq!(b.distance2(&a), 25);
    assert_eq!(a.distance2(&a), 0);
    assert_eq!(a.get_channel(ColorDimension::Red), 10);
    assert_eq!(a.get_channel(ColorDimension::Green), 20);
    assert_eq!(a.get_channel(ColorDimension::Blue), 30);
}

#[test]
fn trim_caches_extent_and_mass() {
    let colors = vec![
        ColorNode::from(9, 9, 9, 100),
        ColorNode::from(10, 200, 30, 2),
        ColorNode::from(40, 100, 20, 3),
        ColorNode::from(25, 150, 90, 5),
        ColorNode::from(0, 0, 0, 100),
    ];
    let b = ColorBox::new(1, 4, 3, &colors);
    assert_eq!((b.lower, b.upper, b.level, b.count), (1, 4, 3, 10));
    assert_eq!((b.min_r, b.max_r), (10, 40));
    assert_eq!((b.min_g, b.max_g), (100, 200));
    assert_eq!((b.min_b, b.max_b), (20, 90));
    assert_eq!(b.color_count(), 3);

    let mut stale = ColorBox { lower: 0, upper: 2, ..b };
    stale.trim(&colors);
    assert_eq!(stale.count, 102);
    assert_eq!((stale.min_r, stale.max_r), (9, 10));
    assert_eq!(stale.level, 3);
}

#[test]
fn an_empty_box_has_no_extent() {
    let colors = vec![ColorNode::from(1, 2, 3, 4)];
    let b = ColorBox::new(1, 1, 0, &colors);
    assert_eq!(b.count, 0);
    assert_eq!((b.min_r, b.max_r, b.min_g, b.max_g, b.min_b, b.max_b), (255, 0, 255, 0, 255, 0));
    assert_eq!(b.color_count(), 0);
}

fn box_with_spreads(r: u8, g: u8, b: u8) -> ColorBox {
    let colors = vec![ColorNode::from(0, 0, 0, 1), ColorNode::from(r, g, b, 1)];
    ColorBox::new(0, 2, 0, &colors)
}

#[test]
fn longest_dimension_prefers_blue_then_green() {
    assert_eq!(box_with_spreads(10, 10, 10).get_longest_color_dimension(), ColorDimension::Blue);
    assert_eq!(box_with_spreads(5, 10, 10).get_longest_color_dimension(), ColorDimension::Blue);
    assert_eq!(box_with_spreads(10, 5, 10).get_longest_color_dimension(), ColorDimension::Blue);
    assert_eq!(box_with_spreads(10, 10, 5).get_longest_color_dimension(), ColorDimension::Green);
    assert_eq!(box_with_spreads(3, 10, 5).get_longest_color_dimension(), ColorDimension::Green);
    assert_eq!(box_with_spreads(10, 5, 5).get_longest_color_dimension(), ColorDimension::Red);
    assert_eq!(box_with_spreads(0, 0, 0).get_longest_color_dimension(), ColorDimension::Blue);
    assert_eq!(box_with_spreads(0, 0, 1).get_longest_color_dimension(), ColorDimension::Blue);
    assert_eq!(box_with_spreads(0, 1, 0).get_longest_color_dimension(), ColorDimension::Green);
    assert_eq!(box_with_spreads(1, 0, 0).get_longest_color_dimension(), ColorDimension::Red);
}

#[test]
fn blue_extent_is_greatest_minus_least() {
    let colors = vec![ColorNode::from(0, 0, 100, 1), ColorNode::from(50, 0, 200, 1)];
    let b = ColorBox::new(0, 2, 0, &colors);
    assert_eq!((b.min_b, b.max_b), (100, 200));
    assert_eq!(b.get_longest_color_dimension(), ColorDimension::Blue);
    let colors = vec![ColorNode::from(0, 0, 100, 1), ColorNode::from(150, 0, 200, 1)];
    let b = ColorBox::new(0, 2, 0, &colors);
    assert_eq!(b.get_longest_color_dimension(), ColorDimension::Red);
}

#[test]
fn sort_range_is_stable_and_ascending() {
    let mut colors = vec![
        ColorNode::from(5, 0, 0, 1),
        ColorNode::from(3, 0, 0, 2),
        ColorNode::from(5, 0, 0, 3),
        ColorNode::from(1, 0, 0, 4),
        ColorNode::from(3, 0, 0, 5),
    ];
    sort_range(&mut colors, 0, 5, ColorDimension::Red);
    assert_eq!(
        all_fields(&colors),
        vec![(1, 0, 0, 4), (3, 0, 0, 2), (3, 0, 0, 5), (5, 0, 0, 1), (5, 0, 0, 3)]
    );
}

#[test]
fn sort_range_leaves_the_rest_alone() {
    let mut colors = vec![
        ColorNode::from(0, 9, 0, 1),
        ColorNode::from(0, 7, 0, 2),
        ColorNode::from(0, 8, 0, 3),
        ColorNode::from(0, 2, 0, 4),
        ColorNode::from(0, 1, 0, 5),
    ];
    sort_range(&mut colors, 1, 4, ColorDimension::Green);
    assert_eq!(
        all_fields(&colors),
        vec![(0, 9, 0, 1), (0, 2, 0, 4), (0, 7, 0, 2), (0, 8, 0, 3), (0, 1, 0, 5)]
    );
    sort_range(&mut colors, 2, 2, ColorDimension::Green);
    assert_eq!(colors.len(), 5);
    assert_eq!(fields(&colors[2]), (0, 7, 0, 2));
}

#[test]
fn sort_range_by_each_channel() {
    let mut colors = vec![
        ColorNode::from(0, 255, 7, 1),
        ColorNode::from(255, 0, 0, 2),
        ColorNode::from(128, 128, 255, 3),
    ];
    sort_range(&mut colors, 0, 3, ColorDimension::Blue);
    assert_eq!(all_fields(&colors), vec![(255, 0, 0, 2), (0, 255, 7, 1), (128, 128, 255, 3)]);
    sort_range(&mut colors, 0, 3, ColorDimension::Green);
    assert_eq!(all_fields(&colors), vec![(255, 0, 0, 2), (128, 128, 255, 3), (0, 255, 7, 1)]);
    sort_range(&mut colors, 0, 3, ColorDimension::Red);
    assert_eq!(all_fields(&colors), vec![(0, 255, 7, 1), (128, 128, 255, 3), (255, 0, 0, 2)]);
}

#[test]
fn median_is_first_index_that_reaches_half() {
    let mut colors = vec![
        ColorNode::from(40, 0, 0, 1),
        ColorNode::from(10, 0, 0, 1),
        ColorNode::from(20, 0, 0, 5),
        ColorNode::from(30, 0, 0, 1),
    ];
    let b = ColorBox::new(0, 4, 0, &colors);
    assert_eq!(b.count, 8);
    let median = b.find_median(ColorDimension::Red, &mut colors);
    assert_eq!(
        all_fields(&colors),
        vec![(10, 0, 0, 1), (20, 0, 0, 5), (30, 0, 0, 1), (40, 0, 0, 1)]
    );
    assert_eq!(median, 1);
}

#[test]
fn median_can_be_the_last_sample() {
    let mut colors = vec![ColorNode::from(2, 0, 0, 10), ColorNode::from(1, 0, 0, 1)];
    let b = ColorBox::new(0, 2, 0, &colors);
    // in channel order the samples count 1 and 10; half of 11 is 5
    assert_eq!(b.find_median(ColorDimension::Red, &mut colors), 1);
    assert_eq!(all_fields(&colors), vec![(1, 0, 0, 1), (2, 0, 0, 10)]);

    let mut colors = vec![
        ColorNode::from(1, 0, 0, 1),
        ColorNode::from(2, 0, 0, 1),
        ColorNode::from(3, 0, 0, 100),
    ];
    let b = ColorBox::new(0, 3, 0, &colors);
    // 1 and 1 + 1 stay under 51
    assert_eq!(b.find_median(ColorDimension::Red, &mut colors), 2);
}

#[test]
fn median_counts_from_the_start_of_the_box() {
    let mut colors = vec![
        ColorNode::from(9, 9, 9, 50),
        ColorNode::from(1, 0, 0, 1),
        ColorNode::from(2, 0, 0, 3),
        ColorNode::from(3, 0, 0, 100),
    ];
    let b = ColorBox::new(1, 4, 0, &colors);
    assert_eq!(b.count, 104);
    // 1 and 1 + 3 stay under 52; the sample before the box does not count
    assert_eq!(b.find_median(ColorDimension::Red, &mut colors), 3);
    let b = ColorBox::new(1, 3, 0, &colors);
    // half of 4 is 2, reached with 1 + 3
    assert_eq!(b.find_median(ColorDimension::Red, &mut colors), 2);
}

#[test]
fn median_falls_back_to_the_first_sample() {
    let mut colors = vec![
        ColorNode::from(9, 9, 9, 50),
        ColorNode::from(3, 0, 0, 1),
        ColorNode::from(2, 0, 0, 1),
        ColorNode::from(1, 0, 0, 1),
    ];
    // a stale box: it caches more than twice what its samples weigh
    let stale = ColorBox { count: 1000, ..ColorBox::new(1, 4, 0, &colors) };
    assert_eq!(stale.find_median(ColorDimension::Red, &mut colors), 1);
    assert_eq!(
        all_fields(&colors),
        vec![(9, 9, 9, 50), (1, 0, 0, 1), (2, 0, 0, 1), (3, 0, 0, 1)]
    );
    let empty = ColorBox::new(2, 2, 0, &colors);
    assert_eq!(empty.find_median(ColorDimension::Red, &mut colors), 2);
    let mut none: Vec<ColorNode> = Vec::new();
    assert_eq!(ColorBox::new(0, 0, 0, &none).find_median(ColorDimension::Blue, &mut none), 0);
}

#[test]
fn split_leaves_a_sample_on_both_sides() {
    let mut colors = vec![ColorNode::from(2, 0, 0, 10), ColorNode::from(1, 0, 0, 1)];
    let mut b = ColorBox::new(0, 2, 0, &colors);
    let new_box = b.split_box(&mut colors).expect("a box of two samples can be cut");
    // the median is the last sample, which goes to the new box alone
    assert_eq!(all_fields(&colors), vec![(1, 0, 0, 1), (2, 0, 0, 10)]);
    assert_eq!((b.lower, b.upper, b.level, b.count), (0, 1, 1, 1));
    assert_eq!((new_box.lower, new_box.upper, new_box.level, new_box.count), (1, 2, 1, 10));

    let mut colors = vec![
        ColorNode::from(1, 0, 0, 1),
        ColorNode::from(2, 0, 0, 1),
        ColorNode::from(3, 0, 0, 100),
    ];
    let mut b = ColorBox::new(0, 3, 0, &colors);
    let new_box = b.split_box(&mut colors).expect("a box of three samples can be cut");
    assert_eq!((b.lower, b.upper, b.count), (0, 2, 2));
    assert_eq!((new_box.lower, new_box.upper, new_box.count), (2, 3, 100));

    let mut colors = vec![
        ColorNode::from(1, 0, 0, 100),
        ColorNode::from(2, 0, 0, 1),
        ColorNode::from(3, 0, 0, 1),
    ];
    let mut b = ColorBox::new(0, 3, 0, &colors);
    let new_box = b.split_box(&mut colors).expect("a box of three samples can be cut");
    assert_eq!((b.lower, b.upper, b.count), (0, 1, 100));
    assert_eq!((new_box.lower, new_box.upper, new_box.count), (1, 3, 2));
}

#[test]
fn split_keeps_the_median_in_the_lower_half() {
    let mut colors = vec![
        ColorNode::from(255, 0, 0, 2),
        ColorNode::from(0, 255, 0, 1),
        ColorNode::from(0, 0, 255, 1),
    ];
    let mut b = ColorBox::new(0, 3, 0, &colors);
    assert_eq!(b.get_longest_color_dimension(), ColorDimension::Blue);
    let new_box = b.split_box(&mut colors).expect("a box of three samples can be cut");
    assert_eq!(all_fields(&colors), vec![(255, 0, 0, 2), (0, 255, 0, 1), (0, 0, 255, 1)]);
    assert_eq!((b.lower, b.upper, b.level, b.count), (0, 1, 1, 2));
    assert_eq!((b.min_r, b.max_r, b.min_g, b.max_g, b.min_b, b.max_b), (255, 255, 0, 0, 0, 0));
    assert_eq!(
        (new_box.lower, new_box.upper, new_box.level, new_box.count),
        (1, 3, 1, 2)
    );
    assert_eq!(
        (new_box.min_r, new_box.max_r, new_box.min_g, new_box.max_g, new_box.min_b, new_box.max_b),
        (0, 0, 0, 255, 0, 255)
    );
}

#[test]
fn split_reorders_only_its_own_range() {
    let mut colors = vec![
        ColorNode::from(200, 0, 0, 9),
        ColorNode::from(90, 0, 0, 1),
        ColorNode::from(30, 0, 0, 1),
        ColorNode::from(60, 0, 0, 1),
        ColorNode::from(100, 0, 0, 9),
    ];
    let mut b = ColorBox::new(1, 4, 2, &colors);
    let new_box = b.split_box(&mut colors).expect("a box of three samples can be cut");
    assert_eq!(
        all_fields(&colors),
        vec![(200, 0, 0, 9), (30, 0, 0, 1), (60, 0, 0, 1), (90, 0, 0, 1), (100, 0, 0, 9)]
    );
    // half of 3 is 1, reached at once
    assert_eq!((b.lower, b.upper, b.level, b.count), (1, 2, 3, 1));
    assert_eq!((new_box.lower, new_box.upper, new_box.level, new_box.count), (2, 4, 3, 2));
    assert_eq!(b.count + new_box.count, 3);
}

#[test]
fn a_box_of_one_sample_is_not_cut() {
    let mut colors = vec![ColorNode::from(1, 2, 3, 4), ColorNode::from(5, 6, 7, 8)];
    let mut b = ColorBox::new(1, 2, 0, &colors);
    let before = b;
    assert!(b.split_box(&mut colors).is_none());
    assert_eq!(b, before);
    assert_eq!(all_fields(&colors), vec![(1, 2, 3, 4), (5, 6, 7, 8)]);
    let mut empty = ColorBox::new(0, 0, 0, &colors);
    assert!(empty.split_box(&mut colors).is_none());
}

#[test]
fn means_round_halves_upwards() {
    assert_eq!(round_mean(5, 2), 3);
    assert_eq!(round_mean(7, 3), 2);
    assert_eq!(round_mean(8, 3), 3);
    assert_eq!(round_mean(9, 6), 2);
    assert_eq!(round_mean(0, 5), 0);
    assert_eq!(round_mean(0, 0), 0);
    assert_eq!(round_mean(255 * 7, 7), 255);
    assert_eq!(round_mean(254 * 2 + 1, 2), 255);
}

#[test]
fn average_weighs_by_count() {
    let colors = vec![
        ColorNode::from(0, 255, 0, 1),
        ColorNode::from(0, 0, 255, 1),
        ColorNode::from(10, 20, 30, 3),
    ];
    let b = ColorBox::new(0, 2, 0, &colors);
    assert_eq!(fields(&b.get_average_color(&colors)), (0, 128, 128, 2));
    assert_eq!(b.get_average_color(&colors).rgb, 0x0000_8080);
    let all = ColorBox::new(0, 3, 0, &colors);
    // red 30 / 5, green 315 / 5, blue 345 / 5
    assert_eq!(fields(&all.get_average_color(&colors)), (6, 63, 69, 5));
    let one = ColorBox::new(2, 3, 0, &colors);
    assert_eq!(fields(&one.get_average_color(&colors)), (10, 20, 30, 3));
    let none = ColorBox::new(1, 1, 0, &colors);
    assert_eq!(fields(&none.get_average_color(&colors)), (0, 0, 0, 0));
}

#[test]
fn sort_by_count_descends_and_is_stable() {
    let colors = vec![
        ColorNode::from(1, 0, 0, 3),
        ColorNode::from(2, 0, 0, 5),
        ColorNode::from(3, 0, 0, 3),
        ColorNode::from(4, 0, 0, 9),
        ColorNode::from(5, 0, 0, 5),
    ];
    let sorted = sort_by_count(colors);
    assert_eq!(
        all_fields(&sorted),
        vec![(4, 0, 0, 9), (2, 0, 0, 5), (5, 0, 0, 5), (1, 0, 0, 3), (3, 0, 0, 3)]
    );
    assert!(sort_by_count(Vec::new()).is_empty());
}

#[test]
fn histogram_counts_in_order_of_first_appearance() {
    let pixels: Vec<u8> = vec![
        1, 2, 3, 0, //
        4, 5, 6, 255, //
        1, 2, 3, 77, //
        7, 8, 9, 255, //
        4, 5, 6, 1, //
        1, 2, 3, 255,
    ];
    let colors = histogram_of(&pixels);
    assert_eq!(all_fields(&colors), vec![(1, 2, 3, 3), (4, 5, 6, 2), (7, 8, 9, 1)]);
    assert_eq!(colors[0].rgb, 0x0001_0203);
    assert_eq!(colors[1].rgb, 0x0004_0506);
    assert_eq!(colors.iter().map(|c| c.count).sum::<usize>(), 6);
    assert!(histogram_of(&[]).is_empty());
}

fn four_reds() -> Vec<ColorNode> {
    vec![
        ColorNode::from(0, 0, 0, 3),
        ColorNode::from(10, 0, 0, 1),
        ColorNode::from(200, 0, 0, 1),
        ColorNode::from(255, 0, 0, 3),
    ]
}

#[test]
fn few_colours_stand_for_themselves() {
    assert_eq!(all_fields(&reduce_colors(four_reds(), 4)), all_fields(&four_reds()));
    assert_eq!(all_fields(&reduce_colors(four_reds(), 100)), all_fields(&four_reds()));
    assert!(reduce_colors(Vec::new(), 0).is_empty());
    assert!(reduce_colors(Vec::new(), 3).is_empty());
}

#[test]
fn many_colours_are_cut_into_k_max_boxes() {
    assert_eq!(all_fields(&reduce_colors(four_reds(), 2)), vec![(3, 0, 0, 4), (241, 0, 0, 4)]);
    assert_eq!(
        all_fields(&reduce_colors(four_reds(), 3)),
        vec![(0, 0, 0, 3), (241, 0, 0, 4), (10, 0, 0, 1)]
    );
}

#[test]
fn k_max_of_one_or_zero_gives_one_colour() {
    assert_eq!(all_fields(&reduce_colors(four_reds(), 1)), vec![(122, 0, 0, 8)]);
    assert_eq!(all_fields(&reduce_colors(four_reds(), 0)), vec![(122, 0, 0, 8)]);
}

#[test]
fn the_shallowest_box_is_cut_first() {
    let colors = vec![ColorNode::from(0, 0, 0, 1); 10];
    let boxes = vec![
        ColorBox { level: 2, ..ColorBox::new(0, 3, 0, &colors) },
        ColorBox { level: 0, ..ColorBox::new(3, 4, 0, &colors) },
        ColorBox { level: 1, ..ColorBox::new(4, 6, 0, &colors) },
        ColorBox { level: 1, ..ColorBox::new(6, 9, 0, &colors) },
        ColorBox { level: 3, ..ColorBox::new(9, 10, 0, &colors) },
    ];
    // the box at level 0 holds one sample; of the two at level 1 the first wins
    assert_eq!(MedianCut::find_box_to_split(&boxes), Some(2));
    let small = vec![boxes[1], boxes[4]];
    assert_eq!(MedianCut::find_box_to_split(&small), None);
    assert_eq!(MedianCut::find_box_to_split(&Vec::new()), None);
    let deep = vec![ColorBox { level: u32::MAX, ..boxes[0] }];
    assert_eq!(MedianCut::find_box_to_split(&deep), Some(0));
}

#[test]
fn average_colors_goes_box_by_box() {
    let colors = four_reds();
    let boxes = vec![ColorBox::new(2, 4, 1, &colors), ColorBox::new(0, 2, 1, &colors)];
    assert_eq!(
        all_fields(&MedianCut::average_colors(&boxes, &colors)),
        vec![(241, 0, 0, 4), (3, 0, 0, 4)]
    );
}

fn noise(seed: u32, n: usize, counts_up_to: usize) -> Vec<ColorNode> {
    let mut v = seed;
    let mut colors = Vec::new();
    for _ in 0..n {
        v = v.wrapping_mul(1_664_525).wrapping_add(1_013_904_223);
        let count = 1 + (v >> 8) as usize % counts_up_to;
        colors.push(ColorNode::from((v >> 24) as u8, (v >> 16) as u8 % 7, (v >> 4) as u8 % 3, count));
    }
    colors
}

#[test]
fn sort_range_agrees_with_a_stable_sort() {
    for (seed, n) in [(1u32, 0usize), (2, 1), (3, 2), (4, 17), (5, 300), (6, 1000)] {
        for dim in [ColorDimension::Red, ColorDimension::Green, ColorDimension::Blue] {
            let mut colors = noise(seed, n, 5);
            let mut expected = colors.clone();
            let (lower, upper) = (n / 4, n - n / 5);
            expected[lower..upper].sort_by_key(|c| c.get_channel(dim));
            sort_range(&mut colors, lower, upper, dim);
            assert_eq!(all_fields(&colors), all_fields(&expected));
        }
    }
}

#[test]
fn sort_by_count_agrees_with_a_stable_sort() {
    for (seed, n, counts) in [(7u32, 0usize, 3usize), (8, 1, 3), (9, 2, 1), (10, 33, 4), (11, 1000, 10)] {
        let colors = noise(seed, n, counts);
        let mut expected = colors.clone();
        expected.sort_by(|a, b| b.count.cmp(&a.count));
        assert_eq!(all_fields(&sort_by_count(colors)), all_fields(&expected));
    }
}

#[test]
fn reducing_keeps_the_mass_and_gives_k_max_colours() {
    let mut colors = Vec::new();
    let mut v: u32 = 77;
    for i in 0..500u32 {
        v = v.wrapping_mul(1_664_525).wrapping_add(1_013_904_223);
        // distinct colours: the index is spread over red and green
        let count = 1 + (v >> 20) as usize % 9;
        colors.push(ColorNode::from((i % 256) as u8, (i / 256) as u8, (v >> 24) as u8, count));
    }
    let mass: usize = colors.iter().map(|c| c.count).sum();
    for k_max in [1u32, 2, 3, 7, 16, 64, 255, 256, 499] {
        let reduced = reduce_colors(colors.clone(), k_max);
        assert_eq!(reduced.len(), k_max as usize);
        assert_eq!(reduced.iter().map(|c| c.count).sum::<usize>(), mass);
        assert!(reduced.iter().all(|c| c.count > 0));
        assert!(reduced.iter().all(|c| c.rgb == ColorNode::convert_rgb_to_u32(c.red, c.green, c.blue)));
    }
    assert_eq!(all_fields(&reduce_colors(colors.clone(), 500)), all_fields(&colors));
}
