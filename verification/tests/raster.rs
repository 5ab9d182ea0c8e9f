use image::{Rgba, RgbaImage};
use reduced_color::median_cut::ColorNode;
use reduced_color::raster::Raster;
use reduced_color::{build_palette, map_to_palette, MedianCut, QuantizeError};

fn fields(c: &ColorNode) -> (u8, u8, u8, usize) {
    (c.red, c.green, c.blue, c.count)
}

fn all_fields(colors: &[ColorNode]) -> Vec<(u8, u8, u8, usize)> {
    colors.iter().map(fields).collect()
}

fn two_by_two() -> Vec<u8> {
    vec![
        255, 0, 0, 255, //
        255, 0, 0, 10, //
        0, 255, 0, 255, //
        0, 0, 255, 255,
    ]
}

#[test]
fn a_raster_holds_the_samples_it_was_made_from() {
    let raster = Raster::from_raw(2, 2, two_by_two()).unwrap();
    assert_eq!(raster.to_samples(), two_by_two());
    let empty = Raster::from_raw(0, 0, Vec::new()).unwrap();
    assert!(empty.to_samples().is_empty());
    let no_rows = Raster::from_raw(5, 0, vec![1, 2, 3]).unwrap();
    assert!(no_rows.to_samples().is_empty());
}

#[test]
fn a_raster_takes_only_the_samples_of_its_pixels() {
    let mut samples = two_by_two();
    samples.extend_from_slice(&[9, 9, 9, 9, 9]);
    let raster = Raster::from_raw(2, 2, samples).unwrap();
    assert_eq!(raster.to_samples(), two_by_two());
    let raster = Raster::from_raw(1, 3, two_by_two()).unwrap();
    assert_eq!(raster.to_samples(), two_by_two()[..12].to_vec());
}

#[test]
fn a_short_buffer_makes_no_raster() {
    assert!(Raster::from_raw(2, 3, two_by_two()).is_none());
    assert!(Raster::from_raw(1, 1, vec![1, 2, 3]).is_none());
    assert!(Raster::from_raw(u32::MAX, u32::MAX, two_by_two()).is_none());
}

#[test]
fn a_raster_reads_pixels_as_the_image_crate_lays_them_out() {
    let mut image = RgbaImage::new(2, 2);
    image.put_pixel(0, 0, Rgba([1, 2, 3, 4]));
    image.put_pixel(1, 0, Rgba([5, 6, 7, 8]));
    image.put_pixel(0, 1, Rgba([9, 10, 11, 12]));
    image.put_pixel(1, 1, Rgba([13, 14, 15, 16]));
    let raster = Raster::from_raw(image.width(), image.height(), image.into_raw()).unwrap();
    assert_eq!(raster.to_samples(), (1..=16).collect::<Vec<u8>>());
}

#[test]
fn set_samples_overwrites_every_pixel() {
    let mut raster = Raster::from_raw(2, 2, two_by_two()).unwrap();
    let other: Vec<u8> = (100..116).collect();
    raster.set_samples(&other);
    assert_eq!(raster.to_samples(), other);
    let image = RgbaImage::from_raw(2, 2, raster.to_samples()).unwrap();
    assert_eq!(image.get_pixel(1, 0), &Rgba([104, 105, 106, 107]));
    assert_eq!(image.get_pixel(0, 1), &Rgba([108, 109, 110, 111]));
}

#[test]
fn histogram_of_an_image() {
    let raster = Raster::from_raw(2, 2, two_by_two()).unwrap();
    let histogram = MedianCut::create_histogram(&raster);
    assert_eq!(all_fields(&histogram), vec![(255, 0, 0, 2), (0, 255, 0, 1), (0, 0, 255, 1)]);
}

#[test]
fn palette_of_an_image() {
    let raster = Raster::from_raw(2, 2, two_by_two()).unwrap();
    let unsorted = MedianCut::find_representative_colors(&raster, 2);
    assert_eq!(all_fields(&unsorted), vec![(255, 0, 0, 2), (0, 128, 128, 2)]);
    let cut = MedianCut::from_pixels_u8_rgba(&raster, 2);
    assert_eq!(all_fields(&cut.colors()), vec![(255, 0, 0, 2), (0, 128, 128, 2)]);
    assert_eq!(
        all_fields(&cut.colors()),
        all_fields(&build_palette(&two_by_two(), 2).unwrap())
    );
    let full = MedianCut::from_pixels_u8_rgba(&raster, 8);
    assert_eq!(
        all_fields(&full.colors()),
        vec![(255, 0, 0, 2), (0, 255, 0, 1), (0, 0, 255, 1)]
    );
}

#[test]
fn an_image_without_pixels_is_told_apart() {
    for (width, height) in [(0u32, 0u32), (0, 7), (5, 0)] {
        let raster = Raster::from_raw(width, height, vec![1, 2, 3]).unwrap();
        assert!(raster.is_empty());
        assert_eq!(raster.dimensions(), (width, height));
        assert_eq!(build_palette(&raster.to_samples(), 4), Err(QuantizeError::EmptyBuffer));
    }
    let raster = Raster::from_raw(2, 2, two_by_two()).unwrap();
    assert!(!raster.is_empty());
    assert!(!Raster::from_raw(1, 1, two_by_two()).unwrap().is_empty());
}

#[test]
fn a_raster_keeps_the_size_it_was_made_with() {
    let raster = Raster::from_raw(2, 2, two_by_two()).unwrap();
    assert_eq!(raster.dimensions(), (2, 2));
    let raster = Raster::from_raw(1, 3, two_by_two()).unwrap();
    assert_eq!(raster.dimensions(), (1, 3));
    assert_eq!(raster.to_samples().len(), 4 * 1 * 3);
    let mut raster = Raster::from_raw(4, 1, two_by_two()).unwrap();
    assert_eq!(raster.dimensions(), (4, 1));
    raster.set_samples(&(100..116).collect());
    assert_eq!(raster.dimensions(), (4, 1));
}

#[test]
fn the_most_frequent_colour_comes_first() {
    let mut samples = Vec::new();
    for (colour, times) in [([1u8, 1, 1, 255], 2), ([2, 2, 2, 255], 5), ([3, 3, 3, 255], 3)] {
        for _ in 0..times {
            samples.extend_from_slice(&colour);
        }
    }
    let raster = Raster::from_raw(5, 2, samples).unwrap();
    let cut = MedianCut::from_pixels_u8_rgba(&raster, 16);
    assert_eq!(all_fields(&cut.colors()), vec![(2, 2, 2, 5), (3, 3, 3, 3), (1, 1, 1, 2)]);
}

#[test]
fn quantizing_an_image_maps_every_pixel() {
    let mut raster = Raster::from_raw(2, 2, two_by_two()).unwrap();
    let cut = MedianCut::new(vec![
        ColorNode::from(0, 0, 0, 0),
        ColorNode::from(255, 255, 255, 0),
        ColorNode::from(255, 0, 0, 0),
    ]);
    cut.quantize_image_from(&mut raster);
    let expected = vec![
        255, 0, 0, 255, //
        255, 0, 0, 255, //
        0, 0, 0, 255, //
        0, 0, 0, 255,
    ];
    assert_eq!(raster.to_samples(), expected);
    assert_eq!(map_to_palette(&two_by_two(), &cut.colors()).unwrap(), expected);
    cut.quantize_image_from(&mut raster);
    assert_eq!(raster.to_samples(), expected);
}

#[test]
fn quantizing_an_image_keeps_its_size() {
    let mut samples = Vec::new();
    for v in 0..15u8 {
        samples.extend_from_slice(&[v * 17, 255 - v * 17, v, v]);
    }
    let mut raster = Raster::from_raw(5, 3, samples.clone()).unwrap();
    let cut = MedianCut::from_pixels_u8_rgba(&raster, 4);
    assert_eq!(cut.colors().len(), 4);
    cut.quantize_image_from(&mut raster);
    assert_eq!(raster.dimensions(), (5, 3));
    assert_eq!(raster.to_samples(), map_to_palette(&samples, &cut.colors()).unwrap());
    let image = RgbaImage::from_raw(5, 3, raster.to_samples()).unwrap();
    assert_eq!((image.width(), image.height()), (5, 3));
}
