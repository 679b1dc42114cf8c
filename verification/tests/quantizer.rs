use colorsquash::Color;
use colorsquash::Count;
use colorsquash::ImageData;
use colorsquash::SquashError;
use colorsquash::Squasher;
use colorsquash::SquasherBuilder;
use colorsquash::difference::DifferenceFn;

fn c(r: u8, g: u8, b: u8) -> Color {
    Color::new(r, g, b)
}

fn two_tone_image() -> ImageData {
    ImageData::from_colors(vec![c(10, 10, 10), c(10, 10, 10), c(10, 10, 10), c(200, 200, 200)])
}

#[test]
fn map_two_tone_image() {
    let image = two_tone_image();
    let mut squasher = SquasherBuilder::new()
        .max_colors(1u8)
        .tolerance(10_000)
        .build(&image)
        .unwrap();
    assert_eq!(squasher.palette(), &[c(10, 10, 10), c(200, 200, 200)]);
    let mut buffer: Vec<u8> = vec![9; 4];
    squasher.map(&image, &mut buffer).unwrap();
    assert_eq!(buffer, vec![0, 0, 0, 1]);
}

#[test]
fn single_color_image_maps_to_zero() {
    let image = ImageData::from_colors(vec![c(123, 45, 67); 100]);
    let mut squasher = Squasher::new(255u8, &image);
    assert_eq!(squasher.palette().len(), 1);
    let mut buffer: Vec<u8> = vec![7; 100];
    squasher.map(&image, &mut buffer).unwrap();
    assert!(buffer.iter().all(|&i| i == 0));
}

#[test]
fn dedup_image_maps_each_color_to_own_index() {
    let image = ImageData::from_colors(vec![
        c(5, 5, 5),
        c(5, 5, 5),
        c(5, 5, 5),
        c(6, 6, 6),
        c(6, 6, 6),
        c(7, 7, 7),
    ]);
    let mut squasher = SquasherBuilder::new().max_colors(2u8).tolerance(1).build(&image).unwrap();
    assert_eq!(squasher.palette(), &[c(5, 5, 5), c(6, 6, 6), c(7, 7, 7)]);
    let mut buffer: Vec<u8> = vec![9; 6];
    squasher.map(&image, &mut buffer).unwrap();
    assert_eq!(buffer, vec![0, 0, 0, 1, 1, 2]);
}

#[test]
fn mapping_assigns_nearest_palette_entry() {
    let image = two_tone_image();
    let mut squasher = SquasherBuilder::new()
        .max_colors(1u8)
        .tolerance(10_000)
        .difference(DifferenceFn::Redmean)
        .build(&image)
        .unwrap();
    // A color unseen at palette-build time still maps to the nearer entry.
    let other = ImageData::from_colors(vec![c(0, 0, 0), c(255, 255, 255), c(90, 90, 90)]);
    let mut buffer: Vec<u8> = vec![9; 3];
    squasher.map(&other, &mut buffer).unwrap();
    assert_eq!(buffer, vec![0, 1, 0]);
}

#[test]
fn map_no_recolor_unseen_color_comes_out_zero() {
    let image = two_tone_image();
    let mut squasher = SquasherBuilder::new()
        .max_colors(1u8)
        .tolerance(10_000)
        .build(&image)
        .unwrap();
    let mut buffer: Vec<u8> = vec![9; 4];
    squasher.map(&image, &mut buffer).unwrap();
    // (200,200,200) was seen and keeps its entry; (250,250,250) was not and
    // falls back to index zero even though entry one is nearer.
    let other = ImageData::from_colors(vec![c(200, 200, 200), c(250, 250, 250)]);
    let mut out: Vec<u8> = vec![9; 2];
    squasher.map_no_recolor(&other, &mut out).unwrap();
    assert_eq!(out, vec![1, 0]);
}

#[test]
fn map_reports_too_small_buffer() {
    let image = two_tone_image();
    let mut squasher = Squasher::new(1u8, &image);
    let mut buffer: Vec<u8> = vec![0; 3];
    assert_eq!(squasher.map(&image, &mut buffer), Err(SquashError::BufferTooSmall));
    let mut out: Vec<u8> = vec![0; 3];
    assert_eq!(squasher.map_no_recolor(&image, &mut out), Err(SquashError::BufferTooSmall));
}

#[test]
fn map_over_compacts_in_place() {
    let bytes = vec![10, 10, 10, 10, 10, 10, 10, 10, 10, 200, 200, 200];
    let image = ImageData::from_rgb_bytes(&bytes).unwrap();
    let mut squasher = SquasherBuilder::new()
        .max_colors(1u8)
        .tolerance(10_000)
        .build(&image)
        .unwrap();
    let mut data = bytes.clone();
    let size = squasher.map_over(&mut data).unwrap();
    assert_eq!(size, 4);
    assert_eq!(&data[..4], &[0, 0, 0, 1]);
    // bytes past the indexed third keep their old values
    assert_eq!(&data[4..], &bytes[4..]);
}

#[test]
fn map_over_rejects_malformed_buffer() {
    let image = two_tone_image();
    let mut squasher = Squasher::new(1u8, &image);
    let mut data = vec![1, 2, 3, 4];
    assert_eq!(squasher.map_over(&mut data), Err(SquashError::MalformedBuffer));
    assert_eq!(data, vec![1, 2, 3, 4]);
}

#[test]
fn from_rgb_bytes_rejects_partial_triple() {
    assert!(matches!(
        ImageData::from_rgb_bytes(&[1, 2, 3, 4]),
        Err(SquashError::MalformedBuffer)
    ));
    let ok = ImageData::from_rgb_bytes(&[1, 2, 3, 4, 5, 6]).unwrap();
    assert_eq!(ok.0, vec![c(1, 2, 3), c(4, 5, 6)]);
}

#[test]
fn palette_bytes_flattens_in_order() {
    let image = two_tone_image();
    let squasher = SquasherBuilder::new()
        .max_colors(1u8)
        .tolerance(10_000)
        .build(&image)
        .unwrap();
    assert_eq!(squasher.palette_bytes(), vec![10, 10, 10, 200, 200, 200]);
}

#[test]
fn full_tolerance_merges_everything() {
    let image = two_tone_image();
    let mut squasher = Squasher::new(1u8, &image);
    squasher.set_tolerance(100_000);
    squasher.recolor(&image);
    // at one hundred percent no second color can differ enough
    assert_eq!(squasher.palette(), &[c(10, 10, 10)]);
}

#[test]
fn builder_invalid_tolerance() {
    let image = two_tone_image();
    assert!(matches!(
        SquasherBuilder::new().max_colors(1u8).tolerance(0).build(&image),
        Err(SquashError::InvalidConfig)
    ));
    assert!(matches!(
        SquasherBuilder::new().max_colors(1u8).tolerance(100_001).build(&image),
        Err(SquashError::InvalidConfig)
    ));
}

#[test]
fn builder_defaults() {
    let builder: SquasherBuilder<u8> = SquasherBuilder::new();
    assert_eq!(builder.max_colours, 255);
    assert_eq!(builder.tolerance_milli, 1000);
    assert!(matches!(builder.difference_fn, DifferenceFn::Rgb));
}

#[test]
fn count_conversions() {
    assert_eq!(<u8 as Count>::from_usize(300), 44);
    assert_eq!(<u16 as Count>::from_usize(70_000), 4464);
    assert_eq!(<u32 as Count>::from_usize(300), 300);
    assert_eq!(<u64 as Count>::zero(), 0);
    assert_eq!(<usize as Count>::from_usize(77), 77);
    assert_eq!(Count::as_usize(&200u8), 200);
    assert!(Count::le(&200u8, &200));
    assert!(!Count::le(&201u8, &200));
}

#[test]
fn wider_index_types_map_too() {
    let image = two_tone_image();
    let mut squasher: Squasher<u16> = SquasherBuilder::new()
        .max_colors(300u16)
        .tolerance(10_000)
        .build(&image)
        .unwrap();
    let mut buffer: Vec<u16> = vec![9; 4];
    squasher.map(&image, &mut buffer).unwrap();
    assert_eq!(buffer, vec![0, 0, 0, 1]);
}

#[test]
fn image_data_from_colors_vec() {
    let data = ImageData::from(vec![c(9, 8, 7)]);
    assert_eq!(data.0, vec![c(9, 8, 7)]);
    let wrapped = ImageData::from_colors(vec![c(1, 1, 1)]);
    assert_eq!(wrapped.0, vec![c(1, 1, 1)]);
}

#[test]
fn from_palette_builds_working_squasher() {
    let palette = vec![c(10, 10, 10), c(200, 200, 200)];
    let mut squasher = Squasher::from_palette(1u8, palette, DifferenceFn::Rgb).unwrap();
    let image = two_tone_image();
    let mut buffer: Vec<u8> = vec![9; 4];
    squasher.map(&image, &mut buffer).unwrap();
    assert_eq!(buffer, vec![0, 0, 0, 1]);
}

#[test]
fn from_palette_rejects_bad_sizes() {
    assert!(matches!(
        Squasher::<u8>::from_palette(1, vec![], DifferenceFn::Rgb),
        Err(SquashError::InvalidConfig)
    ));
    assert!(matches!(
        Squasher::<u8>::from_palette(1, vec![c(1, 1, 1), c(2, 2, 2), c(3, 3, 3)], DifferenceFn::Rgb),
        Err(SquashError::InvalidConfig)
    ));
}

#[test]
fn builder_entry_point_matches_new() {
    let builder = Squasher::<u8>::builder();
    assert_eq!(builder.max_colours, 255);
    assert_eq!(builder.tolerance_milli, 1000);
}

#[test]
fn mapping_is_deterministic() {
    let image = two_tone_image();
    let mut squasher = Squasher::new(1u8, &image);
    let mut first: Vec<u8> = vec![9; 4];
    squasher.map(&image, &mut first).unwrap();
    let mut second: Vec<u8> = vec![3; 4];
    squasher.map(&image, &mut second).unwrap();
    assert_eq!(first, second);
}
