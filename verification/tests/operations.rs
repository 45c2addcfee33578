use kmeans_color_gpu::error::{Error, ErrorKind};
use kmeans_color_gpu::lightness::{shade_colors, sort_by_lightness, Shade};
use kmeans_color_gpu::names::{
    check_tile_size, decimal_text, find_file_name, palette_file_name, palette_image,
    reduce_file_name, timestamp_text,
};
use kmeans_color_gpu::operations::{
    check_find_request, check_palette_request, check_reduce_request, extract_palette_octree,
    find_steps, needs_shrinking, palette_by_lightness, palette_steps, reduce_steps, Step,
};
use kmeans_color_gpu::options::{Algorithm, ColorSpace, Extension, ReduceMode};
use kmeans_color_gpu::args::parse_u32;

#[test]
fn palette_runs_its_steps_in_order() {
    assert_eq!(
        palette_steps(&Algorithm::Kmeans),
        vec![
            Step::Shrink,
            Step::Convert,
            Step::Seed,
            Step::Assign,
            Step::Update,
            Step::PullCentroids,
            Step::SortByLightness
        ]
    );
    assert_eq!(
        palette_steps(&Algorithm::Octree),
        vec![Step::Shrink, Step::Octree, Step::SortByLightness]
    );
}

#[test]
fn find_maps_the_image_onto_the_palette() {
    assert_eq!(
        find_steps(&ReduceMode::Replace),
        vec![
            Step::UploadCentroids,
            Step::Convert,
            Step::Assign,
            Step::Swap,
            Step::Revert,
            Step::PullImage
        ]
    );
    assert_eq!(find_steps(&ReduceMode::Dither)[3], Step::Dither);
    assert_eq!(find_steps(&ReduceMode::Meld)[3], Step::Meld);
}

#[test]
fn reduce_extracts_then_maps() {
    assert_eq!(
        reduce_steps(&Algorithm::Kmeans, &ReduceMode::Dither),
        vec![
            Step::Shrink,
            Step::Convert,
            Step::Seed,
            Step::Assign,
            Step::Update,
            Step::Convert,
            Step::Assign,
            Step::Dither,
            Step::Revert,
            Step::PullImage
        ]
    );
    assert_eq!(
        reduce_steps(&Algorithm::Octree, &ReduceMode::Replace),
        vec![
            Step::Shrink,
            Step::Octree,
            Step::SortByLightness,
            Step::UploadCentroids,
            Step::Convert,
            Step::Assign,
            Step::Swap,
            Step::Revert,
            Step::PullImage
        ]
    );
    for algo in [Algorithm::Kmeans, Algorithm::Octree] {
        for mode in [ReduceMode::Replace, ReduceMode::Dither, ReduceMode::Meld] {
            let reduce = reduce_steps(&algo, &mode);
            let find = find_steps(&mode);
            assert_eq!(reduce[reduce.len() - 5..], find[1..]);
        }
    }
}

#[test]
fn requests_are_checked() {
    assert_eq!(check_palette_request(1), Ok(()));
    assert_eq!(check_palette_request(0), Err(Error::InvalidColorCount));
    assert_eq!(check_reduce_request(1, &ReduceMode::Replace), Ok(()));
    assert_eq!(check_reduce_request(0, &ReduceMode::Replace), Err(Error::InvalidColorCount));
    assert_eq!(check_reduce_request(2, &ReduceMode::Dither), Ok(()));
    assert_eq!(check_reduce_request(1, &ReduceMode::Dither), Err(Error::InvalidMixColorCount));
    assert_eq!(check_reduce_request(1, &ReduceMode::Meld), Err(Error::InvalidMixColorCount));
    assert_eq!(check_reduce_request(0, &ReduceMode::Meld), Err(Error::InvalidMixColorCount));
    let one = vec![[0, 0, 0, 255]];
    let two = vec![[0, 0, 0, 255], [255, 255, 255, 255]];
    assert_eq!(check_find_request(&vec![], &ReduceMode::Replace), Err(Error::EmptyPalette));
    assert_eq!(check_find_request(&vec![], &ReduceMode::Meld), Err(Error::EmptyPalette));
    assert_eq!(check_find_request(&one, &ReduceMode::Replace), Ok(()));
    assert_eq!(check_find_request(&one, &ReduceMode::Dither), Err(Error::InvalidMixColorCount));
    assert_eq!(check_find_request(&two, &ReduceMode::Dither), Ok(()));
    assert_eq!(Error::EmptyPalette.kind(), ErrorKind::Input);
    assert_eq!(Error::InvalidColorCount.kind(), ErrorKind::Input);
}

#[test]
fn images_are_shrunk_to_the_side_of_the_algorithm() {
    assert!(!needs_shrinking((256, 256), &Algorithm::Kmeans));
    assert!(needs_shrinking((257, 1), &Algorithm::Kmeans));
    assert!(needs_shrinking((1, 257), &Algorithm::Kmeans));
    assert!(!needs_shrinking((128, 128), &Algorithm::Octree));
    assert!(needs_shrinking((129, 128), &Algorithm::Octree));
    assert_eq!(Algorithm::Kmeans.max_dimension(), 256);
    assert_eq!(Algorithm::Octree.max_dimension(), 128);
}

#[test]
fn octree_palette_of_few_colors_is_those_colors() {
    let pixels = vec![[255, 0, 0, 255], [0, 0, 255, 255], [255, 0, 0, 9], [0, 0, 255, 255]];
    assert_eq!(
        extract_palette_octree(&pixels, 2),
        Ok(vec![[0, 0, 255, 255], [255, 0, 0, 255]])
    );
    assert_eq!(extract_palette_octree(&pixels, 0), Ok(vec![]));
    assert_eq!(extract_palette_octree(&[], 5), Ok(vec![]));
    let one = extract_palette_octree(&pixels, 1).unwrap();
    assert_eq!(one, vec![[127, 0, 127, 255]]);
}

#[test]
fn octree_palette_has_at_most_k_colors() {
    let pixels: Vec<[u8; 4]> = (0u32..500)
        .map(|i| [(i * 7 % 256) as u8, (i * 13 % 256) as u8, (i * 29 % 256) as u8, 255])
        .collect();
    for k in [1u32, 2, 3, 8, 64, 600] {
        let palette = extract_palette_octree(&pixels, k).unwrap();
        assert!(palette.len() as u32 <= k);
        assert!(!palette.is_empty());
        for pair in palette.windows(2) {
            assert!(pair[0] < pair[1]);
        }
    }
}

fn shade(lightness: u32, color: [u8; 4]) -> Shade {
    Shade { lightness, color }
}

#[test]
fn shades_are_sorted_by_lightness_then_color() {
    let shades = vec![
        shade(50, [9, 9, 9, 255]),
        shade(10, [200, 0, 0, 255]),
        shade(50, [1, 2, 3, 255]),
        shade(0, [0, 0, 0, 255]),
        shade(10, [200, 0, 0, 255]),
        shade(u32::MAX, [255, 255, 255, 255]),
    ];
    let sorted = sort_by_lightness(&shades);
    assert_eq!(
        sorted,
        vec![
            shade(0, [0, 0, 0, 255]),
            shade(10, [200, 0, 0, 255]),
            shade(10, [200, 0, 0, 255]),
            shade(50, [1, 2, 3, 255]),
            shade(50, [9, 9, 9, 255]),
            shade(u32::MAX, [255, 255, 255, 255]),
        ]
    );
    assert_eq!(
        palette_by_lightness(&shades),
        vec![
            [0, 0, 0, 255],
            [200, 0, 0, 255],
            [200, 0, 0, 255],
            [1, 2, 3, 255],
            [9, 9, 9, 255],
            [255, 255, 255, 255]
        ]
    );
    assert_eq!(shade_colors(&shades)[0], [9, 9, 9, 255]);
    assert_eq!(sort_by_lightness(&vec![]), vec![]);
}

#[test]
fn sorting_distinct_colors_keeps_them_distinct() {
    let shades: Vec<Shade> = (0u32..64)
        .map(|i| shade((i * 37) % 11, [i as u8, (i * 3) as u8, 0, 255]))
        .collect();
    let palette = palette_by_lightness(&shades);
    assert_eq!(palette.len(), 64);
    let mut unique = palette.clone();
    unique.sort();
    unique.dedup();
    assert_eq!(unique.len(), 64);
}

#[test]
fn numbers_are_written_in_decimal() {
    assert_eq!(decimal_text(0), "0");
    assert_eq!(decimal_text(7), "7");
    assert_eq!(decimal_text(10), "10");
    assert_eq!(decimal_text(4_294_967_295), "4294967295");
    assert_eq!(decimal_text(u64::MAX), "18446744073709551615");
    for number in [0u32, 1, 9, 10, 99, 100, 12345, u32::MAX] {
        assert_eq!(parse_u32(&decimal_text(number as u64)), Some(number));
    }
    assert_eq!(timestamp_text(1_700_000_000, 7), "1700000000007");
    assert_eq!(timestamp_text(0, 0), "0000");
    assert_eq!(timestamp_text(12, 999), "12999");
    assert_eq!(timestamp_text(12, 45), "12045");
}

#[test]
fn file_names_are_derived_from_the_input() {
    assert_eq!(
        reduce_file_name("turtles", 8, &Algorithm::Kmeans, &ReduceMode::Dither),
        "turtles-reduce-c8-kmeans-dither.png"
    );
    assert_eq!(
        reduce_file_name("a b", 120, &Algorithm::Octree, &ReduceMode::Replace),
        "a b-reduce-c120-octree-replace.png"
    );
    assert_eq!(
        palette_file_name("turtles", 64, &Algorithm::Octree, 40),
        "turtles-palette-c64-octree-s40.png"
    );
    assert_eq!(
        find_file_name("turtles", &ReduceMode::Meld, 1_660_000_000, 42, "jpg"),
        "turtles-find-meld-1660000000042.jpg"
    );
}

#[test]
fn options_have_names() {
    assert_eq!(ColorSpace::Lab.name(), "lab");
    assert_eq!(ColorSpace::Rgb.name(), "rgb");
    assert_eq!(ColorSpace::from("lab"), Some(ColorSpace::Lab));
    assert_eq!(ColorSpace::from("rgb"), Some(ColorSpace::Rgb));
    assert_eq!(ColorSpace::from("Lab"), None);
    assert_eq!(ColorSpace::from(""), None);
    assert_eq!(ColorSpace::from_str("rgb"), Ok(ColorSpace::Rgb));
    assert_eq!(ColorSpace::from_str("hsv"), Err(Error::UnsupportedColorSpace));
    assert_eq!(ColorSpace::Lab.convergence(), (1, 1));
    assert_eq!(ColorSpace::Rgb.convergence(), (1, 100));
    assert_eq!(Algorithm::Kmeans.name(), "kmeans");
    assert_eq!(Algorithm::Octree.name(), "octree");
    assert_eq!(ReduceMode::Replace.name(), "replace");
    assert_eq!(ReduceMode::Dither.name(), "dither");
    assert_eq!(ReduceMode::Meld.name(), "meld");
    assert!(!ReduceMode::Replace.mixes());
    assert!(ReduceMode::Dither.mixes());
    assert!(ReduceMode::Meld.mixes());
    assert_eq!(Extension::Png.name(), "png");
    assert_eq!(Extension::Jpg.name(), "jpg");
    assert_eq!(Extension::Jpg.value(), "jpg");
    assert_eq!(Extension::from_str("png"), Ok(Extension::Png));
    assert_eq!(Extension::from_str("jpg"), Ok(Extension::Jpg));
    assert_eq!(Extension::from_str("gif"), Err(Error::UnsupportedExtension));
    assert_eq!(Error::UnsupportedExtension.kind(), ErrorKind::Io);
    for space in [ColorSpace::Lab, ColorSpace::Rgb] {
        assert_eq!(ColorSpace::from(space.name()), Some(space));
    }
    for extension in [Extension::Png, Extension::Jpg] {
        assert_eq!(Extension::from_str(extension.name()), Ok(extension));
    }
}

#[test]
fn palette_image_shows_one_square_per_color() {
    let palette = vec![[1, 1, 1, 255], [2, 2, 2, 255], [3, 3, 3, 255]];
    let image = palette_image(&palette, 2).unwrap();
    assert_eq!(image.dimensions(), (6, 2));
    for y in 0..2 {
        for x in 0..6 {
            assert_eq!(*image.get_pixel(x, y), palette[(x / 2) as usize]);
        }
    }
    assert_eq!(palette_image(&palette, 60).unwrap().dimensions(), (180, 60));
    assert_eq!(palette_image(&vec![], 5).unwrap().dimensions(), (0, 5));
    assert!(matches!(palette_image(&palette, 0), Err(Error::InvalidTileSize)));
    assert!(matches!(palette_image(&palette, 61), Err(Error::InvalidTileSize)));
    assert_eq!(check_tile_size(1), Ok(1));
    assert_eq!(check_tile_size(60), Ok(60));
    assert_eq!(check_tile_size(0), Err(Error::InvalidTileSize));
    assert_eq!(check_tile_size(61), Err(Error::InvalidTileSize));
    assert_eq!(Error::InvalidTileSize.kind(), ErrorKind::Input);
}

#[test]
fn every_error_has_its_kind() {
    for error in [
        Error::InvalidColorCount,
        Error::InvalidMixColorCount,
        Error::EmptyPalette,
        Error::InvalidPalette,
        Error::IllFormedColors,
        Error::TooManyPaletteColors,
        Error::RecurringPaletteColors,
        Error::UnsupportedColorSpace,
        Error::InvalidTileSize,
    ] {
        assert_eq!(error.kind(), ErrorKind::Input);
    }
    for error in [
        Error::UnsupportedFile,
        Error::UnsupportedExtension,
        Error::MissingInclude,
        Error::IncludeRecursion,
    ] {
        assert_eq!(error.kind(), ErrorKind::Io);
    }
    for error in [Error::BackendUnavailable, Error::DeviceRequestFailed] {
        assert_eq!(error.kind(), ErrorKind::Device);
    }
    for error in [Error::ImageTooLarge, Error::PixelCountMismatch] {
        assert_eq!(error.kind(), ErrorKind::Resource);
    }
    assert_eq!(Error::MapFailed.kind(), ErrorKind::BufferMap);
    for error in [Error::LayoutMismatch, Error::InclusionMismatch] {
        assert_eq!(error.kind(), ErrorKind::InternalInvariant);
    }
}

#[test]
fn octree_palette_of_no_more_colors_than_asked_is_those_colors() {
    let pixels: Vec<[u8; 4]> = (0u32..300)
        .map(|i| [(i % 7 * 30) as u8, (i % 5 * 50) as u8, (i % 3 * 100) as u8, (i % 256) as u8])
        .collect();
    let mut expected: Vec<[u8; 4]> = pixels.iter().map(|p| [p[0], p[1], p[2], 255]).collect();
    expected.sort();
    expected.dedup();
    assert_eq!(expected.len(), 105);
    assert_eq!(extract_palette_octree(&pixels, 105), Ok(expected.clone()));
    assert_eq!(extract_palette_octree(&pixels, 4000), Ok(expected));
    assert_eq!(extract_palette_octree(&pixels, 104).unwrap().len(), 104);
}
