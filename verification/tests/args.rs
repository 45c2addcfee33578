use kmeans_color_gpu::args::{
    format_color, format_colors, has_image_extension, parse_colors, parse_palette, parse_u32,
    validate_filenames, validate_k, validate_k_for_dithering, validate_palette,
    validate_replacement, Palette, PaletteSource,
};
use kmeans_color_gpu::error::{Error, ErrorKind};
use kmeans_color_gpu::image::Image;

#[test]
fn test_validate_palette() {
    assert!(validate_palette("#ffffff,#000000").is_ok());
    assert!(validate_palette("#ffffff#000000").is_err());
    assert!(validate_palette("").is_err());
}

#[test]
fn test_validate_replacement() {
    assert!(validate_replacement("#ffffff,#000000").is_ok());
    assert!(validate_replacement("#ffffff#000000").is_err());
    assert!(validate_replacement("").is_err());
}

#[test]
fn test_validate_k() {
    assert!(validate_k("1").is_ok());
    assert!(validate_k("150").is_ok());
    assert!(validate_k("abs").is_err());
    assert!(validate_k("0").is_err());
}

#[test]
fn args_test_validate_k() {
    assert!(validate_k("1").is_ok());
    assert!(validate_k("150").is_ok());
    assert!(validate_k("abs").is_err());
    assert!(validate_k("0").is_err());
}

#[test]
fn test_validate_filename() {
    assert!(validate_filenames("jog.png").is_ok());
    assert!(validate_filenames("jog.jpg").is_ok());
    assert!(validate_filenames("jog.pom").is_err());
    assert!(validate_filenames(".png").is_err());
}

#[test]
fn args_test_validate_filename() {
    assert!(validate_filenames("jog.png").is_ok());
    assert!(validate_filenames("jog.jpg").is_ok());
    assert!(validate_filenames("jog.pom").is_err());
    assert!(validate_filenames(".png").is_err());
}

#[test]
fn args_test_parse_colors() {
    let colors = String::from("#ffffff,#000000");

    let parsed = parse_colors(&colors);

    assert!(parsed.is_ok());

    let parsed = parsed.unwrap();

    let Palette { colors } = parsed;

    assert_eq!(2, colors.len());

    let expected: Vec<[u8; 4]> = vec![[255, 255, 255, 255], [0, 0, 0, 255]];
    assert_eq!(colors, expected);
}

#[test]
fn main_test_parse_colors() {
    let colors = String::from("#ffffff,#000000");

    let parsed = parse_colors(&colors);

    assert!(parsed.is_ok());

    let parsed = parsed.unwrap().colors;
    assert_eq!(2, parsed.len());

    let expected: Vec<[u8; 4]> = vec![[255, 255, 255, 255], [0, 0, 0, 255]];
    assert_eq!(parsed, expected);
}

#[test]
fn parse_u32_reads_decimal_numbers() {
    assert_eq!(parse_u32("0"), Some(0));
    assert_eq!(parse_u32("007"), Some(7));
    assert_eq!(parse_u32("+12"), Some(12));
    assert_eq!(parse_u32("4294967295"), Some(u32::MAX));
    assert_eq!(parse_u32("4294967296"), None);
    assert_eq!(parse_u32("99999999999999999999"), None);
    assert_eq!(parse_u32(""), None);
    assert_eq!(parse_u32("+"), None);
    assert_eq!(parse_u32("-1"), None);
    assert_eq!(parse_u32("1 "), None);
    assert_eq!(parse_u32("１"), None);
}

#[test]
fn parse_u32_agrees_with_std() {
    for text in ["0", "1", "42", "+42", "000", "4294967295", "4294967296", "", "+", "++1", "1e3", "0x10", " 1"] {
        assert_eq!(parse_u32(text), text.parse::<u32>().ok(), "{}", text);
    }
}

#[test]
fn validate_k_gives_the_count() {
    assert_eq!(validate_k("8"), Ok(8));
    assert_eq!(validate_k("+8"), Ok(8));
    assert_eq!(validate_k("0"), Err(Error::InvalidColorCount));
    assert_eq!(validate_k("-3"), Err(Error::InvalidColorCount));
    assert_eq!(validate_k("4294967296"), Err(Error::InvalidColorCount));
}

#[test]
fn validate_k_for_dithering_needs_two() {
    assert_eq!(validate_k_for_dithering("2"), Ok(2));
    assert_eq!(validate_k_for_dithering("64"), Ok(64));
    assert_eq!(validate_k_for_dithering("1"), Err(Error::InvalidMixColorCount));
    assert_eq!(validate_k_for_dithering("0"), Err(Error::InvalidMixColorCount));
    assert_eq!(validate_k_for_dithering("two"), Err(Error::InvalidMixColorCount));
}

#[test]
fn file_names_need_a_stem_and_an_image_extension() {
    assert_eq!(validate_filenames("a.png").unwrap(), "a.png");
    assert_eq!(validate_filenames("dir/é.jpg").unwrap(), "dir/é.jpg");
    assert_eq!(validate_filenames(".jpg"), Err(Error::UnsupportedFile));
    assert_eq!(validate_filenames("a.PNG"), Err(Error::UnsupportedFile));
    assert_eq!(validate_filenames("a.jpeg"), Err(Error::UnsupportedFile));
    assert_eq!(validate_filenames("png"), Err(Error::UnsupportedFile));
    assert!(has_image_extension("x.png"));
    assert!(!has_image_extension("x.pngx"));
    assert_eq!(Error::UnsupportedFile.kind(), ErrorKind::Io);
}

#[test]
fn parse_colors_reads_both_cases() {
    let parsed = parse_colors("#0a1B2c,#FfEeDd,#123456").unwrap();
    assert_eq!(
        parsed.colors,
        vec![[0x0a, 0x1b, 0x2c, 255], [0xff, 0xee, 0xdd, 255], [0x12, 0x34, 0x56, 255]]
    );
}

#[test]
fn parse_colors_refuses_ill_formed_lists() {
    for text in [
        "",
        "#",
        "#fffff",
        "#fffffff",
        "ffffff",
        "#ffffff,",
        ",#ffffff",
        "#ffffff#000000",
        "#ffffff, #000000",
        "#gggggg",
        "#+f+f+f",
        "#ffffff\n",
        "#ffffffé",
        "#ffffff;#000000",
    ] {
        assert_eq!(parse_colors(text).err(), Some(Error::IllFormedColors), "{:?}", text);
        assert_eq!(validate_replacement(text), Err(Error::IllFormedColors), "{:?}", text);
    }
    assert_eq!(Error::IllFormedColors.kind(), ErrorKind::Input);
}

#[test]
fn the_pattern_and_the_parser_accept_the_same_lists() {
    for text in [
        "#000000",
        "#abcdef,#ABCDEF",
        "#012345,#6789ab,#cdefAB",
        "#00000",
        "#000000,#00000",
        "x#000000",
        "#000000x",
        "#00000g",
        "#000000,,#000000",
    ] {
        assert_eq!(
            validate_replacement(text).is_ok(),
            parse_colors(text).is_ok(),
            "{:?}",
            text
        );
    }
}

#[test]
fn validate_palette_tells_colors_from_files() {
    match validate_palette("#ffffff,#000000").unwrap() {
        PaletteSource::Colors(palette) => {
            assert_eq!(palette.colors, vec![[255, 255, 255, 255], [0, 0, 0, 255]])
        }
        PaletteSource::ImageFile(_) => panic!("a colour list was taken for a file"),
    }
    match validate_palette("gfx/resurrect_64.png").unwrap() {
        PaletteSource::ImageFile(name) => assert_eq!(name, "gfx/resurrect_64.png"),
        PaletteSource::Colors(_) => panic!("a file name was taken for a colour list"),
    }
    assert_eq!(validate_palette("palette.gif").err(), Some(Error::InvalidPalette));
    assert_eq!(validate_palette(".png").err(), Some(Error::InvalidPalette));
}

#[test]
fn hex_round_trip_comes_back_in_upper_case() {
    for text in ["#ffffff,#000000", "#0a1b2c", "#AbCdEf,#123456,#fedcba"] {
        let parsed = parse_colors(text).unwrap();
        assert_eq!(format_colors(&parsed.colors), text.to_uppercase());
    }
    assert_eq!(format_color(&[255, 128, 0, 7]), "#FF8000");
    assert_eq!(format_color(&[0, 9, 171, 255]), "#0009AB");
    assert_eq!(format_colors(&vec![]), "");
}

fn unique_pixels(count: u32) -> Vec<[u8; 4]> {
    (0..count)
        .rev()
        .map(|i| [(i % 256) as u8, (i / 256) as u8, (i * 7 % 256) as u8, 255])
        .collect()
}

#[test]
fn parse_palette_of_64_unique_pixels_has_64_colors() {
    let image = Image::new((8, 8), unique_pixels(64));
    let parsed = parse_palette(&image).unwrap();
    assert_eq!(64, parsed.colors.len());
    let mut expected = unique_pixels(64);
    expected.sort();
    assert_eq!(parsed.colors, expected);
}

#[test]
fn parse_palette_takes_512_pixels_and_no_more() {
    let image = Image::new((512, 1), unique_pixels(512));
    assert_eq!(parse_palette(&image).unwrap().colors.len(), 512);
    let image = Image::new((513, 1), unique_pixels(513));
    assert_eq!(parse_palette(&image).err(), Some(Error::TooManyPaletteColors));
}

#[test]
fn parse_palette_refuses_recurring_colors() {
    let mut pixels = unique_pixels(16);
    pixels[5] = pixels[11];
    let image = Image::new((4, 4), pixels);
    assert_eq!(parse_palette(&image).err(), Some(Error::RecurringPaletteColors));
}
