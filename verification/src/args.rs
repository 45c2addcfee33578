//! Validation of what a user types: colour counts, file names and palettes.

use crate::color::{sorted_unique, strictly_sorted};
use crate::error::Error;
use crate::image::Image;
use crate::text::{is_suffix, str_ends_with};
use vstd::prelude::*;
use vstd::string::StringSliceAdditionalSpecFns;

verus! {

/// The colours that an image is mapped onto.
#[derive(Debug, Clone)]
pub struct Palette {
    pub colors: Vec<[u8; 4]>,
}

/// A palette given on the command line: either its colours, or the name of
/// an image file that holds them.
#[derive(Debug, Clone)]
pub enum PaletteSource {
    Colors(Palette),
    ImageFile(String),
}

/// The largest number of pixels a palette image may have.
pub const MAX_PALETTE_PIXELS: usize = 512;

/// The grammar of a colour list, as a regular expression.
pub const COLOR_LIST_PATTERN: &'static str = "^#[0-9a-fA-F]{6}(?:,#[0-9a-fA-F]{6})*$";

// ---------------------------------------------------------------------------
// Decimal numbers

/// One of the digits `0` to `9`.
pub open spec fn is_decimal_digit(c: char) -> bool {
    '0' <= c <= '9'
}

/// The number that a run of decimal digits writes.
pub open spec fn decimal_value(digits: Seq<char>) -> nat
    decreases digits.len(),
{
    if digits.len() == 0 {
        0
    } else {
        (decimal_value(digits.drop_last()) * 10 + (digits.last() as nat - '0' as nat)) as nat
    }
}

/// The digits of a number written with an optional leading plus sign.
pub open spec fn unsigned_digits(text: Seq<char>) -> Seq<char> {
    if text.len() > 0 && text[0] == '+' {
        text.drop_first()
    } else {
        text
    }
}

/// The `u32` that `text` writes: an optional plus sign, then one or more
/// decimal digits whose value fits.
pub open spec fn parsed_u32(text: Seq<char>) -> Option<u32> {
    let digits = unsigned_digits(text);
    if digits.len() > 0 && (forall|i: int| 0 <= i < digits.len() ==> is_decimal_digit(
        #[trigger] digits[i],
    )) && decimal_value(digits) <= u32::MAX {
        Some(decimal_value(digits) as u32)
    } else {
        None
    }
}

/// A longer run of digits writes a number that is at least as large.
proof fn decimal_value_grows(digits: Seq<char>, shorter: int)
    requires
        0 <= shorter <= digits.len(),
        forall|i: int| 0 <= i < digits.len() ==> is_decimal_digit(#[trigger] digits[i]),
    ensures
        decimal_value(digits.take(shorter)) <= decimal_value(digits),
    decreases digits.len() - shorter,
{
    if shorter == digits.len() {
        assert(digits.take(shorter) =~= digits);
    } else {
        decimal_value_grows(digits, shorter + 1);
        let longer = digits.take(shorter + 1);
        assert(longer.drop_last() =~= digits.take(shorter));
        assert(is_decimal_digit(digits[shorter]));
        assert(longer.last() == digits[shorter]);
    }
}

/// Reads a `u32` written in decimal.
pub fn parse_u32(text: &str) -> (number: Option<u32>)
    ensures
        number == parsed_u32(text@),
{
    if !text.is_ascii() {
        proof {
            not_ascii_is_no_number(text@);
        }
        return None;
    }
    let bytes = text.as_bytes();
    proof {
        vstd::string::is_ascii_spec_bytes(text);
    }
    let length: usize = bytes.len();
    let start: usize = if length > 0 && bytes[0] == 43 {
        1
    } else {
        0
    };
    let ghost digits = unsigned_digits(text@);
    assert(digits =~= text@.subrange(start as int, length as int));
    if start == length {
        return None;
    }
    let mut value: u32 = 0;
    let mut i: usize = start;
    while i < length
        invariant
            start <= i <= length,
            length == text@.len(),
            bytes@ == Seq::new(text@.len(), |k: int| text@[k] as u8),
            vstd::utf8::is_ascii_chars(text@),
            digits == text@.subrange(start as int, length as int),
            digits == unsigned_digits(text@),
            forall|k: int| 0 <= k < i - start ==> is_decimal_digit(#[trigger] digits[k]),
            value == decimal_value(digits.take(i - start)),
        decreases length - i,
    {
        let byte: u8 = bytes[i];
        assert(byte == text@[i as int] as u8);
        assert(digits[i - start] == text@[i as int]);
        if byte < 48 || byte > 57 {
            assert(!is_decimal_digit(digits[i - start]));
            return None;
        }
        let digit: u32 = (byte - 48) as u32;
        let ghost longer = digits.take(i - start + 1);
        proof {
            assert(longer.drop_last() =~= digits.take(i - start));
            assert(longer.last() == digits[i - start]);
            assert(decimal_value(longer) == value * 10 + digit);
        }
        if value > (u32::MAX - digit) / 10 {
            proof {
                if forall|k: int| 0 <= k < digits.len() ==> is_decimal_digit(#[trigger] digits[k]) {
                    decimal_value_grows(digits, i - start + 1);
                }
            }
            return None;
        }
        value = value * 10 + digit;
        i += 1;
    }
    assert(digits.take(i - start) =~= digits);
    Some(value)
}

/// Text with a character outside ASCII writes no number.
proof fn not_ascii_is_no_number(text: Seq<char>)
    requires
        !vstd::utf8::is_ascii_chars(text),
    ensures
        parsed_u32(text) is None,
{
    let at = choose|i: int| 0 <= i < text.len() && !('\0' <= #[trigger] text[i] <= '\u{7f}');
    let digits = unsigned_digits(text);
    if text.len() > 0 && text[0] == '+' {
        assert(at > 0);
        assert(digits[at - 1] == text[at]);
        assert(!is_decimal_digit(digits[at - 1]));
    } else {
        assert(!is_decimal_digit(digits[at]));
    }
}

/// The colour count that `s` writes, which must be at least 1.
pub fn validate_k(s: &str) -> (count: Result<u32, Error>)
    ensures
        count == match parsed_u32(s@) {
            Some(k) if k >= 1 => Ok::<u32, Error>(k),
            _ => Err(Error::InvalidColorCount),
        },
{
    match parse_u32(s) {
        Some(k) => {
            if k >= 1 {
                Ok(k)
            } else {
                Err(Error::InvalidColorCount)
            }
        },
        None => Err(Error::InvalidColorCount),
    }
}

/// The colour count that `s` writes, which must be at least 2: mixing needs
/// two colours to mix.
pub fn validate_k_for_dithering(s: &str) -> (count: Result<u32, Error>)
    ensures
        count == match parsed_u32(s@) {
            Some(k) if k >= 2 => Ok::<u32, Error>(k),
            _ => Err(Error::InvalidMixColorCount),
        },
{
    match parse_u32(s) {
        Some(k) => {
            if k >= 2 {
                Ok(k)
            } else {
                Err(Error::InvalidMixColorCount)
            }
        },
        None => Err(Error::InvalidMixColorCount),
    }
}

// ---------------------------------------------------------------------------
// File names

/// A file name of more than four bytes that ends in `.png` or `.jpg`.
pub open spec fn is_image_file_name(name: &str) -> bool {
    name.spec_bytes().len() > 4 && (is_suffix(".png".spec_bytes(), name.spec_bytes()) || is_suffix(
        ".jpg".spec_bytes(),
        name.spec_bytes(),
    ))
}

/// Whether `name` names a png or jpg file.
pub fn has_image_extension(name: &str) -> (supported: bool)
    ensures
        supported == is_image_file_name(name),
{
    name.as_bytes().len() > 4 && (str_ends_with(name, ".png") || str_ends_with(name, ".jpg"))
}

/// Accepts the names of png and jpg files, and hands the name back.
pub fn validate_filenames(s: &str) -> (name: Result<String, Error>)
    ensures
        is_image_file_name(s) ==> (name matches Ok(same) && same@ == s@),
        !is_image_file_name(s) ==> name == Err::<String, Error>(Error::UnsupportedFile),
{
    if has_image_extension(s) {
        Ok(s.to_owned())
    } else {
        Err(Error::UnsupportedFile)
    }
}

// ---------------------------------------------------------------------------
// Colour lists: `#RRGGBB,#RRGGBB,...`

/// A digit, or one of the letters `a` to `f` in either case.
pub open spec fn is_hex_digit(c: char) -> bool {
    ('0' <= c <= '9') || ('a' <= c <= 'f') || ('A' <= c <= 'F')
}

/// The value of a hexadecimal digit.
pub open spec fn hex_digit_value(c: char) -> nat {
    if '0' <= c <= '9' {
        (c as nat - '0' as nat) as nat
    } else if 'a' <= c <= 'f' {
        (c as nat - 'a' as nat + 10) as nat
    } else {
        (c as nat - 'A' as nat + 10) as nat
    }
}

/// The number of colours in a list of `length` characters.
pub open spec fn color_count(length: nat) -> nat {
    (length + 1) / 8
}

/// The `index`-th colour of the list is well formed: a hash sign, six
/// hexadecimal digits and, unless the list ends there, a comma.
pub open spec fn is_color_token(text: Seq<char>, index: int) -> bool {
    let at = 8 * index;
    &&& text[at] == '#'
    &&& forall|k: int| 1 <= k <= 6 ==> is_hex_digit(#[trigger] text[at + k])
    &&& (at + 7 < text.len() ==> text[at + 7] == ',')
}

/// `text` is one or more colours, each written `#RRGGBB`, with a comma
/// between two of them and nothing else.
pub open spec fn is_color_list(text: Seq<char>) -> bool {
    &&& text.len() % 8 == 7
    &&& forall|index: int| 0 <= index < color_count(text.len()) ==> is_color_token(text, index)
}

/// The channel that two hexadecimal digits write.
pub open spec fn hex_pair_value(high: char, low: char) -> u8 {
    (hex_digit_value(high) * 16 + hex_digit_value(low)) as u8
}

/// The `index`-th colour of a colour list, opaque.
pub open spec fn color_at(text: Seq<char>, index: int) -> [u8; 4] {
    let at = 8 * index;
    [
        hex_pair_value(text[at + 1], text[at + 2]),
        hex_pair_value(text[at + 3], text[at + 4]),
        hex_pair_value(text[at + 5], text[at + 6]),
        255u8,
    ]
}

/// The colours that a colour list writes, in the order written.
pub open spec fn color_list(text: Seq<char>) -> Seq<[u8; 4]> {
    Seq::new(color_count(text.len()), |index: int| color_at(text, index))
}

/// Whether `text` matches the regular expression `pattern`. Calls
/// `regex::Regex::new` and `Regex::is_match`. The pattern is the grammar of
/// colour lists and nothing else, so the expression compiles; it is anchored
/// at both ends of the text and its classes hold ASCII characters only, so it
/// matches exactly the texts made of `#` and six hexadecimal digits, repeated
/// with one comma in between.
#[verifier::external_body]
fn matches_color_list(pattern: &str, text: &str) -> (matched: bool)
    requires
        pattern@ == COLOR_LIST_PATTERN@,
    ensures
        matched == is_color_list(text@),
{
    regex::Regex::new(pattern).unwrap().is_match(text)
}

/// The value of the hexadecimal digit `byte`, if it is one.
fn hex_digit(byte: u8) -> (value: Option<u8>)
    ensures
        byte < 128 ==> (value is Some) == is_hex_digit(byte as char),
        byte < 128 ==> (value matches Some(v) ==> v == hex_digit_value(byte as char)),
        byte >= 128 ==> value is None,
{
    if 48 <= byte && byte <= 57 {
        Some(byte - 48)
    } else if 97 <= byte && byte <= 102 {
        Some(byte - 97 + 10)
    } else if 65 <= byte && byte <= 70 {
        Some(byte - 65 + 10)
    } else {
        None
    }
}

/// The channel written by the two hexadecimal digits `high` and `low`.
fn hex_pair(high: u8, low: u8) -> (value: Option<u8>)
    ensures
        high < 128 && low < 128 ==> (value is Some) == (is_hex_digit(high as char) && is_hex_digit(
            low as char,
        )),
        high < 128 && low < 128 ==> (value matches Some(v) ==> v == hex_pair_value(
            high as char,
            low as char,
        )),
{
    match hex_digit(high) {
        Some(h) => match hex_digit(low) {
            Some(l) => Some(h * 16 + l),
            None => None,
        },
        None => None,
    }
}

/// A text with a character outside ASCII is no colour list.
proof fn not_ascii_is_no_color_list(text: Seq<char>)
    requires
        !vstd::utf8::is_ascii_chars(text),
    ensures
        !is_color_list(text),
{
    let at = choose|i: int| 0 <= i < text.len() && !('\0' <= #[trigger] text[i] <= '\u{7f}');
    if is_color_list(text) {
        let index = at / 8;
        let k = at % 8;
        assert(is_color_token(text, index));
        if 1 <= k <= 6 {
            assert(is_hex_digit(text[8 * index + k]));
        }
    }
}

/// Reads a list of colours written `#RRGGBB,#RRGGBB,...`; each colour is opaque.
pub fn parse_colors(colors: &str) -> (parsed: Result<Palette, Error>)
    ensures
        is_color_list(colors@) ==> (parsed matches Ok(palette) && palette.colors@ == color_list(
            colors@,
        )),
        !is_color_list(colors@) ==> parsed matches Err(Error::IllFormedColors),
{
    if !colors.is_ascii() {
        proof {
            not_ascii_is_no_color_list(colors@);
        }
        return Err(Error::IllFormedColors);
    }
    let bytes = colors.as_bytes();
    proof {
        vstd::string::is_ascii_spec_bytes(colors);
    }
    let length: usize = bytes.len();
    if length % 8 != 7 {
        return Err(Error::IllFormedColors);
    }
    let count: usize = length / 8 + 1;
    let mut list: Vec<[u8; 4]> = Vec::new();
    let mut index: usize = 0;
    while index < count
        invariant
            length == colors@.len(),
            length % 8 == 7,
            count == color_count(colors@.len()),
            index <= count,
            bytes@ == Seq::new(colors@.len(), |k: int| colors@[k] as u8),
            vstd::utf8::is_ascii_chars(colors@),
            list@.len() == index,
            forall|n: int| 0 <= n < index ==> is_color_token(colors@, n),
            forall|n: int| 0 <= n < index ==> #[trigger] list@[n] == color_at(colors@, n),
        decreases count - index,
    {
        let at: usize = index * 8;
        assert(at + 6 < length);
        proof {
            assert forall|k: int| 0 <= k <= 7 && at + k < length implies bytes@[at + k] < 128
                && (bytes@[at + k] as char) == #[trigger] colors@[at + k] by {
                let c = colors@[at + k];
                assert('\0' <= c <= '\u{7f}');
            }
            assert(bytes@[at as int] < 128 && (bytes@[at as int] as char) == colors@[at + 0]);
        }
        let red = hex_pair(bytes[at + 1], bytes[at + 2]);
        let green = hex_pair(bytes[at + 3], bytes[at + 4]);
        let blue = hex_pair(bytes[at + 5], bytes[at + 6]);
        let well_ended: bool = at + 7 >= length || bytes[at + 7] == 44;
        match (bytes[at] == 35, red, green, blue, well_ended) {
            (true, Some(r), Some(g), Some(b), true) => {
                let color: [u8; 4] = [r, g, b, 255];
                assert(is_color_token(colors@, index as int)) by {
                    assert forall|k: int| 1 <= k <= 6 implies is_hex_digit(
                        #[trigger] colors@[at + k],
                    ) by {
                        assert(bytes@[at + k] as char == colors@[at + k]);
                    }
                }
                assert(color =~= color_at(colors@, index as int));
                list.push(color);
            },
            _ => {
                proof {
                    if is_color_list(colors@) {
                        assert(is_color_token(colors@, index as int));
                        assert(is_hex_digit(colors@[at + 1]) && is_hex_digit(colors@[at + 2])
                            && is_hex_digit(colors@[at + 3]) && is_hex_digit(colors@[at + 4])
                            && is_hex_digit(colors@[at + 5]) && is_hex_digit(colors@[at + 6]));
                        assert(false);
                    }
                }
                return Err(Error::IllFormedColors);
            },
        }
        index += 1;
    }
    assert(list@ =~= color_list(colors@));
    Ok(Palette { colors: list })
}

/// Accepts a list of replacement colours written `#RRGGBB,#RRGGBB,...`.
pub fn validate_replacement(s: &str) -> (accepted: Result<(), Error>)
    ensures
        accepted == if is_color_list(s@) {
            Ok::<(), Error>(())
        } else {
            Err(Error::IllFormedColors)
        },
{
    if matches_color_list(COLOR_LIST_PATTERN, s) {
        Ok(())
    } else {
        Err(Error::IllFormedColors)
    }
}

/// Tells a palette written as a colour list from one named as an image
/// file. A colour list is read at once; the file is left for the caller to
/// open, and its pixels for [`parse_palette`] to check.
pub fn validate_palette(s: &str) -> (source: Result<PaletteSource, Error>)
    ensures
        is_color_list(s@) ==> (source matches Ok(PaletteSource::Colors(palette))
            && palette.colors@ == color_list(s@)),
        !is_color_list(s@) && is_image_file_name(s) ==> (source matches Ok(
            PaletteSource::ImageFile(name),
        ) && name@ == s@),
        !is_color_list(s@) && !is_image_file_name(s) ==> source matches Err(Error::InvalidPalette),
{
    if matches_color_list(COLOR_LIST_PATTERN, s) {
        match parse_colors(s) {
            Ok(palette) => Ok(PaletteSource::Colors(palette)),
            Err(error) => Err(error),
        }
    } else if has_image_extension(s) {
        Ok(PaletteSource::ImageFile(s.to_owned()))
    } else {
        Err(Error::InvalidPalette)
    }
}

/// The palette that an image holds: its pixels in ascending order, of which
/// there are at most 512 and no two alike.
pub fn parse_palette(image: &Image) -> (parsed: Result<Palette, Error>)
    ensures
        image.pixels().len() > MAX_PALETTE_PIXELS ==> parsed matches Err(Error::TooManyPaletteColors),
        image.pixels().len() <= MAX_PALETTE_PIXELS && !image.pixels().no_duplicates() ==> parsed matches Err(
            Error::RecurringPaletteColors,
        ),
        image.pixels().len() <= MAX_PALETTE_PIXELS && image.pixels().no_duplicates() ==> (parsed matches Ok(
            palette,
        ) && strictly_sorted(palette.colors@) && palette.colors@.to_set() == image.pixels().to_set()
            && palette.colors@.len() == image.pixels().len()),
{
    let pixels = image.as_pixels();
    if pixels.len() > MAX_PALETTE_PIXELS {
        return Err(Error::TooManyPaletteColors);
    }
    let (colors, distinct) = sorted_unique(pixels);
    if !distinct {
        return Err(Error::RecurringPaletteColors);
    }
    Ok(Palette { colors })
}

// ---------------------------------------------------------------------------
// Writing colours back as text

/// The upper-case hexadecimal digit for a value below 16.
pub open spec fn upper_hex_digit(value: nat) -> char {
    if value < 10 {
        (value + 48) as u8 as char
    } else {
        (value + 55) as u8 as char
    }
}

/// A colour written `#RRGGBB` with upper-case digits; alpha is not written.
pub open spec fn color_text(color: [u8; 4]) -> Seq<char> {
    seq![
        '#',
        upper_hex_digit(color[0] as nat / 16),
        upper_hex_digit(color[0] as nat % 16),
        upper_hex_digit(color[1] as nat / 16),
        upper_hex_digit(color[1] as nat % 16),
        upper_hex_digit(color[2] as nat / 16),
        upper_hex_digit(color[2] as nat % 16),
    ]
}

/// Colours written `#RRGGBB`, with a comma between two of them.
pub open spec fn colors_text(colors: Seq<[u8; 4]>) -> Seq<char>
    decreases colors.len(),
{
    if colors.len() == 0 {
        Seq::empty()
    } else if colors.len() == 1 {
        color_text(colors[0])
    } else {
        colors_text(colors.drop_last()) + seq![','] + color_text(colors.last())
    }
}

/// A lower-case hexadecimal letter turned into its capital; any other
/// character as it is.
pub open spec fn upper(c: char) -> char {
    if 'a' <= c <= 'f' {
        (c as u8 - 32) as u8 as char
    } else {
        c
    }
}

/// The one-character text of an upper-case hexadecimal digit.
fn upper_hex_str(value: u8) -> (text: &'static str)
    requires
        value < 16,
    ensures
        text@ == seq![upper_hex_digit(value as nat)],
{
    proof {
        reveal_strlit("0");
        reveal_strlit("1");
        reveal_strlit("2");
        reveal_strlit("3");
        reveal_strlit("4");
        reveal_strlit("5");
        reveal_strlit("6");
        reveal_strlit("7");
        reveal_strlit("8");
        reveal_strlit("9");
        reveal_strlit("A");
        reveal_strlit("B");
        reveal_strlit("C");
        reveal_strlit("D");
        reveal_strlit("E");
        reveal_strlit("F");
    }
    let text = match value {
        0 => "0",
        1 => "1",
        2 => "2",
        3 => "3",
        4 => "4",
        5 => "5",
        6 => "6",
        7 => "7",
        8 => "8",
        9 => "9",
        10 => "A",
        11 => "B",
        12 => "C",
        13 => "D",
        14 => "E",
        _ => "F",
    };
    assert(text@ =~= seq![upper_hex_digit(value as nat)]);
    text
}

/// Appends `color`, written `#RRGGBB`, to `text`.
fn push_color(text: &mut String, color: &[u8; 4])
    ensures
        final(text)@ == old(text)@ + color_text(*color),
{
    let ghost before = text@;
    proof {
        reveal_strlit("#");
    }
    text.append("#");
    text.append(upper_hex_str(color[0] / 16));
    text.append(upper_hex_str(color[0] % 16));
    text.append(upper_hex_str(color[1] / 16));
    text.append(upper_hex_str(color[1] % 16));
    text.append(upper_hex_str(color[2] / 16));
    text.append(upper_hex_str(color[2] % 16));
    assert(text@ =~= before + color_text(*color));
}

/// A colour written `#RRGGBB`, in upper case.
pub fn format_color(color: &[u8; 4]) -> (text: String)
    ensures
        text@ == color_text(*color),
{
    let mut text = String::new();
    push_color(&mut text, color);
    assert(text@ =~= color_text(*color));
    text
}

/// Colours written `#RRGGBB,#RRGGBB,...`, in upper case.
pub fn format_colors(colors: &Vec<[u8; 4]>) -> (text: String)
    ensures
        text@ == colors_text(colors@),
{
    let mut text = String::new();
    let mut index: usize = 0;
    while index < colors.len()
        invariant
            index <= colors@.len(),
            text@ == colors_text(colors@.take(index as int)),
        decreases colors@.len() - index,
    {
        let ghost done = colors@.take(index as int);
        let ghost next = colors@.take(index + 1);
        proof {
            reveal_strlit(",");
            assert(next.drop_last() =~= done);
            assert(next.last() == colors@[index as int]);
        }
        if index > 0 {
            text.append(",");
        }
        push_color(&mut text, &colors[index]);
        proof {
            if index == 0 {
                assert(text@ =~= color_text(colors@[0]));
            }
        }
        index += 1;
    }
    assert(colors@.take(index as int) =~= colors@);
    text
}

/// Two hexadecimal digits, read and written again, come back as capitals.
proof fn hex_pair_round_trip(high: char, low: char)
    requires
        is_hex_digit(high),
        is_hex_digit(low),
    ensures
        upper_hex_digit(hex_pair_value(high, low) as nat / 16) == upper(high),
        upper_hex_digit(hex_pair_value(high, low) as nat % 16) == upper(low),
{
    let h = hex_digit_value(high);
    let l = hex_digit_value(low);
    assert(h < 16 && l < 16);
    assert(hex_pair_value(high, low) == h * 16 + l);
    assert((h * 16 + l) / 16 == h && (h * 16 + l) % 16 == l);
}

/// A colour list, read and written again, comes back in upper case.
pub proof fn color_list_round_trip(text: Seq<char>)
    requires
        is_color_list(text),
    ensures
        colors_text(color_list(text)) == text.map_values(|c: char| upper(c)),
    decreases text.len(),
{
    let count = color_count(text.len());
    let colors = color_list(text);
    let expected = text.map_values(|c: char| upper(c));
    let last = count - 1;
    let at = 8 * last;
    assert(is_color_token(text, last));
    hex_pair_round_trip(text[at + 1], text[at + 2]);
    hex_pair_round_trip(text[at + 3], text[at + 4]);
    hex_pair_round_trip(text[at + 5], text[at + 6]);
    let tail = color_text(colors[last]);
    assert(tail =~= expected.subrange(at, at + 7));
    if count == 1 {
        assert(colors_text(colors) == tail);
        assert(expected =~= expected.subrange(at, at + 7));
    } else {
        let shorter = text.take(at - 1);
        assert(is_color_list(shorter)) by {
            assert forall|index: int| 0 <= index < color_count(shorter.len()) implies is_color_token(
                shorter,
                index,
            ) by {
                assert(is_color_token(text, index));
                assert forall|k: int| 1 <= k <= 6 implies is_hex_digit(
                    #[trigger] shorter[8 * index + k],
                ) by {
                    assert(shorter[8 * index + k] == text[8 * index + k]);
                }
            }
        }
        color_list_round_trip(shorter);
        assert(color_list(shorter) =~= colors.drop_last()) by {
            assert forall|index: int| 0 <= index < count - 1 implies color_list(shorter)[index]
                == colors[index] by {
                assert(color_at(shorter, index) =~= color_at(text, index));
            }
        }
        assert(is_color_token(text, last - 1));
        assert(text[at - 1] == ',');
        assert(expected =~= shorter.map_values(|c: char| upper(c)) + seq![','] + tail);
    }
}

} // verus!
