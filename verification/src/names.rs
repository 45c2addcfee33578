//! Names for the files that results are written to when the caller names
//! none, and the image that shows a palette.

use crate::args::{decimal_value, is_decimal_digit, parsed_u32, unsigned_digits};
use crate::error::Error;
use crate::image::{pixel_count, Image};
use crate::options::{Algorithm, ReduceMode};
use vstd::prelude::*;

verus! {

/// The smallest side, in pixels, of the square that shows one colour of a
/// palette.
pub const MIN_TILE_SIZE: u32 = 1;

/// The largest side of such a square.
pub const MAX_TILE_SIZE: u32 = 60;

/// The character of a decimal digit.
pub open spec fn digit_char(digit: nat) -> char {
    (digit + 48) as u8 as char
}

/// A number written in decimal, without sign or leading zeros.
pub open spec fn decimal_digits(number: nat) -> Seq<char>
    decreases number,
{
    if number < 10 {
        seq![digit_char(number)]
    } else {
        decimal_digits(number / 10).push(digit_char(number % 10))
    }
}

/// A number below 1000 written with three decimal digits.
pub open spec fn three_digits(number: nat) -> Seq<char> {
    seq![digit_char(number / 100), digit_char(number / 10 % 10), digit_char(number % 10)]
}

/// Seconds and milliseconds since the epoch, written as milliseconds.
pub open spec fn timestamp_digits(seconds: u64, milliseconds: u32) -> Seq<char> {
    decimal_digits(seconds as nat) + three_digits(milliseconds as nat)
}

/// The name for the result of `reduce`.
pub open spec fn reduce_name(
    stem: Seq<char>,
    color_count: u32,
    algo: Algorithm,
    mode: ReduceMode,
) -> Seq<char> {
    stem + "-reduce-c"@ + decimal_digits(color_count as nat) + "-"@ + algo.spec_name() + "-"@
        + mode.spec_name() + ".png"@
}

/// The name for the result of `palette`.
pub open spec fn palette_name(stem: Seq<char>, color_count: u32, algo: Algorithm, size: u32) -> Seq<
    char,
> {
    stem + "-palette-c"@ + decimal_digits(color_count as nat) + "-"@ + algo.spec_name() + "-s"@
        + decimal_digits(size as nat) + ".png"@
}

/// The name for the result of `find`.
pub open spec fn find_name(
    stem: Seq<char>,
    mode: ReduceMode,
    seconds: u64,
    milliseconds: u32,
    extension: Seq<char>,
) -> Seq<char> {
    stem + "-find-"@ + mode.spec_name() + "-"@ + timestamp_digits(seconds, milliseconds) + "."@
        + extension
}

/// The one-character text of a decimal digit.
fn digit_str(digit: u8) -> (text: &'static str)
    requires
        digit < 10,
    ensures
        text@ == seq![digit_char(digit as nat)],
{
    proof {
        reveal_strlit("0");
        reveal_strlit("1");
        reveal_strlit("2");
        reveal_strlit("3");
        reveal_strlit("4");
        reveal_strlit("5");
        reveal_strlit("6");
        reveal_strlit("7");
        reveal_strlit("8");
        reveal_strlit("9");
    }
    let text = match digit {
        0 => "0",
        1 => "1",
        2 => "2",
        3 => "3",
        4 => "4",
        5 => "5",
        6 => "6",
        7 => "7",
        8 => "8",
        _ => "9",
    };
    assert(text@ =~= seq![digit_char(digit as nat)]);
    text
}

/// Appends `number`, written in decimal, to `text`.
fn push_decimal(text: &mut String, number: u64)
    ensures
        final(text)@ == old(text)@ + decimal_digits(number as nat),
    decreases number,
{
    let ghost before = text@;
    if number >= 10 {
        push_decimal(text, number / 10);
    }
    text.append(digit_str((number % 10) as u8));
    assert(text@ =~= before + decimal_digits(number as nat));
}

/// `number` written in decimal.
pub fn decimal_text(number: u64) -> (text: String)
    ensures
        text@ == decimal_digits(number as nat),
{
    let mut text = String::new();
    push_decimal(&mut text, number);
    assert(text@ =~= decimal_digits(number as nat));
    text
}

/// Appends the time, written as milliseconds since the epoch, to `text`.
fn push_timestamp(text: &mut String, seconds: u64, milliseconds: u32)
    requires
        milliseconds < 1000,
    ensures
        final(text)@ == old(text)@ + timestamp_digits(seconds, milliseconds),
{
    let ghost before = text@;
    push_decimal(text, seconds);
    text.append(digit_str((milliseconds / 100) as u8));
    text.append(digit_str((milliseconds / 10 % 10) as u8));
    text.append(digit_str((milliseconds % 10) as u8));
    assert(text@ =~= before + timestamp_digits(seconds, milliseconds));
}

/// The time as it stands in file names: the seconds since the epoch, then
/// the milliseconds of the running second in three digits.
pub fn timestamp_text(seconds: u64, milliseconds: u32) -> (text: String)
    requires
        milliseconds < 1000,
    ensures
        text@ == timestamp_digits(seconds, milliseconds),
{
    let mut text = String::new();
    push_timestamp(&mut text, seconds, milliseconds);
    assert(text@ =~= timestamp_digits(seconds, milliseconds));
    text
}

/// The file name for the result of `reduce` on the file with stem `stem`.
pub fn reduce_file_name(stem: &str, color_count: u32, algo: &Algorithm, mode: &ReduceMode) -> (name:
    String)
    ensures
        name@ == reduce_name(stem@, color_count, *algo, *mode),
{
    let mut name = String::from_str(stem);
    name.append("-reduce-c");
    push_decimal(&mut name, color_count as u64);
    name.append("-");
    name.append(algo.name());
    name.append("-");
    name.append(mode.name());
    name.append(".png");
    name
}

/// The file name for the result of `palette` on the file with stem `stem`.
pub fn palette_file_name(stem: &str, color_count: u32, algo: &Algorithm, size: u32) -> (name:
    String)
    ensures
        name@ == palette_name(stem@, color_count, *algo, size),
{
    let mut name = String::from_str(stem);
    name.append("-palette-c");
    push_decimal(&mut name, color_count as u64);
    name.append("-");
    name.append(algo.name());
    name.append("-s");
    push_decimal(&mut name, size as u64);
    name.append(".png");
    name
}

/// The file name for the result of `find` on the file with stem `stem`,
/// made at the given time.
pub fn find_file_name(
    stem: &str,
    mode: &ReduceMode,
    seconds: u64,
    milliseconds: u32,
    extension: &str,
) -> (name: String)
    requires
        milliseconds < 1000,
    ensures
        name@ == find_name(stem@, *mode, seconds, milliseconds, extension@),
{
    let mut name = String::from_str(stem);
    name.append("-find-");
    name.append(mode.name());
    name.append("-");
    push_timestamp(&mut name, seconds, milliseconds);
    name.append(".");
    name.append(extension);
    name
}

/// The digits of a number are digits, and write that number.
pub proof fn decimal_digits_write_the_number(number: nat)
    ensures
        decimal_digits(number).len() > 0,
        forall|i: int|
            0 <= i < decimal_digits(number).len() ==> is_decimal_digit(
                #[trigger] decimal_digits(number)[i],
            ),
        decimal_value(decimal_digits(number)) == number,
    decreases number,
{
    let digits = decimal_digits(number);
    if number < 10 {
        assert(digits.drop_last() =~= Seq::<char>::empty());
        assert(decimal_value(digits.drop_last()) == 0);
    } else {
        decimal_digits_write_the_number(number / 10);
        assert(digits.drop_last() =~= decimal_digits(number / 10));
    }
}

/// A colour count written in decimal reads back as itself.
pub proof fn decimal_round_trip(number: u32)
    ensures
        parsed_u32(decimal_digits(number as nat)) == Some(number),
{
    decimal_digits_write_the_number(number as nat);
    let digits = decimal_digits(number as nat);
    assert(is_decimal_digit(digits[0]));
    assert(unsigned_digits(digits) == digits);
}

// ---------------------------------------------------------------------------
// The image of a palette

/// Whether a palette of `colors` colours can be shown with squares of side
/// `size`: the side is between 1 and 60, and the image is not wider than
/// images can be.
pub open spec fn palette_image_fits(colors: nat, size: u32) -> bool {
    1 <= size <= 60 && colors * size <= u32::MAX
}

/// Checks the side of the squares that show the colours of a palette.
pub fn check_tile_size(size: u32) -> (checked: Result<u32, Error>)
    ensures
        checked == if 1 <= size <= 60 {
            Ok::<u32, Error>(size)
        } else {
            Err(Error::InvalidTileSize)
        },
{
    if MIN_TILE_SIZE <= size && size <= MAX_TILE_SIZE {
        Ok(size)
    } else {
        Err(Error::InvalidTileSize)
    }
}

/// The image that shows a palette: one square of side `size` for each
/// colour, side by side from left to right.
#[verifier::rlimit(50)]
pub fn palette_image(palette: &Vec<[u8; 4]>, size: u32) -> (image: Result<Image, Error>)
    ensures
        palette_image_fits(palette@.len(), size) ==> (image matches Ok(shown) && shown.wf()
            && shown.spec_dimensions() == ((palette@.len() * size) as u32, size) && forall|
            x: int,
            y: int,
        |
            0 <= x < palette@.len() * size && 0 <= y < size ==> #[trigger] shown.pixels()[y * (
            palette@.len() * size) + x] == palette@[x / size as int]),
        !(1 <= size <= 60) ==> image matches Err(Error::InvalidTileSize),
        1 <= size <= 60 && palette@.len() * size > u32::MAX ==> image matches Err(
            Error::ImageTooLarge,
        ),
{
    if size < MIN_TILE_SIZE || size > MAX_TILE_SIZE {
        return Err(Error::InvalidTileSize);
    }
    let colors: usize = palette.len();
    if colors > (u32::MAX / size) as usize {
        assert(colors * size > u32::MAX) by (nonlinear_arith)
            requires
                colors > u32::MAX / size,
                1 <= size <= 60,
        ;
        return Err(Error::ImageTooLarge);
    }
    assert(colors * size <= u32::MAX) by (nonlinear_arith)
        requires
            colors <= u32::MAX / size,
            1 <= size <= 60,
    ;
    let width: u32 = colors as u32 * size;
    let mut pixels: Vec<[u8; 4]> = Vec::new();
    let mut y: u32 = 0;
    while y < size
        invariant
            1 <= size <= 60,
            colors == palette@.len(),
            width == colors * size,
            y <= size,
            pixels@.len() == y * width,
            forall|i: int|
                0 <= i < pixels@.len() ==> #[trigger] pixels@[i] == palette@[(i % width as int)
                    / size as int],
        decreases size - y,
    {
        let ghost rows = pixels@;
        let mut x: u32 = 0;
        while x < width
            invariant
                1 <= size <= 60,
                colors == palette@.len(),
                width == colors * size,
                x <= width,
                rows.len() == y * width,
                pixels@.len() == rows.len() + x,
                forall|i: int| 0 <= i < rows.len() ==> pixels@[i] == rows[i],
                forall|c: int|
                    0 <= c < x ==> #[trigger] pixels@[rows.len() + c] == palette@[c / size as int],
            decreases width - x,
        {
            assert(x / size < colors) by (nonlinear_arith)
                requires
                    x < colors * size,
                    size >= 1,
            ;
            pixels.push(palette[(x / size) as usize]);
            x += 1;
        }
        proof {
            assert((y + 1) * width == y * width + width) by (nonlinear_arith);
            assert forall|i: int| 0 <= i < pixels@.len() implies #[trigger] pixels@[i]
                == palette@[(i % width as int) / size as int] by {
                if i < rows.len() {
                    assert(pixels@[i] == rows[i]);
                } else {
                    let c = i - rows.len();
                    assert(pixels@[rows.len() + c] == palette@[c / size as int]);
                    assert(i % width as int == c) by (nonlinear_arith)
                        requires
                            i == y * width + c,
                            0 <= c < width,
                    ;
                }
            }
        }
        y += 1;
    }
    assert(pixels@.len() == pixel_count((width, size))) by (nonlinear_arith)
        requires
            pixels@.len() == size * width,
            pixel_count((width, size)) == width as nat * size as nat,
    ;
    let shown = Image::new((width, size), pixels);
    proof {
        assert forall|x: int, y: int| 0 <= x < palette@.len() * size && 0 <= y < size implies #[trigger] shown.pixels()[y
            * (palette@.len() * size) + x] == palette@[x / size as int] by {
            let i = y * width + x;
            assert(0 <= i < size * width && i % width as int == x) by (nonlinear_arith)
                requires
                    i == y * width + x,
                    0 <= x < width,
                    0 <= y < size,
            ;
            assert(pixels@[i] == palette@[(i % width as int) / size as int]);
        }
    }
    Ok(shown)
}

} // verus!
