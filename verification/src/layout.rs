//! The byte layouts that the host shares with the device: the centroid
//! buffer, and the padded rows of a texture copied into a buffer.

use crate::bytes::{bytes_of_words, is_native_layout, pixel_bytes, word_bytes, words_of_bytes};
use crate::error::Error;
use crate::image::{copied_pixel, pixel_count, Image};
use crate::utils::{padded_bytes_per_row, padded_row};
use vstd::prelude::*;

verus! {

/// Bytes of the centroid buffer's header: the centroid count and three words
/// of padding.
pub const CENTROID_HEADER_SIZE: usize = 16;

/// Bytes of one centroid: four 32-bit floats.
pub const CENTROID_RECORD_SIZE: usize = 16;

/// Bytes of a centroid buffer for `k` centroids.
pub open spec fn centroid_buffer_size(k: nat) -> nat {
    16 * (k + 1)
}

/// `contents` is a centroid buffer for `k` centroids whose records are
/// `records`: sixteen bytes of header, which start with `k` as a word in the
/// machine's byte order and go on with zeros, then the records.
pub open spec fn is_centroid_buffer(contents: Seq<u8>, k: u32, records: Seq<u8>) -> bool {
    &&& records.len() == 16 * k
    &&& contents.len() == centroid_buffer_size(k as nat)
    &&& is_native_layout(contents.subrange(0, 16), seq![k, 0u32, 0u32, 0u32])
    &&& contents.subrange(16, contents.len() as int) == records
}

/// Bytes to copy when the centroid buffer for `k` centroids is read back.
pub fn centroid_copy_size(k: u32) -> (size: u64)
    ensures
        size == centroid_buffer_size(k as nat),
{
    16 * (k as u64 + 1)
}

/// The header of a centroid buffer for `k` centroids.
fn centroid_header(k: u32) -> (header: Vec<u8>)
    ensures
        header@.len() == 16,
        is_native_layout(header@, seq![k, 0u32, 0u32, 0u32]),
{
    let words: [u32; 4] = [k, 0, 0, 0];
    assert(words@ =~= seq![k, 0u32, 0u32, 0u32]);
    bytes_of_words(words.as_slice())
}

/// The contents of a centroid buffer before seeding: the header for `k`
/// centroids and `k` records of zeros.
pub fn empty_centroids(k: u32) -> (contents: Vec<u8>)
    ensures
        is_centroid_buffer(contents@, k, Seq::new(16 * k as nat, |i: int| 0u8)),
{
    let mut contents = centroid_header(k);
    let ghost header = contents@;
    let mut record: u32 = 0;
    while record < k
        invariant
            record <= k,
            header.len() == 16,
            contents@ == header + Seq::new(16 * record as nat, |i: int| 0u8),
        decreases k - record,
    {
        let ghost before = contents@;
        let mut byte: usize = 0;
        while byte < CENTROID_RECORD_SIZE
            invariant
                byte <= 16,
                contents@ == before + Seq::new(byte as nat, |i: int| 0u8),
            decreases 16 - byte,
        {
            contents.push(0);
            byte += 1;
            assert(contents@ =~= before + Seq::new(byte as nat, |i: int| 0u8));
        }
        record += 1;
        assert(contents@ =~= header + Seq::new(16 * record as nat, |i: int| 0u8));
    }
    assert(contents@.subrange(0, 16) =~= header);
    assert(contents@.subrange(16, contents@.len() as int) =~= Seq::new(
        16 * k as nat,
        |i: int| 0u8,
    ));
    contents
}

/// The contents of a centroid buffer that holds the given records, sixteen
/// bytes each. Fails when the records are no whole number of centroids, or
/// more than a header can count.
pub fn fixed_centroids(records: &[u8]) -> (contents: Result<Vec<u8>, Error>)
    ensures
        records@.len() % 16 == 0 && records@.len() / 16 <= u32::MAX ==> (contents matches Ok(bytes)
            && is_centroid_buffer(bytes@, (records@.len() / 16) as u32, records@)),
        !(records@.len() % 16 == 0 && records@.len() / 16 <= u32::MAX) ==> contents matches Err(
            Error::LayoutMismatch,
        ),
{
    let length: usize = records.len();
    if length % CENTROID_RECORD_SIZE != 0 || length / CENTROID_RECORD_SIZE > u32::MAX as usize {
        return Err(Error::LayoutMismatch);
    }
    let k: u32 = (length / CENTROID_RECORD_SIZE) as u32;
    let mut contents = centroid_header(k);
    let ghost header = contents@;
    let mut at: usize = 0;
    while at < length
        invariant
            at <= length,
            length == records@.len(),
            contents@ == header + records@.take(at as int),
        decreases length - at,
    {
        contents.push(records[at]);
        at += 1;
        assert(contents@ =~= header + records@.take(at as int));
    }
    assert(records@.take(length as int) =~= records@);
    assert(contents@.subrange(0, 16) =~= header);
    assert(contents@.subrange(16, contents@.len() as int) =~= records@);
    Ok(contents)
}

/// What a centroid buffer read back for `k` centroids must look like, given
/// its length and the first word of its header: the length is that of `k`
/// centroids and the header counts `k` of them.
pub open spec fn centroid_header_matches(length: nat, count_word: u32, k: u32) -> bool {
    length == centroid_buffer_size(k as nat) && count_word == k
}

/// Checks the length and the header word of a centroid buffer read back for
/// `k` centroids.
pub fn check_centroid_header(length: usize, count_word: u32, k: u32) -> (checked: Result<
    (),
    Error,
>)
    ensures
        checked == if centroid_header_matches(length as nat, count_word, k) {
            Ok::<(), Error>(())
        } else {
            Err(Error::LayoutMismatch)
        },
{
    if length as u128 == 16 * (k as u128 + 1) && count_word == k {
        Ok(())
    } else {
        Err(Error::LayoutMismatch)
    }
}

/// The records of a centroid buffer read back for `k` centroids. The header
/// is decoded in the machine's byte order and held against `k` by
/// [`check_centroid_header`]; the records are handed on as they are.
pub fn centroid_records(contents: &[u8], k: u32) -> (records: Result<Vec<u8>, Error>)
    ensures
        contents@.len() != centroid_buffer_size(k as nat) ==> records matches Err(
            Error::LayoutMismatch,
        ),
        records matches Ok(bytes) ==> {
            &&& contents@.len() == centroid_buffer_size(k as nat)
            &&& bytes@ == contents@.subrange(16, contents@.len() as int)
            &&& bytes@.len() == 16 * k
            &&& exists|little: bool|
                contents@.subrange(0, 4) == #[trigger] word_bytes(k, little)
        },
        records matches Err(error) ==> error == Error::LayoutMismatch,
{
    let length: usize = contents.len();
    if length < CENTROID_HEADER_SIZE {
        return Err(Error::LayoutMismatch);
    }
    let header = slice_copy(contents, 0, CENTROID_HEADER_SIZE);
    let words = words_of_bytes(header.as_slice());
    proof {
        let little = header@ == crate::bytes::words_bytes(words@, true);
        assert(crate::bytes::words_bytes(words@, little).len() == 4 * words@.len());
    }
    match check_centroid_header(length, words[0], k) {
        Err(error) => Err(error),
        Ok(()) => {
            let bytes = slice_copy(contents, CENTROID_HEADER_SIZE, length);
            proof {
                let little = header@ == crate::bytes::words_bytes(words@, true);
                let encoded = crate::bytes::words_bytes(words@, little);
                assert(header@ == encoded);
                assert(contents@.subrange(0, 4) =~= word_bytes(k, little)) by {
                    assert forall|i: int| 0 <= i < 4 implies contents@.subrange(0, 4)[i]
                        == word_bytes(k, little)[i] by {
                        assert(contents@.subrange(0, 4)[i] == header@[i]);
                        assert(encoded[i] == word_bytes(words@[i / 4], little)[i % 4]);
                    }
                }
            }
            Ok(bytes)
        },
    }
}

/// A copy of the bytes from `start` up to `end`.
pub fn slice_copy(bytes: &[u8], start: usize, end: usize) -> (copy: Vec<u8>)
    requires
        start <= end <= bytes@.len(),
    ensures
        copy@ == bytes@.subrange(start as int, end as int),
{
    let mut copy: Vec<u8> = Vec::new();
    let mut at: usize = start;
    while at < end
        invariant
            start <= at <= end <= bytes@.len(),
            copy@ == bytes@.subrange(start as int, at as int),
        decreases end - at,
    {
        copy.push(bytes[at]);
        at += 1;
        assert(copy@ =~= bytes@.subrange(start as int, at as int));
    }
    copy
}

// ---------------------------------------------------------------------------
// Textures copied into buffers

/// How the rows of a texture lie in the buffer it is copied into.
#[derive(Debug, Clone, Copy, PartialEq, Eq, Structural)]
pub struct OutputBufferLayout {
    /// Bytes from the start of one row to the start of the next.
    pub padded_bytes_per_row: u32,
    /// Bytes of pixels in a row.
    pub unpadded_bytes_per_row: u32,
    /// Rows.
    pub height: u32,
    /// Bytes of the whole buffer.
    pub size: u64,
}

impl OutputBufferLayout {
    /// The layout for a texture of `dimensions`, if its rows can be addressed.
    pub open spec fn for_dimensions(dimensions: (u32, u32)) -> Option<OutputBufferLayout> {
        let unpadded = 4 * dimensions.0 as nat;
        let padded = padded_row(unpadded);
        if padded <= u32::MAX {
            Some(
                OutputBufferLayout {
                    padded_bytes_per_row: padded as u32,
                    unpadded_bytes_per_row: unpadded as u32,
                    height: dimensions.1,
                    size: (padded * dimensions.1 as nat) as u64,
                },
            )
        } else {
            None
        }
    }

    /// The fields agree with each other.
    pub open spec fn wf(self) -> bool {
        &&& self.padded_bytes_per_row as nat == padded_row(self.unpadded_bytes_per_row as nat)
        &&& self.size == self.padded_bytes_per_row as nat * self.height as nat
    }

    /// The pixel bytes of the rows, without the padding between them.
    pub open spec fn packed(self, padded: Seq<u8>) -> Seq<u8> {
        Seq::new(
            self.unpadded_bytes_per_row as nat * self.height as nat,
            |i: int|
                padded[(i / self.unpadded_bytes_per_row as int) * self.padded_bytes_per_row as int
                    + i % self.unpadded_bytes_per_row as int],
        )
    }

    /// The layout of the buffer that a texture of `dimensions` is copied into.
    pub fn new(dimensions: (u32, u32)) -> (layout: Result<OutputBufferLayout, Error>)
        ensures
            layout == match Self::for_dimensions(dimensions) {
                Some(found) => Ok::<OutputBufferLayout, Error>(found),
                None => Err(Error::ImageTooLarge),
            },
            layout matches Ok(found) ==> found.wf(),
    {
        let unpadded: u64 = 4 * dimensions.0 as u64;
        let padded: u64 = padded_bytes_per_row(unpadded);
        if padded > u32::MAX as u64 {
            return Err(Error::ImageTooLarge);
        }
        assert(padded * dimensions.1 <= u64::MAX) by (nonlinear_arith)
            requires
                padded <= u32::MAX,
                dimensions.1 <= u32::MAX,
        ;
        Ok(
            OutputBufferLayout {
                padded_bytes_per_row: padded as u32,
                unpadded_bytes_per_row: unpadded as u32,
                height: dimensions.1,
                size: padded * dimensions.1 as u64,
            },
        )
    }

    /// Takes the padding out of rows read back from the device.
    #[verifier::rlimit(50)]
    pub fn strip_padding(&self, padded: &[u8]) -> (packed: Result<Vec<u8>, Error>)
        requires
            self.wf(),
        ensures
            padded@.len() == self.size ==> (packed matches Ok(bytes) && bytes@ == self.packed(
                padded@,
            )),
            padded@.len() != self.size ==> packed matches Err(Error::LayoutMismatch),
    {
        if padded.len() as u64 != self.size {
            return Err(Error::LayoutMismatch);
        }
        let length: usize = padded.len();
        let stride: usize = self.padded_bytes_per_row as usize;
        let width: usize = self.unpadded_bytes_per_row as usize;
        let mut bytes: Vec<u8> = Vec::new();
        if width == 0 {
            assert(bytes@ =~= self.packed(padded@));
            return Ok(bytes);
        }
        let mut row: usize = 0;
        while row < self.height as usize
            invariant
                self.wf(),
                padded@.len() == self.size,
                length == padded@.len(),
                width > 0,
                stride == self.padded_bytes_per_row,
                width == self.unpadded_bytes_per_row,
                width <= stride,
                row <= self.height,
                bytes@.len() == width * row,
                forall|i: int|
                    0 <= i < bytes@.len() ==> #[trigger] bytes@[i] == padded@[(i / width as int)
                        * stride + i % width as int],
            decreases self.height - row,
        {
            let ghost before = bytes@;
            assert(row * stride + stride <= padded@.len()) by (nonlinear_arith)
                requires
                    row < self.height,
                    padded@.len() == stride * self.height,
            ;
            let start: usize = row * stride;
            let mut column: usize = 0;
            while column < width
                invariant
                    column <= width <= stride,
                    start == row * stride,
                    start + stride <= padded@.len(),
                    length == padded@.len(),
                    before.len() == width * row,
                    bytes@.len() == before.len() + column,
                    forall|i: int| 0 <= i < before.len() ==> bytes@[i] == before[i],
                    forall|c: int|
                        0 <= c < column ==> #[trigger] bytes@[before.len() + c] == padded@[start
                            + c],
                decreases width - column,
            {
                bytes.push(padded[start + column]);
                column += 1;
            }
            proof {
                assert(width * (row + 1) == width * row + width) by (nonlinear_arith);
                assert forall|i: int| 0 <= i < bytes@.len() implies #[trigger] bytes@[i]
                    == padded@[(i / width as int) * stride + i % width as int] by {
                    if i < before.len() {
                        assert(bytes@[i] == before[i]);
                    } else {
                        let c = i - before.len();
                        assert(bytes@[before.len() + c] == padded@[start + c]);
                        assert(i / width as int == row && i % width as int == c)
                            by (nonlinear_arith)
                            requires
                                i == width * row + c,
                                0 <= c < width,
                        ;
                    }
                }
            }
            row += 1;
        }
        assert(bytes@ =~= self.packed(padded@));
        Ok(bytes)
    }
}

/// The image of `dimensions` that the device wrote, with padded rows, into
/// the buffer whose bytes are `padded`.
pub fn image_from_padded(dimensions: (u32, u32), padded: &[u8]) -> (image: Result<Image, Error>)
    ensures
        match OutputBufferLayout::for_dimensions(dimensions) {
            None => image matches Err(Error::ImageTooLarge),
            Some(layout) => if padded@.len() == layout.size {
                image matches Ok(found) && found.wf() && found.spec_dimensions() == dimensions
                    && pixel_bytes(found.pixels()) == layout.packed(padded@)
            } else {
                image matches Err(Error::LayoutMismatch)
            },
        },
{
    let layout = match OutputBufferLayout::new(dimensions) {
        Ok(layout) => layout,
        Err(error) => {
            return Err(error);
        },
    };
    let packed = match layout.strip_padding(padded) {
        Ok(packed) => packed,
        Err(error) => {
            return Err(error);
        },
    };
    assert(packed@.len() == 4 * pixel_count(dimensions)) by (nonlinear_arith)
        requires
            packed@.len() == layout.unpadded_bytes_per_row as nat * layout.height as nat,
            layout.unpadded_bytes_per_row == 4 * dimensions.0,
            layout.height == dimensions.1,
            pixel_count(dimensions) == dimensions.0 as nat * dimensions.1 as nat,
    ;
    Ok(copied_pixel(dimensions, packed.as_slice()))
}

// ---------------------------------------------------------------------------
// Small buffers

/// The contents of the uniform buffer that tells a kernel which centroid it
/// works on: the index as one word.
pub fn index_uniform(index: u32) -> (contents: Vec<u8>)
    ensures
        contents@.len() == 4,
        is_native_layout(contents@, seq![index]),
{
    let words: [u32; 1] = [index];
    assert(words@ =~= seq![index]);
    let contents = bytes_of_words(words.as_slice());
    proof {
        let little = contents@ == crate::bytes::words_bytes(words@, true);
        assert(crate::bytes::words_bytes(words@, little).len() == 4 * words@.len());
    }
    contents
}

/// The contents of a buffer of `count` words that are all zero, as the flag
/// buffers and the convergence vector start out.
pub fn zero_words(count: u32) -> (contents: Vec<u8>)
    ensures
        contents@ == Seq::new(4 * count as nat, |i: int| 0u8),
{
    let mut words: Vec<u32> = Vec::new();
    let mut index: u32 = 0;
    while index < count
        invariant
            index <= count,
            words@ == Seq::new(index as nat, |i: int| 0u32),
        decreases count - index,
    {
        words.push(0);
        index += 1;
        assert(words@ =~= Seq::new(index as nat, |i: int| 0u32));
    }
    let contents = bytes_of_words(words.as_slice());
    proof {
        let little = contents@ == crate::bytes::words_bytes(words@, true);
        let encoded = crate::bytes::words_bytes(words@, little);
        assert(contents@ == encoded);
        assert forall|i: int| 0 <= i < encoded.len() implies encoded[i] == 0u8 by {
            crate::bytes::zero_word_bytes(little);
            assert(words@[i / 4] == 0u32);
        }
        assert(contents@ =~= Seq::new(4 * count as nat, |i: int| 0u8));
    }
    contents
}

// ---------------------------------------------------------------------------
// Centroid coordinates

/// The word is the bit pattern of a 32-bit float that is a number: its
/// exponent, the eight bits below the sign, is not all ones.
pub open spec fn is_finite_float(word: u32) -> bool {
    word as nat / 0x80_0000 % 256 != 255
}

/// Every word is the bit pattern of a finite float.
pub open spec fn all_finite(words: Seq<u32>) -> bool {
    forall|i: int| 0 <= i < words.len() ==> is_finite_float(#[trigger] words[i])
}

/// Whether the word is the bit pattern of a finite float.
pub fn word_is_finite(word: u32) -> (finite: bool)
    ensures
        finite == is_finite_float(word),
{
    (word / 0x80_0000) % 256 != 255
}

/// Whether every word is the bit pattern of a finite float.
pub fn words_are_finite(words: &Vec<u32>) -> (finite: bool)
    ensures
        finite == all_finite(words@),
{
    let mut index: usize = 0;
    while index < words.len()
        invariant
            index <= words@.len(),
            forall|i: int| 0 <= i < index ==> is_finite_float(#[trigger] words@[i]),
        decreases words@.len() - index,
    {
        if !word_is_finite(words[index]) {
            return false;
        }
        index += 1;
    }
    true
}

/// Whether every coordinate of the centroid records is a finite float. The
/// records are decoded in the machine's byte order and then held to
/// [`words_are_finite`]; records that are no whole number of words are refused.
pub fn records_are_finite(records: &[u8]) -> (finite: Result<bool, Error>)
    ensures
        records@.len() % 4 != 0 ==> finite matches Err(Error::LayoutMismatch),
        records@.len() % 4 == 0 ==> (finite matches Ok(found) && exists|words: Seq<u32>|
            #![trigger is_native_layout(records@, words)]
            is_native_layout(records@, words) && found == all_finite(words)),
{
    if records.len() % 4 != 0 {
        return Err(Error::LayoutMismatch);
    }
    let words = words_of_bytes(records);
    Ok(words_are_finite(&words))
}

} // verus!
