//! Pixels and 32-bit words as the bytes that buffers and image files hold.

use vstd::prelude::*;

verus! {

/// The bytes of a run of pixels: four per pixel, red first.
pub open spec fn pixel_bytes(pixels: Seq<[u8; 4]>) -> Seq<u8> {
    Seq::new(4 * pixels.len(), |i: int| pixels[i / 4][i % 4])
}

/// The four bytes of a word, lowest byte first if `little` and highest byte
/// first otherwise.
pub open spec fn word_bytes(word: u32, little: bool) -> Seq<u8> {
    let b0 = (word as nat % 256) as u8;
    let b1 = (word as nat / 256 % 256) as u8;
    let b2 = (word as nat / 65536 % 256) as u8;
    let b3 = (word as nat / 16777216 % 256) as u8;
    if little {
        seq![b0, b1, b2, b3]
    } else {
        seq![b3, b2, b1, b0]
    }
}

/// The bytes of a run of words, each word laid out by [`word_bytes`].
pub open spec fn words_bytes(words: Seq<u32>, little: bool) -> Seq<u8> {
    Seq::new(4 * words.len(), |i: int| word_bytes(words[i / 4], little)[i % 4])
}

/// The bytes are those of the words in the byte order of some machine.
pub open spec fn is_native_layout(bytes: Seq<u8>, words: Seq<u32>) -> bool {
    bytes == words_bytes(words, true) || bytes == words_bytes(words, false)
}

/// The bytes of zero are zero in either byte order.
pub proof fn zero_word_bytes(little: bool)
    ensures
        word_bytes(0, little) == seq![0u8, 0u8, 0u8, 0u8],
{
    assert(word_bytes(0, little) =~= seq![0u8, 0u8, 0u8, 0u8]);
}

/// Groups bytes four by four into pixels. Calls `bytemuck::cast_slice`,
/// which reinterprets the slice in place: pixel `i` holds bytes `4i` to
/// `4i + 3` in their order. It panics when the bytes are no whole number of
/// pixels, hence the precondition; a pixel has the alignment of a byte, so
/// alignment cannot fail.
#[verifier::external_body]
pub(crate) fn pixels_of_bytes(bytes: &[u8]) -> (pixels: Vec<[u8; 4]>)
    requires
        bytes@.len() % 4 == 0,
    ensures
        pixel_bytes(pixels@) == bytes@,
{
    bytemuck::cast_slice::<u8, [u8; 4]>(bytes).to_vec()
}

/// Flattens pixels into their bytes. Calls `bytemuck::cast_slice`, which
/// reinterprets the slice in place and cannot fail towards bytes.
#[verifier::external_body]
pub(crate) fn bytes_of_pixels(pixels: &[[u8; 4]]) -> (bytes: Vec<u8>)
    ensures
        bytes@ == pixel_bytes(pixels@),
{
    bytemuck::cast_slice::<[u8; 4], u8>(pixels).to_vec()
}

/// The bytes of a run of words as they lie in memory. Calls
/// `bytemuck::cast_slice`, which reinterprets the slice in place and cannot
/// fail towards bytes. The byte order is the machine's, so the contract
/// allows both.
#[verifier::external_body]
pub(crate) fn bytes_of_words(words: &[u32]) -> (bytes: Vec<u8>)
    ensures
        is_native_layout(bytes@, words@),
{
    bytemuck::cast_slice::<u32, u8>(words).to_vec()
}

/// The words that a run of bytes holds in memory. Calls
/// `bytemuck::pod_collect_to_vec`, which copies the bytes into a fresh
/// vector of words and so asks nothing of their alignment. For a whole
/// number of words nothing is padded. The byte order is the machine's, so
/// the contract allows both.
#[verifier::external_body]
pub(crate) fn words_of_bytes(bytes: &[u8]) -> (words: Vec<u32>)
    requires
        bytes@.len() % 4 == 0,
    ensures
        is_native_layout(bytes@, words@),
{
    bytemuck::pod_collect_to_vec::<u8, u32>(bytes)
}

} // verus!
