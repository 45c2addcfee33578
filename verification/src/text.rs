//! Comparisons on strings and on their UTF-8 bytes.

use vstd::prelude::*;
use vstd::string::StringSliceAdditionalSpecFns;
use vstd::utf8::encode_utf8_decode_utf8;

verus! {

/// `suffix` is the tail of `text`.
pub open spec fn is_suffix(suffix: Seq<u8>, text: Seq<u8>) -> bool {
    suffix.len() <= text.len() && text.subrange(text.len() - suffix.len(), text.len() as int)
        == suffix
}

/// Two strings with the same UTF-8 bytes hold the same characters.
pub proof fn same_bytes_same_chars(a: Seq<char>, b: Seq<char>)
    requires
        vstd::utf8::encode_utf8(a) == vstd::utf8::encode_utf8(b),
    ensures
        a == b,
{
    encode_utf8_decode_utf8(a);
    encode_utf8_decode_utf8(b);
}

/// Byte-wise equality of two slices.
pub fn bytes_equal(a: &[u8], b: &[u8]) -> (same: bool)
    ensures
        same == (a@ == b@),
{
    if a.len() != b.len() {
        return false;
    }
    let mut i: usize = 0;
    while i < a.len()
        invariant
            a@.len() == b@.len(),
            i <= a@.len(),
            forall|j: int| 0 <= j < i ==> a@[j] == b@[j],
        decreases a@.len() - i,
    {
        if a[i] != b[i] {
            return false;
        }
        i += 1;
    }
    assert(a@ =~= b@);
    true
}

/// Whether `text` ends with the bytes of `suffix`.
pub fn bytes_end_with(text: &[u8], suffix: &[u8]) -> (ends: bool)
    ensures
        ends == is_suffix(suffix@, text@),
{
    if suffix.len() > text.len() {
        return false;
    }
    let length: usize = text.len();
    let start: usize = length - suffix.len();
    let mut i: usize = 0;
    while i < suffix.len()
        invariant
            length == text@.len(),
            suffix@.len() <= text@.len(),
            start == text@.len() - suffix@.len(),
            i <= suffix@.len(),
            forall|j: int| 0 <= j < i ==> text@[start + j] == suffix@[j],
        decreases suffix@.len() - i,
    {
        if text[start + i] != suffix[i] {
            assert(text@.subrange(start as int, text@.len() as int)[i as int] != suffix@[i as int]);
            return false;
        }
        i += 1;
    }
    assert(text@.subrange(start as int, text@.len() as int) =~= suffix@);
    true
}

/// Equality of two strings, character for character.
pub fn str_equals(a: &str, b: &str) -> (same: bool)
    ensures
        same == (a@ == b@),
{
    let same = bytes_equal(a.as_bytes(), b.as_bytes());
    proof {
        if same {
            same_bytes_same_chars(a@, b@);
        }
    }
    same
}

/// Whether the UTF-8 bytes of `text` end with those of `suffix`.
pub fn str_ends_with(text: &str, suffix: &str) -> (ends: bool)
    ensures
        ends == is_suffix(suffix.spec_bytes(), text.spec_bytes()),
{
    bytes_end_with(text.as_bytes(), suffix.as_bytes())
}

} // verus!
