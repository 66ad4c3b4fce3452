//! Recognition of multi-byte UTF-8 sequences inside a byte buffer.
use vstd::prelude::*;
use vstd::utf8::{decode_utf8, valid_utf8};

verus! {

/// Whether some byte of `s` lies outside ASCII.
pub open spec fn has_high_byte(s: Seq<u8>) -> bool {
    exists|k: int| 0 <= k < s.len() && s[k] >= 128
}

/// A slice counts as a multi-byte sequence when it is well-formed UTF-8 and
/// cannot be read as plain single-byte ASCII.
pub open spec fn is_multibyte(s: Seq<u8>) -> bool {
    valid_utf8(s) && has_high_byte(s)
}

/// Whether the `len` bytes at `index` stay inside `b` and form a multi-byte sequence.
pub open spec fn multibyte_fits(b: Seq<u8>, index: int, len: int) -> bool {
    index + len <= b.len() && is_multibyte(b.subrange(index, index + len))
}

/// The byte length of the sequence recognised at `index`: the first of 2, 3
/// and 4 that fits and is a multi-byte sequence, or 0 when none is.
pub open spec fn multibyte_len(b: Seq<u8>, index: int) -> nat {
    if index < 0 || index >= b.len() {
        0
    } else if multibyte_fits(b, index, 2) {
        2
    } else if multibyte_fits(b, index, 3) {
        3
    } else if multibyte_fits(b, index, 4) {
        4
    } else {
        0
    }
}

/// Relies on std::str::from_utf8: it succeeds exactly on well-formed UTF-8
/// and then returns the text those bytes encode.
#[verifier::external_body]
pub(crate) fn str_from_utf8(b: &[u8]) -> (r: Option<&str>)
    ensures
        r.is_some() == valid_utf8(b@),
        r.is_some() ==> r.unwrap()@ == decode_utf8(b@),
{
    std::str::from_utf8(b).ok()
}

fn any_high_byte(s: &[u8]) -> (r: bool)
    ensures
        r == has_high_byte(s@),
{
    let mut k: usize = 0;
    while k < s.len()
        invariant
            k <= s@.len(),
            forall|j: int| 0 <= j < k ==> s@[j] < 128,
        decreases s@.len() - k,
    {
        if s[k] >= 128 {
            return true;
        }
        k = k + 1;
    }
    false
}

/// Whether the `len` bytes at `index` fit in the buffer and form a
/// multi-byte sequence.
fn fits_multibyte(buf: &[u8], index: usize, len: usize) -> (r: bool)
    requires
        index < buf@.len(),
        len <= 4,
    ensures
        r == multibyte_fits(buf@, index as int, len as int),
{
    if len > buf.len() - index {
        return false;
    }
    let part: &[u8] = &buf[index..index + len];
    str_from_utf8(part).is_some() && any_high_byte(part)
}

/// Looks for a multi-byte UTF-8 sequence of 2, 3 or 4 bytes starting at
/// `index`, never reading past the end of the buffer. Returns whether one was
/// found and its byte length (0 when none was).
pub fn multibyte_at(buf: &[u8], index: usize) -> (r: (bool, usize))
    ensures
        r.1 == multibyte_len(buf@, index as int),
        r.0 == (r.1 > 0),
{
    if index >= buf.len() {
        return (false, 0);
    }
    let mut len: usize = 2;
    while len <= 4
        invariant
            2 <= len <= 5,
            index < buf@.len(),
            forall|l: int| 2 <= l < len ==> !multibyte_fits(buf@, index as int, l),
        decreases 5 - len,
    {
        if fits_multibyte(buf, index, len) {
            return (true, len);
        }
        len = len + 1;
    }
    (false, 0)
}

/// Checks whether a multi-byte UTF-8 sequence starts at `index` of `file`;
/// see [`multibyte_at`].
pub fn isUTF8(file: Vec<u8>, index: usize) -> (r: (bool, usize))
    ensures
        r.1 == multibyte_len(file@, index as int),
        r.0 == (r.1 > 0),
{
    multibyte_at(file.as_slice(), index)
}

} // verus!
