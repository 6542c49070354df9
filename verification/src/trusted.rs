//! The calls into other crates. Verus takes the contracts in this file on
//! trust: each states what the called function's documentation promises.

use crate::model::{char_starts, count_byte, lists_places};
use vstd::prelude::*;
use vstd::utf8::{decode_first_scalar, length_of_first_scalar, valid_first_scalar};

verus! {

/// `bytecount::count`: the number of bytes in `haystack` that equal
/// `needle`.
#[verifier::external_body]
pub(crate) fn count_occurrences(haystack: &[u8], needle: u8) -> (n: usize)
    ensures
        n == count_byte(haystack@, needle),
{
    bytecount::count(haystack, needle)
}

/// `bytecount::num_chars`: the number of bytes in `bytes` that are no UTF-8
/// continuation bytes, which is the number of characters where `bytes` is
/// valid UTF-8.
#[verifier::external_body]
pub(crate) fn count_char_starts(bytes: &[u8]) -> (n: usize)
    ensures
        n == char_starts(bytes@),
{
    bytecount::num_chars(bytes)
}

/// `memchr::memchr_iter`, run to its end: the index of every occurrence of
/// `needle` in `haystack`, in ascending order.
#[verifier::external_body]
pub(crate) fn find_all(needle: u8, haystack: &[u8]) -> (found: Vec<usize>)
    ensures
        lists_places(found@, needle, haystack@),
{
    memchr::memchr_iter(needle, haystack).collect()
}

/// `bstr::decode_utf8`: decodes one character from the start of `bytes`.
/// Where `bytes` begins with the well-formed UTF-8 encoding of a Unicode
/// scalar value, that character comes back with the length of its encoding.
/// Otherwise no character comes back, together with a number of bytes to
/// skip: none for an empty slice, else between one and three.
#[verifier::external_body]
pub(crate) fn decode_first(bytes: &[u8]) -> (r: (Option<char>, usize))
    ensures
        valid_first_scalar(bytes@) ==> r.0 == Some(decode_first_scalar(bytes@) as char) && r.1
            == length_of_first_scalar(bytes@),
        !valid_first_scalar(bytes@) ==> r.0 is None && r.1 <= 3 && r.1 <= bytes@.len() && (
        bytes@.len() > 0 ==> r.1 >= 1),
{
    bstr::decode_utf8(bytes)
}

/// Whether `c` has the Unicode property White_Space, as `char::is_whitespace`
/// tells it.
pub uninterp spec fn unicode_whitespace(c: char) -> bool;

/// `char::is_whitespace`: whether `c` has the Unicode property White_Space.
#[verifier::external_body]
pub(crate) fn is_whitespace(c: char) -> (r: bool)
    ensures
        r == unicode_whitespace(c),
{
    c.is_whitespace()
}

} // verus!
