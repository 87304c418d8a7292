//! Trusted bridge between the codecs and std's string conversions: building a
//! `String` from characters, recovering text from bytes with lossy UTF-8
//! decoding, and checked construction of a `char` from a code point.

use vstd::prelude::*;
use vstd::utf8::{decode_utf8, is_scalar, valid_utf8};

verus! {

/// Relies on `char::from_u32`: it returns `Some` exactly for Unicode scalar
/// values, and the character it returns has the given code point.
pub assume_specification[ char::from_u32 ](i: u32) -> (r: Option<char>)
    ensures
        r is Some <==> is_scalar(i),
        r matches Some(c) ==> c as u32 == i,
;

/// Relies on `String`'s `FromIterator<char>` impl (through `Iterator::collect`):
/// the resulting string consists of exactly the characters of the iterator,
/// in order.
#[verifier::external_body]
pub(crate) fn chars_to_string(v: &Vec<char>) -> (r: String)
    ensures
        r@ == v@,
{
    v.iter().collect()
}

/// The text that `String::from_utf8_lossy` recovers from a byte sequence:
/// maximal valid UTF-8 runs decoded as usual, invalid runs replaced by
/// substitution characters.
pub uninterp spec fn lossy_of(bytes: Seq<u8>) -> Seq<char>;

/// Relies on `String::from_utf8_lossy`: the result depends on the bytes
/// alone, and valid UTF-8 input is decoded unchanged.
#[verifier::external_body]
pub(crate) fn lossy_to_string(bytes: &Vec<u8>) -> (r: String)
    ensures
        r@ == lossy_of(bytes@),
        valid_utf8(bytes@) ==> r@ == decode_utf8(bytes@),
{
    String::from_utf8_lossy(bytes).into_owned()
}

} // verus!
