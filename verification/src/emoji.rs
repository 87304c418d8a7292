//! Variation-selector codec: every message byte becomes one invisible
//! variation-selector code point appended after a single visible cover
//! character.  Bytes below 16 map into the Unicode variation-selector block,
//! the rest into the variation-selector supplement; the two ranges together
//! are in bijection with the 256 byte values.

use vstd::prelude::*;

verus! {

use crate::StegoError;
use crate::text::{chars_to_string, lossy_of, lossy_to_string};
use vstd::string::{StrSliceExecFns, StringSliceAdditionalSpecFns};
use vstd::utf8::{decode_utf8, encode_utf8, valid_utf8};
use vstd::utf8::{encode_utf8_decode_utf8, encode_utf8_valid_utf8};

pub const VARIATION_SELECTOR_START: u32 = 0xFE00;

pub const VARIATION_SELECTOR_END: u32 = 0xFE0F;

pub const VARIATION_SELECTOR_SUPPLEMENT_START: u32 = 0xE0100;

pub const VARIATION_SELECTOR_SUPPLEMENT_END: u32 = 0xE01EF;

/// The code point that carries byte `b`.
pub open spec fn selector_of_byte(b: u8) -> u32 {
    if b < 16 {
        (VARIATION_SELECTOR_START + b) as u32
    } else {
        (VARIATION_SELECTOR_SUPPLEMENT_START + b - 16) as u32
    }
}

/// The byte a code point carries, if it lies in one of the two
/// variation-selector ranges.
pub open spec fn byte_of_selector(cp: u32) -> Option<u8> {
    if VARIATION_SELECTOR_START <= cp <= VARIATION_SELECTOR_END {
        Some((cp - VARIATION_SELECTOR_START) as u8)
    } else if VARIATION_SELECTOR_SUPPLEMENT_START <= cp <= VARIATION_SELECTOR_SUPPLEMENT_END {
        Some((cp - VARIATION_SELECTOR_SUPPLEMENT_START + 16) as u8)
    } else {
        None
    }
}

/// True of the characters that carry a byte.
pub open spec fn is_selector(c: char) -> bool {
    byte_of_selector(c as u32) is Some
}

/// The byte sequence the decoder recovers from a text: one byte per
/// variation-selector character, in order, everything else skipped.
pub open spec fn vs_decoded(text: Seq<char>) -> Seq<u8>
    decreases text.len(),
{
    if text.len() == 0 {
        Seq::empty()
    } else {
        match byte_of_selector(text[0] as u32) {
            Some(b) => seq![b] + vs_decoded(text.skip(1)),
            None => vs_decoded(text.skip(1)),
        }
    }
}

/// True when `out` is the encoding of the message bytes `msg` over the single
/// cover character `cover_c`: the cover character first, then one selector
/// per byte.
pub open spec fn vs_encoding(msg: Seq<u8>, cover_c: char, out: Seq<char>) -> bool {
    &&& out.len() == 1 + msg.len()
    &&& out[0] == cover_c
    &&& forall|i: int|
        0 <= i < msg.len() ==> (#[trigger] out[i + 1]) as u32 == selector_of_byte(msg[i])
}

/// The variation-selector character that carries byte `byte`.
pub fn get_char(byte: u8) -> (c: char)
    ensures
        c as u32 == selector_of_byte(byte),
{
    let code_point: u32 = if byte < 16 {
        VARIATION_SELECTOR_START + byte as u32
    } else {
        VARIATION_SELECTOR_SUPPLEMENT_START + (byte as u32 - 16)
    };
    char::from_u32(code_point).unwrap()
}

/// The byte carried by `c`, or `None` when `c` is no variation selector.
pub fn get_byte(c: char) -> (r: Option<u8>)
    ensures
        r == byte_of_selector(c as u32),
{
    let code_point = c as u32;
    if VARIATION_SELECTOR_START <= code_point && code_point <= VARIATION_SELECTOR_END {
        Some((code_point - VARIATION_SELECTOR_START) as u8)
    } else if VARIATION_SELECTOR_SUPPLEMENT_START <= code_point
        && code_point <= VARIATION_SELECTOR_SUPPLEMENT_END {
        Some((code_point - VARIATION_SELECTOR_SUPPLEMENT_START + 16) as u8)
    } else {
        None
    }
}

/// Each byte maps to a selector that maps back to it; the 256 selectors are
/// pairwise distinct, and each lies in exactly one of the two reserved
/// ranges: the variation-selector block for bytes below 16, the supplement
/// for the rest.
pub proof fn lemma_selector_bijection(b1: u8, b2: u8)
    ensures
        byte_of_selector(selector_of_byte(b1)) == Some(b1),
        b1 < 16 <==> VARIATION_SELECTOR_START <= selector_of_byte(b1) <= VARIATION_SELECTOR_END,
        b1 >= 16 <==> VARIATION_SELECTOR_SUPPLEMENT_START <= selector_of_byte(b1)
            <= VARIATION_SELECTOR_SUPPLEMENT_END,
        b1 != b2 ==> selector_of_byte(b1) != selector_of_byte(b2),
{
}

/// The other direction of the bijection: every code point in one of the two
/// reserved ranges carries a byte whose selector is that code point again.
pub proof fn lemma_selector_inverse(cp: u32)
    ensures
        byte_of_selector(cp) matches Some(b) ==> selector_of_byte(b) == cp,
{
}

/// Unfolds `vs_decoded` one character at a time, from the front.
proof fn lemma_vs_decoded_step(text: Seq<char>, i: int)
    requires
        0 <= i < text.len(),
    ensures
        vs_decoded(text.skip(i)) == (match byte_of_selector(text[i] as u32) {
            Some(b) => seq![b] + vs_decoded(text.skip(i + 1)),
            None => vs_decoded(text.skip(i + 1)),
        }),
{
    assert(text.skip(i)[0] == text[i]);
    assert(text.skip(i).skip(1) =~= text.skip(i + 1));
}

/// Embed the message bytes of `text` after the single character of `cover`.
/// Fails exactly when the cover is not one character long; a message of any
/// length fits.
pub fn encode_emoji(text: &str, cover: &str) -> (r: Result<String, StegoError>)
    ensures
        r is Ok <==> cover@.len() == 1,
        r matches Err(e) ==> e == StegoError::InvalidCover,
        r matches Ok(s) ==> vs_encoding(text.spec_bytes(), cover@[0], s@),
{
    if cover.unicode_len() != 1 {
        return Err(StegoError::InvalidCover);
    }
    let bytes = text.as_bytes_vec();
    let mut out: Vec<char> = Vec::new();
    out.push(cover.get_char(0));
    let mut i: usize = 0;
    while i < bytes.len()
        invariant
            i <= bytes@.len(),
            out@.len() == 1 + i,
            out@[0] == cover@[0],
            forall|k: int|
                0 <= k < i ==> (#[trigger] out@[k + 1]) as u32 == selector_of_byte(bytes@[k]),
        decreases bytes@.len() - i,
    {
        let c = get_char(bytes[i]);
        out.push(c);
        i = i + 1;
    }
    Ok(chars_to_string(&out))
}

/// Recover the bytes hidden in `text` and reinterpret them as text, lossily:
/// every non-selector character is skipped, and invalid UTF-8 among the
/// recovered bytes is replaced by substitution characters.  Never fails.
pub fn decode_emoji(text: &str) -> (r: Result<String, StegoError>)
    ensures
        r matches Ok(s) && s@ == lossy_of(vs_decoded(text@)),
        r matches Ok(s) ==> (valid_utf8(vs_decoded(text@)) ==> s@ == decode_utf8(
            vs_decoded(text@),
        )),
{
    let n = text.unicode_len();
    let mut buffer: Vec<u8> = Vec::new();
    let mut i: usize = 0;
    proof {
        assert(text@.skip(0) =~= text@);
        assert(vs_decoded(text@) =~= buffer@ + vs_decoded(text@.skip(0)));
    }
    while i < n
        invariant
            i <= n,
            n == text@.len(),
            vs_decoded(text@) == buffer@ + vs_decoded(text@.skip(i as int)),
        decreases n - i,
    {
        let c = text.get_char(i);
        proof {
            lemma_vs_decoded_step(text@, i as int);
        }
        match get_byte(c) {
            Some(byte) => {
                buffer.push(byte);
            },
            None => {},
        }
        proof {
            assert(vs_decoded(text@) =~= buffer@ + vs_decoded(text@.skip(i + 1)));
        }
        i = i + 1;
    }
    proof {
        assert(text@.skip(n as int) =~= Seq::<char>::empty());
        assert(vs_decoded(text@) =~= buffer@);
    }
    Ok(lossy_to_string(&buffer))
}

/// Decoding inverts encoding: a text that encodes the bytes `msg` over a
/// cover character that is itself no variation selector decodes back to
/// exactly `msg`.
pub proof fn lemma_vs_round_trip(msg: Seq<u8>, cover_c: char, out: Seq<char>)
    requires
        !is_selector(cover_c),
        vs_encoding(msg, cover_c, out),
    ensures
        vs_decoded(out) == msg,
{
    lemma_vs_decoded_step(out, 0);
    assert(out.skip(0) =~= out);
    lemma_vs_decoded_selectors(msg, out.skip(1));
}

/// A text made of one selector per byte of `msg`, in order, decodes to `msg`.
proof fn lemma_vs_decoded_selectors(msg: Seq<u8>, tail: Seq<char>)
    requires
        tail.len() == msg.len(),
        forall|i: int| 0 <= i < msg.len() ==> (#[trigger] tail[i]) as u32 == selector_of_byte(msg[i]),
    ensures
        vs_decoded(tail) == msg,
    decreases msg.len(),
{
    if msg.len() == 0 {
        assert(vs_decoded(tail) =~= msg);
    } else {
        lemma_selector_bijection(msg[0], 0);
        assert(tail[0] as u32 == selector_of_byte(msg[0]));
        lemma_vs_decoded_step(tail, 0);
        assert(tail.skip(0) =~= tail);
        lemma_vs_decoded_selectors(msg.skip(1), tail.skip(1));
        assert(vs_decoded(tail) =~= seq![msg[0]] + msg.skip(1));
        assert(seq![msg[0]] + msg.skip(1) =~= msg);
    }
}

/// Full round trip at the text level: encoding a message string over a
/// non-selector cover character and decoding the result recovers the
/// message, because the recovered bytes are the message's UTF-8 encoding,
/// which is valid and decodes to the original characters.
pub proof fn lemma_emoji_round_trip(msg: Seq<char>, cover_c: char, out: Seq<char>)
    requires
        !is_selector(cover_c),
        vs_encoding(encode_utf8(msg), cover_c, out),
    ensures
        vs_decoded(out) == encode_utf8(msg),
        valid_utf8(vs_decoded(out)),
        decode_utf8(vs_decoded(out)) == msg,
{
    lemma_vs_round_trip(encode_utf8(msg), cover_c, out);
    encode_utf8_valid_utf8(msg);
    encode_utf8_decode_utf8(msg);
}

/// A text that contains no variation selector hides nothing: it decodes to
/// the empty byte sequence.
pub proof fn lemma_vs_decode_foreign(text: Seq<char>)
    requires
        forall|i: int| 0 <= i < text.len() ==> !is_selector(#[trigger] text[i]),
    ensures
        vs_decoded(text) == Seq::<u8>::empty(),
    decreases text.len(),
{
    if text.len() == 0 {
    } else {
        lemma_vs_decoded_step(text, 0);
        assert(text.skip(0) =~= text);
        lemma_vs_decode_foreign(text.skip(1));
    }
}

} // verus!
