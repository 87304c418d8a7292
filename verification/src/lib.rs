//! Steganographic codecs that hide a byte message inside ordinary-looking
//! text: a variation-selector codec that appends one invisible code point per
//! message byte to a single cover character, and a homoglyph codec that
//! replaces characters of a cover text with visually identical look-alikes,
//! one bit per eligible character.

use vstd::prelude::*;

pub mod emoji;
pub mod homoglyph;
pub mod text;

verus! {

use vstd::string::StringSliceAdditionalSpecFns;

/// Why an encoding request was refused.  Decoding never fails.
#[derive(Clone, Copy, Debug, PartialEq, Eq, Structural)]
pub enum StegoError {
    /// The variation-selector codec needs a cover of exactly one character.
    InvalidCover,
    /// The homoglyph codec ran out of eligible cover characters: `hidden`
    /// bits were embedded, `required` were needed, `remaining` were left over.
    InsufficientCapacity { hidden: usize, required: usize, remaining: usize },
    /// No codec is registered for the selected method.
    MethodNotImplemented,
}

/// Which codec an encode or decode request is dispatched to.  Every method
/// listed here has a registered codec, so dispatch never reports
/// [`StegoError::MethodNotImplemented`].
#[derive(Clone, Copy, Debug, PartialEq, Eq, Structural)]
pub enum Method {
    Emoji,
    Homoglyph,
}

/// Hide the message `text` in `cover` with the selected codec.
pub fn encode(method: Method, text: &str, cover: &str) -> (r: Result<String, StegoError>)
    ensures
        method == Method::Emoji ==> ((r is Ok <==> cover@.len() == 1) && (r matches Err(e) ==> e
            == StegoError::InvalidCover) && (r matches Ok(s) ==> emoji::vs_encoding(
            text.spec_bytes(),
            cover@[0],
            s@,
        ))),
        method == Method::Homoglyph ==> ((r is Ok <==> homoglyph::eligible_count(cover@)
            >= homoglyph::bits_of(text.spec_bytes()).len()) && (r matches Ok(s) ==> s@
            == homoglyph::hg_output(cover@, homoglyph::bits_of(text.spec_bytes()))) && (
        r matches Err(e) ==> (e matches StegoError::InsufficientCapacity {
            hidden,
            required,
            remaining,
        } && hidden as nat == homoglyph::eligible_count(cover@) && required as int
            == homoglyph::bits_of(text.spec_bytes()).len() && remaining as int == required as int
            - hidden as int))),
{
    match method {
        Method::Emoji => emoji::encode_emoji(text, cover),
        Method::Homoglyph => homoglyph::encode_homoglyph(text, cover),
    }
}

/// Recover the message hidden in `text` with the selected codec.  Decoding
/// is best-effort and never fails: foreign characters are skipped and
/// invalid byte sequences are replaced by substitution characters.
pub fn decode(method: Method, text: &str) -> (r: Result<String, StegoError>)
    ensures
        r is Ok,
        method == Method::Emoji ==> (r matches Ok(s) && s@ == text::lossy_of(
            emoji::vs_decoded(text@),
        )),
        method == Method::Homoglyph ==> (r matches Ok(s) && s@ == text::lossy_of(
            homoglyph::packed(homoglyph::hg_bits(text@)),
        )),
{
    match method {
        Method::Emoji => emoji::decode_emoji(text),
        Method::Homoglyph => homoglyph::decode_homoglyph(text),
    }
}

} // verus!

