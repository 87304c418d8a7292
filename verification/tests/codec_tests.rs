use uni_stego::emoji::{decode_emoji, encode_emoji, get_byte, get_char};
use uni_stego::homoglyph::{decode_homoglyph, encode_homoglyph, get_bit, get_homoglyph};
use uni_stego::{decode, encode, Method, StegoError};

#[test]
fn emoji_round_trip() {
    let encoded = encode_emoji("Hello world", "\u{1F44D}").unwrap();
    assert_eq!(decode_emoji(&encoded).unwrap(), "Hello world");
}

#[test]
fn emoji_round_trip_empty_message() {
    let encoded = encode_emoji("", "\u{1F44D}").unwrap();
    assert_eq!(encoded, "\u{1F44D}");
    assert_eq!(decode_emoji(&encoded).unwrap(), "");
}

#[test]
fn emoji_round_trip_multibyte_message() {
    let encoded = encode_emoji("h\u{e9}llo \u{1F30D}", "Z").unwrap();
    assert_eq!(decode_emoji(&encoded).unwrap(), "h\u{e9}llo \u{1F30D}");
}

#[test]
fn emoji_encode_exact_output() {
    // 'A' is byte 0x41 = 65 >= 16, so it maps to 0xE0100 + 65 - 16.
    assert_eq!(encode_emoji("A", "Z").unwrap(), "Z\u{E0131}");
}

#[test]
fn selector_bijection_all_bytes() {
    let mut seen: Vec<u32> = Vec::new();
    for b in 0..=255u8 {
        let c = get_char(b);
        assert_eq!(get_byte(c), Some(b));
        let cp = c as u32;
        let low = (0xFE00..=0xFE0F).contains(&cp);
        let high = (0xE0100..=0xE01EF).contains(&cp);
        assert!(low != high, "selector must lie in exactly one range");
        assert_eq!(low, b < 16);
        assert!(!seen.contains(&cp), "selectors must be pairwise distinct");
        seen.push(cp);
    }
}

#[test]
fn get_char_low_range_offset() {
    assert_eq!(get_char(5) as u32, 0xFE05);
    assert_eq!(get_char(0) as u32, 0xFE00);
    assert_eq!(get_char(15) as u32, 0xFE0F);
    assert_eq!(get_char(16) as u32, 0xE0100);
    assert_eq!(get_char(255) as u32, 0xE01EF);
}

#[test]
fn get_byte_rejects_foreign_characters() {
    assert_eq!(get_byte('a'), None);
    assert_eq!(get_byte('\u{FDFF}'), None);
    assert_eq!(get_byte('\u{FE10}'), None);
    assert_eq!(get_byte('\u{E00FF}'), None);
    assert_eq!(get_byte('\u{E01F0}'), None);
}

#[test]
fn emoji_cover_must_be_one_character() {
    assert_eq!(encode_emoji("x", "ab"), Err(StegoError::InvalidCover));
    assert_eq!(encode_emoji("x", ""), Err(StegoError::InvalidCover));
    assert!(encode_emoji("x", "\u{1F44D}").is_ok());
}

#[test]
fn emoji_decode_foreign_text_is_empty() {
    assert_eq!(decode_emoji("plain text, no hidden data").unwrap(), "");
}

#[test]
fn emoji_decode_replaces_invalid_bytes() {
    // 0xE01EF carries byte 0xFF, which is never valid UTF-8 on its own.
    assert_eq!(decode_emoji("a\u{E01EF}").unwrap(), "\u{FFFD}");
}

#[test]
fn homoglyph_round_trip() {
    // "AB" needs 16 bits; the cover holds exactly 16 eligible characters.
    let cover = "ClDlKMVXxvlicdj-";
    let encoded = encode_homoglyph("AB", cover).unwrap();
    assert_eq!(decode_homoglyph(&encoded).unwrap(), "AB");
}

#[test]
fn homoglyph_round_trip_with_ineligible_characters() {
    // Eight eligible 'x' characters among ineligible digits carry one byte.
    let cover = "1x2x3x4x5x6x7x8x9";
    let encoded = encode_homoglyph("A", cover).unwrap();
    assert_eq!(decode_homoglyph(&encoded).unwrap(), "A");
}

#[test]
fn homoglyph_encode_exact_output() {
    // 'A' is 0x41 = 0b0100_0001: bits 0 and 6 are set, least-significant
    // first, so the first and seventh 'x' become the Roman-numeral
    // look-alike.
    let encoded = encode_homoglyph("A", "xxxxxxxx").unwrap();
    assert_eq!(encoded, "\u{2179}xxxxx\u{2179}x");
}

#[test]
fn homoglyph_capacity_failure_counts() {
    assert_eq!(
        encode_homoglyph("AB", "-"),
        Err(StegoError::InsufficientCapacity { hidden: 1, required: 16, remaining: 15 })
    );
}

#[test]
fn homoglyph_empty_message_passes_cover_through() {
    assert_eq!(encode_homoglyph("", "hello").unwrap(), "hello");
}

#[test]
fn homoglyph_decode_foreign_text_is_empty() {
    // None of these characters is a base or a look-alike.
    assert_eq!(decode_homoglyph("zebra 123").unwrap(), "");
}

#[test]
fn homoglyph_decode_zero_pads_partial_byte() {
    // A single base character yields one clear bit; the partial byte is
    // zero-padded, giving one NUL byte.
    assert_eq!(decode_homoglyph("l").unwrap(), "\0");
}

#[test]
fn homoglyph_table_lookups() {
    assert_eq!(get_homoglyph('-', true), Some('\u{2010}'));
    assert_eq!(get_homoglyph('-', false), Some('-'));
    assert_eq!(get_homoglyph('x', true), Some('\u{2179}'));
    assert_eq!(get_homoglyph('a', true), None);
    assert_eq!(get_bit('-'), Some(false));
    assert_eq!(get_bit('\u{2010}'), Some(true));
    assert_eq!(get_bit('K'), Some(false));
    assert_eq!(get_bit('\u{212A}'), Some(true));
    assert_eq!(get_bit('a'), None);
}

#[test]
fn dispatch_selects_codec() {
    let e = encode(Method::Emoji, "hi", "\u{1F512}").unwrap();
    assert_eq!(decode(Method::Emoji, &e).unwrap(), "hi");
    let h = encode(Method::Homoglyph, "A", "xxxxxxxx").unwrap();
    assert_eq!(decode(Method::Homoglyph, &h).unwrap(), "A");
    assert_eq!(
        encode(Method::Homoglyph, "hi", "no eligible cover here??"),
        encode_homoglyph("hi", "no eligible cover here??")
    );
}
