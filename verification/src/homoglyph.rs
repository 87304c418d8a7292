//! Homoglyph codec: each bit of the message picks between a base character of
//! the cover text and its visually identical look-alike.  A byte is spread
//! over eight eligible cover characters, least-significant bit first; cover
//! characters outside the table pass through unchanged.

use vstd::prelude::*;

verus! {

use crate::StegoError;
use crate::text::{chars_to_string, lossy_of, lossy_to_string};
use vstd::string::{StrSliceExecFns, StringSliceAdditionalSpecFns};
use vstd::utf8::{decode_utf8, encode_utf8, valid_utf8};

/// The look-alike that stands for a base character, if the character is in
/// the table.  The sixteen pairs map ASCII punctuation and letters to
/// Cyrillic, Greek and Roman-numeral look-alikes; the map is injective and
/// its domain and codomain are disjoint.
pub open spec fn homoglyph_of(c: char) -> Option<char> {
    if c == '-' {
        Some('\u{2010}')
    } else if c == ';' {
        Some('\u{037e}')
    } else if c == 'C' {
        Some('\u{216d}')
    } else if c == 'D' {
        Some('\u{216e}')
    } else if c == 'K' {
        Some('\u{212a}')
    } else if c == 'L' {
        Some('\u{216c}')
    } else if c == 'M' {
        Some('\u{216f}')
    } else if c == 'V' {
        Some('\u{2164}')
    } else if c == 'X' {
        Some('\u{2169}')
    } else if c == 'c' {
        Some('\u{217d}')
    } else if c == 'd' {
        Some('\u{217e}')
    } else if c == 'i' {
        Some('\u{2170}')
    } else if c == 'j' {
        Some('\u{0458}')
    } else if c == 'l' {
        Some('\u{217c}')
    } else if c == 'v' {
        Some('\u{2174}')
    } else if c == 'x' {
        Some('\u{2179}')
    } else {
        None
    }
}

/// The base character a look-alike stands for: the inverse of
/// [`homoglyph_of`].
pub open spec fn base_of(c: char) -> Option<char> {
    if c == '\u{2010}' {
        Some('-')
    } else if c == '\u{037e}' {
        Some(';')
    } else if c == '\u{216d}' {
        Some('C')
    } else if c == '\u{216e}' {
        Some('D')
    } else if c == '\u{212a}' {
        Some('K')
    } else if c == '\u{216c}' {
        Some('L')
    } else if c == '\u{216f}' {
        Some('M')
    } else if c == '\u{2164}' {
        Some('V')
    } else if c == '\u{2169}' {
        Some('X')
    } else if c == '\u{217d}' {
        Some('c')
    } else if c == '\u{217e}' {
        Some('d')
    } else if c == '\u{2170}' {
        Some('i')
    } else if c == '\u{0458}' {
        Some('j')
    } else if c == '\u{217c}' {
        Some('l')
    } else if c == '\u{2174}' {
        Some('v')
    } else if c == '\u{2179}' {
        Some('x')
    } else {
        None
    }
}

/// An eligible cover character: one that can carry a bit because it has a
/// look-alike.
pub open spec fn is_base(c: char) -> bool {
    homoglyph_of(c) is Some
}

/// A look-alike: a character the encoder may have substituted for a base
/// character.
pub open spec fn is_look_alike(c: char) -> bool {
    base_of(c) is Some
}

/// The bit a character carries when decoding: `0` for a base character, `1`
/// for a look-alike, nothing for characters outside the table.
pub open spec fn bit_of(c: char) -> Option<bool> {
    if is_base(c) {
        Some(false)
    } else if is_look_alike(c) {
        Some(true)
    } else {
        None
    }
}

/// The table is a bijection between bases and look-alikes, and no character
/// is both a base and a look-alike.
pub proof fn lemma_table_bijective(c: char)
    ensures
        homoglyph_of(c) matches Some(m) ==> !is_base(m) && base_of(m) == Some(c),
        base_of(c) matches Some(b) ==> !is_look_alike(b) && homoglyph_of(b) == Some(c),
{
}

/// Look up the character to emit for cover character `c` carrying `bit`:
/// the look-alike when the bit is set, `c` itself when it is clear, and
/// nothing when `c` is not eligible.
pub fn get_homoglyph(c: char, bit: bool) -> (r: Option<char>)
    ensures
        r == (match homoglyph_of(c) {
            Some(h) => Some(if bit { h } else { c }),
            None => None::<char>,
        }),
{
    match lookup_homoglyph(c) {
        Some(h) => Some(if bit { h } else { c }),
        None => None,
    }
}

/// The bit carried by `c`, or `None` when `c` is neither a base character
/// nor a look-alike.
pub fn get_bit(c: char) -> (r: Option<bool>)
    ensures
        r == bit_of(c),
{
    if lookup_homoglyph(c).is_some() {
        Some(false)
    } else if lookup_base(c).is_some() {
        Some(true)
    } else {
        None
    }
}

/// Bit `j` of byte `b`, least-significant bit first.
pub open spec fn byte_bit(b: u8, j: int) -> bool {
    (b >> (j as u8)) & 1 == 1
}

/// The bit sequence of a byte message: each byte expanded to eight bits,
/// least-significant first, bytes in order.
pub open spec fn bits_of(bytes: Seq<u8>) -> Seq<bool> {
    Seq::new(bytes.len() * 8, |i: int| byte_bit(bytes[i / 8], i % 8))
}

/// Bit `k` of a bit sequence, reading positions past the end as zero.
pub open spec fn bit_at(bits: Seq<bool>, k: int) -> bool {
    0 <= k < bits.len() && bits[k]
}

/// How many bytes a bit sequence of length `n` packs into: the final
/// partial byte, if any, is zero-padded.
pub open spec fn packed_len(n: nat) -> nat {
    if n % 8 == 0 {
        n / 8
    } else {
        n / 8 + 1
    }
}

/// Byte `i` of the packed bit sequence, assembled least-significant bit
/// first, with missing trailing bits read as zero.
pub open spec fn packed_byte(bits: Seq<bool>, i: int) -> u8 {
    ((if bit_at(bits, 8 * i) {
        1int
    } else {
        0int
    }) + (if bit_at(bits, 8 * i + 1) {
        2int
    } else {
        0int
    }) + (if bit_at(bits, 8 * i + 2) {
        4int
    } else {
        0int
    }) + (if bit_at(bits, 8 * i + 3) {
        8int
    } else {
        0int
    }) + (if bit_at(bits, 8 * i + 4) {
        16int
    } else {
        0int
    }) + (if bit_at(bits, 8 * i + 5) {
        32int
    } else {
        0int
    }) + (if bit_at(bits, 8 * i + 6) {
        64int
    } else {
        0int
    }) + (if bit_at(bits, 8 * i + 7) {
        128int
    } else {
        0int
    })) as u8
}

/// The bytes a bit sequence packs into, eight bits per byte,
/// least-significant first, the trailing partial byte zero-padded.
pub open spec fn packed(bits: Seq<bool>) -> Seq<u8> {
    Seq::new(packed_len(bits.len()), |i: int| packed_byte(bits, i))
}

/// How many characters of a cover text can carry a bit.
pub open spec fn eligible_count(cover: Seq<char>) -> nat
    decreases cover.len(),
{
    if cover.len() == 0 {
        0
    } else {
        eligible_count(cover.drop_last()) + (if is_base(cover.last()) {
            1nat
        } else {
            0nat
        })
    }
}

/// The text the encoder produces from a cover and a bit sequence: each
/// eligible character consumes the next pending bit and becomes its
/// look-alike when the bit is set; every other character, and every
/// character once the bits are exhausted, passes through unchanged.
pub open spec fn hg_output(cover: Seq<char>, bits: Seq<bool>) -> Seq<char>
    decreases cover.len(),
{
    if cover.len() == 0 {
        Seq::empty()
    } else {
        let c = cover[0];
        if is_base(c) && bits.len() > 0 {
            seq![if bits[0] {
                homoglyph_of(c).unwrap()
            } else {
                c
            }] + hg_output(cover.skip(1), bits.skip(1))
        } else {
            seq![c] + hg_output(cover.skip(1), bits)
        }
    }
}

/// The bit sequence the decoder reads off a text: one bit per base or
/// look-alike character, in order, everything else skipped.
pub open spec fn hg_bits(text: Seq<char>) -> Seq<bool>
    decreases text.len(),
{
    if text.len() == 0 {
        Seq::empty()
    } else {
        match bit_of(text[0]) {
            Some(b) => seq![b] + hg_bits(text.skip(1)),
            None => hg_bits(text.skip(1)),
        }
    }
}

fn lookup_homoglyph(c: char) -> (r: Option<char>)
    ensures
        r == homoglyph_of(c),
{
    if c == '-' {
        Some('\u{2010}')
    } else if c == ';' {
        Some('\u{037e}')
    } else if c == 'C' {
        Some('\u{216d}')
    } else if c == 'D' {
        Some('\u{216e}')
    } else if c == 'K' {
        Some('\u{212a}')
    } else if c == 'L' {
        Some('\u{216c}')
    } else if c == 'M' {
        Some('\u{216f}')
    } else if c == 'V' {
        Some('\u{2164}')
    } else if c == 'X' {
        Some('\u{2169}')
    } else if c == 'c' {
        Some('\u{217d}')
    } else if c == 'd' {
        Some('\u{217e}')
    } else if c == 'i' {
        Some('\u{2170}')
    } else if c == 'j' {
        Some('\u{0458}')
    } else if c == 'l' {
        Some('\u{217c}')
    } else if c == 'v' {
        Some('\u{2174}')
    } else if c == 'x' {
        Some('\u{2179}')
    } else {
        None
    }
}

fn lookup_base(c: char) -> (r: Option<char>)
    ensures
        r == base_of(c),
{
    if c == '\u{2010}' {
        Some('-')
    } else if c == '\u{037e}' {
        Some(';')
    } else if c == '\u{216d}' {
        Some('C')
    } else if c == '\u{216e}' {
        Some('D')
    } else if c == '\u{212a}' {
        Some('K')
    } else if c == '\u{216c}' {
        Some('L')
    } else if c == '\u{216f}' {
        Some('M')
    } else if c == '\u{2164}' {
        Some('V')
    } else if c == '\u{2169}' {
        Some('X')
    } else if c == '\u{217d}' {
        Some('c')
    } else if c == '\u{217e}' {
        Some('d')
    } else if c == '\u{2170}' {
        Some('i')
    } else if c == '\u{0458}' {
        Some('j')
    } else if c == '\u{217c}' {
        Some('l')
    } else if c == '\u{2174}' {
        Some('v')
    } else if c == '\u{2179}' {
        Some('x')
    } else {
        None
    }
}

/// Expand a byte message into its bit sequence, least-significant bit of
/// each byte first.
fn bits_from_bytes(bytes: &Vec<u8>) -> (r: Vec<bool>)
    ensures
        r@ == bits_of(bytes@),
{
    let mut bits: Vec<bool> = Vec::new();
    let mut i: usize = 0;
    while i < bytes.len()
        invariant
            i <= bytes@.len(),
            bits@.len() == 8 * i,
            forall|k: int| 0 <= k < bits@.len() ==> bits@[k] == byte_bit(bytes@[k / 8], k % 8),
        decreases bytes@.len() - i,
    {
        let b = bytes[i];
        let mut j: u8 = 0;
        while j < 8
            invariant
                j <= 8,
                i < bytes@.len(),
                b == bytes@[i as int],
                bits@.len() == 8 * i + j,
                forall|k: int| 0 <= k < bits@.len() ==> bits@[k] == byte_bit(bytes@[k / 8], k % 8),
            decreases 8 - j,
        {
            bits.push((b >> j) & 1 == 1);
            proof {
                let k = 8 * (i as int) + (j as int);
                assert(k / 8 == i as int && k % 8 == j as int) by (nonlinear_arith)
                    requires
                        0 <= (i as int),
                        0 <= (j as int) && (j as int) < 8,
                        k == 8 * (i as int) + (j as int),
                ;
                assert((j as int) as u8 == j);
            }
            j = j + 1;
        }
        i = i + 1;
    }
    proof {
        assert(bits@ =~= bits_of(bytes@));
    }
    bits
}

/// Bit `base + j` of the sequence, or zero past the end.
fn bit_at_from(bits: &Vec<bool>, base: usize, j: usize) -> (r: bool)
    requires
        base <= bits@.len(),
        j < 8,
    ensures
        r == bit_at(bits@, base + j),
{
    let rem = bits.len() - base;
    if j < rem {
        bits[base + j]
    } else {
        false
    }
}

/// Pack a bit sequence into bytes, eight bits per byte, least-significant
/// first, zero-padding the trailing partial byte.
fn pack_bits(bits: &Vec<bool>) -> (r: Vec<u8>)
    ensures
        r@ == packed(bits@),
{
    let len = bits.len();
    let n_bytes: usize = len / 8 + (if len % 8 != 0 {
        1
    } else {
        0
    });
    let mut out: Vec<u8> = Vec::new();
    let mut i: usize = 0;
    while i < n_bytes
        invariant
            i <= n_bytes,
            len == bits@.len(),
            n_bytes == packed_len(bits@.len()),
            out@.len() == i,
            forall|q: int| 0 <= q < i ==> out@[q] == packed_byte(bits@, q),
        decreases n_bytes - i,
    {
        proof {
            assert(8 * (i as int) <= len as int) by (nonlinear_arith)
                requires
                    0 <= i as int,
                    (i as int) < packed_len(len as nat),
                    len == bits@.len(),
            ;
        }
        let base = 8 * i;
        let mut b: u8 = 0;
        if bit_at_from(bits, base, 0) {
            b = b + 1;
        }
        if bit_at_from(bits, base, 1) {
            b = b + 2;
        }
        if bit_at_from(bits, base, 2) {
            b = b + 4;
        }
        if bit_at_from(bits, base, 3) {
            b = b + 8;
        }
        if bit_at_from(bits, base, 4) {
            b = b + 16;
        }
        if bit_at_from(bits, base, 5) {
            b = b + 32;
        }
        if bit_at_from(bits, base, 6) {
            b = b + 64;
        }
        if bit_at_from(bits, base, 7) {
            b = b + 128;
        }
        assert(b == packed_byte(bits@, i as int));
        out.push(b);
        i = i + 1;
    }
    proof {
        assert(out@ =~= packed(bits@));
    }
    out
}

/// Embed the message bytes of `text` into `cover` by replacing eligible
/// characters with their look-alikes where the corresponding bit is set.
/// Fails exactly when the cover has fewer eligible characters than the
/// message has bits, reporting how many bits were hidden, how many were
/// required, and how many were left over.
pub fn encode_homoglyph(text: &str, cover: &str) -> (r: Result<String, StegoError>)
    ensures
        r is Ok <==> eligible_count(cover@) >= bits_of(text.spec_bytes()).len(),
        r matches Ok(s) ==> s@ == hg_output(cover@, bits_of(text.spec_bytes())),
        r matches Err(e) ==> (e matches StegoError::InsufficientCapacity { hidden, required, remaining }
            && hidden as nat == eligible_count(cover@) && required as int == bits_of(
            text.spec_bytes(),
        ).len() && remaining as int == required as int - hidden as int),
{
    let bytes = text.as_bytes_vec();
    let bits = bits_from_bytes(&bytes);
    let n = cover.unicode_len();
    let mut out: Vec<char> = Vec::new();
    let mut k: usize = 0;
    let mut i: usize = 0;
    proof {
        assert(cover@.skip(0) =~= cover@);
        assert(bits@.skip(0) =~= bits@);
        assert(cover@.take(0) =~= Seq::<char>::empty());
        assert(hg_output(cover@, bits@) =~= out@ + hg_output(cover@.skip(0), bits@.skip(0)));
    }
    while i < n
        invariant
            i <= n,
            n == cover@.len(),
            k <= bits@.len(),
            bits@ == bits_of(text.spec_bytes()),
            out@.len() == i,
            hg_output(cover@, bits@) == out@ + hg_output(
                cover@.skip(i as int),
                bits@.skip(k as int),
            ),
            eligible_count(cover@.take(i as int)) >= bits@.len() ==> k == bits@.len(),
            eligible_count(cover@.take(i as int)) < bits@.len() ==> k as nat == eligible_count(
                cover@.take(i as int),
            ),
        decreases n - i,
    {
        let c = cover.get_char(i);
        proof {
            assert(cover@.skip(i as int)[0] == cover@[i as int]);
            assert(cover@.skip(i as int).skip(1) =~= cover@.skip(i as int + 1));
            assert(cover@.take(i as int + 1).drop_last() =~= cover@.take(i as int));
            assert(cover@.take(i as int + 1).last() == cover@[i as int]);
            if k < bits@.len() {
                assert(bits@.skip(k as int).skip(1) =~= bits@.skip(k as int + 1));
                assert(bits@.skip(k as int)[0] == bits@[k as int]);
            }
        }
        let ghost prev_out = out@;
        if k < bits.len() {
            match get_homoglyph(c, bits[k]) {
                Some(new_c) => {
                    out.push(new_c);
                    k = k + 1;
                },
                None => {
                    out.push(c);
                },
            }
        } else {
            out.push(c);
        }
        proof {
            assert(out@ =~= prev_out + seq![out@.last()]);
            assert(hg_output(cover@, bits@) =~= out@ + hg_output(
                cover@.skip(i as int + 1),
                bits@.skip(k as int),
            ));
        }
        i = i + 1;
    }
    proof {
        assert(cover@.take(n as int) =~= cover@);
        assert(cover@.skip(n as int) =~= Seq::<char>::empty());
        assert(out@ =~= hg_output(cover@, bits@));
    }
    let required = bits.len();
    if k != required {
        return Err(
            StegoError::InsufficientCapacity { hidden: k, required, remaining: required - k },
        );
    }
    Ok(chars_to_string(&out))
}

/// Unfolds `hg_bits` one character at a time, from the front.
proof fn lemma_hg_bits_step(text: Seq<char>, i: int)
    requires
        0 <= i < text.len(),
    ensures
        hg_bits(text.skip(i)) == (match bit_of(text[i]) {
            Some(b) => seq![b] + hg_bits(text.skip(i + 1)),
            None => hg_bits(text.skip(i + 1)),
        }),
{
    assert(text.skip(i)[0] == text[i]);
    assert(text.skip(i).skip(1) =~= text.skip(i + 1));
}

/// Recover the bits hidden in `text`, pack them into bytes and reinterpret
/// those as text, lossily: characters outside the table are skipped, a
/// trailing partial byte is zero-padded, and invalid UTF-8 among the
/// recovered bytes is replaced by substitution characters.  Never fails.
pub fn decode_homoglyph(text: &str) -> (r: Result<String, StegoError>)
    ensures
        r matches Ok(s) && s@ == lossy_of(packed(hg_bits(text@))),
        r matches Ok(s) ==> (valid_utf8(packed(hg_bits(text@))) ==> s@ == decode_utf8(
            packed(hg_bits(text@)),
        )),
{
    let n = text.unicode_len();
    let mut bits: Vec<bool> = Vec::new();
    let mut i: usize = 0;
    proof {
        assert(text@.skip(0) =~= text@);
        assert(hg_bits(text@) =~= bits@ + hg_bits(text@.skip(0)));
    }
    while i < n
        invariant
            i <= n,
            n == text@.len(),
            hg_bits(text@) == bits@ + hg_bits(text@.skip(i as int)),
        decreases n - i,
    {
        let c = text.get_char(i);
        proof {
            lemma_hg_bits_step(text@, i as int);
        }
        match get_bit(c) {
            Some(bit) => {
                bits.push(bit);
            },
            None => {},
        }
        proof {
            assert(hg_bits(text@) =~= bits@ + hg_bits(text@.skip(i + 1)));
        }
        i = i + 1;
    }
    proof {
        assert(text@.skip(n as int) =~= Seq::<char>::empty());
        assert(hg_bits(text@) =~= bits@);
    }
    let bytes = pack_bits(&bits);
    Ok(lossy_to_string(&bytes))
}

/// With no bits to hide, encoding leaves every cover character unchanged.
pub proof fn lemma_hg_pass_through(cover: Seq<char>)
    ensures
        hg_output(cover, Seq::<bool>::empty()) == cover,
    decreases cover.len(),
{
    if cover.len() == 0 {
        assert(hg_output(cover, Seq::<bool>::empty()) =~= cover);
    } else {
        lemma_hg_pass_through(cover.skip(1));
        assert(hg_output(cover, Seq::<bool>::empty()) =~= seq![cover[0]] + cover.skip(1));
        assert(seq![cover[0]] + cover.skip(1) =~= cover);
    }
}

/// An empty message has no bits, so encoding it returns the cover text
/// unchanged.
pub proof fn lemma_hg_encode_empty(cover: Seq<char>)
    ensures
        hg_output(cover, bits_of(Seq::<u8>::empty())) == cover,
{
    assert(bits_of(Seq::<u8>::empty()) =~= Seq::<bool>::empty());
    lemma_hg_pass_through(cover);
}

/// Decoding reads back exactly the bits the encoder hid, when the cover
/// consists of base characters only, one per bit.
proof fn lemma_hg_bits_of_output(cover: Seq<char>, bits: Seq<bool>)
    requires
        cover.len() == bits.len(),
        forall|i: int| 0 <= i < cover.len() ==> is_base(#[trigger] cover[i]),
    ensures
        hg_bits(hg_output(cover, bits)) == bits,
    decreases cover.len(),
{
    if cover.len() == 0 {
        assert(hg_bits(hg_output(cover, bits)) =~= bits);
    } else {
        let c = cover[0];
        let x = if bits[0] {
            homoglyph_of(c).unwrap()
        } else {
            c
        };
        lemma_table_bijective(c);
        let out = hg_output(cover, bits);
        assert(out == seq![x] + hg_output(cover.skip(1), bits.skip(1)));
        assert(out[0] == x);
        assert(bit_of(x) == Some(bits[0]));
        assert(out.skip(1) =~= hg_output(cover.skip(1), bits.skip(1)));
        assert(forall|i: int| 0 <= i < cover.skip(1).len() ==> is_base(#[trigger] cover.skip(1)[i]));
        lemma_hg_bits_of_output(cover.skip(1), bits.skip(1));
        assert(hg_bits(out) =~= seq![bits[0]] + bits.skip(1));
        assert(seq![bits[0]] + bits.skip(1) =~= bits);
    }
}

/// A byte is the sum of its bits, weighted least-significant first.
proof fn lemma_byte_reconstruct(b: u8)
    ensures
        ((if byte_bit(b, 0) {
            1int
        } else {
            0int
        }) + (if byte_bit(b, 1) {
            2int
        } else {
            0int
        }) + (if byte_bit(b, 2) {
            4int
        } else {
            0int
        }) + (if byte_bit(b, 3) {
            8int
        } else {
            0int
        }) + (if byte_bit(b, 4) {
            16int
        } else {
            0int
        }) + (if byte_bit(b, 5) {
            32int
        } else {
            0int
        }) + (if byte_bit(b, 6) {
            64int
        } else {
            0int
        }) + (if byte_bit(b, 7) {
            128int
        } else {
            0int
        })) == b,
{
    assert((b & 1) == (if (b >> 0u8) & 1 == 1 {
        1u8
    } else {
        0u8
    })) by (bit_vector);
    assert((b & 2) == (if (b >> 1u8) & 1 == 1 {
        2u8
    } else {
        0u8
    })) by (bit_vector);
    assert((b & 4) == (if (b >> 2u8) & 1 == 1 {
        4u8
    } else {
        0u8
    })) by (bit_vector);
    assert((b & 8) == (if (b >> 3u8) & 1 == 1 {
        8u8
    } else {
        0u8
    })) by (bit_vector);
    assert((b & 16) == (if (b >> 4u8) & 1 == 1 {
        16u8
    } else {
        0u8
    })) by (bit_vector);
    assert((b & 32) == (if (b >> 5u8) & 1 == 1 {
        32u8
    } else {
        0u8
    })) by (bit_vector);
    assert((b & 64) == (if (b >> 6u8) & 1 == 1 {
        64u8
    } else {
        0u8
    })) by (bit_vector);
    assert((b & 128) == (if (b >> 7u8) & 1 == 1 {
        128u8
    } else {
        0u8
    })) by (bit_vector);
    assert((b & 1) + (b & 2) + (b & 4) + (b & 8) + (b & 16) + (b & 32) + (b & 64) + (b & 128)
        == b) by (bit_vector);
}

/// Packing the bit expansion of a byte message gives back exactly those
/// bytes: the bit count is a multiple of eight, so no padding is added.
pub proof fn lemma_packed_bits_of(bytes: Seq<u8>)
    ensures
        packed(bits_of(bytes)) == bytes,
{
    let bits = bits_of(bytes);
    let n = bytes.len() as int;
    assert(bits.len() == 8 * n);
    assert((8 * n) % 8 == 0 && (8 * n) / 8 == n) by (nonlinear_arith)
        requires
            n >= 0,
    ;
    assert(packed(bits).len() == bytes.len());
    assert forall|i: int| 0 <= i < n implies packed(bits)[i] == bytes[i] by {
        assert forall|j: int| 0 <= j < 8 implies bit_at(bits, 8 * i + j) == byte_bit(
            bytes[i],
            j,
        ) by {
            assert(0 <= 8 * i + j && 8 * i + j < 8 * n) by (nonlinear_arith)
                requires
                    0 <= i < n,
                    0 <= j < 8,
            ;
            assert((8 * i + j) / 8 == i && (8 * i + j) % 8 == j) by (nonlinear_arith)
                requires
                    0 <= i,
                    0 <= j < 8,
            ;
        }
        lemma_byte_reconstruct(bytes[i]);
    }
    assert(packed(bits) =~= bytes);
}

/// Round trip: a message encoded over a cover made only of base characters,
/// with exactly one eligible character per message bit, decodes back to the
/// message.  The decoder reads off exactly the hidden bits, packing them
/// recovers the message's UTF-8 bytes, and those decode to the original
/// characters.
pub proof fn lemma_hg_round_trip(msg: Seq<char>, cover: Seq<char>)
    requires
        forall|i: int| 0 <= i < cover.len() ==> is_base(#[trigger] cover[i]),
        cover.len() == bits_of(encode_utf8(msg)).len(),
    ensures
        hg_bits(hg_output(cover, bits_of(encode_utf8(msg)))) == bits_of(encode_utf8(msg)),
        packed(hg_bits(hg_output(cover, bits_of(encode_utf8(msg))))) == encode_utf8(msg),
        valid_utf8(packed(hg_bits(hg_output(cover, bits_of(encode_utf8(msg)))))),
        decode_utf8(packed(hg_bits(hg_output(cover, bits_of(encode_utf8(msg)))))) == msg,
{
    lemma_hg_bits_of_output(cover, bits_of(encode_utf8(msg)));
    lemma_packed_bits_of(encode_utf8(msg));
    vstd::utf8::encode_utf8_valid_utf8(msg);
    vstd::utf8::encode_utf8_decode_utf8(msg);
}

} // verus!
