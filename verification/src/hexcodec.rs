//! Hexadecimal text, through the `hex` crate.

use vstd::prelude::*;

verus! {

/// The lowercase hexadecimal digit of a value below 16.
pub open spec fn hex_digit(n: int) -> char {
    if n < 10 {
        (48 + n) as char
    } else {
        (87 + n) as char
    }
}

/// Two lowercase hexadecimal digits per byte, most significant digit first.
pub open spec fn hex_text(b: Seq<u8>) -> Seq<char>
    decreases b.len(),
{
    if b.len() == 0 {
        Seq::empty()
    } else {
        seq![hex_digit(b[0] as int / 16), hex_digit(b[0] as int % 16)] + hex_text(b.drop_first())
    }
}

/// The value of a hexadecimal digit byte, upper or lower case.
pub open spec fn hex_value(c: u8) -> Option<u8> {
    if 48 <= c <= 57 {
        Some((c - 48) as u8)
    } else if 65 <= c <= 70 {
        Some((c - 55) as u8)
    } else if 97 <= c <= 102 {
        Some((c - 87) as u8)
    } else {
        None
    }
}

/// Why text is not hexadecimal.
#[derive(Debug, Clone, Copy, PartialEq, Eq, Structural)]
pub enum HexError {
    InvalidHexCharacter { c: char, index: usize },
    OddLength,
    InvalidStringLength,
}

/// The index of the first byte that is no hexadecimal digit, if any.
pub open spec fn first_non_hex(t: Seq<u8>) -> Option<int>
    decreases t.len(),
{
    if t.len() == 0 {
        None
    } else if hex_value(t[0]) is None {
        Some(0)
    } else {
        match first_non_hex(t.drop_first()) {
            Some(i) => Some(i + 1),
            None => None,
        }
    }
}

/// The bytes that hexadecimal text of digits only stands for.
pub open spec fn hex_bytes(t: Seq<u8>) -> Seq<u8>
    decreases t.len(),
{
    if t.len() < 2 {
        Seq::empty()
    } else {
        seq![(hex_value(t[0])->0 * 16 + hex_value(t[1])->0) as u8] + hex_bytes(t.subrange(2, t.len() as int))
    }
}

/// Decoding hexadecimal text: odd lengths are refused first, then the
/// first byte that is no digit; otherwise two digits make one byte.
pub open spec fn hex_decoded(t: Seq<u8>) -> Result<Seq<u8>, HexError> {
    if t.len() % 2 != 0 {
        Err(HexError::OddLength)
    } else {
        match first_non_hex(t) {
            Some(i) => Err(HexError::InvalidHexCharacter { c: t[i] as char, index: i as usize }),
            None => Ok(hex_bytes(t)),
        }
    }
}

/// `hex::encode`: lowercase hexadecimal text of the bytes, two digits per
/// byte (the crate maps each half-byte through the table "0123456789abcdef").
#[verifier::external_body]
pub(crate) fn hex_encode(bytes: &[u8]) -> (r: String)
    ensures
        r@ == hex_text(bytes@),
{
    hex::encode(bytes)
}

/// `hex::decode`: refuses text of odd length, then reports the first byte
/// that is not `0-9`, `a-f` or `A-F` with its index; otherwise decodes each
/// pair of digits into a byte. Its error is converted variant by variant.
#[verifier::external_body]
pub(crate) fn hex_decode(text: &[u8]) -> (r: Result<Vec<u8>, HexError>)
    ensures
        match hex_decoded(text@) {
            Ok(b) => r is Ok && r->Ok_0@ == b,
            Err(e) => r == Err::<Vec<u8>, HexError>(e),
        },
{
    match hex::decode(text) {
        Ok(v) => Ok(v),
        Err(hex::FromHexError::InvalidHexCharacter { c, index }) => Err(HexError::InvalidHexCharacter { c, index }),
        Err(hex::FromHexError::OddLength) => Err(HexError::OddLength),
        Err(hex::FromHexError::InvalidStringLength) => Err(HexError::InvalidStringLength),
    }
}

// ---------------------------------------------------------------------
// Decoding what encoding wrote

/// The ASCII bytes of lowercase hexadecimal text.
pub open spec fn hex_ascii(b: Seq<u8>) -> Seq<u8>
    decreases b.len(),
{
    if b.len() == 0 {
        Seq::empty()
    } else {
        seq![hex_digit(b[0] as int / 16) as u8, hex_digit(b[0] as int % 16) as u8] + hex_ascii(b.drop_first())
    }
}

proof fn lemma_encode_utf8_concat(a: Seq<char>, b: Seq<char>)
    ensures
        vstd::utf8::encode_utf8(a + b) == vstd::utf8::encode_utf8(a) + vstd::utf8::encode_utf8(b),
    decreases a.len(),
{
    if a.len() > 0 {
        lemma_encode_utf8_concat(a.drop_first(), b);
        assert((a + b).drop_first() =~= a.drop_first() + b);
        assert((a + b)[0] == a[0]);
    } else {
        assert(a + b =~= b);
    }
}

proof fn lemma_digit_encoding(n: int)
    requires
        0 <= n < 16,
    ensures
        vstd::utf8::encode_utf8(seq![hex_digit(n)]) == seq![hex_digit(n) as u8],
        hex_value(hex_digit(n) as u8) == Some(n as u8),
{
    let code: int = if n < 10 { 48 + n } else { 87 + n };
    assert(hex_digit(n) == code as char);
    assert(hex_digit(n) as u32 == code);
    assert(hex_digit(n) as u8 == code);
    let c = hex_digit(n) as u32;
    assert((c & 0x7F) == c) by (bit_vector)
        requires c <= 0x7F;
    assert(((c & 0x7F) as u8) == code);
    assert(seq![hex_digit(n)].drop_first() =~= Seq::<char>::empty());
    assert(vstd::utf8::encode_utf8(seq![hex_digit(n)]) =~= vstd::utf8::encode_scalar(c) + vstd::utf8::encode_utf8(Seq::<char>::empty()));
}

/// The UTF-8 of hexadecimal text is its ASCII bytes.
proof fn lemma_hex_text_ascii(b: Seq<u8>)
    ensures
        vstd::utf8::encode_utf8(hex_text(b)) == hex_ascii(b),
    decreases b.len(),
{
    if b.len() > 0 {
        let hi = b[0] as int / 16;
        let lo = b[0] as int % 16;
        lemma_hex_text_ascii(b.drop_first());
        lemma_digit_encoding(hi);
        lemma_digit_encoding(lo);
        assert(seq![hex_digit(hi), hex_digit(lo)] =~= seq![hex_digit(hi)] + seq![hex_digit(lo)]);
        lemma_encode_utf8_concat(seq![hex_digit(hi)], seq![hex_digit(lo)]);
        lemma_encode_utf8_concat(seq![hex_digit(hi), hex_digit(lo)], hex_text(b.drop_first()));
        assert(seq![hex_digit(hi) as u8] + seq![hex_digit(lo) as u8] =~= seq![hex_digit(hi) as u8, hex_digit(lo) as u8]);
    }
}

proof fn lemma_hex_ascii_decodes(b: Seq<u8>)
    ensures
        hex_ascii(b).len() == 2 * b.len(),
        first_non_hex(hex_ascii(b)) is None,
        hex_bytes(hex_ascii(b)) == b,
    decreases b.len(),
{
    if b.len() > 0 {
        let t = hex_ascii(b);
        let hi = b[0] as int / 16;
        let lo = b[0] as int % 16;
        lemma_hex_ascii_decodes(b.drop_first());
        lemma_digit_encoding(hi);
        lemma_digit_encoding(lo);
        assert(t.drop_first().drop_first() =~= hex_ascii(b.drop_first()));
        assert(t.drop_first()[0] == hex_digit(lo) as u8);
        assert(first_non_hex(t.drop_first()) is None);
        assert(t.subrange(2, t.len() as int) =~= hex_ascii(b.drop_first()));
        assert((hi * 16 + lo) as u8 == b[0]);
        assert(seq![b[0]] + b.drop_first() =~= b);
    }
}

/// Decoding the hexadecimal text of bytes gives the bytes back.
pub proof fn lemma_hex_roundtrip(b: Seq<u8>)
    ensures
        hex_decoded(vstd::utf8::encode_utf8(hex_text(b))) == Ok::<Seq<u8>, HexError>(b),
{
    lemma_hex_text_ascii(b);
    lemma_hex_ascii_decodes(b);
}

} // verus!
