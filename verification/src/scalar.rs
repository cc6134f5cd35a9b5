//! Decoding scalar values and text from payload bytes, shared by the
//! template interpreter and the bytecode machine.

use vstd::prelude::*;
use crate::bytecode::{ScalarType, StringEncoding};
use crate::bytes::{be16_at, be32_at, be64_at, le16_at, le32_at, le64_at, read_be16, read_be32, read_be64, read_le16, read_le32, read_le64};
use crate::json::{number_from_i64, Json, JsonNumber, JsonValue};
use crate::numeric::{f32_json, f32_to_f64, f64_json};
use crate::template::Endian;

verus! {

/// How many bytes a scalar takes.
pub open spec fn scalar_width(st: ScalarType) -> nat {
    match st {
        ScalarType::U8 | ScalarType::I8 => 1,
        ScalarType::U16 | ScalarType::I16 => 2,
        ScalarType::U32 | ScalarType::I32 | ScalarType::F32 => 4,
        _ => 8,
    }
}

pub fn scalar_width_exec(st: ScalarType) -> (r: usize)
    ensures
        r == scalar_width(st),
{
    match st {
        ScalarType::U8 | ScalarType::I8 => 1,
        ScalarType::U16 | ScalarType::I16 => 2,
        ScalarType::U32 | ScalarType::I32 | ScalarType::F32 => 4,
        _ => 8,
    }
}

/// The unsigned value of `width` bytes at `i` in the given byte order.
pub open spec fn uint_at(d: Seq<u8>, i: int, width: nat, endian: Endian) -> int {
    if width == 1 {
        d[i] as int
    } else if width == 2 {
        if endian == Endian::Little { le16_at(d, i) } else { be16_at(d, i) }
    } else if width == 4 {
        if endian == Endian::Little { le32_at(d, i) } else { be32_at(d, i) }
    } else {
        if endian == Endian::Little { le64_at(d, i) } else { be64_at(d, i) }
    }
}

/// An unsigned value of `bits` bits read as two's complement.
pub open spec fn as_signed(v: int, bits: nat) -> int {
    if bits == 8 {
        if v >= 0x80 { v - 0x100 } else { v }
    } else if bits == 16 {
        if v >= 0x8000 { v - 0x1_0000 } else { v }
    } else if bits == 32 {
        if v >= 0x8000_0000 { v - 0x1_0000_0000 } else { v }
    } else {
        if v >= 0x8000_0000_0000_0000 { v - 0x1_0000_0000_0000_0000 } else { v }
    }
}

/// The JSON value of a scalar whose bytes hold the unsigned value `raw`.
pub open spec fn scalar_json(st: ScalarType, raw: int) -> Json {
    match st {
        ScalarType::U8 | ScalarType::U16 | ScalarType::U32 | ScalarType::U64 => Json::Number(JsonNumber::PosInt(raw as u64)),
        ScalarType::I8 => Json::Number(number_from_i64(as_signed(raw, 8) as i64)),
        ScalarType::I16 => Json::Number(number_from_i64(as_signed(raw, 16) as i64)),
        ScalarType::I32 => Json::Number(number_from_i64(as_signed(raw, 32) as i64)),
        ScalarType::I64 => Json::Number(number_from_i64(as_signed(raw, 64) as i64)),
        ScalarType::F32 => f32_json(raw as u32),
        ScalarType::F64 => f64_json(raw as u64),
    }
}

/// The JSON value of the scalar at `offset`.
pub fn decode_scalar(data: &[u8], offset: usize, st: ScalarType, endian: Endian) -> (r: JsonValue)
    requires
        offset + scalar_width(st) <= data@.len(),
    ensures
        r@ == scalar_json(st, uint_at(data@, offset as int, scalar_width(st), endian)),
{
    let little = endian == Endian::Little;
    match st {
        ScalarType::U8 => JsonValue::Number(JsonNumber::PosInt(data[offset] as u64)),
        ScalarType::I8 => {
            let v = data[offset] as i64;
            crate::json::json_from_i64(if v >= 0x80 { v - 0x100 } else { v })
        },
        ScalarType::U16 => {
            let v = if little { read_le16(data, offset) } else { read_be16(data, offset) };
            JsonValue::Number(JsonNumber::PosInt(v as u64))
        },
        ScalarType::I16 => {
            let v = (if little { read_le16(data, offset) } else { read_be16(data, offset) }) as i64;
            crate::json::json_from_i64(if v >= 0x8000 { v - 0x1_0000 } else { v })
        },
        ScalarType::U32 => {
            let v = if little { read_le32(data, offset) } else { read_be32(data, offset) };
            JsonValue::Number(JsonNumber::PosInt(v as u64))
        },
        ScalarType::I32 => {
            let v = (if little { read_le32(data, offset) } else { read_be32(data, offset) }) as i64;
            crate::json::json_from_i64(if v >= 0x8000_0000 { v - 0x1_0000_0000 } else { v })
        },
        ScalarType::U64 => {
            let v = if little { read_le64(data, offset) } else { read_be64(data, offset) };
            JsonValue::Number(JsonNumber::PosInt(v))
        },
        ScalarType::I64 => {
            let v = if little { read_le64(data, offset) } else { read_be64(data, offset) };
            let s: i64 = if v >= 0x8000_0000_0000_0000 {
                ((v - 0x8000_0000_0000_0000) as i64) - 0x7fff_ffff_ffff_ffff - 1
            } else {
                v as i64
            };
            crate::json::json_from_i64(s)
        },
        ScalarType::F32 => {
            let v = if little { read_le32(data, offset) } else { read_be32(data, offset) };
            match f32_to_f64(v) {
                Some(b) => JsonValue::Number(JsonNumber::Float(b)),
                None => JsonValue::Null,
            }
        },
        ScalarType::F64 => {
            let v = if little { read_le64(data, offset) } else { read_be64(data, offset) };
            if (v / 0x10_0000_0000_0000) % 2048 != 2047 {
                JsonValue::Number(JsonNumber::Float(v))
            } else {
                JsonValue::Null
            }
        },
    }
}

/// The 16-bit code units of `b`, two bytes each in the given order; an odd
/// last byte makes a unit of 0.
pub open spec fn utf16_units(b: Seq<u8>, little: bool) -> Seq<u16> {
    Seq::new(
        ((b.len() + 1) / 2) as nat,
        |i: int|
            if 2 * i + 1 < b.len() {
                (if little { le16_at(b, 2 * i) } else { be16_at(b, 2 * i) }) as u16
            } else {
                0u16
            },
    )
}

pub fn utf16_code_units(b: &[u8], little: bool) -> (r: Vec<u16>)
    ensures
        r@ == utf16_units(b@, little),
{
    let mut out: Vec<u16> = Vec::new();
    let n = b.len();
    let m = n / 2 + n % 2;
    let mut k: usize = 0;
    while k < m
        invariant
            n == b@.len(),
            m == (n + 1) / 2,
            k <= m,
            out@.len() == k,
            forall|j: int| 0 <= j < out@.len() ==> out@[j] == #[trigger] utf16_units(b@, little)[j],
        decreases m - k,
    {
        let i = 2 * k;
        let u: u16 = if i + 1 < n {
            if little { read_le16(b, i) } else { read_be16(b, i) }
        } else {
            0
        };
        out.push(u);
        k = k + 1;
    }
    assert(out@ =~= utf16_units(b@, little));
    out
}

/// What `String::from_utf8_lossy` makes of bytes.
pub uninterp spec fn utf8_lossy_text(b: Seq<u8>) -> Seq<char>;

/// What `String::from_utf16_lossy` makes of code units.
pub uninterp spec fn utf16_lossy_text(u: Seq<u16>) -> Seq<char>;

/// `String::from_utf8_lossy`: the text of the bytes with each invalid
/// sequence replaced; bytes that are valid UTF-8 decode as they are.
#[verifier::external_body]
pub(crate) fn utf8_lossy(b: &[u8]) -> (r: String)
    ensures
        r@ == utf8_lossy_text(b@),
        vstd::utf8::valid_utf8(b@) ==> r@ == vstd::utf8::decode_utf8(b@),
{
    String::from_utf8_lossy(b).to_string()
}

/// `String::from_utf16_lossy`: the text of the code units with each
/// unpaired surrogate replaced.
#[verifier::external_body]
pub(crate) fn utf16_lossy(u: &[u16]) -> (r: String)
    ensures
        r@ == utf16_lossy_text(u@),
{
    String::from_utf16_lossy(u)
}

/// The text a string field holds.
pub open spec fn decoded_text(b: Seq<u8>, enc: StringEncoding) -> Seq<char> {
    match enc {
        StringEncoding::Utf8 => utf8_lossy_text(b),
        StringEncoding::Utf16Le => utf16_lossy_text(utf16_units(b, true)),
        StringEncoding::Utf16Be => utf16_lossy_text(utf16_units(b, false)),
    }
}

pub fn decode_text(b: &[u8], enc: StringEncoding) -> (r: String)
    ensures
        r@ == decoded_text(b@, enc),
{
    match enc {
        StringEncoding::Utf8 => utf8_lossy(b),
        StringEncoding::Utf16Le => {
            let u = utf16_code_units(b, true);
            utf16_lossy(u.as_slice())
        },
        StringEncoding::Utf16Be => {
            let u = utf16_code_units(b, false);
            utf16_lossy(u.as_slice())
        },
    }
}

/// Reading `w` bytes least significant first gives what reading the same
/// bytes in reverse order most significant first gives.
pub proof fn lemma_byte_orders_mirror(d: Seq<u8>, i: int, w: nat)
    requires
        w == 2 || w == 4 || w == 8,
        0 <= i,
        i + w <= d.len(),
    ensures
        uint_at(d, i, w, Endian::Little) == uint_at(d.subrange(i, i + w).reverse(), 0, w, Endian::Big),
        0 <= uint_at(d, i, w, Endian::Big),
        w == 2 ==> uint_at(d, i, w, Endian::Big) < 0x1_0000,
        w == 4 ==> uint_at(d, i, w, Endian::Big) < 0x1_0000_0000,
        w == 8 ==> uint_at(d, i, w, Endian::Big) < 0x1_0000_0000_0000_0000,
{
    let r = d.subrange(i, i + w).reverse();
    assert forall|k: int| 0 <= k < w implies r[k] == d[i + w - 1 - k] by {}
}

/// The number of values a scalar type's bytes hold, for integer types.
pub open spec fn integer_range(st: ScalarType) -> int {
    match st {
        ScalarType::U8 | ScalarType::I8 => 0x100,
        ScalarType::U16 | ScalarType::I16 => 0x1_0000,
        ScalarType::U32 | ScalarType::I32 => 0x1_0000_0000,
        _ => 0x1_0000_0000_0000_0000,
    }
}

/// An unsigned integer field gives the number its bytes hold; a signed one
/// the number in the type's range that equals it modulo the range (two's
/// complement).
pub proof fn lemma_integers_read_as_twos_complement(st: ScalarType, raw: int)
    requires
        !(st is F32 || st is F64),
        0 <= raw < integer_range(st),
    ensures
        (st is U8 || st is U16 || st is U32 || st is U64) ==> crate::json::json_as_u64(scalar_json(st, raw)) == Some(raw as u64),
        (st is I8 || st is I16 || st is I32 || st is I64) ==> (crate::json::json_as_i64(scalar_json(st, raw)) matches Some(x)
            && -integer_range(st) / 2 <= x < integer_range(st) / 2
            && (x == raw || x == raw - integer_range(st))),
{
}

} // verus!
