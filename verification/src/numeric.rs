//! Numbers as the JSON library sees them: integers, and doubles held as
//! IEEE-754 bit patterns, with the conversions and comparisons that the
//! parsers need, computed on the bit patterns.

use vstd::prelude::*;
use crate::json::{Json, JsonNumber};

verus! {

pub open spec fn p2(z: nat) -> nat
    decreases z,
{
    if z == 0 {
        1
    } else {
        2 * p2((z - 1) as nat)
    }
}

proof fn lemma_p2_63(z: nat)
    requires
        z >= 63,
    ensures
        p2(z) >= 0x8000_0000_0000_0000,
    decreases z,
{
    if z > 63 {
        lemma_p2_63((z - 1) as nat);
    } else {
        reveal_with_fuel(p2, 64);
        assert(p2(63) == 0x8000_0000_0000_0000);
    }
}

/// Doubles `m` until its top bit (of 64) is set, counting the doublings.
pub open spec fn normalize(m: nat, z: nat) -> (nat, nat)
    decreases 0x1_0000_0000_0000_0000 - m,
{
    if m == 0 || m >= 0x8000_0000_0000_0000 {
        (m, z)
    } else {
        normalize(2 * m, z + 1)
    }
}

/// The bit pattern of the double nearest to `m` (ties to even), for
/// `0 < m < 2^64`: normalize to 64 bits, keep the top 53, round on the other 11.
pub open spec fn magnitude_to_f64_bits(m: nat) -> nat {
    if m == 0 {
        0
    } else {
        let (n, z) = normalize(m, 0);
        let q = n / 2048;
        let r = n % 2048;
        let q2 = if r > 1024 || (r == 1024 && q % 2 == 1) { q + 1 } else { q };
        let e = 63 - z;
        if q2 == 0x20_0000_0000_0000 {
            ((e + 1 + 1023) * 0x10_0000_0000_0000) as nat
        } else {
            ((e + 1023) * 0x10_0000_0000_0000 + (q2 - 0x10_0000_0000_0000)) as nat
        }
    }
}

pub fn magnitude_to_f64(m: u64) -> (r: u64)
    ensures
        r == magnitude_to_f64_bits(m as nat),
        r < 0x8000_0000_0000_0000,
{
    if m == 0 {
        return 0;
    }
    let mut n: u64 = m;
    let mut z: u64 = 0;
    while n < 0x8000_0000_0000_0000
        invariant
            n >= 1,
            n >= p2(z as nat),
            z <= 63,
            normalize(m as nat, 0) == normalize(n as nat, z as nat),
        decreases 0x1_0000_0000_0000_0000 - n,
    {
        proof {
            if z == 63 {
                lemma_p2_63(63);
            }
        }
        n = n * 2;
        z = z + 1;
    }
    let q = n / 2048;
    let r = n % 2048;
    let q2 = if r > 1024 || (r == 1024 && q % 2 == 1) { q + 1 } else { q };
    let e = 63 - z;
    if q2 == 0x20_0000_0000_0000 {
        (e + 1 + 1023) * 0x10_0000_0000_0000
    } else {
        (e + 1023) * 0x10_0000_0000_0000 + (q2 - 0x10_0000_0000_0000)
    }
}

/// The bit pattern of a number converted to a double.
pub open spec fn number_f64_bits(n: JsonNumber) -> u64 {
    match n {
        JsonNumber::PosInt(u) => magnitude_to_f64_bits(u as nat) as u64,
        JsonNumber::NegInt(i) => if i < 0 {
            (0x8000_0000_0000_0000 + magnitude_to_f64_bits((-(i as int)) as nat)) as u64
        } else {
            magnitude_to_f64_bits(i as nat) as u64
        },
        JsonNumber::Float(b) => b,
    }
}

pub fn number_to_f64(n: JsonNumber) -> (r: u64)
    ensures
        r == number_f64_bits(n),
{
    match n {
        JsonNumber::PosInt(u) => {
            let b = magnitude_to_f64(u);
            assert(b == magnitude_to_f64_bits(u as nat) as u64);
            b
        },
        JsonNumber::NegInt(i) => {
            if i >= 0 {
                let b = magnitude_to_f64(i as u64);
                assert(b == magnitude_to_f64_bits(i as nat) as u64);
                return b;
            }
            let mag: u64 = if i == i64::MIN { 0x8000_0000_0000_0000 } else { (0 - i) as u64 };
            assert(mag as int == -(i as int));
            let b = magnitude_to_f64(mag);
            assert(b == magnitude_to_f64_bits((-(i as int)) as nat));
            0x8000_0000_0000_0000 + b
        },
        JsonNumber::Float(b) => b,
    }
}

/// The bit pattern is a NaN: all exponent bits set and a non-zero fraction.
pub open spec fn f64_is_nan(b: u64) -> bool {
    (b / 0x10_0000_0000_0000) % 2048 == 2047 && b % 0x10_0000_0000_0000 != 0
}

/// The bit pattern is a finite double.
pub open spec fn f64_is_finite(b: u64) -> bool {
    (b / 0x10_0000_0000_0000) % 2048 != 2047
}

/// Two doubles compare equal: neither is NaN, and they are the same or both zero.
pub open spec fn f64_eq(a: u64, b: u64) -> bool {
    !f64_is_nan(a) && !f64_is_nan(b) && (a == b || (a % 0x8000_0000_0000_0000 == 0 && b % 0x8000_0000_0000_0000 == 0))
}

/// An integer that orders non-NaN doubles as their values: the magnitude
/// bits, negated for negative doubles.
pub open spec fn f64_order_key(b: u64) -> int {
    if b >= 0x8000_0000_0000_0000 {
        -(b - 0x8000_0000_0000_0000)
    } else {
        b as int
    }
}

pub open spec fn f64_lt(a: u64, b: u64) -> bool {
    !f64_is_nan(a) && !f64_is_nan(b) && f64_order_key(a) < f64_order_key(b)
}

pub fn f64_equal(a: u64, b: u64) -> (r: bool)
    ensures
        r == f64_eq(a, b),
{
    let nan_a = (a / 0x10_0000_0000_0000) % 2048 == 2047 && a % 0x10_0000_0000_0000 != 0;
    let nan_b = (b / 0x10_0000_0000_0000) % 2048 == 2047 && b % 0x10_0000_0000_0000 != 0;
    !nan_a && !nan_b && (a == b || (a % 0x8000_0000_0000_0000 == 0 && b % 0x8000_0000_0000_0000 == 0))
}

pub fn f64_less(a: u64, b: u64) -> (r: bool)
    ensures
        r == f64_lt(a, b),
{
    let nan_a = (a / 0x10_0000_0000_0000) % 2048 == 2047 && a % 0x10_0000_0000_0000 != 0;
    let nan_b = (b / 0x10_0000_0000_0000) % 2048 == 2047 && b % 0x10_0000_0000_0000 != 0;
    if nan_a || nan_b {
        return false;
    }
    let a_neg = a >= 0x8000_0000_0000_0000;
    let b_neg = b >= 0x8000_0000_0000_0000;
    let am = if a_neg { a - 0x8000_0000_0000_0000 } else { a };
    let bm = if b_neg { b - 0x8000_0000_0000_0000 } else { b };
    if a_neg && b_neg {
        bm < am
    } else if a_neg {
        !(am == 0 && bm == 0)
    } else if b_neg {
        false
    } else {
        am < bm
    }
}

/// Doubles a non-zero `m` below 2^23 until it reaches 2^23, counting the doublings.
pub open spec fn normalize23(m: nat, z: nat) -> (nat, nat)
    decreases 0x100_0000 - m,
{
    if m == 0 || m >= 0x80_0000 {
        (m, z)
    } else {
        normalize23(2 * m, z + 1)
    }
}

/// The double of a single-precision bit pattern, exactly, or `None` for an
/// infinity or NaN.
pub open spec fn f32_to_f64_bits(b: u32) -> Option<u64> {
    let sign = (b / 0x8000_0000) as int;
    let e = ((b / 0x80_0000) % 256) as int;
    let f = (b % 0x80_0000) as int;
    if e == 255 {
        None
    } else if e == 0 && f == 0 {
        Some((sign * 0x8000_0000_0000_0000) as u64)
    } else if e == 0 {
        let (n, z) = normalize23(f as nat, 0);
        Some((sign * 0x8000_0000_0000_0000 + (897 - z) * 0x10_0000_0000_0000 + (n - 0x80_0000) * 0x2000_0000) as u64)
    } else {
        Some((sign * 0x8000_0000_0000_0000 + (e + 896) * 0x10_0000_0000_0000 + f * 0x2000_0000) as u64)
    }
}

pub fn f32_to_f64(b: u32) -> (r: Option<u64>)
    ensures
        r == f32_to_f64_bits(b),
{
    let sign = (b / 0x8000_0000) as u64;
    let e = ((b / 0x80_0000) % 256) as u64;
    let f = (b % 0x80_0000) as u64;
    if e == 255 {
        None
    } else if e == 0 && f == 0 {
        Some(sign * 0x8000_0000_0000_0000)
    } else if e == 0 {
        let mut n: u64 = f;
        let mut z: u64 = 0;
        while n < 0x80_0000
            invariant
                1 <= n < 0x100_0000,
                z <= 23,
                n >= p2(z as nat),
                normalize23(f as nat, 0) == normalize23(n as nat, z as nat),
            decreases 0x100_0000 - n,
        {
            proof {
                if z >= 23 {
                    lemma_p2_23(z as nat);
                }
            }
            n = n * 2;
            z = z + 1;
        }
        Some(sign * 0x8000_0000_0000_0000 + (897 - z) * 0x10_0000_0000_0000 + (n - 0x80_0000) * 0x2000_0000)
    } else {
        Some(sign * 0x8000_0000_0000_0000 + (e + 896) * 0x10_0000_0000_0000 + f * 0x2000_0000)
    }
}

proof fn lemma_p2_23(z: nat)
    requires
        z >= 23,
    ensures
        p2(z) >= 0x80_0000,
    decreases z,
{
    if z > 23 {
        lemma_p2_23((z - 1) as nat);
    } else {
        reveal_with_fuel(p2, 24);
        assert(p2(23) == 0x80_0000);
    }
}

/// The JSON value of a single-precision float: a number when finite, null otherwise.
pub open spec fn f32_json(b: u32) -> Json {
    match f32_to_f64_bits(b) {
        Some(d) => Json::Number(JsonNumber::Float(d)),
        None => Json::Null,
    }
}

/// The JSON value of a double: a number when finite, null otherwise.
pub open spec fn f64_json(b: u64) -> Json {
    if f64_is_finite(b) {
        Json::Number(JsonNumber::Float(b))
    } else {
        Json::Null
    }
}

} // verus!
