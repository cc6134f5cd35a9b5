//! Fixed-width integer encodings over byte sequences.

use vstd::prelude::*;

verus! {

/// Value of the two bytes at `i` read most significant first.
pub open spec fn be16_at(b: Seq<u8>, i: int) -> int {
    b[i] as int * 0x100 + b[i + 1] as int
}

/// Value of the four bytes at `i` read most significant first.
pub open spec fn be32_at(b: Seq<u8>, i: int) -> int {
    be16_at(b, i) * 0x10000 + be16_at(b, i + 2)
}

/// Value of the eight bytes at `i` read most significant first.
pub open spec fn be64_at(b: Seq<u8>, i: int) -> int {
    be32_at(b, i) * 0x1_0000_0000 + be32_at(b, i + 4)
}

/// Value of the two bytes at `i` read least significant first.
pub open spec fn le16_at(b: Seq<u8>, i: int) -> int {
    b[i] as int + b[i + 1] as int * 0x100
}

/// Value of the four bytes at `i` read least significant first.
pub open spec fn le32_at(b: Seq<u8>, i: int) -> int {
    le16_at(b, i) + le16_at(b, i + 2) * 0x10000
}

/// Value of the eight bytes at `i` read least significant first.
pub open spec fn le64_at(b: Seq<u8>, i: int) -> int {
    le32_at(b, i) + le32_at(b, i + 4) * 0x1_0000_0000
}

/// The two bytes of `v`, most significant first.
pub open spec fn be16_bytes(v: int) -> Seq<u8> {
    seq![(v / 0x100 % 0x100) as u8, (v % 0x100) as u8]
}

/// The four bytes of `v`, most significant first.
pub open spec fn be32_bytes(v: int) -> Seq<u8> {
    be16_bytes(v / 0x10000) + be16_bytes(v % 0x10000)
}

/// The two bytes of `v`, least significant first.
pub open spec fn le16_bytes(v: int) -> Seq<u8> {
    seq![(v % 0x100) as u8, (v / 0x100 % 0x100) as u8]
}

/// The four bytes of `v`, least significant first.
pub open spec fn le32_bytes(v: int) -> Seq<u8> {
    le16_bytes(v % 0x10000) + le16_bytes(v / 0x10000)
}

pub fn read_be16(b: &[u8], i: usize) -> (r: u16)
    requires
        i + 2 <= b@.len(),
    ensures
        r == be16_at(b@, i as int),
{
    (b[i] as u16) * 0x100 + (b[i + 1] as u16)
}

pub fn read_le16(b: &[u8], i: usize) -> (r: u16)
    requires
        i + 2 <= b@.len(),
    ensures
        r == le16_at(b@, i as int),
{
    (b[i] as u16) + (b[i + 1] as u16) * 0x100
}

pub fn read_be32(b: &[u8], i: usize) -> (r: u32)
    requires
        i + 4 <= b@.len(),
    ensures
        r == be32_at(b@, i as int),
{
    let _n = b.len();
    (read_be16(b, i) as u32) * 0x10000 + (read_be16(b, i + 2) as u32)
}

pub fn read_le32(b: &[u8], i: usize) -> (r: u32)
    requires
        i + 4 <= b@.len(),
    ensures
        r == le32_at(b@, i as int),
{
    let _n = b.len();
    (read_le16(b, i) as u32) + (read_le16(b, i + 2) as u32) * 0x10000
}

pub fn read_be64(b: &[u8], i: usize) -> (r: u64)
    requires
        i + 8 <= b@.len(),
    ensures
        r == be64_at(b@, i as int),
{
    let _n = b.len();
    (read_be32(b, i) as u64) * 0x1_0000_0000 + (read_be32(b, i + 4) as u64)
}

pub fn read_le64(b: &[u8], i: usize) -> (r: u64)
    requires
        i + 8 <= b@.len(),
    ensures
        r == le64_at(b@, i as int),
{
    let _n = b.len();
    (read_le32(b, i) as u64) + (read_le32(b, i + 4) as u64) * 0x1_0000_0000
}

/// Appends the two bytes of `v`, most significant first.
pub fn push_be16(out: &mut Vec<u8>, v: u16)
    ensures
        final(out)@ == old(out)@ + be16_bytes(v as int),
{
    out.push((v / 0x100) as u8);
    out.push((v % 0x100) as u8);
}

/// Appends the four bytes of `v`, most significant first.
pub fn push_be32(out: &mut Vec<u8>, v: u32)
    ensures
        final(out)@ == old(out)@ + be32_bytes(v as int),
{
    push_be16(out, (v / 0x10000) as u16);
    push_be16(out, (v % 0x10000) as u16);
}

/// Appends the two bytes of `v`, least significant first.
pub fn push_le16(out: &mut Vec<u8>, v: u16)
    ensures
        final(out)@ == old(out)@ + le16_bytes(v as int),
{
    out.push((v % 0x100) as u8);
    out.push((v / 0x100) as u8);
}

/// Appends the four bytes of `v`, least significant first.
pub fn push_le32(out: &mut Vec<u8>, v: u32)
    ensures
        final(out)@ == old(out)@ + le32_bytes(v as int),
{
    push_le16(out, (v % 0x10000) as u16);
    push_le16(out, (v / 0x10000) as u16);
}

/// Appends all of `data`.
pub fn push_all(out: &mut Vec<u8>, data: &[u8])
    ensures
        final(out)@ == old(out)@ + data@,
{
    let mut i: usize = 0;
    let ghost start = out@;
    while i < data.len()
        invariant
            i <= data@.len(),
            out@ == start + data@.subrange(0, i as int),
        decreases data@.len() - i,
    {
        out.push(data[i]);
        i = i + 1;
        assert(data@.subrange(0, i as int) == data@.subrange(0, i - 1 as int).push(data@[i - 1]));
    }
    assert(data@.subrange(0, data@.len() as int) == data@);
}

/// Reading back what `push_be16` wrote gives the value.
pub proof fn lemma_be16_roundtrip(v: int)
    requires
        0 <= v < 0x10000,
    ensures
        be16_at(be16_bytes(v), 0) == v,
{
}

/// Reading back what `push_le32` wrote gives the value.
pub proof fn lemma_le32_roundtrip(v: int)
    requires
        0 <= v < 0x1_0000_0000,
    ensures
        le32_at(le32_bytes(v), 0) == v,
{
    let b = le32_bytes(v);
    assert(b[0] as int == v % 0x10000 % 0x100);
    assert(b[2] as int == v / 0x10000 % 0x100);
}

} // verus!
