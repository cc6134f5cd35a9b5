//! Statistics over the first bytes of many payloads, and the fields they
//! suggest.

use vstd::prelude::*;
use std::collections::HashMap;
use crate::decimal::{append_decimal, decimal};

verus! {

broadcast use vstd::std_specs::hash::group_hash_axioms;

/// What the payloads hold at one offset.
#[derive(Debug)]
pub struct ByteStats {
    pub offset: usize,
    /// The number of payloads.
    pub count: usize,
    /// The values seen, ascending, each once.
    pub unique_values: Vec<u8>,
    /// How many payloads hold each value seen.
    pub value_counts: HashMap<u8, usize>,
    pub min: u8,
    pub max: u8,
    /// Every payload holds the same value.
    pub is_constant: bool,
    pub constant_value: Option<u8>,
}

/// Statistics over a set of payloads.
#[derive(Debug)]
pub struct PayloadAnalysis {
    pub total_packets: usize,
    pub min_length: usize,
    pub max_length: usize,
    /// The sum of the payload lengths; their mean is this over `total_packets`.
    pub length_sum: u128,
    /// One entry per offset below both the analysed width and the shortest payload.
    pub byte_stats: Vec<ByteStats>,
}

/// The payloads' bytes at offset `o`.
pub open spec fn column(ps: Seq<Seq<u8>>, o: int) -> Seq<u8> {
    Seq::new(ps.len(), |i: int| ps[i][o])
}

/// How often `v` occurs in `s`.
pub open spec fn count_of(s: Seq<u8>, v: u8) -> nat
    decreases s.len(),
{
    if s.len() == 0 {
        0
    } else {
        count_of(s.drop_last(), v) + if s.last() == v { 1nat } else { 0nat }
    }
}

/// The values from `v` up to 255 that occur in `s`, ascending.
pub open spec fn present_from(s: Seq<u8>, v: int) -> Seq<u8>
    decreases 256 - v,
{
    if v < 0 || v >= 256 {
        Seq::empty()
    } else if count_of(s, v as u8) > 0 {
        seq![v as u8] + present_from(s, v + 1)
    } else {
        present_from(s, v + 1)
    }
}

/// The distinct values of `s`, ascending.
pub open spec fn distinct_values(s: Seq<u8>) -> Seq<u8> {
    present_from(s, 0)
}

/// The least value of `s`; 255 for none.
pub open spec fn min_byte(s: Seq<u8>) -> u8
    decreases s.len(),
{
    if s.len() == 0 {
        255
    } else {
        let m = min_byte(s.drop_last());
        if s.last() < m { s.last() } else { m }
    }
}

/// The greatest value of `s`; 0 for none.
pub open spec fn max_byte(s: Seq<u8>) -> u8
    decreases s.len(),
{
    if s.len() == 0 {
        0
    } else {
        let m = max_byte(s.drop_last());
        if s.last() > m { s.last() } else { m }
    }
}

/// The statistics of the payloads' bytes at offset `o`.
pub open spec fn stats_of_column(b: ByteStats, ps: Seq<Seq<u8>>, o: int) -> bool {
    let col = column(ps, o);
    let d = distinct_values(col);
    &&& b.offset == o
    &&& b.count == ps.len()
    &&& b.unique_values@ == d
    &&& b.value_counts@ == Map::new(|v: u8| count_of(col, v) > 0, |v: u8| count_of(col, v) as usize)
    &&& b.min == min_byte(col)
    &&& b.max == max_byte(col)
    &&& b.is_constant == (d.len() == 1)
    &&& b.constant_value == if d.len() == 1 { Some(d[0]) } else { None::<u8> }
}

/// The least payload length; 0 for no payload.
pub open spec fn min_len(ps: Seq<Seq<u8>>) -> nat
    decreases ps.len(),
{
    if ps.len() == 0 {
        0
    } else if ps.len() == 1 {
        ps[0].len()
    } else {
        let m = min_len(ps.drop_last());
        if ps.last().len() < m { ps.last().len() } else { m }
    }
}

/// The greatest payload length; 0 for no payload.
pub open spec fn max_len(ps: Seq<Seq<u8>>) -> nat
    decreases ps.len(),
{
    if ps.len() == 0 {
        0
    } else {
        let m = max_len(ps.drop_last());
        if ps.last().len() > m { ps.last().len() } else { m }
    }
}

pub open spec fn sum_len(ps: Seq<Seq<u8>>) -> nat
    decreases ps.len(),
{
    if ps.len() == 0 {
        0
    } else {
        sum_len(ps.drop_last()) + ps.last().len()
    }
}

/// The payloads as byte sequences.
pub open spec fn payload_seqs(payloads: Seq<&[u8]>) -> Seq<Seq<u8>> {
    Seq::new(payloads.len(), |i: int| payloads[i]@)
}

/// The number of offsets analysed: the analysed width, at most the
/// shortest payload.
pub open spec fn analysed_width(ps: Seq<Seq<u8>>, max_offset: usize) -> nat {
    if max_offset < min_len(ps) { max_offset as nat } else { min_len(ps) }
}

proof fn lemma_min_len_bound(ps: Seq<Seq<u8>>, i: int)
    requires
        0 <= i < ps.len(),
    ensures
        min_len(ps) <= ps[i].len(),
    decreases ps.len(),
{
    if ps.len() > 1 && i < ps.len() - 1 {
        lemma_min_len_bound(ps.drop_last(), i);
    }
}

proof fn lemma_sum_len_bound(ps: Seq<Seq<u8>>)
    requires
        forall|i: int| 0 <= i < ps.len() ==> #[trigger] ps[i].len() <= usize::MAX,
    ensures
        sum_len(ps) <= ps.len() * (usize::MAX as nat),
    decreases ps.len(),
{
    if ps.len() > 0 {
        let t = ps.drop_last();
        assert forall|i: int| 0 <= i < t.len() implies #[trigger] t[i].len() <= usize::MAX by {
            assert(t[i] == ps[i]);
        }
        lemma_sum_len_bound(t);
        assert(ps.len() * (usize::MAX as nat) == t.len() * (usize::MAX as nat) + usize::MAX) by (nonlinear_arith)
            requires ps.len() == t.len() + 1;
    }
}

/// Lengths of the payloads: least, greatest, and their sum.
fn length_summary(payloads: &[&[u8]]) -> (r: (usize, usize, u128))
    ensures
        r.0 == min_len(payload_seqs(payloads@)),
        r.1 == max_len(payload_seqs(payloads@)),
        r.2 == sum_len(payload_seqs(payloads@)),
{
    let ghost ps = payload_seqs(payloads@);
    let n = payloads.len();
    if n == 0 {
        return (0, 0, 0);
    }
    let mut lo: usize = payloads[0].len();
    let mut hi: usize = 0;
    let mut sum: u128 = 0;
    let mut i: usize = 0;
    while i < n
        invariant
            n == payloads@.len(),
            ps == payload_seqs(payloads@),
            0 < n,
            i <= n,
            i > 0 ==> lo == min_len(ps.subrange(0, i as int)),
            i == 0 ==> lo == ps[0].len(),
            hi == max_len(ps.subrange(0, i as int)),
            sum == sum_len(ps.subrange(0, i as int)),
            sum <= i * (usize::MAX as nat),
        decreases n - i,
    {
        let len = payloads[i].len();
        let ghost pre = ps.subrange(0, i as int);
        let ghost next = ps.subrange(0, i + 1);
        assert(next.drop_last() =~= pre);
        assert(next.last() == ps[i as int]);
        assert(ps[i as int] == payloads@[i as int]@);
        if i > 0 && len < lo {
            lo = len;
        }
        if i == 0 {
            assert(next.len() == 1);
        }
        if len > hi {
            hi = len;
        }
        assert(sum + len <= (i + 1) * (usize::MAX as nat)) by (nonlinear_arith)
            requires sum <= i * (usize::MAX as nat), len <= usize::MAX;
        assert((i + 1) * (usize::MAX as nat) <= usize::MAX as nat * (usize::MAX as nat)) by (nonlinear_arith)
            requires i < usize::MAX;
        assert(usize::MAX as nat * (usize::MAX as nat) < u128::MAX) by (nonlinear_arith)
            requires usize::MAX <= u64::MAX;
        sum = sum + len as u128;
        i = i + 1;
    }
    assert(ps.subrange(0, n as int) =~= ps);
    (lo, hi, sum)
}

proof fn lemma_present_from_split(s: Seq<u8>, v: int)
    requires
        0 <= v < 256,
    ensures
        present_from(s, v) == if count_of(s, v as u8) > 0 {
            seq![v as u8] + present_from(s, v + 1)
        } else {
            present_from(s, v + 1)
        },
{
}

/// Statistics of the bytes at `offset`, which every payload has.
fn column_stats(payloads: &[&[u8]], offset: usize) -> (r: ByteStats)
    requires
        forall|i: int| 0 <= i < payloads@.len() ==> offset < (#[trigger] payloads@[i])@.len(),
    ensures
        stats_of_column(r, payload_seqs(payloads@), offset as int),
{
    let ghost ps = payload_seqs(payloads@);
    let ghost col = column(ps, offset as int);
    let n = payloads.len();
    let mut counts: Vec<usize> = Vec::new();
    let mut k: usize = 0;
    while k < 256
        invariant
            k <= 256,
            counts@.len() == k,
            forall|v: int| 0 <= v < k ==> counts@[v] == 0,
        decreases 256 - k,
    {
        counts.push(0);
        k = k + 1;
    }
    let mut min: u8 = 255;
    let mut max: u8 = 0;
    let mut j: usize = 0;
    while j < n
        invariant
            n == payloads@.len(),
            ps == payload_seqs(payloads@),
            col == column(ps, offset as int),
            forall|i: int| 0 <= i < payloads@.len() ==> offset < (#[trigger] payloads@[i])@.len(),
            j <= n,
            counts@.len() == 256,
            forall|v: int| 0 <= v < 256 ==> #[trigger] counts@[v] == count_of(col.subrange(0, j as int), v as u8),
            forall|v: int| 0 <= v < 256 ==> #[trigger] counts@[v] <= j,
            min == min_byte(col.subrange(0, j as int)),
            max == max_byte(col.subrange(0, j as int)),
        decreases n - j,
    {
        let byte = payloads[j][offset];
        let ghost pre = col.subrange(0, j as int);
        let ghost next = col.subrange(0, j + 1);
        assert(next.drop_last() =~= pre);
        assert(next.last() == byte) by {
            assert(col[j as int] == ps[j as int][offset as int]);
            assert(ps[j as int] == payloads@[j as int]@);
        }
        let c = counts[byte as usize];
        counts.set(byte as usize, c + 1);
        assert forall|v: int| 0 <= v < 256 implies #[trigger] counts@[v] == count_of(next, v as u8) by {
            assert(count_of(next, v as u8) == count_of(pre, v as u8) + if byte == v as u8 { 1nat } else { 0nat });
        }
        if byte < min {
            min = byte;
        }
        if byte > max {
            max = byte;
        }
        j = j + 1;
    }
    assert(col.subrange(0, n as int) =~= col);
    let mut value_counts: HashMap<u8, usize> = HashMap::new();
    let mut unique_values: Vec<u8> = Vec::new();
    let mut v: usize = 0;
    while v < 256
        invariant
            v <= 256,
            counts@.len() == 256,
            forall|x: int| 0 <= x < 256 ==> #[trigger] counts@[x] == count_of(col, x as u8),
            unique_values@ + present_from(col, v as int) == distinct_values(col),
            value_counts@ == Map::new(|x: u8| (x as int) < v && count_of(col, x) > 0, |x: u8| count_of(col, x) as usize),
        decreases 256 - v,
    {
        proof { lemma_present_from_split(col, v as int); }
        let c = counts[v];
        let ghost before = unique_values@;
        let ghost vm = value_counts@;
        if c > 0 {
            value_counts.insert(v as u8, c);
            unique_values.push(v as u8);
            assert(unique_values@ + present_from(col, v + 1) =~= before + present_from(col, v as int));
        }
        assert(value_counts@ =~= Map::new(|x: u8| (x as int) < v + 1 && count_of(col, x) > 0, |x: u8| count_of(col, x) as usize)) by {
            assert forall|x: u8| #![auto] (x as int) == v implies count_of(col, x) == counts@[v as int] by {}
        }
        v = v + 1;
    }
    assert(present_from(col, 256) =~= Seq::<u8>::empty());
    assert(unique_values@ =~= distinct_values(col));
    assert(value_counts@ =~= Map::new(|x: u8| count_of(col, x) > 0, |x: u8| count_of(col, x) as usize));
    let is_constant = unique_values.len() == 1;
    let constant_value = if is_constant { Some(unique_values[0]) } else { None };
    ByteStats { offset, count: n, unique_values, value_counts, min, max, is_constant, constant_value }
}

/// Statistics over the payloads: their number, their lengths, and the
/// bytes at each offset below `max_offset` that every payload has.
pub fn analyze_payloads(payloads: &[&[u8]], max_offset: usize) -> (r: PayloadAnalysis)
    ensures
        r.total_packets == payloads@.len(),
        r.min_length == min_len(payload_seqs(payloads@)),
        r.max_length == max_len(payload_seqs(payloads@)),
        r.length_sum == sum_len(payload_seqs(payloads@)),
        r.byte_stats@.len() == analysed_width(payload_seqs(payloads@), max_offset),
        forall|o: int| 0 <= o < r.byte_stats@.len() ==> stats_of_column(#[trigger] r.byte_stats@[o], payload_seqs(payloads@), o),
{
    let ghost ps = payload_seqs(payloads@);
    let total_packets = payloads.len();
    let (min_length, max_length, length_sum) = length_summary(payloads);
    let analyze_up_to = if max_offset < min_length { max_offset } else { min_length };
    let mut byte_stats: Vec<ByteStats> = Vec::new();
    let mut offset: usize = 0;
    while offset < analyze_up_to
        invariant
            ps == payload_seqs(payloads@),
            min_length == min_len(ps),
            analyze_up_to <= min_length,
            offset <= analyze_up_to,
            byte_stats@.len() == offset,
            forall|o: int| 0 <= o < offset ==> stats_of_column(#[trigger] byte_stats@[o], ps, o),
        decreases analyze_up_to - offset,
    {
        assert forall|i: int| 0 <= i < payloads@.len() implies offset < (#[trigger] payloads@[i])@.len() by {
            lemma_min_len_bound(ps, i);
            assert(ps[i] == payloads@[i]@);
        }
        let s = column_stats(payloads, offset);
        byte_stats.push(s);
        offset = offset + 1;
    }
    PayloadAnalysis { total_packets, min_length, max_length, length_sum, byte_stats }
}

// ---------------------------------------------------------------------
// Inferring fields

/// The byte order a multi-byte field seems to have.
#[derive(Debug, Clone, Copy, PartialEq, Eq, Structural)]
pub enum EndianGuess {
    Big,
    Little,
    Uncertain,
}

/// What a run of bytes seems to be. `B` holds bytes: `Vec<u8>` in results,
/// byte sequences in the model.
#[derive(Debug, Clone, PartialEq, Eq)]
pub enum FieldPatternOf<B> {
    Constant(B),
    UInt8 { min: u8, max: u8 },
    UInt16 { min: u16, max: u16, endian: EndianGuess },
    UInt32 { min: u32, max: u32, endian: EndianGuess },
    LengthField { field_size: usize, endian: EndianGuess, points_to: usize },
    CountField { field_size: usize, endian: EndianGuess },
    RandomBytes,
    AsciiChar,
    Unknown,
}

pub type FieldPattern = FieldPatternOf<Vec<u8>>;

pub type PatternModel = FieldPatternOf<Seq<u8>>;

impl View for FieldPatternOf<Vec<u8>> {
    type V = PatternModel;

    open spec fn view(&self) -> PatternModel {
        match self {
            FieldPatternOf::Constant(b) => FieldPatternOf::Constant(b@),
            FieldPatternOf::UInt8 { min, max } => FieldPatternOf::UInt8 { min: *min, max: *max },
            FieldPatternOf::UInt16 { min, max, endian } => FieldPatternOf::UInt16 { min: *min, max: *max, endian: *endian },
            FieldPatternOf::UInt32 { min, max, endian } => FieldPatternOf::UInt32 { min: *min, max: *max, endian: *endian },
            FieldPatternOf::LengthField { field_size, endian, points_to } => FieldPatternOf::LengthField {
                field_size: *field_size,
                endian: *endian,
                points_to: *points_to,
            },
            FieldPatternOf::CountField { field_size, endian } => FieldPatternOf::CountField { field_size: *field_size, endian: *endian },
            FieldPatternOf::RandomBytes => FieldPatternOf::RandomBytes,
            FieldPatternOf::AsciiChar => FieldPatternOf::AsciiChar,
            FieldPatternOf::Unknown => FieldPatternOf::Unknown,
        }
    }
}

/// A field the statistics suggest.
#[derive(Debug)]
pub struct InferredField {
    pub offset: usize,
    pub size: usize,
    pub pattern: FieldPattern,
    pub suggested_name: String,
    /// How sure the guess is, in percent.
    pub confidence: u8,
}

/// The model of an `InferredField`.
pub struct FieldGuess {
    pub offset: nat,
    pub size: nat,
    pub pattern: PatternModel,
    pub name: Seq<char>,
    pub confidence: u8,
}

impl View for InferredField {
    type V = FieldGuess;

    open spec fn view(&self) -> FieldGuess {
        FieldGuess {
            offset: self.offset as nat,
            size: self.size as nat,
            pattern: self.pattern@,
            name: self.suggested_name@,
            confidence: self.confidence,
        }
    }
}

pub open spec fn guesses(fs: Seq<InferredField>) -> Seq<FieldGuess> {
    Seq::new(fs.len(), |i: int| fs[i]@)
}

/// The end of the run of constant offsets from `o`.
pub open spec fn const_run_end(st: Seq<ByteStats>, o: int) -> int
    decreases st.len() - o,
{
    if o < 0 || o >= st.len() || !st[o].is_constant {
        o
    } else {
        const_run_end(st, o + 1)
    }
}

/// The constant values of the offsets `a..b`.
pub open spec fn const_bytes(st: Seq<ByteStats>, a: int, b: int) -> Seq<u8> {
    Seq::new((b - a) as nat, |i: int| st[a + i].constant_value->0)
}

/// Two offsets as a 16-bit field: the constant one is the high byte.
pub open spec fn match_u16(a: ByteStats, b: ByteStats) -> Option<PatternModel> {
    if a.is_constant && !b.is_constant {
        Some(FieldPatternOf::UInt16 { min: 0, max: 255, endian: EndianGuess::Big })
    } else if b.is_constant && !a.is_constant {
        Some(FieldPatternOf::UInt16 { min: 0, max: 255, endian: EndianGuess::Little })
    } else {
        None
    }
}

/// Four offsets as a 32-bit field: its two high bytes constant, the two
/// low ones not, in either byte order.
pub open spec fn match_u32(s0: ByteStats, s1: ByteStats, s2: ByteStats, s3: ByteStats) -> Option<PatternModel> {
    let any_const = s0.is_constant || s1.is_constant || s2.is_constant || s3.is_constant;
    let big = s0.is_constant && s1.is_constant && !s2.is_constant && !s3.is_constant;
    let little = s3.is_constant && s2.is_constant && !s1.is_constant && !s0.is_constant;
    let endian = if big && !little {
        EndianGuess::Big
    } else if little && !big {
        EndianGuess::Little
    } else {
        EndianGuess::Uncertain
    };
    if !any_const {
        None
    } else if big || little {
        Some(FieldPatternOf::UInt32 { min: 0, max: u32::MAX, endian })
    } else {
        None
    }
}

/// The number of printable ASCII values (32 to 126) in `s`.
pub open spec fn ascii_count(s: Seq<u8>) -> nat
    decreases s.len(),
{
    if s.len() == 0 {
        0
    } else {
        ascii_count(s.drop_last()) + if 32 <= s.last() < 127 { 1nat } else { 0nat }
    }
}

/// More than four fifths of the values seen are printable ASCII.
pub open spec fn likely_ascii(b: ByteStats) -> bool {
    let u = b.unique_values@;
    u.len() > 0 && 5 * ascii_count(u) > 4 * u.len()
}

pub open spec fn named(prefix: Seq<char>, o: int) -> Seq<char> {
    prefix + decimal(o as nat)
}

/// The fields suggested from offset `o` on: a run of constant offsets is
/// one constant field; else a 16-bit or 32-bit field when the neighbours
/// fit one; else one byte, a character when its values look like text.
pub open spec fn infer_from(st: Seq<ByteStats>, o: int) -> Seq<FieldGuess>
    decreases st.len() - o, 1int,
{
    if o < 0 || o >= st.len() {
        Seq::empty()
    } else if st[o].is_constant {
        let e = const_run_end(st, o + 1);
        proof { lemma_const_run_end(st, o + 1); }
        seq![FieldGuess {
            offset: o as nat,
            size: (e - o) as nat,
            pattern: FieldPatternOf::Constant(const_bytes(st, o, e)),
            name: named("magic_"@, o),
            confidence: 95,
        }] + infer_from(st, e)
    } else {
        infer_varying(st, o)
    }
}

/// The field suggested at a varying offset `o`, then those after it.
pub open spec fn infer_varying(st: Seq<ByteStats>, o: int) -> Seq<FieldGuess>
    decreases st.len() - o, 0int,
{
    if o < 0 || o >= st.len() {
        Seq::empty()
    } else {
        let rem = st.len() - o;
        if rem >= 2 && match_u16(st[o], st[o + 1]) is Some {
            seq![FieldGuess {
                offset: o as nat,
                size: 2,
                pattern: match_u16(st[o], st[o + 1])->0,
                name: named("field_u16_"@, o),
                confidence: 70,
            }] + infer_from(st, o + 2)
        } else if rem >= 4 && match_u32(st[o], st[o + 1], st[o + 2], st[o + 3]) is Some {
            seq![FieldGuess {
                offset: o as nat,
                size: 4,
                pattern: match_u32(st[o], st[o + 1], st[o + 2], st[o + 3])->0,
                name: named("field_u32_"@, o),
                confidence: 70,
            }] + infer_from(st, o + 4)
        } else if likely_ascii(st[o]) {
            seq![FieldGuess { offset: o as nat, size: 1, pattern: FieldPatternOf::AsciiChar, name: named("char_"@, o), confidence: 60 }]
                + infer_from(st, o + 1)
        } else {
            seq![FieldGuess {
                offset: o as nat,
                size: 1,
                pattern: FieldPatternOf::UInt8 { min: st[o].min, max: st[o].max },
                name: named("field_u8_"@, o),
                confidence: 50,
            }] + infer_from(st, o + 1)
        }
    }
}

pub proof fn lemma_const_run_end(st: Seq<ByteStats>, o: int)
    requires
        0 <= o,
    ensures
        o <= const_run_end(st, o),
        o <= st.len() ==> const_run_end(st, o) <= st.len(),
        forall|i: int| o <= i < const_run_end(st, o) ==> #[trigger] st[i].is_constant,
        0 <= const_run_end(st, o) < st.len() ==> !st[const_run_end(st, o)].is_constant,
    decreases st.len() - o,
{
    if o < st.len() && st[o].is_constant {
        lemma_const_run_end(st, o + 1);
    }
}

/// `max_len + 100`, at most `usize::MAX`.
pub open spec fn saturating_plus_100(n: usize) -> int {
    if n + 100 > usize::MAX { usize::MAX as int } else { n + 100 }
}

/// A 16-bit or 32-bit field whose range could hold a payload length.
pub open spec fn length_candidate(g: FieldGuess, min_len: usize, max_len: usize) -> bool {
    match g.pattern {
        FieldPatternOf::UInt16 { min, max, .. } => max as int >= min_len && min as int <= saturating_plus_100(max_len),
        FieldPatternOf::UInt32 { min, max, .. } => max as int >= min_len && min as int <= saturating_plus_100(max_len),
        _ => false,
    }
}

pub open spec fn guess_endian(p: PatternModel) -> EndianGuess {
    match p {
        FieldPatternOf::UInt16 { endian, .. } => endian,
        FieldPatternOf::UInt32 { endian, .. } => endian,
        _ => EndianGuess::Uncertain,
    }
}

/// The index of the first length candidate among `fs[i..]`.
pub open spec fn first_candidate(fs: Seq<FieldGuess>, i: int, min_len: usize, max_len: usize) -> Option<int>
    decreases fs.len() - i,
{
    if i < 0 || i >= fs.len() {
        None
    } else if length_candidate(fs[i], min_len, max_len) {
        Some(i)
    } else {
        first_candidate(fs, i + 1, min_len, max_len)
    }
}

/// The index of the first field among `fs[i..]` at offset `o`.
pub open spec fn first_at_offset(fs: Seq<FieldGuess>, i: int, o: nat) -> Option<int>
    decreases fs.len() - i,
{
    if i < 0 || i >= fs.len() {
        None
    } else if fs[i].offset == o {
        Some(i)
    } else {
        first_at_offset(fs, i + 1, o)
    }
}

/// When payload lengths vary, the first 16-bit or 32-bit field that could
/// hold a length becomes the length field if it starts within the first
/// eight bytes.
pub open spec fn detect_length(fs: Seq<FieldGuess>, min_len: usize, max_len: usize) -> Seq<FieldGuess> {
    if min_len == max_len {
        fs
    } else {
        match first_candidate(fs, 0, min_len, max_len) {
            Some(k) => {
                let c = fs[k];
                if c.offset < 8 {
                    match first_at_offset(fs, 0, c.offset) {
                        Some(j) => fs.update(j, FieldGuess {
                            pattern: FieldPatternOf::LengthField {
                                field_size: c.size as usize,
                                endian: guess_endian(c.pattern),
                                points_to: (c.offset + c.size) as usize,
                            },
                            name: "length"@,
                            confidence: 85,
                            ..fs[j]
                        }),
                        None => fs,
                    }
                } else {
                    fs
                }
            },
            None => fs,
        }
    }
}

/// One field renamed: constants in the first four bytes are `magic`,
/// length fields `length`, and the first two 32-bit fields starting at
/// bytes 4 to 12 `msg_type` and `request_id`. Also gives whether those two
/// names are taken afterwards.
pub open spec fn rename_one(g: FieldGuess, type_done: bool, id_done: bool) -> (FieldGuess, bool, bool) {
    let g1 = if g.offset < 4 && g.pattern is Constant { FieldGuess { name: "magic"@, ..g } } else { g };
    match g1.pattern {
        FieldPatternOf::LengthField { .. } => (FieldGuess { name: "length"@, ..g1 }, type_done, id_done),
        FieldPatternOf::UInt32 { .. } => if 4 <= g1.offset <= 12 {
            if !type_done {
                (FieldGuess { name: "msg_type"@, ..g1 }, true, id_done)
            } else if !id_done {
                (FieldGuess { name: "request_id"@, ..g1 }, type_done, true)
            } else {
                (g1, type_done, id_done)
            }
        } else {
            (g1, type_done, id_done)
        },
        _ => (g1, type_done, id_done),
    }
}

pub open spec fn rename_from(fs: Seq<FieldGuess>, i: int, type_done: bool, id_done: bool) -> Seq<FieldGuess>
    decreases fs.len() - i,
{
    if i < 0 || i >= fs.len() {
        Seq::empty()
    } else {
        let (g, t, d) = rename_one(fs[i], type_done, id_done);
        seq![g] + rename_from(fs, i + 1, t, d)
    }
}

/// Every constant offset has its value.
pub open spec fn stats_consistent(st: Seq<ByteStats>) -> bool {
    forall|i: int| 0 <= i < st.len() && (#[trigger] st[i]).is_constant ==> st[i].constant_value is Some
}

/// The fields suggested by the statistics.
pub open spec fn inferred_fields_spec(a: PayloadAnalysis) -> Seq<FieldGuess> {
    rename_from(detect_length(infer_from(a.byte_stats@, 0), a.min_length, a.max_length), 0, false, false)
}

/// `prefix` followed by the decimal digits of `n`.
fn name_with_offset(prefix: &str, n: usize) -> (r: String)
    ensures
        r@ == named(prefix@, n as int),
{
    let mut s = prefix.to_owned();
    append_decimal(&mut s, n as u64);
    s
}

/// Two neighbouring offsets as a 16-bit field.
pub fn try_match_u16(stats: &[ByteStats]) -> (r: Option<(FieldPattern, usize)>)
    ensures
        stats@.len() < 2 ==> r is None,
        stats@.len() >= 2 ==> match match_u16(stats@[0], stats@[1]) {
            Some(p) => r matches Some((q, n)) && q@ == p && n == 2,
            None => r is None,
        },
{
    if stats.len() < 2 {
        return None;
    }
    let has_const_high_byte_big = stats[0].is_constant;
    let has_const_high_byte_little = stats[1].is_constant;
    if has_const_high_byte_big && !stats[1].is_constant {
        return Some((FieldPatternOf::UInt16 { min: 0, max: 255, endian: EndianGuess::Big }, 2));
    }
    if has_const_high_byte_little && !stats[0].is_constant {
        return Some((FieldPatternOf::UInt16 { min: 0, max: 255, endian: EndianGuess::Little }, 2));
    }
    None
}

/// Four neighbouring offsets as a 32-bit field.
pub fn try_match_u32(stats: &[ByteStats]) -> (r: Option<(FieldPattern, usize)>)
    ensures
        stats@.len() < 4 ==> r is None,
        stats@.len() >= 4 ==> match match_u32(stats@[0], stats@[1], stats@[2], stats@[3]) {
            Some(p) => r matches Some((q, n)) && q@ == p && n == 4,
            None => r is None,
        },
{
    if stats.len() < 4 {
        return None;
    }
    let mut const_count: usize = 0;
    let mut i: usize = 0;
    while i < 4
        invariant
            stats@.len() >= 4,
            i <= 4,
            const_count <= i,
            (const_count == 0) == (forall|j: int| 0 <= j < i ==> !(#[trigger] stats@[j]).is_constant),
        decreases 4 - i,
    {
        if stats[i].is_constant {
            const_count = const_count + 1;
        }
        i = i + 1;
    }
    if const_count == 0 {
        return None;
    }
    let big_endian_likely = stats[0].is_constant && stats[1].is_constant && !stats[2].is_constant && !stats[3].is_constant;
    let little_endian_likely = stats[3].is_constant && stats[2].is_constant && !stats[1].is_constant && !stats[0].is_constant;
    let endian = if big_endian_likely && !little_endian_likely {
        EndianGuess::Big
    } else if little_endian_likely && !big_endian_likely {
        EndianGuess::Little
    } else {
        EndianGuess::Uncertain
    };
    if big_endian_likely || little_endian_likely {
        Some((FieldPatternOf::UInt32 { min: 0, max: u32::MAX, endian }, 4))
    } else {
        None
    }
}

/// More than four fifths of the values seen at the offset are printable ASCII.
pub fn is_likely_ascii(stat: &ByteStats) -> (r: bool)
    ensures
        r == likely_ascii(*stat),
{
    let n = stat.unique_values.len();
    if n == 0 {
        return false;
    }
    let ghost u = stat.unique_values@;
    let mut ascii: usize = 0;
    let mut i: usize = 0;
    while i < n
        invariant
            n == u.len(),
            u == stat.unique_values@,
            i <= n,
            ascii <= i,
            ascii == ascii_count(u.subrange(0, i as int)),
        decreases n - i,
    {
        let b = stat.unique_values[i];
        assert(u.subrange(0, i + 1).drop_last() =~= u.subrange(0, i as int));
        if b >= 32 && b < 127 {
            ascii = ascii + 1;
        }
        i = i + 1;
    }
    assert(u.subrange(0, n as int) =~= u);
    (ascii as u128) * 5 > (n as u128) * 4
}

/// The constant values of the offsets `from..to`.
fn constant_values(stats: &Vec<ByteStats>, from: usize, to: usize) -> (r: Vec<u8>)
    requires
        from <= to <= stats@.len(),
        forall|i: int| from <= i < to ==> (#[trigger] stats@[i]).constant_value is Some,
    ensures
        r@ == const_bytes(stats@, from as int, to as int),
{
    let mut out: Vec<u8> = Vec::new();
    let mut i: usize = from;
    while i < to
        invariant
            from <= i <= to,
            to <= stats@.len(),
            forall|k: int| from <= k < to ==> (#[trigger] stats@[k]).constant_value is Some,
            out@ == const_bytes(stats@, from as int, i as int),
        decreases to - i,
    {
        let v = match stats[i].constant_value {
            Some(v) => v,
            None => 0,
        };
        let ghost before = out@;
        out.push(v);
        assert(out@ =~= const_bytes(stats@, from as int, i + 1));
        i = i + 1;
    }
    out
}

/// Fields suggested by the statistics: runs of constant bytes, 16-bit and
/// 32-bit fields next to constant bytes, characters and single bytes;
/// then a length field, then names by position.
pub fn infer_fields(analysis: &PayloadAnalysis) -> (r: Vec<InferredField>)
    requires
        stats_consistent(analysis.byte_stats@),
    ensures
        guesses(r@) == inferred_fields_spec(*analysis),
{
    let mut fields: Vec<InferredField> = Vec::new();
    let stats = &analysis.byte_stats;
    let ghost st = stats@;
    let n = stats.len();
    let mut offset: usize = 0;
    assert(guesses(fields@) =~= Seq::<FieldGuess>::empty());
    while offset < n
        invariant
            st == stats@,
            n == st.len(),
            stats_consistent(st),
            offset <= n,
            guesses(fields@) + infer_from(st, offset as int) == infer_from(st, 0),
            forall|i: int| 0 <= i < fields@.len() ==> (#[trigger] fields@[i]).offset + fields@[i].size <= n,
        decreases n - offset,
    {
        let ghost before = guesses(fields@);
        if stats[offset].is_constant {
            proof { lemma_const_run_end(st, offset + 1); }
            let ghost e = const_run_end(st, offset + 1);
            let mut run_end: usize = offset;
            while run_end < n && stats[run_end].is_constant
                invariant
                    st == stats@,
                    n == st.len(),
                    offset <= run_end <= n,
                    st[offset as int].is_constant,
                    run_end <= e,
                    e == const_run_end(st, offset + 1),
                    run_end > offset ==> const_run_end(st, run_end as int) == e,
                    forall|i: int| offset + 1 <= i < e ==> #[trigger] st[i].is_constant,
                    0 <= e < st.len() ==> !st[e].is_constant,
                    e <= st.len(),
                decreases n - run_end,
            {
                run_end = run_end + 1;
            }
            assert(run_end == e);
            let bytes = constant_values(stats, offset, run_end);
            let name = name_with_offset("magic_", offset);
            let f = InferredField {
                offset,
                size: run_end - offset,
                pattern: FieldPatternOf::Constant(bytes),
                suggested_name: name,
                confidence: 95,
            };
            fields.push(f);
            proof {
                assert(guesses(fields@) =~= before.push(f@));
                assert(infer_from(st, offset as int) == seq![f@] + infer_from(st, e));
                assert(before.push(f@) + infer_from(st, e) =~= before + (seq![f@] + infer_from(st, e)));
            }
            offset = run_end;
        } else {
            let remaining = n - offset;
            let mut matched = false;
            let ghost vary = infer_varying(st, offset as int);
            assert(infer_from(st, offset as int) == vary);
            if remaining >= 2 {
                let sl = &stats.as_slice()[offset..offset + 2];
                assert(sl@ =~= st.subrange(offset as int, offset + 2));
                if let Some((pattern, size)) = try_match_u16(sl) {
                    let name = name_with_offset("field_u16_", offset);
                    let f = InferredField { offset, size, pattern, suggested_name: name, confidence: 70 };
                    fields.push(f);
                    proof {
                        assert(guesses(fields@) =~= before.push(f@));
                        assert(vary == seq![f@] + infer_from(st, offset + 2));
                        assert(before.push(f@) + infer_from(st, offset + 2) =~= before + (seq![f@] + infer_from(st, offset + 2)));
                    }
                    offset = offset + size;
                    matched = true;
                }
            }
            if !matched && remaining >= 4 {
                let sl = &stats.as_slice()[offset..offset + 4];
                assert(sl@ =~= st.subrange(offset as int, offset + 4));
                if let Some((pattern, size)) = try_match_u32(sl) {
                    let name = name_with_offset("field_u32_", offset);
                    let f = InferredField { offset, size, pattern, suggested_name: name, confidence: 70 };
                    fields.push(f);
                    proof {
                        assert(guesses(fields@) =~= before.push(f@));
                        assert(vary == seq![f@] + infer_from(st, offset + 4));
                        assert(before.push(f@) + infer_from(st, offset + 4) =~= before + (seq![f@] + infer_from(st, offset + 4)));
                    }
                    offset = offset + size;
                    matched = true;
                }
            }
            if !matched {
                let stat = &stats[offset];
                let f = if is_likely_ascii(stat) {
                    InferredField {
                        offset,
                        size: 1,
                        pattern: FieldPatternOf::AsciiChar,
                        suggested_name: name_with_offset("char_", offset),
                        confidence: 60,
                    }
                } else {
                    InferredField {
                        offset,
                        size: 1,
                        pattern: FieldPatternOf::UInt8 { min: stat.min, max: stat.max },
                        suggested_name: name_with_offset("field_u8_", offset),
                        confidence: 50,
                    }
                };
                fields.push(f);
                proof {
                    assert(guesses(fields@) =~= before.push(f@));
                    assert(vary == seq![f@] + infer_from(st, offset + 1));
                    assert(before.push(f@) + infer_from(st, offset + 1) =~= before + (seq![f@] + infer_from(st, offset + 1)));
                }
                offset = offset + 1;
            }
        }
    }
    assert(infer_from(st, n as int) =~= Seq::<FieldGuess>::empty());
    assert(guesses(fields@) =~= infer_from(st, 0));
    detect_length_fields(&mut fields, analysis);
    rename_fields_with_heuristics(&mut fields);
    fields
}

/// Whether a field could hold a payload length, and its byte order.
fn length_candidate_exec(f: &InferredField, min_len: usize, max_len: usize) -> (r: Option<EndianGuess>)
    ensures
        r is Some == length_candidate(f@, min_len, max_len),
        r is Some ==> r->0 == guess_endian(f@.pattern),
{
    let limit = max_len.saturating_add(100);
    match &f.pattern {
        FieldPatternOf::UInt16 { min, max, endian } => {
            if *max as usize >= min_len && *min as usize <= limit { Some(*endian) } else { None }
        },
        FieldPatternOf::UInt32 { min, max, endian } => {
            if *max as usize >= min_len && *min as usize <= limit { Some(*endian) } else { None }
        },
        _ => None,
    }
}

/// The first field that could hold a payload length, with its byte order.
fn first_length_candidate(fields: &Vec<InferredField>, min_len: usize, max_len: usize) -> (r: Option<(usize, EndianGuess)>)
    ensures
        match first_candidate(guesses(fields@), 0, min_len, max_len) {
            Some(k) => r matches Some((i, e)) && i == k && e == guess_endian(guesses(fields@)[k].pattern)
                && 0 <= k < fields@.len(),
            None => r is None,
        },
{
    let ghost g = guesses(fields@);
    let mut k: usize = 0;
    while k < fields.len()
        invariant
            g == guesses(fields@),
            k <= fields@.len(),
            first_candidate(g, 0, min_len, max_len) == first_candidate(g, k as int, min_len, max_len),
        decreases fields@.len() - k,
    {
        assert(g[k as int] == fields@[k as int]@);
        match length_candidate_exec(&fields[k], min_len, max_len) {
            Some(e) => {
                return Some((k, e));
            },
            None => {},
        }
        k = k + 1;
    }
    None
}

/// The first field at `offset`.
fn first_field_at(fields: &Vec<InferredField>, offset: usize) -> (r: Option<usize>)
    ensures
        match first_at_offset(guesses(fields@), 0, offset as nat) {
            Some(j) => r == Some(j as usize) && 0 <= j < fields@.len(),
            None => r is None,
        },
{
    let ghost g = guesses(fields@);
    let mut j: usize = 0;
    while j < fields.len()
        invariant
            g == guesses(fields@),
            j <= fields@.len(),
            first_at_offset(g, 0, offset as nat) == first_at_offset(g, j as int, offset as nat),
        decreases fields@.len() - j,
    {
        assert(g[j as int] == fields@[j as int]@);
        if fields[j].offset == offset {
            return Some(j);
        }
        j = j + 1;
    }
    None
}

proof fn lemma_first_at_offset_found(fs: Seq<FieldGuess>, i: int, k: int, o: nat)
    requires
        0 <= i <= k < fs.len(),
        fs[k].offset == o,
    ensures
        first_at_offset(fs, i, o) is Some,
    decreases k - i,
{
    if fs[i].offset != o {
        lemma_first_at_offset_found(fs, i + 1, k, o);
    }
}

/// When payload lengths vary, turns the first 16-bit or 32-bit field that
/// could hold a length into the length field, if it starts within the
/// first eight bytes.
fn detect_length_fields(fields: &mut Vec<InferredField>, analysis: &PayloadAnalysis)
    requires
        forall|i: int| 0 <= i < old(fields)@.len() ==> (#[trigger] old(fields)@[i]).offset + old(fields)@[i].size <= usize::MAX,
    ensures
        guesses(final(fields)@) == detect_length(guesses(old(fields)@), analysis.min_length, analysis.max_length),
{
    let ghost g = guesses(fields@);
    let min_len = analysis.min_length;
    let max_len = analysis.max_length;
    if min_len == max_len {
        return;
    }
    let (k, endian) = match first_length_candidate(fields, min_len, max_len) {
        Some(c) => c,
        None => {
            return;
        },
    };
    let offset = fields[k].offset;
    let size = fields[k].size;
    assert(g[k as int] == fields@[k as int]@);
    if offset >= 8 {
        return;
    }
    proof { lemma_first_at_offset_found(g, 0, k as int, offset as nat); }
    let found = first_field_at(fields, offset);
    let _n = fields.len();
    match found {
        Some(j) => {
            let ghost gj = g[j as int];
            assert(gj == fields@[j as int]@);
            let mut f = fields.remove(j);
            f.pattern = FieldPatternOf::LengthField { field_size: size, endian, points_to: offset + size };
            f.suggested_name = "length".to_owned();
            f.confidence = 85;
            fields.insert(j, f);
            proof {
                reveal_strlit("length");
                assert(f@ == FieldGuess {
                    pattern: FieldPatternOf::LengthField {
                        field_size: g[k as int].size as usize,
                        endian: guess_endian(g[k as int].pattern),
                        points_to: (g[k as int].offset + g[k as int].size) as usize,
                    },
                    name: "length"@,
                    confidence: 85,
                    ..gj
                });
                assert(guesses(fields@) =~= g.update(j as int, f@));
                assert(first_candidate(g, 0, min_len, max_len) == Some(k as int));
                assert(g[k as int].offset == offset);
                assert(first_at_offset(g, 0, g[k as int].offset) == Some(j as int));
                assert(detect_length(g, min_len, max_len) == g.update(j as int, f@));
            }
        },
        None => {},
    }
}

/// `fields[i]` with a new name.
fn rename_at(fields: &mut Vec<InferredField>, i: usize, name: String)
    requires
        i < old(fields)@.len(),
    ensures
        final(fields)@.len() == old(fields)@.len(),
        guesses(final(fields)@) == guesses(old(fields)@).update(i as int, FieldGuess { name: name@, ..old(fields)@[i as int]@ }),
{
    let ghost g = guesses(fields@);
    let mut f = fields.remove(i);
    f.suggested_name = name;
    fields.insert(i, f);
    assert(guesses(fields@) =~= g.update(i as int, FieldGuess { name: name@, ..g[i as int] }));
}

/// Names fields by position: `magic` for constants in the first four
/// bytes, `length` for the length field, `msg_type` and `request_id` for
/// the first two 32-bit fields starting at bytes 4 to 12.
fn rename_fields_with_heuristics(fields: &mut Vec<InferredField>)
    ensures
        guesses(final(fields)@) == rename_from(guesses(old(fields)@), 0, false, false),
{
    let ghost g = guesses(fields@);
    let mut type_idx: usize = 0;
    let mut id_idx: usize = 0;
    let n = fields.len();
    let mut i: usize = 0;
    proof { reveal_strlit("magic"); reveal_strlit("length"); reveal_strlit("msg_type"); reveal_strlit("request_id"); }
    assert(g.subrange(0, 0) =~= Seq::<FieldGuess>::empty());
    while i < n
        invariant
            n == fields@.len(),
            n == g.len(),
            i <= n,
            type_idx <= 1,
            id_idx <= 1,
            forall|j: int| i <= j < n ==> #[trigger] guesses(fields@)[j] == g[j],
            guesses(fields@).subrange(0, i as int) + rename_from(g, i as int, type_idx == 1, id_idx == 1)
                == rename_from(g, 0, false, false),
        decreases n - i,
    {
        let ghost cur = guesses(fields@);
        let ghost gg = g[i as int];
        let ghost g1 = if gg.offset < 4 && gg.pattern is Constant { FieldGuess { name: "magic"@, ..gg } } else { gg };
        let ghost (gi, t2, d2) = rename_one(gg, type_idx == 1, id_idx == 1);
        assert(cur[i as int] == gg);
        assert(fields@[i as int]@ == gg);
        let is_constant = match &fields[i].pattern {
            FieldPatternOf::Constant(_) => true,
            _ => false,
        };
        if fields[i].offset < 4 && is_constant {
            rename_at(fields, i, "magic".to_owned());
        }
        assert(guesses(fields@)[i as int] == g1);
        assert(guesses(fields@).subrange(0, i as int) =~= cur.subrange(0, i as int));
        assert(forall|j: int| i < j < n ==> #[trigger] guesses(fields@)[j] == g[j]);
        let is_length = match &fields[i].pattern {
            FieldPatternOf::LengthField { .. } => true,
            _ => false,
        };
        let is_u32 = match &fields[i].pattern {
            FieldPatternOf::UInt32 { .. } => true,
            _ => false,
        };
        assert(is_length == g1.pattern is LengthField);
        assert(is_u32 == g1.pattern is UInt32);
        let ghost mid = guesses(fields@);
        if is_length {
            rename_at(fields, i, "length".to_owned());
        } else if is_u32 {
            if fields[i].offset >= 4 && fields[i].offset <= 12 {
                if type_idx == 0 {
                    rename_at(fields, i, "msg_type".to_owned());
                    type_idx = type_idx + 1;
                } else if id_idx == 0 {
                    rename_at(fields, i, "request_id".to_owned());
                    id_idx = id_idx + 1;
                }
            }
        }
        proof {
            assert(guesses(fields@)[i as int] == gi);
            assert(t2 == (type_idx == 1));
            assert(d2 == (id_idx == 1));
            assert(guesses(fields@).subrange(0, i as int) =~= cur.subrange(0, i as int));
            assert(guesses(fields@).subrange(0, i + 1) =~= cur.subrange(0, i as int).push(gi));
        }
        i = i + 1;
    }
    assert(guesses(fields@).subrange(0, n as int) =~= guesses(fields@));
    assert(rename_from(g, n as int, type_idx == 1, id_idx == 1) =~= Seq::<FieldGuess>::empty());
}

// ---------------------------------------------------------------------
// The signature of the payloads

/// The offsets `s..s+l` are constant and the offsets around them are not.
pub open spec fn maximal_run(st: Seq<ByteStats>, s: int, l: int) -> bool {
    &&& 0 <= s
    &&& 0 < l
    &&& s + l <= st.len()
    &&& forall|i: int| s <= i < s + l ==> #[trigger] st[i].is_constant
    &&& (s == 0 || !st[s - 1].is_constant)
    &&& (s + l == st.len() || !st[s + l].is_constant)
}

/// `s..s+l` is the first of the longest runs of at least two constant offsets.
pub open spec fn signature_run(st: Seq<ByteStats>, s: int, l: int) -> bool {
    &&& maximal_run(st, s, l)
    &&& l >= 2
    &&& forall|s2: int, l2: int| #[trigger] maximal_run(st, s2, l2) ==> l2 <= l && (l2 == l ==> s <= s2)
}

/// Some run of at least two constant offsets exists.
pub open spec fn has_constant_run(st: Seq<ByteStats>) -> bool {
    exists|s: int, l: int| #[trigger] maximal_run(st, s, l) && l >= 2
}

/// Two runs that share an offset are the same run.
pub proof fn lemma_maximal_run_unique(st: Seq<ByteStats>, s1: int, l1: int, s2: int, l2: int, x: int)
    requires
        maximal_run(st, s1, l1),
        maximal_run(st, s2, l2),
        s1 <= x < s1 + l1,
        s2 <= x < s2 + l2,
    ensures
        s1 == s2,
        l1 == l2,
{
    if s1 < s2 {
        assert(st[s2 - 1].is_constant);
    }
    if s2 < s1 {
        assert(st[s1 - 1].is_constant);
    }
    if l1 < l2 {
        assert(st[s1 + l1].is_constant);
    }
    if l2 < l1 {
        assert(st[s2 + l2].is_constant);
    }
}

/// The runs of at least two constant offsets ending before `i`, and the
/// first longest of them.
spec fn best_so_far(st: Seq<ByteStats>, i: int, best: Option<(usize, usize)>) -> bool {
    match best {
        None => forall|s2: int, l2: int| #[trigger] maximal_run(st, s2, l2) && l2 >= 2 ==> s2 + l2 >= i,
        Some((bs, bl)) => {
            &&& maximal_run(st, bs as int, bl as int)
            &&& bl >= 2
            &&& bs + bl < i
            &&& forall|s2: int, l2: int| #[trigger] maximal_run(st, s2, l2) && l2 >= 2 && s2 + l2 < i
                ==> l2 <= bl && (l2 == bl ==> bs <= s2)
        },
    }
}

/// The run `s..i` has just ended: it takes the best place when it is the
/// first longest.
proof fn lemma_close_run(st: Seq<ByteStats>, s: int, i: int, best: Option<(usize, usize)>, best2: Option<(usize, usize)>)
    requires
        0 <= s < i <= st.len(),
        maximal_run(st, s, i - s),
        best_so_far(st, i, best),
        best2 == if i - s >= 2 && (match best { None => true, Some((_, bl)) => i - s > bl }) {
            Some((s as usize, (i - s) as usize))
        } else {
            best
        },
        i <= usize::MAX,
    ensures
        best_so_far(st, i + 1, best2),
{
    assert forall|s2: int, l2: int| #[trigger] maximal_run(st, s2, l2) && s2 + l2 == i implies s2 == s && l2 == i - s by {
        lemma_maximal_run_unique(st, s, i - s, s2, l2, i - 1);
    }
    match best {
        Some((bs, bl)) => {
            if !(i - s >= 2 && i - s > bl) {
                if bs as int >= s {
                    assert(st[bs as int].is_constant);
                    lemma_maximal_run_unique(st, s, i - s, bs as int, bl as int, bs as int);
                }
            }
        },
        None => {},
    }
}

/// A run of constant offsets cannot end at `i` when offset `i` is constant.
proof fn lemma_no_run_ends_at(st: Seq<ByteStats>, i: int, best: Option<(usize, usize)>)
    requires
        0 <= i < st.len(),
        st[i].is_constant || i == 0 || !st[i - 1].is_constant,
        best_so_far(st, i, best),
    ensures
        best_so_far(st, i + 1, best),
{
    assert forall|s2: int, l2: int| #[trigger] maximal_run(st, s2, l2) implies s2 + l2 != i by {
        if s2 + l2 == i {
            assert(st[i - 1].is_constant);
        }
    }
}

/// The first of the longest runs of at least two offsets whose value never
/// changes, with those values.
pub fn detect_signature(analysis: &PayloadAnalysis) -> (r: Option<(usize, Vec<u8>)>)
    requires
        stats_consistent(analysis.byte_stats@),
    ensures
        match r {
            Some((s, bytes)) => signature_run(analysis.byte_stats@, s as int, bytes@.len() as int)
                && bytes@ == const_bytes(analysis.byte_stats@, s as int, s + bytes@.len()),
            None => !has_constant_run(analysis.byte_stats@),
        },
{
    let stats = &analysis.byte_stats;
    let ghost st = stats@;
    let n = stats.len();
    let mut run_start: Option<usize> = None;
    let mut best_run: Option<(usize, usize)> = None;
    let mut i: usize = 0;
    while i < n
        invariant
            st == stats@,
            n == st.len(),
            i <= n,
            match run_start {
                Some(s) => s < i && (forall|k: int| s <= k < i ==> #[trigger] st[k].is_constant)
                    && (s == 0 || !st[s - 1].is_constant),
                None => i == 0 || !st[i - 1].is_constant,
            },
            best_so_far(st, i as int, best_run),
        decreases n - i,
    {
        if stats[i].is_constant {
            proof { lemma_no_run_ends_at(st, i as int, best_run); }
            if run_start.is_none() {
                run_start = Some(i);
            }
        } else {
            match run_start {
                Some(start) => {
                    let len = i - start;
                    let ghost old_best = best_run;
                    let replace = match best_run {
                        None => true,
                        Some((_, bl)) => len > bl,
                    };
                    if len >= 2 && replace {
                        best_run = Some((start, len));
                    }
                    proof { lemma_close_run(st, start as int, i as int, old_best, best_run); }
                },
                None => {
                    proof { lemma_no_run_ends_at(st, i as int, best_run); }
                },
            }
            run_start = None;
        }
        i = i + 1;
    }
    let ghost pre_best = best_run;
    match run_start {
        Some(start) => {
            let len = n - start;
            let replace = match best_run {
                None => true,
                Some((_, bl)) => len > bl,
            };
            if len >= 2 && replace {
                best_run = Some((start, len));
            }
            proof { lemma_close_run(st, start as int, n as int, pre_best, best_run); }
        },
        None => {
            proof {
                assert forall|s2: int, l2: int| #[trigger] maximal_run(st, s2, l2) implies s2 + l2 != n by {
                    if s2 + l2 == n {
                        assert(st[n - 1].is_constant);
                    }
                }
            }
        },
    }
    match best_run {
        Some((start, len)) => {
            let bytes = constant_values(stats, start, start + len);
            proof {
                assert forall|s2: int, l2: int| #[trigger] maximal_run(st, s2, l2) implies l2 <= len && (l2 == len ==> start <= s2) by {
                    if l2 < 2 {
                    }
                }
            }
            Some((start, bytes))
        },
        None => {
            proof {
                assert forall|s2: int, l2: int| #[trigger] maximal_run(st, s2, l2) implies l2 < 2 by {}
            }
            None
        },
    }
}

// ---------------------------------------------------------------------
// What the statistics and guesses always satisfy

/// There is one signature run at most.
pub proof fn lemma_signature_run_unique(st: Seq<ByteStats>, s1: int, l1: int, s2: int, l2: int)
    requires
        signature_run(st, s1, l1),
        signature_run(st, s2, l2),
    ensures
        s1 == s2,
        l1 == l2,
{
    assert(maximal_run(st, s2, l2));
    assert(maximal_run(st, s1, l1));
}

proof fn lemma_count_of_positive(s: Seq<u8>, v: u8)
    ensures
        count_of(s, v) > 0 <==> exists|i: int| 0 <= i < s.len() && s[i] == v,
        count_of(s, v) <= s.len(),
    decreases s.len(),
{
    if s.len() > 0 {
        let t = s.drop_last();
        lemma_count_of_positive(t, v);
        if count_of(t, v) > 0 {
            let i = choose|i: int| 0 <= i < t.len() && t[i] == v;
            assert(s[i] == v);
        }
        if exists|i: int| 0 <= i < s.len() && s[i] == v {
            let i = choose|i: int| 0 <= i < s.len() && s[i] == v;
            if i < s.len() - 1 {
                assert(t[i] == v);
            }
        }
    }
}

proof fn lemma_present_from(s: Seq<u8>, v: int)
    requires
        0 <= v <= 256,
    ensures
        forall|i: int, j: int| 0 <= i < j < present_from(s, v).len() ==> present_from(s, v)[i] < present_from(s, v)[j],
        forall|i: int| 0 <= i < present_from(s, v).len() ==> v <= present_from(s, v)[i],
        forall|x: u8| present_from(s, v).contains(x) <==> v <= x && count_of(s, x) > 0,
    decreases 256 - v,
{
    if v < 256 {
        lemma_present_from(s, v + 1);
        let r = present_from(s, v);
        let t = present_from(s, v + 1);
        if count_of(s, v as u8) > 0 {
            assert(r == seq![v as u8] + t);
            assert forall|x: u8| r.contains(x) <==> v <= x && count_of(s, x) > 0 by {
                if r.contains(x) {
                    let k = choose|k: int| 0 <= k < r.len() && r[k] == x;
                    if k > 0 {
                        assert(t[k - 1] == x);
                        assert(t.contains(x));
                    } else {
                        assert(x == v as u8);
                        assert(x as int == v);
                    }
                }
                if v <= x && count_of(s, x) > 0 {
                    if x as int == v {
                        assert(r[0] == x);
                        assert(r.contains(x));
                    } else {
                        assert(t.contains(x));
                        let k = choose|k: int| 0 <= k < t.len() && t[k] == x;
                        assert(r[k + 1] == x);
                        assert(r.contains(x));
                    }
                }
            }
        } else {
            assert(r == t);
            assert forall|x: u8| r.contains(x) <==> v <= x && count_of(s, x) > 0 by {
                if v <= x && count_of(s, x) > 0 {
                    assert(x as int != v);
                }
            }
        }
    } else {
        assert(present_from(s, v) =~= Seq::<u8>::empty());
    }
}

/// The values seen at an offset are listed ascending, each once, and they
/// are the keys of the counts, each counting how many payloads hold it;
/// the offset is constant when every payload holds the same value.
pub proof fn lemma_column_stats(b: ByteStats, ps: Seq<Seq<u8>>, o: int)
    requires
        stats_of_column(b, ps, o),
    ensures
        forall|i: int, j: int| 0 <= i < j < b.unique_values@.len() ==> b.unique_values@[i] < b.unique_values@[j],
        forall|v: u8| b.unique_values@.contains(v) <==> b.value_counts@.contains_key(v),
        forall|v: u8| b.value_counts@.contains_key(v) ==> b.value_counts@[v] == count_of(column(ps, o), v),
        b.is_constant <==> (ps.len() > 0 && forall|i: int| 0 <= i < ps.len() ==> (#[trigger] ps[i])[o] == ps[0][o]),
{
    let col = column(ps, o);
    lemma_present_from(col, 0);
    assert forall|v: u8| b.unique_values@.contains(v) <==> b.value_counts@.contains_key(v) by {}
    assert forall|v: u8| b.value_counts@.contains_key(v) implies b.value_counts@[v] == count_of(col, v) by {
        lemma_count_of_positive(col, v);
        assert(count_of(col, v) <= b.count);
    }
    let d = distinct_values(col);
    if d.len() == 1 {
        assert(d.contains(d[0]));
        lemma_count_of_positive(col, d[0]);
        assert(ps.len() > 0);
        assert forall|i: int| 0 <= i < ps.len() implies (#[trigger] ps[i])[o] == ps[0][o] by {
            assert(col[i] == ps[i][o]);
            assert(col[0] == ps[0][o]);
            lemma_count_of_positive(col, col[i]);
            lemma_count_of_positive(col, col[0]);
            assert(d.contains(col[i]));
            assert(d.contains(col[0]));
            let a = choose|k: int| 0 <= k < d.len() && d[k] == col[i];
            let c = choose|k: int| 0 <= k < d.len() && d[k] == col[0];
        }
    }
    if ps.len() > 0 && forall|i: int| 0 <= i < ps.len() ==> (#[trigger] ps[i])[o] == ps[0][o] {
        let x = col[0];
        lemma_count_of_positive(col, x);
        assert(d.contains(x));
        assert forall|k: int| 0 <= k < d.len() implies d[k] == x by {
            assert(d.contains(d[k]));
            lemma_count_of_positive(col, d[k]);
            let i = choose|i: int| 0 <= i < col.len() && col[i] == d[k];
            assert(col[i] == ps[i][o]);
        }
        if d.len() > 1 {
            assert(d[0] < d[1]);
        }
        assert(d.len() >= 1) by {
            let k = choose|k: int| 0 <= k < d.len() && d[k] == x;
        }
    }
}

/// The guesses lie side by side from `start` to `end`, each at least one byte long.
pub open spec fn tiles(gs: Seq<FieldGuess>, start: int, end: int) -> bool
    decreases gs.len(),
{
    if gs.len() == 0 {
        start == end
    } else {
        gs[0].offset == start && gs[0].size >= 1 && tiles(gs.drop_first(), start + gs[0].size, end)
    }
}

proof fn lemma_infer_tiles(st: Seq<ByteStats>, o: int)
    requires
        0 <= o <= st.len(),
    ensures
        tiles(infer_from(st, o), o, st.len() as int),
        tiles(infer_varying(st, o), o, st.len() as int),
    decreases st.len() - o, 1int,
{
    if o < st.len() {
        if st[o].is_constant {
            lemma_const_run_end(st, o + 1);
            let e = const_run_end(st, o + 1);
            lemma_infer_tiles(st, e);
            let r = infer_from(st, o);
            assert(r.drop_first() =~= infer_from(st, e));
        }
        lemma_infer_varying_tiles(st, o);
    } else {
        assert(infer_from(st, o) =~= Seq::<FieldGuess>::empty());
        assert(infer_varying(st, o) =~= Seq::<FieldGuess>::empty());
    }
}

proof fn lemma_infer_varying_tiles(st: Seq<ByteStats>, o: int)
    requires
        0 <= o < st.len(),
    ensures
        tiles(infer_varying(st, o), o, st.len() as int),
    decreases st.len() - o, 0int,
{
    let rem = st.len() - o;
    let r = infer_varying(st, o);
    if rem >= 2 && match_u16(st[o], st[o + 1]) is Some {
        lemma_infer_tiles(st, o + 2);
        assert(r.drop_first() =~= infer_from(st, o + 2));
    } else if rem >= 4 && match_u32(st[o], st[o + 1], st[o + 2], st[o + 3]) is Some {
        lemma_infer_tiles(st, o + 4);
        assert(r.drop_first() =~= infer_from(st, o + 4));
    } else {
        lemma_infer_tiles(st, o + 1);
        assert(r.drop_first() =~= infer_from(st, o + 1));
    }
}

/// Offsets and sizes of guesses.
pub open spec fn spans(gs: Seq<FieldGuess>) -> Seq<(nat, nat)> {
    Seq::new(gs.len(), |i: int| (gs[i].offset, gs[i].size))
}

proof fn lemma_tiles_by_spans(a: Seq<FieldGuess>, b: Seq<FieldGuess>, start: int, end: int)
    requires
        spans(a) == spans(b),
        tiles(a, start, end),
    ensures
        tiles(b, start, end),
    decreases a.len(),
{
    assert(a.len() == spans(a).len());
    if a.len() > 0 {
        assert(spans(a)[0] == spans(b)[0]);
        assert(spans(a.drop_first()) =~= spans(a).drop_first());
        assert(spans(b.drop_first()) =~= spans(b).drop_first());
        lemma_tiles_by_spans(a.drop_first(), b.drop_first(), start + a[0].size, end);
    }
}

proof fn lemma_rename_spans(fs: Seq<FieldGuess>, i: int, t: bool, d: bool)
    requires
        0 <= i <= fs.len(),
    ensures
        spans(rename_from(fs, i, t, d)) == spans(fs).subrange(i, fs.len() as int),
    decreases fs.len() - i,
{
    if i < fs.len() {
        let (g, t2, d2) = rename_one(fs[i], t, d);
        lemma_rename_spans(fs, i + 1, t2, d2);
        let r = rename_from(fs, i, t, d);
        assert(g.offset == fs[i].offset && g.size == fs[i].size);
        assert(r == seq![g] + rename_from(fs, i + 1, t2, d2));
        assert(spans(r)[0] == spans(fs)[i]);
        let rest = rename_from(fs, i + 1, t2, d2);
        assert(spans(r).drop_first() =~= spans(rest));
        assert(spans(rest) == spans(fs).subrange(i + 1, fs.len() as int));
        assert forall|k: int| 0 <= k < spans(r).len() implies spans(r)[k] == spans(fs).subrange(i, fs.len() as int)[k] by {
            if k > 0 {
                assert(spans(r)[k] == spans(r).drop_first()[k - 1]);
                assert(spans(rest)[k - 1] == spans(fs).subrange(i + 1, fs.len() as int)[k - 1]);
            }
        }
        assert(spans(r).len() == spans(fs).subrange(i, fs.len() as int).len());
        assert(spans(r) =~= spans(fs).subrange(i, fs.len() as int));
    } else {
        assert(spans(rename_from(fs, i, t, d)) =~= spans(fs).subrange(i, fs.len() as int));
    }
}

proof fn lemma_detect_spans(fs: Seq<FieldGuess>, min_len: usize, max_len: usize)
    ensures
        spans(detect_length(fs, min_len, max_len)) == spans(fs),
{
    let r = detect_length(fs, min_len, max_len);
    if r != fs {
        let k = first_candidate(fs, 0, min_len, max_len)->0;
        let j = first_at_offset(fs, 0, fs[k].offset)->0;
        assert(0 <= j < fs.len()) by {
            lemma_first_at_offset_range(fs, 0, fs[k].offset);
        }
        assert(spans(r) =~= spans(fs));
    }
}

proof fn lemma_first_at_offset_range(fs: Seq<FieldGuess>, i: int, o: nat)
    requires
        0 <= i,
    ensures
        first_at_offset(fs, i, o) matches Some(j) ==> i <= j < fs.len() && fs[j].offset == o,
    decreases fs.len() - i,
{
    if i < fs.len() && fs[i].offset != o {
        lemma_first_at_offset_range(fs, i + 1, o);
    }
}

/// The inferred fields lie side by side over the analysed bytes, from the
/// first to the last, each at least one byte long.
pub proof fn lemma_inferred_fields_tile(a: PayloadAnalysis)
    ensures
        tiles(inferred_fields_spec(a), 0, a.byte_stats@.len() as int),
{
    let st = a.byte_stats@;
    lemma_infer_tiles(st, 0);
    let g0 = infer_from(st, 0);
    let g1 = detect_length(g0, a.min_length, a.max_length);
    lemma_detect_spans(g0, a.min_length, a.max_length);
    lemma_rename_spans(g1, 0, false, false);
    assert(spans(g1).subrange(0, g1.len() as int) =~= spans(g1));
    lemma_tiles_by_spans(g0, inferred_fields_spec(a), 0, st.len() as int);
}

// ---------------------------------------------------------------------
// What each inferred field is

/// A guess fits the statistics: a constant field covers a maximal run of
/// constant offsets and holds their values; any other field is 1, 2 or 4
/// bytes long.
pub open spec fn guess_fits(st: Seq<ByteStats>, g: FieldGuess) -> bool {
    match g.pattern {
        FieldPatternOf::Constant(b) => {
            &&& 1 <= g.size
            &&& g.offset + g.size <= st.len()
            &&& b == const_bytes(st, g.offset as int, (g.offset + g.size) as int)
            &&& forall|i: int| g.offset <= i < g.offset + g.size ==> #[trigger] st[i].is_constant
            &&& (g.offset + g.size == st.len() || !st[(g.offset + g.size) as int].is_constant)
        },
        _ => g.size == 1 || g.size == 2 || g.size == 4,
    }
}

/// An inferred field fits the statistics, and a constant field starting
/// in the first four bytes is named `magic`.
pub open spec fn inferred_field_fits(st: Seq<ByteStats>, g: FieldGuess) -> bool {
    &&& guess_fits(st, g)
    &&& (g.pattern is Constant && g.offset < 4 ==> g.name == "magic"@)
}

proof fn lemma_infer_fits(st: Seq<ByteStats>, o: int)
    requires
        0 <= o,
    ensures
        forall|i: int| 0 <= i < infer_from(st, o).len() ==> guess_fits(st, #[trigger] infer_from(st, o)[i]),
        forall|i: int| 0 <= i < infer_varying(st, o).len() ==> guess_fits(st, #[trigger] infer_varying(st, o)[i]),
    decreases st.len() - o, 1int,
{
    if o < st.len() {
        if st[o].is_constant {
            lemma_const_run_end(st, o + 1);
            let e = const_run_end(st, o + 1);
            lemma_infer_fits(st, e);
            let r = infer_from(st, o);
            assert(r.drop_first() =~= infer_from(st, e));
            assert forall|i: int| 0 <= i < r.len() implies guess_fits(st, #[trigger] r[i]) by {
                if i > 0 {
                    assert(r[i] == infer_from(st, e)[i - 1]);
                }
            }
        }
        lemma_infer_varying_fits(st, o);
    }
}

proof fn lemma_infer_varying_fits(st: Seq<ByteStats>, o: int)
    requires
        0 <= o < st.len(),
    ensures
        forall|i: int| 0 <= i < infer_varying(st, o).len() ==> guess_fits(st, #[trigger] infer_varying(st, o)[i]),
    decreases st.len() - o, 0int,
{
    let rem = st.len() - o;
    let r = infer_varying(st, o);
    let next = if rem >= 2 && match_u16(st[o], st[o + 1]) is Some {
        o + 2
    } else if rem >= 4 && match_u32(st[o], st[o + 1], st[o + 2], st[o + 3]) is Some {
        o + 4
    } else {
        o + 1
    };
    lemma_infer_fits(st, next);
    assert(r.drop_first() =~= infer_from(st, next));
    assert forall|i: int| 0 <= i < r.len() implies guess_fits(st, #[trigger] r[i]) by {
        if i > 0 {
            assert(r[i] == infer_from(st, next)[i - 1]);
        }
    }
}

proof fn lemma_tiles_order(gs: Seq<FieldGuess>, start: int, end: int)
    requires
        tiles(gs, start, end),
    ensures
        forall|i: int| 0 <= i < gs.len() ==> #[trigger] gs[i].offset >= start,
        forall|i: int, j: int| 0 <= i < j < gs.len() ==> #[trigger] gs[i].offset < #[trigger] gs[j].offset,
    decreases gs.len(),
{
    if gs.len() > 0 {
        let t = gs.drop_first();
        lemma_tiles_order(t, start + gs[0].size, end);
        assert forall|i: int| 0 <= i < gs.len() implies #[trigger] gs[i].offset >= start by {
            if i > 0 {
                assert(gs[i] == t[i - 1]);
            }
        }
        assert forall|i: int, j: int| 0 <= i < j < gs.len() implies #[trigger] gs[i].offset < #[trigger] gs[j].offset by {
            assert(gs[j] == t[j - 1]);
            if i > 0 {
                assert(gs[i] == t[i - 1]);
            }
        }
    }
}

proof fn lemma_first_candidate_range(fs: Seq<FieldGuess>, i: int, min_len: usize, max_len: usize)
    requires
        0 <= i,
    ensures
        first_candidate(fs, i, min_len, max_len) matches Some(k) ==> i <= k < fs.len() && length_candidate(fs[k], min_len, max_len),
    decreases fs.len() - i,
{
    if i < fs.len() && !length_candidate(fs[i], min_len, max_len) {
        lemma_first_candidate_range(fs, i + 1, min_len, max_len);
    }
}

proof fn lemma_detect_fits(st: Seq<ByteStats>, fs: Seq<FieldGuess>, min_len: usize, max_len: usize)
    requires
        tiles(fs, 0, st.len() as int),
        forall|i: int| 0 <= i < fs.len() ==> guess_fits(st, #[trigger] fs[i]),
    ensures
        forall|i: int| 0 <= i < detect_length(fs, min_len, max_len).len()
            ==> guess_fits(st, #[trigger] detect_length(fs, min_len, max_len)[i]),
{
    let r = detect_length(fs, min_len, max_len);
    if r != fs {
        lemma_first_candidate_range(fs, 0, min_len, max_len);
        let k = first_candidate(fs, 0, min_len, max_len)->0;
        lemma_first_at_offset_range(fs, 0, fs[k].offset);
        let j = first_at_offset(fs, 0, fs[k].offset)->0;
        lemma_tiles_order(fs, 0, st.len() as int);
        if j != k {
            if j < k {
                assert(fs[j].offset < fs[k].offset);
            } else {
                assert(fs[k].offset < fs[j].offset);
            }
        }
        assert(guess_fits(st, fs[k]));
        assert forall|i: int| 0 <= i < r.len() implies guess_fits(st, #[trigger] r[i]) by {
            if i != j {
                assert(r[i] == fs[i]);
            }
        }
    }
}

proof fn lemma_rename_fits(st: Seq<ByteStats>, fs: Seq<FieldGuess>, i: int, t: bool, d: bool)
    requires
        0 <= i <= fs.len(),
        forall|k: int| 0 <= k < fs.len() ==> guess_fits(st, #[trigger] fs[k]),
    ensures
        forall|k: int| 0 <= k < rename_from(fs, i, t, d).len()
            ==> inferred_field_fits(st, #[trigger] rename_from(fs, i, t, d)[k]),
    decreases fs.len() - i,
{
    if i < fs.len() {
        let (g, t2, d2) = rename_one(fs[i], t, d);
        lemma_rename_fits(st, fs, i + 1, t2, d2);
        let r = rename_from(fs, i, t, d);
        let rest = rename_from(fs, i + 1, t2, d2);
        assert(r == seq![g] + rest);
        assert(guess_fits(st, fs[i]));
        assert(inferred_field_fits(st, g));
        assert forall|k: int| 0 <= k < r.len() implies inferred_field_fits(st, #[trigger] r[k]) by {
            if k > 0 {
                assert(r[k] == rest[k - 1]);
            }
        }
    }
}

/// Each inferred field fits the statistics: a constant field covers a
/// maximal run of constant offsets and holds their values, and is named
/// `magic` when it starts in the first four bytes; any other field is 1, 2
/// or 4 bytes long.
pub proof fn lemma_inferred_fields_fit(a: PayloadAnalysis)
    ensures
        forall|i: int| 0 <= i < inferred_fields_spec(a).len()
            ==> inferred_field_fits(a.byte_stats@, #[trigger] inferred_fields_spec(a)[i]),
{
    let st = a.byte_stats@;
    lemma_infer_fits(st, 0);
    lemma_infer_tiles(st, 0);
    let g0 = infer_from(st, 0);
    lemma_detect_fits(st, g0, a.min_length, a.max_length);
    let g1 = detect_length(g0, a.min_length, a.max_length);
    lemma_rename_fits(st, g1, 0, false, false);
}

/// The size of a guess is the size its pattern reads: one byte for a byte
/// or a character, two for a 16-bit field, four for a 32-bit field, the
/// field size of a length field (two or four), the length of a constant.
pub open spec fn pattern_size_fits(g: FieldGuess) -> bool {
    match g.pattern {
        FieldPatternOf::Constant(b) => g.size == b.len(),
        FieldPatternOf::UInt8 { .. } => g.size == 1,
        FieldPatternOf::UInt16 { .. } => g.size == 2,
        FieldPatternOf::UInt32 { .. } => g.size == 4,
        FieldPatternOf::LengthField { field_size, .. } => g.size == field_size && (field_size == 2 || field_size == 4),
        FieldPatternOf::AsciiChar => g.size == 1,
        _ => false,
    }
}

proof fn lemma_infer_sizes(st: Seq<ByteStats>, o: int)
    requires
        0 <= o,
    ensures
        forall|i: int| 0 <= i < infer_from(st, o).len() ==> pattern_size_fits(#[trigger] infer_from(st, o)[i]),
        forall|i: int| 0 <= i < infer_varying(st, o).len() ==> pattern_size_fits(#[trigger] infer_varying(st, o)[i]),
    decreases st.len() - o, 1int,
{
    if o < st.len() {
        if st[o].is_constant {
            lemma_const_run_end(st, o + 1);
            let e = const_run_end(st, o + 1);
            lemma_infer_sizes(st, e);
            let r = infer_from(st, o);
            assert(r.drop_first() =~= infer_from(st, e));
            assert forall|i: int| 0 <= i < r.len() implies pattern_size_fits(#[trigger] r[i]) by {
                if i > 0 {
                    assert(r[i] == infer_from(st, e)[i - 1]);
                }
            }
        }
        lemma_infer_varying_sizes(st, o);
    }
}

proof fn lemma_infer_varying_sizes(st: Seq<ByteStats>, o: int)
    requires
        0 <= o < st.len(),
    ensures
        forall|i: int| 0 <= i < infer_varying(st, o).len() ==> pattern_size_fits(#[trigger] infer_varying(st, o)[i]),
    decreases st.len() - o, 0int,
{
    let rem = st.len() - o;
    let r = infer_varying(st, o);
    let next = if rem >= 2 && match_u16(st[o], st[o + 1]) is Some {
        o + 2
    } else if rem >= 4 && match_u32(st[o], st[o + 1], st[o + 2], st[o + 3]) is Some {
        o + 4
    } else {
        o + 1
    };
    lemma_infer_sizes(st, next);
    assert(r.drop_first() =~= infer_from(st, next));
    assert forall|i: int| 0 <= i < r.len() implies pattern_size_fits(#[trigger] r[i]) by {
        if i > 0 {
            assert(r[i] == infer_from(st, next)[i - 1]);
        }
    }
}

proof fn lemma_detect_sizes(st: Seq<ByteStats>, fs: Seq<FieldGuess>, min_len: usize, max_len: usize)
    requires
        tiles(fs, 0, st.len() as int),
        forall|i: int| 0 <= i < fs.len() ==> pattern_size_fits(#[trigger] fs[i]),
    ensures
        forall|i: int| 0 <= i < detect_length(fs, min_len, max_len).len()
            ==> pattern_size_fits(#[trigger] detect_length(fs, min_len, max_len)[i]),
{
    let r = detect_length(fs, min_len, max_len);
    if r != fs {
        lemma_first_candidate_range(fs, 0, min_len, max_len);
        let k = first_candidate(fs, 0, min_len, max_len)->0;
        lemma_first_at_offset_range(fs, 0, fs[k].offset);
        let j = first_at_offset(fs, 0, fs[k].offset)->0;
        lemma_tiles_order(fs, 0, st.len() as int);
        if j != k {
            if j < k {
                assert(fs[j].offset < fs[k].offset);
            } else {
                assert(fs[k].offset < fs[j].offset);
            }
        }
        assert(pattern_size_fits(fs[k]));
        assert forall|i: int| 0 <= i < r.len() implies pattern_size_fits(#[trigger] r[i]) by {
            if i != j {
                assert(r[i] == fs[i]);
            }
        }
    }
}

proof fn lemma_rename_sizes(fs: Seq<FieldGuess>, i: int, t: bool, d: bool)
    requires
        0 <= i <= fs.len(),
        forall|k: int| 0 <= k < fs.len() ==> pattern_size_fits(#[trigger] fs[k]),
    ensures
        forall|k: int| 0 <= k < rename_from(fs, i, t, d).len() ==> pattern_size_fits(#[trigger] rename_from(fs, i, t, d)[k]),
    decreases fs.len() - i,
{
    if i < fs.len() {
        let (g, t2, d2) = rename_one(fs[i], t, d);
        lemma_rename_sizes(fs, i + 1, t2, d2);
        let r = rename_from(fs, i, t, d);
        let rest = rename_from(fs, i + 1, t2, d2);
        assert(r == seq![g] + rest);
        assert(pattern_size_fits(fs[i]));
        assert forall|k: int| 0 <= k < r.len() implies pattern_size_fits(#[trigger] r[k]) by {
            if k > 0 {
                assert(r[k] == rest[k - 1]);
            }
        }
    }
}

/// Each inferred field's size is the size its pattern reads.
pub proof fn lemma_inferred_sizes(a: PayloadAnalysis)
    ensures
        forall|i: int| 0 <= i < inferred_fields_spec(a).len() ==> pattern_size_fits(#[trigger] inferred_fields_spec(a)[i]),
{
    let st = a.byte_stats@;
    lemma_infer_sizes(st, 0);
    lemma_infer_tiles(st, 0);
    let g0 = infer_from(st, 0);
    lemma_detect_sizes(st, g0, a.min_length, a.max_length);
    let g1 = detect_length(g0, a.min_length, a.max_length);
    lemma_rename_sizes(g1, 0, false, false);
}

} // verus!
