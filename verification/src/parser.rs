//! The template interpreter: walks a template over payload bytes and builds
//! the JSON object the template describes.

use vstd::prelude::*;
use crate::json::{
    compare_keys, json_as_i64, json_as_u64, obj_get, obj_lookup, Json, JsonNumber, JsonValue,
    KeyOrder,
};
use crate::numeric::{f64_eq, f64_equal, f64_less, f64_lt, number_f64_bits, number_to_f64};
use vstd::string::StrSliceExecFns;
use crate::bytecode::{scalar_type_spec, StringEncoding};
use crate::compiler::string_encoding_spec;
use crate::hexcodec::hex_text;
use crate::json::{keys_sorted, obj_insert, obj_merge, values_view};
use crate::scalar::{decoded_text, scalar_json, scalar_width, uint_at};
use crate::template::{Condition, ConditionalBranch, Endian, Field, FieldType, ProtocolTemplate};
use crate::bytecode::ScalarType;
use crate::compiler::string_encoding;
use crate::hexcodec::hex_encode;
use crate::json::{entries_view, obj_merge_into, obj_set};
use crate::scalar::{decode_scalar, decode_text, scalar_width_exec};

verus! {

/// The entries of an object in the model.
pub type Obj = Seq<(Seq<char>, Json)>;

/// Why the interpreter stops. `S` is the text type: `String` in results,
/// character sequences in the model.
#[derive(Debug)]
pub enum ParseErrorOf<S> {
    /// A one-byte field at the end of the data.
    EndOfDataReadingU8,
    /// A field of `need` bytes with only `remaining` left.
    EndOfData { need: usize, remaining: usize },
    LengthFieldNotFound(S),
    LengthFieldNotInteger(S),
    /// No branch of a conditional held and there is no default.
    NoBranchMatched,
    ConditionFieldNotFound(S),
    ConditionWithoutOperator,
    CountFieldNotFound(S),
    CountFieldNotInteger(S),
    /// An array with neither a count, a count field nor `until_eof`.
    ArrayWithoutCount,
    /// The data ended before an array had its count of elements.
    EndOfDataInArray,
}

pub type ParseError = ParseErrorOf<String>;

impl View for ParseErrorOf<String> {
    type V = ParseErrorOf<Seq<char>>;

    open spec fn view(&self) -> ParseErrorOf<Seq<char>> {
        match self {
            ParseErrorOf::EndOfDataReadingU8 => ParseErrorOf::EndOfDataReadingU8,
            ParseErrorOf::EndOfData { need, remaining } => ParseErrorOf::EndOfData { need: *need, remaining: *remaining },
            ParseErrorOf::LengthFieldNotFound(s) => ParseErrorOf::LengthFieldNotFound(s@),
            ParseErrorOf::LengthFieldNotInteger(s) => ParseErrorOf::LengthFieldNotInteger(s@),
            ParseErrorOf::NoBranchMatched => ParseErrorOf::NoBranchMatched,
            ParseErrorOf::ConditionFieldNotFound(s) => ParseErrorOf::ConditionFieldNotFound(s@),
            ParseErrorOf::ConditionWithoutOperator => ParseErrorOf::ConditionWithoutOperator,
            ParseErrorOf::CountFieldNotFound(s) => ParseErrorOf::CountFieldNotFound(s@),
            ParseErrorOf::CountFieldNotInteger(s) => ParseErrorOf::CountFieldNotInteger(s@),
            ParseErrorOf::ArrayWithoutCount => ParseErrorOf::ArrayWithoutCount,
            ParseErrorOf::EndOfDataInArray => ParseErrorOf::EndOfDataInArray,
        }
    }
}

pub type SpecError = ParseErrorOf<Seq<char>>;

// ---------------------------------------------------------------------
// Looking a key up in the fields parsed so far

/// The value of `k`: the entry of that name, else the first value found
/// depth-first in the object-valued entries, in their order.
pub open spec fn search_nested(o: Obj, k: Seq<char>) -> Option<Json>
    decreases o, o.len() + 1,
{
    match obj_get(o, k) {
        Some(v) => Some(v),
        None => search_entries(o, 0, k),
    }
}

/// The first value of `k` found in the objects among the entries `o[i..]`.
pub open spec fn search_entries(o: Obj, i: int, k: Seq<char>) -> Option<Json>
    decreases o, o.len() - i,
{
    if i < 0 || i >= o.len() {
        None
    } else {
        match o[i].1 {
            Json::Object(sub) => {
                proof { assert(decreases_to!(o => o[i])); }
                match search_nested(sub, k) {
                    Some(v) => Some(v),
                    None => search_entries(o, i + 1, k),
                }
            },
            _ => search_entries(o, i + 1, k),
        }
    }
}

/// Looks `key` up in an object and, failing that, in its nested objects.
pub fn find_nested<'b>(entries: &'b Vec<(String, JsonValue)>, key: &str) -> (r: Option<&'b JsonValue>)
    ensures
        match search_nested(crate::json::entries_view(entries@), key@) {
            Some(v) => r is Some && r->Some_0@ == v,
            None => r is None,
        },
    decreases entries,
{
    let ghost o = crate::json::entries_view(entries@);
    match obj_lookup(entries, key) {
        Some(v) => {
            return Some(v);
        },
        None => {},
    }
    let mut i: usize = 0;
    while i < entries.len()
        invariant
            o == crate::json::entries_view(entries@),
            i <= entries@.len(),
            obj_get(o, key@) is None,
            search_nested(o, key@) == search_entries(o, i as int, key@),
        decreases entries@.len() - i,
    {
        match &entries[i].1 {
            JsonValue::Object(sub) => {
                proof {
                    assert(decreases_to!(entries => entries@[i as int].1));
                    crate::json::lemma_object_view(*sub);
                    assert(o[i as int].1 == Json::Object(crate::json::entries_view(sub@)));
                }
                match find_nested(sub, key) {
                    Some(v) => {
                        return Some(v);
                    },
                    None => {},
                }
            },
            _ => {
                assert(!(o[i as int].1 is Object));
            },
        }
        i = i + 1;
    }
    None
}

// ---------------------------------------------------------------------
// Decimal integer text

pub open spec fn is_digit(c: char) -> bool {
    '0' <= c <= '9'
}

pub open spec fn all_digits(s: Seq<char>) -> bool {
    s.len() > 0 && forall|i: int| 0 <= i < s.len() ==> is_digit(#[trigger] s[i])
}

/// The value of a run of decimal digits.
pub open spec fn digits_value(s: Seq<char>) -> nat
    decreases s.len(),
{
    if s.len() == 0 {
        0
    } else {
        digits_value(s.drop_last()) * 10 + (s.last() as nat - '0' as nat) as nat
    }
}

/// The integer written as an optional sign and decimal digits: `+` always,
/// `-` only when `signed`.
pub open spec fn decimal_text_value(s: Seq<char>, signed: bool) -> Option<int> {
    if s.len() > 0 && s[0] == '+' {
        if all_digits(s.drop_first()) { Some(digits_value(s.drop_first()) as int) } else { None }
    } else if signed && s.len() > 0 && s[0] == '-' {
        if all_digits(s.drop_first()) { Some(-(digits_value(s.drop_first()) as int)) } else { None }
    } else if all_digits(s) {
        Some(digits_value(s) as int)
    } else {
        None
    }
}

/// Text read as a signed 64-bit integer, as `str::parse::<i64>` reads it.
pub open spec fn text_i64(s: Seq<char>) -> Option<i64> {
    match decimal_text_value(s, true) {
        Some(v) => if i64::MIN <= v <= i64::MAX { Some(v as i64) } else { None },
        None => None,
    }
}

/// Text read as an unsigned 64-bit integer, as `str::parse::<u64>` reads it.
pub open spec fn text_u64(s: Seq<char>) -> Option<u64> {
    match decimal_text_value(s, false) {
        Some(v) => if 0 <= v <= u64::MAX { Some(v as u64) } else { None },
        None => None,
    }
}

proof fn lemma_digits_value_grows(s: Seq<char>, i: int)
    requires
        0 <= i <= s.len(),
    ensures
        digits_value(s.subrange(0, i)) <= digits_value(s),
    decreases s.len() - i,
{
    if i < s.len() {
        lemma_digits_value_grows(s, i + 1);
        assert(s.subrange(0, i + 1).drop_last() =~= s.subrange(0, i));
    } else {
        assert(s.subrange(0, i) =~= s);
    }
}

/// The value of the digits `s[start..]`, when all are digits and the value
/// fits in 64 bits.
fn digits_u64(s: &str, start: usize) -> (r: Option<u64>)
    requires
        start <= s@.len(),
    ensures
        match r {
            Some(v) => all_digits(s@.subrange(start as int, s@.len() as int))
                && v == digits_value(s@.subrange(start as int, s@.len() as int)),
            None => !all_digits(s@.subrange(start as int, s@.len() as int))
                || digits_value(s@.subrange(start as int, s@.len() as int)) > u64::MAX,
        },
{
    let n = s.unicode_len();
    let ghost t = s@.subrange(start as int, s@.len() as int);
    if start == n {
        return None;
    }
    let mut i: usize = start;
    let mut acc: u64 = 0;
    while i < n
        invariant
            n == s@.len(),
            start < n,
            start <= i <= n,
            t == s@.subrange(start as int, s@.len() as int),
            forall|j: int| 0 <= j < i - start ==> is_digit(#[trigger] t[j]),
            acc == digits_value(t.subrange(0, i - start)),
        decreases n - i,
    {
        let c = s.get_char(i);
        let ghost k = i - start;
        assert(t[k] == c);
        if !('0' <= c && c <= '9') {
            return None;
        }
        let d = (c as u32 - '0' as u32) as u64;
        assert(t.subrange(0, k + 1).drop_last() =~= t.subrange(0, k));
        assert(t.subrange(0, k + 1).last() == c);
        if acc > (u64::MAX - d) / 10 {
            proof {
                assert(acc * 10 + d > u64::MAX) by (nonlinear_arith)
                    requires acc > (u64::MAX - d) / 10, d <= 9;
                lemma_digits_value_grows(t, k + 1);
            }
            return None;
        }
        assert(acc * 10 + d <= u64::MAX) by (nonlinear_arith)
            requires acc <= (u64::MAX - d) / 10, d <= 9;
        acc = acc * 10 + d;
        i = i + 1;
    }
    assert(t.subrange(0, n - start) =~= t);
    Some(acc)
}

/// `str::parse::<i64>`: an optional sign and decimal digits, in range.
pub fn parse_text_i64(s: &str) -> (r: Option<i64>)
    ensures
        r == text_i64(s@),
{
    let n = s.unicode_len();
    let ghost v = s@;
    if n > 0 && (s.get_char(0) == '+' || s.get_char(0) == '-') {
        let neg = s.get_char(0) == '-';
        assert(v.drop_first() =~= v.subrange(1, v.len() as int));
        match digits_u64(s, 1) {
            Some(m) => {
                if neg {
                    if m <= 0x8000_0000_0000_0000 {
                        if m == 0x8000_0000_0000_0000 {
                            Some(i64::MIN)
                        } else {
                            Some(0 - (m as i64))
                        }
                    } else {
                        None
                    }
                } else if m <= 0x7fff_ffff_ffff_ffff {
                    Some(m as i64)
                } else {
                    None
                }
            },
            None => None,
        }
    } else {
        match digits_u64(s, 0) {
            Some(m) => {
                assert(v.subrange(0, v.len() as int) =~= v);
                if m <= 0x7fff_ffff_ffff_ffff { Some(m as i64) } else { None }
            },
            None => {
                assert(v.subrange(0, v.len() as int) =~= v);
                None
            },
        }
    }
}

/// `str::parse::<u64>`: an optional `+` and decimal digits, in range.
pub fn parse_text_u64(s: &str) -> (r: Option<u64>)
    ensures
        r == text_u64(s@),
{
    let n = s.unicode_len();
    let ghost v = s@;
    if n > 0 && s.get_char(0) == '+' {
        assert(v.drop_first() =~= v.subrange(1, v.len() as int));
        digits_u64(s, 1)
    } else {
        assert(v.subrange(0, v.len() as int) =~= v);
        digits_u64(s, 0)
    }
}

// ---------------------------------------------------------------------
// Comparing values

/// A number equals a text when the text, read as an integer of the
/// number's kind, is that integer.
pub open spec fn number_text_equal(n: Json, s: Seq<char>) -> bool {
    match json_as_i64(n) {
        Some(i) => text_i64(s) == Some(i),
        None => match json_as_u64(n) {
            Some(u) => text_u64(s) == Some(u),
            None => false,
        },
    }
}

/// Equality of a parsed value and a condition value: numbers as signed
/// integers, else unsigned, else doubles; texts, booleans; a number and a
/// text by reading the text as an integer. Anything else is unequal.
pub open spec fn values_equal(a: Json, b: Json) -> bool {
    match (a, b) {
        (Json::Number(na), Json::Number(nb)) => match (json_as_i64(a), json_as_i64(b)) {
            (Some(ia), Some(ib)) => ia == ib,
            _ => match (json_as_u64(a), json_as_u64(b)) {
                (Some(ua), Some(ub)) => ua == ub,
                _ => f64_eq(number_f64_bits(na), number_f64_bits(nb)),
            },
        },
        (Json::Str(sa), Json::Str(sb)) => sa == sb,
        (Json::Bool(ba), Json::Bool(bb)) => ba == bb,
        (Json::Number(_), Json::Str(s)) => number_text_equal(a, s),
        (Json::Str(s), Json::Number(_)) => number_text_equal(b, s),
        _ => false,
    }
}

fn number_text_equal_exec(n: &JsonValue, s: &str) -> (r: bool)
    ensures
        r == number_text_equal(n@, s@),
{
    match crate::json::as_i64(n) {
        Some(i) => match parse_text_i64(s) {
            Some(x) => x == i,
            None => false,
        },
        None => match crate::json::as_u64(n) {
            Some(u) => match parse_text_u64(s) {
                Some(x) => x == u,
                None => false,
            },
            None => false,
        },
    }
}

pub fn values_equal_exec(a: &JsonValue, b: &JsonValue) -> (r: bool)
    ensures
        r == values_equal(a@, b@),
{
    match (a, b) {
        (JsonValue::Number(na), JsonValue::Number(nb)) => {
            match (crate::json::as_i64(a), crate::json::as_i64(b)) {
                (Some(ia), Some(ib)) => ia == ib,
                _ => match (crate::json::as_u64(a), crate::json::as_u64(b)) {
                    (Some(ua), Some(ub)) => ua == ub,
                    _ => f64_equal(number_to_f64(*na), number_to_f64(*nb)),
                },
            }
        },
        (JsonValue::String(sa), JsonValue::String(sb)) => compare_keys(sa.as_str(), sb.as_str()) == KeyOrder::Equal,
        (JsonValue::Bool(ba), JsonValue::Bool(bb)) => *ba == *bb,
        (JsonValue::Number(_), JsonValue::String(s)) => number_text_equal_exec(a, s.as_str()),
        (JsonValue::String(s), JsonValue::Number(_)) => number_text_equal_exec(b, s.as_str()),
        _ => false,
    }
}

/// The ordering tests of a condition.
#[derive(Debug, Clone, Copy, PartialEq, Eq, Structural)]
pub enum Relation {
    Greater,
    Less,
    GreaterOrEqual,
    LessOrEqual,
}

/// How doubles (as bit patterns) compare; any comparison with NaN fails.
pub open spec fn f64_relation(x: u64, y: u64, rel: Relation) -> bool {
    match rel {
        Relation::Greater => f64_lt(y, x),
        Relation::Less => f64_lt(x, y),
        Relation::GreaterOrEqual => f64_lt(y, x) || f64_eq(x, y),
        Relation::LessOrEqual => f64_lt(x, y) || f64_eq(x, y),
    }
}

/// A value as a double: a number converted, a text read by `texts` (the
/// standard library's reading of decimal floating-point text).
pub open spec fn value_f64(v: Json, texts: spec_fn(Seq<char>) -> Option<u64>) -> Option<u64> {
    match v {
        Json::Number(n) => Some(number_f64_bits(n)),
        Json::Str(s) => texts(s),
        _ => None,
    }
}

/// Both values read as doubles and stand in the relation.
pub open spec fn values_compare(a: Json, b: Json, rel: Relation, texts: spec_fn(Seq<char>) -> Option<u64>) -> bool {
    match (value_f64(a, texts), value_f64(b, texts)) {
        (Some(x), Some(y)) => f64_relation(x, y, rel),
        _ => false,
    }
}

/// A reader of floating-point text answers alike for alike text.
pub open spec fn reads_alike<F: Fn(&str) -> Option<u64>>(f: &F) -> bool {
    &&& forall|s: &str| #[trigger] f.requires((s,))
    &&& forall|s: &str, t: &str, a: Option<u64>, b: Option<u64>|
        #[trigger] f.ensures((s,), a) && #[trigger] f.ensures((t,), b) && s@ == t@ ==> a == b
}

/// What the reader gives for a text.
pub open spec fn text_reading<F: Fn(&str) -> Option<u64>>(f: &F, t: Seq<char>) -> Option<u64> {
    (choose|p: (&str, Option<u64>)| p.0@ == t && #[trigger] f.ensures((p.0,), p.1)).1
}

/// The reader as a function of texts.
pub open spec fn text_reader<F: Fn(&str) -> Option<u64>>(f: &F) -> spec_fn(Seq<char>) -> Option<u64> {
    |t: Seq<char>| text_reading(f, t)
}

fn read_text<F: Fn(&str) -> Option<u64>>(f: &F, s: &str) -> (r: Option<u64>)
    requires
        reads_alike(f),
    ensures
        r == (text_reader(f))(s@),
{
    let r = f(s);
    assert(exists|p: (&str, Option<u64>)| p.0@ == s@ && #[trigger] f.ensures((p.0,), p.1)) by {
        assert(f.ensures(((s, r).0,), (s, r).1));
    }
    r
}

fn value_f64_exec<F: Fn(&str) -> Option<u64>>(v: &JsonValue, f: &F) -> (r: Option<u64>)
    requires
        reads_alike(f),
    ensures
        r == value_f64(v@, text_reader(f)),
{
    match v {
        JsonValue::Number(n) => Some(number_to_f64(*n)),
        JsonValue::String(s) => read_text(f, s.as_str()),
        _ => None,
    }
}

pub fn values_compare_exec<F: Fn(&str) -> Option<u64>>(a: &JsonValue, b: &JsonValue, rel: Relation, f: &F) -> (r: bool)
    requires
        reads_alike(f),
    ensures
        r == values_compare(a@, b@, rel, text_reader(f)),
{
    match (value_f64_exec(a, f), value_f64_exec(b, f)) {
        (Some(x), Some(y)) => match rel {
            Relation::Greater => f64_less(y, x),
            Relation::Less => f64_less(x, y),
            Relation::GreaterOrEqual => f64_less(y, x) || f64_equal(x, y),
            Relation::LessOrEqual => f64_less(x, y) || f64_equal(x, y),
        },
        _ => false,
    }
}

// ---------------------------------------------------------------------
// Conditions

/// The condition names at least one operator.
pub open spec fn has_operator(c: Condition) -> bool {
    c.eq is Some || c.ne is Some || c.gt is Some || c.lt is Some || c.ge is Some || c.le is Some
        || c.in_list is Some
}

/// `v` equals one of the values.
pub open spec fn any_equal(v: Json, list: Seq<Json>) -> bool {
    exists|i: int| 0 <= i < list.len() && values_equal(v, #[trigger] list[i])
}

/// Every operator the condition names holds of `v`.
pub open spec fn condition_holds(c: Condition, v: Json, texts: spec_fn(Seq<char>) -> Option<u64>) -> bool {
    &&& (c.eq is Some ==> values_equal(v, c.eq->0@))
    &&& (c.ne is Some ==> !values_equal(v, c.ne->0@))
    &&& (c.gt is Some ==> values_compare(v, c.gt->0@, Relation::Greater, texts))
    &&& (c.lt is Some ==> values_compare(v, c.lt->0@, Relation::Less, texts))
    &&& (c.ge is Some ==> values_compare(v, c.ge->0@, Relation::GreaterOrEqual, texts))
    &&& (c.le is Some ==> values_compare(v, c.le->0@, Relation::LessOrEqual, texts))
    &&& (c.in_list is Some ==> any_equal(v, values_view(c.in_list->0@)))
}

/// A condition tested against the fields parsed so far.
pub open spec fn eval_condition_spec(c: Condition, ctx: Obj, texts: spec_fn(Seq<char>) -> Option<u64>) -> Result<bool, SpecError> {
    match search_nested(ctx, c.field@) {
        None => Err(ParseErrorOf::ConditionFieldNotFound(c.field@)),
        Some(v) => if !has_operator(c) {
            Err(ParseErrorOf::ConditionWithoutOperator)
        } else {
            Ok(condition_holds(c, v, texts))
        },
    }
}

/// The first of the branches `bs[i..]` that has a condition and whose
/// condition holds; branches without a condition are passed over.
pub open spec fn match_branch_spec(bs: Seq<ConditionalBranch>, i: int, ctx: Obj, texts: spec_fn(Seq<char>) -> Option<u64>) -> Result<Option<int>, SpecError>
    decreases bs.len() - i,
{
    if i < 0 || i >= bs.len() {
        Ok(None)
    } else {
        match bs[i].when {
            Some(c) => match eval_condition_spec(c, ctx, texts) {
                Err(e) => Err(e),
                Ok(true) => Ok(Some(i)),
                Ok(false) => match_branch_spec(bs, i + 1, ctx, texts),
            },
            None => match_branch_spec(bs, i + 1, ctx, texts),
        }
    }
}

// ---------------------------------------------------------------------
// The interpreter in the model

/// How a step of the interpreter ends: with a result, with an error, or
/// aborted (where the process would panic: a field length whose end passes
/// the largest `usize`, or UTF-16 text of odd length).
pub enum Run<T> {
    Done(T),
    Failed(SpecError),
    Aborted,
}

/// What the interpreter reads: the payload, the default byte order, and
/// the reading of floating-point text.
pub struct Input {
    pub data: Seq<u8>,
    pub endian: Endian,
    pub texts: spec_fn(Seq<char>) -> Option<u64>,
}

/// Taking `len` bytes at `off`: the offset after them.
pub open spec fn read_run(d: Seq<u8>, off: nat, len: nat) -> Run<nat> {
    if off + len > usize::MAX {
        Run::Aborted
    } else if off + len > d.len() {
        Run::Failed(ParseErrorOf::EndOfData { need: len as usize, remaining: (d.len() - off) as usize })
    } else {
        Run::Done(off + len)
    }
}

/// The length of a byte or string field: fixed, the integer value of the
/// named field, or the rest of the data.
pub open spec fn resolve_length_spec(d: Seq<u8>, off: nat, length: Option<usize>, length_field: Option<String>, ctx: Obj) -> Result<usize, SpecError> {
    match length {
        Some(l) => Ok(l),
        None => match length_field {
            Some(f) => match search_nested(ctx, f@) {
                None => Err(ParseErrorOf::LengthFieldNotFound(f@)),
                Some(v) => match crate::json::json_as_size(v) {
                    Some(n) => Ok(n as usize),
                    None => Err(ParseErrorOf::LengthFieldNotInteger(f@)),
                },
            },
            None => Ok((d.len() - off) as usize),
        },
    }
}

/// The text of a string field; `None` for UTF-16 of odd length.
pub open spec fn field_text(b: Seq<u8>, encoding: Option<String>) -> Option<Seq<char>> {
    let enc = string_encoding_spec(encoding);
    if enc != StringEncoding::Utf8 && b.len() % 2 == 1 {
        None
    } else {
        Some(decoded_text(b, enc))
    }
}

/// The value of a scalar field at `off`, and the offset after it.
pub open spec fn scalar_spec(
    d: Seq<u8>,
    off: nat,
    data_type: FieldType,
    endian: Endian,
    length: Option<usize>,
    length_field: Option<String>,
    encoding: Option<String>,
    ctx: Obj,
) -> Run<(nat, Json)> {
    if data_type == FieldType::U8 || data_type == FieldType::I8 {
        if off >= d.len() {
            Run::Failed(ParseErrorOf::EndOfDataReadingU8)
        } else {
            Run::Done((off + 1, scalar_json(scalar_type_spec(data_type), d[off as int] as int)))
        }
    } else if data_type == FieldType::Bytes || data_type == FieldType::String {
        match resolve_length_spec(d, off, length, length_field, ctx) {
            Err(e) => Run::Failed(e),
            Ok(len) => match read_run(d, off, len as nat) {
                Run::Done(o2) => {
                    let b = d.subrange(off as int, o2 as int);
                    if data_type == FieldType::Bytes {
                        Run::Done((o2, Json::Str(hex_text(b))))
                    } else {
                        match field_text(b, encoding) {
                            Some(t) => Run::Done((o2, Json::Str(t))),
                            None => Run::Aborted,
                        }
                    }
                },
                Run::Failed(e) => Run::Failed(e),
                Run::Aborted => Run::Aborted,
            },
        }
    } else {
        let st = scalar_type_spec(data_type);
        let w = scalar_width(st);
        match read_run(d, off, w) {
            Run::Done(o2) => Run::Done((o2, scalar_json(st, uint_at(d, off as int, w, endian)))),
            Run::Failed(e) => Run::Failed(e),
            Run::Aborted => Run::Aborted,
        }
    }
}

/// The number of elements of an array: every element until the data ends
/// (at most `usize::MAX`), a fixed count, or the integer value of the
/// named field.
pub open spec fn count_spec(count: Option<usize>, count_field: Option<String>, until_eof: bool, ctx: Obj) -> Result<usize, SpecError> {
    if until_eof {
        Ok(usize::MAX)
    } else {
        match count {
            Some(c) => Ok(c),
            None => match count_field {
                Some(cf) => match search_nested(ctx, cf@) {
                    None => Err(ParseErrorOf::CountFieldNotFound(cf@)),
                    Some(v) => match crate::json::json_as_size(v) {
                        Some(n) => Ok(n as usize),
                        None => Err(ParseErrorOf::CountFieldNotInteger(cf@)),
                    },
                },
                None => Err(ParseErrorOf::ArrayWithoutCount),
            },
        }
    }
}

/// An array element: the single value of a one-entry object, else the object.
pub open spec fn element_value(sub: Obj) -> Json {
    if sub.len() == 1 {
        sub[0].1
    } else {
        Json::Object(sub)
    }
}

/// The fields parsed into a fresh object, set under `name` in `ctx`.
pub open spec fn nest(r: Run<(nat, Obj)>, ctx: Obj, name: Seq<char>) -> Run<(nat, Obj)> {
    match r {
        Run::Done((o2, sub)) => Run::Done((o2, obj_insert(ctx, name, Json::Object(sub)))),
        Run::Failed(e) => Run::Failed(e),
        Run::Aborted => Run::Aborted,
    }
}

/// One field at `off` with the fields parsed so far in `ctx`: the offset
/// after it and the fields with it added.
pub open spec fn parse_field_spec(inp: Input, f: Field, off: nat, ctx: Obj) -> Run<(nat, Obj)>
    decreases f, 0nat,
{
    match f {
        Field::Scalar { name, data_type, endian, length, length_field, encoding } => {
            let eff = match endian {
                Some(e) => e,
                None => inp.endian,
            };
            match scalar_spec(inp.data, off, data_type, eff, length, length_field, encoding, ctx) {
                Run::Done((o2, v)) => Run::Done((o2, obj_insert(ctx, name@, v))),
                Run::Failed(e) => Run::Failed(e),
                Run::Aborted => Run::Aborted,
            }
        },
        Field::Struct { name, fields } => {
            let r = parse_fields_spec(inp, fields@, 0, off, Seq::empty());
            match name {
                Some(n) => nest(r, ctx, n@),
                None => match r {
                    Run::Done((o2, sub)) => Run::Done((o2, obj_merge(ctx, sub))),
                    Run::Failed(e) => Run::Failed(e),
                    Run::Aborted => Run::Aborted,
                },
            }
        },
        Field::Conditional { name, conditions, default } => {
            match match_branch_spec(conditions@, 0, ctx, inp.texts) {
                Err(e) => Run::Failed(e),
                Ok(Some(i)) => if 0 <= i < conditions@.len() {
                    proof { assert(decreases_to!(conditions@ => conditions@[i])); }
                    match name {
                        Some(n) => nest(parse_fields_spec(inp, conditions@[i].fields@, 0, off, Seq::empty()), ctx, n@),
                        None => parse_fields_spec(inp, conditions@[i].fields@, 0, off, ctx),
                    }
                } else {
                    Run::Failed(ParseErrorOf::NoBranchMatched)
                },
                Ok(None) => match default {
                    Some(df) => match name {
                        Some(n) => nest(parse_fields_spec(inp, df@, 0, off, Seq::empty()), ctx, n@),
                        None => parse_fields_spec(inp, df@, 0, off, ctx),
                    },
                    None => Run::Failed(ParseErrorOf::NoBranchMatched),
                },
            }
        },
        Field::Array { name, element, count, count_field, until_eof } => {
            match count_spec(count, count_field, until_eof, ctx) {
                Err(e) => Run::Failed(e),
                Ok(n) => match parse_items_spec(inp, *element, n as nat, until_eof, 0, off, Seq::empty()) {
                    Run::Done((o2, items)) => Run::Done((o2, obj_insert(ctx, name@, Json::Array(items)))),
                    Run::Failed(e) => Run::Failed(e),
                    Run::Aborted => Run::Aborted,
                },
            }
        },
    }
}

/// The fields `fs[i..]`, one after another.
pub open spec fn parse_fields_spec(inp: Input, fs: Seq<Field>, i: int, off: nat, ctx: Obj) -> Run<(nat, Obj)>
    decreases fs, fs.len() - i,
{
    if i < 0 || i >= fs.len() {
        Run::Done((off, ctx))
    } else {
        match parse_field_spec(inp, fs[i], off, ctx) {
            Run::Done((o2, c2)) => parse_fields_spec(inp, fs, i + 1, o2, c2),
            Run::Failed(e) => Run::Failed(e),
            Run::Aborted => Run::Aborted,
        }
    }
}

/// Array elements from the `i`-th of `n` on, each parsed into a fresh
/// object; the data ending stops an `until_eof` array and fails any other.
pub open spec fn parse_items_spec(inp: Input, elem: Field, n: nat, until_eof: bool, i: nat, off: nat, items: Seq<Json>) -> Run<(nat, Seq<Json>)>
    decreases elem, n - i,
{
    if i >= n {
        Run::Done((off, items))
    } else if off >= inp.data.len() {
        if until_eof {
            Run::Done((off, items))
        } else {
            Run::Failed(ParseErrorOf::EndOfDataInArray)
        }
    } else {
        match parse_field_spec(inp, elem, off, Seq::empty()) {
            Run::Done((o2, sub)) => parse_items_spec(inp, elem, n, until_eof, i + 1, o2, items.push(element_value(sub))),
            Run::Failed(e) => Run::Failed(e),
            Run::Aborted => Run::Aborted,
        }
    }
}

/// A whole template parsed from `off` into a fresh object.
pub open spec fn parse_template_spec(inp: Input, t: ProtocolTemplate, off: nat) -> Run<(nat, Json)> {
    match parse_fields_spec(inp, t.fields@, 0, off, Seq::empty()) {
        Run::Done((o2, c)) => Run::Done((o2, Json::Object(c))),
        Run::Failed(e) => Run::Failed(e),
        Run::Aborted => Run::Aborted,
    }
}

// ---------------------------------------------------------------------
// The interpreter

/// The fields parsed so far at one level of nesting.
struct ParseContext {
    data: Vec<(String, JsonValue)>,
}

impl View for ParseContext {
    type V = Obj;

    closed spec fn view(&self) -> Obj {
        entries_view(self.data@)
    }
}

impl ParseContext {
    fn new() -> (r: Self)
        ensures
            r@ == Seq::<(Seq<char>, Json)>::empty(),
    {
        let r = ParseContext { data: Vec::new() };
        assert(r@ =~= Seq::<(Seq<char>, Json)>::empty());
        r
    }

    fn set(&mut self, key: String, value: JsonValue)
        ensures
            final(self)@ == obj_insert(old(self)@, key@, value@),
    {
        obj_set(&mut self.data, key, value);
    }

    fn get(&self, key: &str) -> (r: Option<&JsonValue>)
        ensures
            match search_nested(self@, key@) {
                Some(v) => r is Some && r->Some_0@ == v,
                None => r is None,
            },
    {
        find_nested(&self.data, key)
    }

    /// Sets every entry of an object value; other values add nothing.
    fn merge(&mut self, value: JsonValue)
        ensures
            final(self)@ == match value@ {
                Json::Object(o) => obj_merge(old(self)@, o),
                _ => old(self)@,
            },
    {
        match value {
            JsonValue::Object(entries) => {
                proof { crate::json::lemma_object_view(entries); }
                obj_merge_into(&mut self.data, entries);
            },
            _ => {},
        }
    }

    fn into_value(self) -> (r: JsonValue)
        ensures
            r@ == Json::Object(self@),
    {
        proof { crate::json::lemma_object_view(self.data); }
        JsonValue::Object(self.data)
    }
}

/// How the interpreter stops early: with an error, or where the process
/// would panic.
enum Stop {
    Error(ParseError),
    Abort,
}

/// Reads payload bytes as a template describes them.
pub struct BinaryParser<'a> {
    data: &'a [u8],
    offset: usize,
    default_endian: Endian,
}

impl<'a> BinaryParser<'a> {
    pub closed spec fn data_view(&self) -> Seq<u8> {
        self.data@
    }

    /// Where the next field starts.
    pub closed spec fn position(&self) -> nat {
        self.offset as nat
    }

    /// The byte order of fields that name none.
    pub closed spec fn endian(&self) -> Endian {
        self.default_endian
    }

    pub open spec fn wf(&self) -> bool {
        self.position() <= self.data_view().len()
    }

    pub open spec fn input<F: Fn(&str) -> Option<u64>>(&self, f: &F) -> Input {
        Input { data: self.data_view(), endian: self.endian(), texts: text_reader(f) }
    }

    /// `self` reads what `other` reads, at or after `other`'s position.
    spec fn same_input(&self, other: &Self) -> bool {
        &&& self.data == other.data
        &&& self.default_endian == other.default_endian
        &&& other.offset <= self.offset <= self.data@.len()
    }

    /// A parser at the start of `data`.
    pub fn new(data: &'a [u8], default_endian: Endian) -> (r: Self)
        ensures
            r.data_view() == data@,
            r.position() == 0,
            r.endian() == default_endian,
            r.wf(),
    {
        BinaryParser { data, offset: 0, default_endian }
    }

    fn read_u8(&mut self) -> (r: Result<u8, ParseError>)
        requires
            old(self).offset <= old(self).data@.len(),
        ensures
            final(self).same_input(old(self)),
            old(self).offset < old(self).data@.len() ==> r == Ok::<u8, ParseError>(old(self).data@[old(self).offset as int])
                && final(self).offset == old(self).offset + 1,
            old(self).offset >= old(self).data@.len() ==> (r matches Err(ParseErrorOf::EndOfDataReadingU8)
                && final(self).offset == old(self).offset),
    {
        if self.offset >= self.data.len() {
            return Err(ParseErrorOf::EndOfDataReadingU8);
        }
        let v = self.data[self.offset];
        self.offset = self.offset + 1;
        Ok(v)
    }

    fn read_bytes(&mut self, len: usize) -> (r: Result<&'a [u8], Stop>)
        requires
            old(self).offset <= old(self).data@.len(),
        ensures
            final(self).same_input(old(self)),
            match read_run(old(self).data@, old(self).offset as nat, len as nat) {
                Run::Done(o2) => r is Ok && final(self).offset == o2
                    && r->Ok_0@ == old(self).data@.subrange(old(self).offset as int, o2 as int),
                Run::Failed(e) => r matches Err(Stop::Error(x)) && x@ == e && final(self).offset == old(self).offset,
                Run::Aborted => r matches Err(Stop::Abort) && final(self).offset == old(self).offset,
            },
    {
        if len > usize::MAX - self.offset {
            return Err(Stop::Abort);
        }
        if self.offset + len > self.data.len() {
            return Err(Stop::Error(ParseErrorOf::EndOfData { need: len, remaining: self.data.len() - self.offset }));
        }
        let start = self.offset;
        self.offset = self.offset + len;
        let d: &'a [u8] = self.data;
        Ok(&d[start..self.offset])
    }

    fn resolve_length(&self, length: Option<usize>, length_field: &Option<String>, ctx: &ParseContext) -> (r: Result<usize, ParseError>)
        requires
            self.offset <= self.data@.len(),
        ensures
            match resolve_length_spec(self.data@, self.offset as nat, length, *length_field, ctx@) {
                Ok(n) => r == Ok::<usize, ParseError>(n),
                Err(e) => r matches Err(x) && x@ == e,
            },
    {
        if let Some(l) = length {
            return Ok(l);
        }
        if let Some(field_name) = length_field {
            return match ctx.get(field_name.as_str()) {
                None => Err(ParseErrorOf::LengthFieldNotFound(field_name.clone())),
                Some(v) => match crate::json::as_size(v) {
                    Some(n) => Ok(n as usize),
                    None => Err(ParseErrorOf::LengthFieldNotInteger(field_name.clone())),
                },
            };
        }
        Ok(self.data.len() - self.offset)
    }

    fn parse_scalar(
        &mut self,
        data_type: FieldType,
        endian: Endian,
        length: Option<usize>,
        length_field: &Option<String>,
        encoding: &Option<String>,
        ctx: &ParseContext,
    ) -> (r: Result<JsonValue, Stop>)
        requires
            old(self).offset <= old(self).data@.len(),
        ensures
            final(self).same_input(old(self)),
            match scalar_spec(old(self).data@, old(self).offset as nat, data_type, endian, length, *length_field, *encoding, ctx@) {
                Run::Done((o2, v)) => r is Ok && r->Ok_0@ == v && final(self).offset == o2,
                Run::Failed(e) => r matches Err(Stop::Error(x)) && x@ == e && final(self).offset == old(self).offset,
                Run::Aborted => r matches Err(Stop::Abort),
            },
    {
        let start = self.offset;
        if data_type == FieldType::U8 || data_type == FieldType::I8 {
            match self.read_u8() {
                Ok(_) => {},
                Err(e) => {
                    return Err(Stop::Error(e));
                },
            }
            let st = ScalarType::from_field_type(&data_type);
            let v = decode_scalar(self.data, start, st, endian);
            assert(scalar_width(st) == 1);
            assert(uint_at(self.data@, start as int, 1, endian) == self.data@[start as int] as int);
            assert(v@ == scalar_json(scalar_type_spec(data_type), self.data@[start as int] as int));
            assert(scalar_spec(self.data@, start as nat, data_type, endian, length, *length_field, *encoding, ctx@) == Run::Done(((start + 1) as nat, v@)));
            Ok(v)
        } else if data_type == FieldType::Bytes || data_type == FieldType::String {
            let len = match self.resolve_length(length, length_field, ctx) {
                Ok(n) => n,
                Err(e) => {
                    return Err(Stop::Error(e));
                },
            };
            let bytes = match self.read_bytes(len) {
                Ok(b) => b,
                Err(e) => {
                    return Err(e);
                },
            };
            assert(bytes@ == self.data@.subrange(start as int, self.offset as int));
            if data_type == FieldType::Bytes {
                let t = hex_encode(bytes);
                assert(JsonValue::String(t)@ == Json::Str(hex_text(bytes@)));
                Ok(JsonValue::String(t))
            } else {
                let enc = string_encoding(encoding);
                if enc != StringEncoding::Utf8 && bytes.len() % 2 == 1 {
                    return Err(Stop::Abort);
                }
                let t = decode_text(bytes, enc);
                assert(field_text(bytes@, *encoding) == Some(t@));
                Ok(JsonValue::String(t))
            }
        } else {
            let st = ScalarType::from_field_type(&data_type);
            let w = scalar_width_exec(st);
            match self.read_bytes(w) {
                Ok(_) => {},
                Err(e) => {
                    return Err(e);
                },
            }
            let v = decode_scalar(self.data, start, st, endian);
            assert(st == scalar_type_spec(data_type));
            assert(scalar_spec(self.data@, start as nat, data_type, endian, length, *length_field, *encoding, ctx@) == Run::Done((self.offset as nat, v@)));
            Ok(v)
        }
    }

    fn eval_condition<F: Fn(&str) -> Option<u64>>(&self, cond: &Condition, ctx: &ParseContext, f: &F) -> (r: Result<bool, ParseError>)
        requires
            reads_alike(f),
        ensures
            match eval_condition_spec(*cond, ctx@, text_reader(f)) {
                Ok(b) => r == Ok::<bool, ParseError>(b),
                Err(e) => r matches Err(x) && x@ == e,
            },
    {
        let field_val = match ctx.get(cond.field.as_str()) {
            Some(v) => v,
            None => {
                return Err(ParseErrorOf::ConditionFieldNotFound(cond.field.clone()));
            },
        };
        let mut result = true;
        let mut has_any = false;
        if let Some(eq) = &cond.eq {
            result = result && values_equal_exec(field_val, eq);
            has_any = true;
        }
        if let Some(ne) = &cond.ne {
            result = result && !values_equal_exec(field_val, ne);
            has_any = true;
        }
        if let Some(gt) = &cond.gt {
            result = result && values_compare_exec(field_val, gt, Relation::Greater, f);
            has_any = true;
        }
        if let Some(lt) = &cond.lt {
            result = result && values_compare_exec(field_val, lt, Relation::Less, f);
            has_any = true;
        }
        if let Some(ge) = &cond.ge {
            result = result && values_compare_exec(field_val, ge, Relation::GreaterOrEqual, f);
            has_any = true;
        }
        if let Some(le) = &cond.le {
            result = result && values_compare_exec(field_val, le, Relation::LessOrEqual, f);
            has_any = true;
        }
        if let Some(in_list) = &cond.in_list {
            result = result && any_equal_exec(field_val, in_list);
            has_any = true;
        }
        if !has_any {
            return Err(ParseErrorOf::ConditionWithoutOperator);
        }
        Ok(result)
    }

    fn match_conditional<F: Fn(&str) -> Option<u64>>(&self, branches: &Vec<ConditionalBranch>, ctx: &ParseContext, f: &F) -> (r: Result<Option<usize>, ParseError>)
        requires
            reads_alike(f),
        ensures
            match match_branch_spec(branches@, 0, ctx@, text_reader(f)) {
                Ok(Some(i)) => r == Ok::<Option<usize>, ParseError>(Some(i as usize)) && 0 <= i < branches@.len(),
                Ok(None) => r == Ok::<Option<usize>, ParseError>(None),
                Err(e) => r matches Err(x) && x@ == e,
            },
    {
        let mut i: usize = 0;
        while i < branches.len()
            invariant
                reads_alike(f),
                i <= branches@.len(),
                match_branch_spec(branches@, 0, ctx@, text_reader(f)) == match_branch_spec(branches@, i as int, ctx@, text_reader(f)),
            decreases branches@.len() - i,
        {
            if let Some(cond) = &branches[i].when {
                if self.eval_condition(cond, ctx, f)? {
                    return Ok(Some(i));
                }
            }
            i = i + 1;
        }
        Ok(None)
    }
}

/// `v` equals one of the values.
fn any_equal_exec(v: &JsonValue, list: &Vec<JsonValue>) -> (r: bool)
    ensures
        r == any_equal(v@, values_view(list@)),
{
    let ghost l = values_view(list@);
    let mut i: usize = 0;
    while i < list.len()
        invariant
            l == values_view(list@),
            i <= list@.len(),
            forall|j: int| 0 <= j < i ==> !values_equal(v@, #[trigger] l[j]),
        decreases list@.len() - i,
    {
        if values_equal_exec(v, &list[i]) {
            assert(values_equal(v@, l[i as int]));
            return true;
        }
        i = i + 1;
    }
    false
}

/// An interpreter result and the model's outcome agree.
spec fn fields_match(run: Run<(nat, Obj)>, r: Result<(), Stop>, off: usize, ctx: Obj) -> bool {
    match run {
        Run::Done((o2, c2)) => r is Ok && off == o2 && ctx == c2,
        Run::Failed(e) => r matches Err(Stop::Error(x)) && x@ == e,
        Run::Aborted => r matches Err(Stop::Abort),
    }
}

impl<'a> BinaryParser<'a> {
    #[verifier::loop_isolation(false)]
    fn parse_fields<F: Fn(&str) -> Option<u64>>(&mut self, fields: &Vec<Field>, ctx: &mut ParseContext, f: &F) -> (r: Result<(), Stop>)
        requires
            reads_alike(f),
            old(self).offset <= old(self).data@.len(),
        ensures
            final(self).same_input(old(self)),
            fields_match(parse_fields_spec(old(self).input(f), fields@, 0, old(self).offset as nat, old(ctx)@), r, final(self).offset, final(ctx)@),
        decreases fields, 0nat,
    {
        let ghost inp = self.input(f);
        let ghost off0 = self.offset as nat;
        let ghost ctx0 = ctx@;
        let mut i: usize = 0;
        while i < fields.len()
            invariant
                i <= fields@.len(),
                self.same_input(old(self)),
                inp == self.input(f),
                parse_fields_spec(inp, fields@, 0, off0, ctx0) == parse_fields_spec(inp, fields@, i as int, self.offset as nat, ctx@),
            decreases fields@.len() - i,
        {
            proof { assert(decreases_to!(fields => fields@[i as int])); }
            match self.parse_field(&fields[i], ctx, f) {
                Ok(()) => {},
                Err(e) => {
                    return Err(e);
                },
            }
            i = i + 1;
        }
        Ok(())
    }

    #[verifier::loop_isolation(false)]
    #[verifier::spinoff_prover]
    #[verifier::rlimit(50)]
    fn parse_field<F: Fn(&str) -> Option<u64>>(&mut self, field: &Field, ctx: &mut ParseContext, f: &F) -> (r: Result<(), Stop>)
        requires
            reads_alike(f),
            old(self).offset <= old(self).data@.len(),
        ensures
            final(self).same_input(old(self)),
            fields_match(parse_field_spec(old(self).input(f), *field, old(self).offset as nat, old(ctx)@), r, final(self).offset, final(ctx)@),
        decreases field, 0nat,
    {
        let ghost inp = self.input(f);
        match field {
            Field::Scalar { name, data_type, endian, length, length_field, encoding } => {
                let eff_endian = match endian {
                    Some(e) => *e,
                    None => self.default_endian,
                };
                let value = self.parse_scalar(*data_type, eff_endian, *length, length_field, encoding, ctx)?;
                ctx.set(name.clone(), value);
                Ok(())
            },
            Field::Struct { name, fields } => {
                let mut sub_ctx = ParseContext::new();
                proof { assert(decreases_to!(field => *fields)); }
                self.parse_fields(fields, &mut sub_ctx, f)?;
                let value = sub_ctx.into_value();
                match name {
                    Some(n) => ctx.set(n.clone(), value),
                    None => ctx.merge(value),
                }
                Ok(())
            },
            Field::Conditional { name, conditions, default } => {
                let matched = match self.match_conditional(conditions, ctx, f) {
                    Ok(m) => m,
                    Err(e) => {
                        return Err(Stop::Error(e));
                    },
                };
                let fields_to_parse: &Vec<Field> = match matched {
                    Some(i) => {
                        proof { assert(decreases_to!(field => conditions@[i as int].fields)); }
                        &conditions[i].fields
                    },
                    None => match default {
                        Some(d) => {
                            proof { assert(decreases_to!(field => *d)); }
                            d
                        },
                        None => {
                            return Err(Stop::Error(ParseErrorOf::NoBranchMatched));
                        },
                    },
                };
                match name {
                    Some(n) => {
                        let mut sub_ctx = ParseContext::new();
                        self.parse_fields(fields_to_parse, &mut sub_ctx, f)?;
                        ctx.set(n.clone(), sub_ctx.into_value());
                    },
                    None => {
                        self.parse_fields(fields_to_parse, ctx, f)?;
                    },
                }
                Ok(())
            },
            Field::Array { name, element, count, count_field, until_eof } => {
                proof { assert(decreases_to!(field => **element)); }
                let items = self.parse_array(element, *count, count_field, *until_eof, ctx, f)?;
                proof { crate::json::lemma_array_view(items); }
                ctx.set(name.clone(), JsonValue::Array(items));
                Ok(())
            },
        }
    }

    #[verifier::loop_isolation(false)]
    fn parse_array<F: Fn(&str) -> Option<u64>>(
        &mut self,
        element: &Field,
        count: Option<usize>,
        count_field: &Option<String>,
        until_eof: bool,
        ctx: &ParseContext,
        f: &F,
    ) -> (r: Result<Vec<JsonValue>, Stop>)
        requires
            reads_alike(f),
            old(self).offset <= old(self).data@.len(),
        ensures
            final(self).same_input(old(self)),
            match count_spec(count, *count_field, until_eof, ctx@) {
                Err(e) => r matches Err(Stop::Error(x)) && x@ == e && final(self).offset == old(self).offset,
                Ok(n) => match parse_items_spec(old(self).input(f), *element, n as nat, until_eof, 0, old(self).offset as nat, Seq::empty()) {
                    Run::Done((o2, items)) => r is Ok && final(self).offset == o2 && values_view(r->Ok_0@) == items,
                    Run::Failed(e) => r matches Err(Stop::Error(x)) && x@ == e,
                    Run::Aborted => r matches Err(Stop::Abort),
                },
            },
        decreases element, 1nat,
    {
        let ghost inp = self.input(f);
        let n: usize = if until_eof {
            usize::MAX
        } else if let Some(c) = count {
            c
        } else if let Some(field_name) = count_field {
            match ctx.get(field_name.as_str()) {
                None => {
                    return Err(Stop::Error(ParseErrorOf::CountFieldNotFound(field_name.clone())));
                },
                Some(v) => match crate::json::as_size(v) {
                    Some(x) => x as usize,
                    None => {
                        return Err(Stop::Error(ParseErrorOf::CountFieldNotInteger(field_name.clone())));
                    },
                },
            }
        } else {
            return Err(Stop::Error(ParseErrorOf::ArrayWithoutCount));
        };
        let ghost off0 = self.offset as nat;
        let mut items: Vec<JsonValue> = Vec::new();
        let mut i: usize = 0;
        assert(values_view(items@) =~= Seq::<Json>::empty());
        while i < n
            invariant
                i <= n,
                self.same_input(old(self)),
                inp == self.input(f),
                count_spec(count, *count_field, until_eof, ctx@) == Ok::<usize, SpecError>(n),
                parse_items_spec(inp, *element, n as nat, until_eof, 0, off0, Seq::empty())
                    == parse_items_spec(inp, *element, n as nat, until_eof, i as nat, self.offset as nat, values_view(items@)),
            decreases n - i,
        {
            if self.offset >= self.data.len() {
                if until_eof {
                    return Ok(items);
                }
                return Err(Stop::Error(ParseErrorOf::EndOfDataInArray));
            }
            let mut sub_ctx = ParseContext::new();
            self.parse_field(element, &mut sub_ctx, f)?;
            let item = if sub_ctx.data.len() == 1 {
                let mut entries = sub_ctx.data;
                let (_, v) = entries.remove(0);
                v
            } else {
                sub_ctx.into_value()
            };
            let ghost before = items@;
            items.push(item);
            proof { assert(values_view(items@) =~= values_view(before).push(item@)); }
            i = i + 1;
        }
        Ok(items)
    }
}

impl<'a> BinaryParser<'a> {
    /// Parses the template's fields from the current position into a fresh
    /// object. `read_float_text` reads decimal floating-point text as the
    /// bits of a double (`None` for text that is no such number); it serves
    /// the ordering tests of conditions on texts. `None` when the run would
    /// abort.
    pub fn try_parse_template<F: Fn(&str) -> Option<u64>>(&mut self, template: &ProtocolTemplate, read_float_text: &F) -> (r: Option<Result<JsonValue, ParseError>>)
        requires
            old(self).wf(),
            reads_alike(read_float_text),
        ensures
            final(self).data_view() == old(self).data_view(),
            final(self).endian() == old(self).endian(),
            final(self).wf(),
            match parse_template_spec(old(self).input(read_float_text), *template, old(self).position()) {
                Run::Done((o2, v)) => r matches Some(Ok(x)) && x@ == v && final(self).position() == o2,
                Run::Failed(e) => r matches Some(Err(x)) && x@ == e && old(self).position() <= final(self).position(),
                Run::Aborted => r is None,
            },
    {
        let mut ctx = ParseContext::new();
        match self.parse_fields(&template.fields, &mut ctx, read_float_text) {
            Ok(()) => Some(Ok(ctx.into_value())),
            Err(Stop::Error(e)) => Some(Err(e)),
            Err(Stop::Abort) => None,
        }
    }

    /// Parses the template's fields from the current position into a fresh
    /// object, for runs that do not abort; see `try_parse_template`.
    pub fn parse_template<F: Fn(&str) -> Option<u64>>(&mut self, template: &ProtocolTemplate, read_float_text: &F) -> (r: Result<JsonValue, ParseError>)
        requires
            old(self).wf(),
            reads_alike(read_float_text),
            !(parse_template_spec(old(self).input(read_float_text), *template, old(self).position()) is Aborted),
        ensures
            final(self).data_view() == old(self).data_view(),
            final(self).endian() == old(self).endian(),
            final(self).wf(),
            match parse_template_spec(old(self).input(read_float_text), *template, old(self).position()) {
                Run::Done((o2, v)) => r is Ok && r->Ok_0@ == v && final(self).position() == o2,
                Run::Failed(e) => r matches Err(x) && x@ == e && old(self).position() <= final(self).position(),
                Run::Aborted => false,
            },
    {
        let mut ctx = ParseContext::new();
        match self.parse_fields(&template.fields, &mut ctx, read_float_text) {
            Ok(()) => Ok(ctx.into_value()),
            Err(Stop::Error(e)) => Err(e),
            Err(Stop::Abort) => {
                // never taken: the precondition rules an aborted run out
                proof { assert(false); }
                Err(ParseErrorOf::NoBranchMatched)
            },
        }
    }
}

// ---------------------------------------------------------------------
// What every run keeps

/// A field just set is found again by its name.
pub proof fn lemma_set_field_found(ctx: Obj, k: Seq<char>, v: Json)
    ensures
        search_nested(obj_insert(ctx, k, v), k) == Some(v),
{
    crate::json::lemma_obj_insert_get(ctx, k, v);
}

proof fn lemma_scalar_advances(d: Seq<u8>, off: nat, data_type: FieldType, endian: Endian, length: Option<usize>, length_field: Option<String>, encoding: Option<String>, ctx: Obj)
    requires
        off <= d.len(),
    ensures
        scalar_spec(d, off, data_type, endian, length, length_field, encoding, ctx) matches Run::Done((o2, _))
            ==> off <= o2 <= d.len(),
{
}

/// A field parsed from sorted fields leaves them sorted, and the offset
/// only moves forward, within the data.
pub proof fn lemma_parse_field_keeps(inp: Input, f: Field, off: nat, ctx: Obj)
    requires
        off <= inp.data.len(),
        keys_sorted(ctx),
    ensures
        parse_field_spec(inp, f, off, ctx) matches Run::Done((o2, c)) ==> off <= o2 <= inp.data.len() && keys_sorted(c),
    decreases f, 0nat,
{
    let empty = Seq::<(Seq<char>, Json)>::empty();
    match f {
        Field::Scalar { name, data_type, endian, length, length_field, encoding } => {
            let eff = match endian {
                Some(e) => e,
                None => inp.endian,
            };
            lemma_scalar_advances(inp.data, off, data_type, eff, length, length_field, encoding, ctx);
            match scalar_spec(inp.data, off, data_type, eff, length, length_field, encoding, ctx) {
                Run::Done((o2, v)) => crate::json::lemma_obj_insert_sorted(ctx, name@, v),
                _ => {},
            }
        },
        Field::Struct { name, fields } => {
            lemma_parse_fields_keeps(inp, fields@, 0, off, empty);
            match parse_fields_spec(inp, fields@, 0, off, empty) {
                Run::Done((o2, sub)) => match name {
                    Some(n) => crate::json::lemma_obj_insert_sorted(ctx, n@, Json::Object(sub)),
                    None => crate::json::lemma_obj_merge_sorted(ctx, sub),
                },
                _ => {},
            }
        },
        Field::Conditional { name, conditions, default } => {
            match match_branch_spec(conditions@, 0, ctx, inp.texts) {
                Ok(Some(i)) => if 0 <= i < conditions@.len() {
                    assert(decreases_to!(conditions@ => conditions@[i]));
                    let fs = conditions@[i].fields@;
                    match name {
                        Some(n) => {
                            lemma_parse_fields_keeps(inp, fs, 0, off, empty);
                            match parse_fields_spec(inp, fs, 0, off, empty) {
                                Run::Done((o2, sub)) => crate::json::lemma_obj_insert_sorted(ctx, n@, Json::Object(sub)),
                                _ => {},
                            }
                        },
                        None => lemma_parse_fields_keeps(inp, fs, 0, off, ctx),
                    }
                },
                Ok(None) => match default {
                    Some(df) => match name {
                        Some(n) => {
                            lemma_parse_fields_keeps(inp, df@, 0, off, empty);
                            match parse_fields_spec(inp, df@, 0, off, empty) {
                                Run::Done((o2, sub)) => crate::json::lemma_obj_insert_sorted(ctx, n@, Json::Object(sub)),
                                _ => {},
                            }
                        },
                        None => lemma_parse_fields_keeps(inp, df@, 0, off, ctx),
                    },
                    None => {},
                },
                Err(_) => {},
            }
        },
        Field::Array { name, element, count, count_field, until_eof } => {
            match count_spec(count, count_field, until_eof, ctx) {
                Ok(n) => {
                    lemma_parse_items_keeps(inp, *element, n as nat, until_eof, 0, off, Seq::empty());
                    match parse_items_spec(inp, *element, n as nat, until_eof, 0, off, Seq::empty()) {
                        Run::Done((o2, items)) => crate::json::lemma_obj_insert_sorted(ctx, name@, Json::Array(items)),
                        _ => {},
                    }
                },
                Err(_) => {},
            }
        },
    }
}

pub proof fn lemma_parse_fields_keeps(inp: Input, fs: Seq<Field>, i: int, off: nat, ctx: Obj)
    requires
        off <= inp.data.len(),
        keys_sorted(ctx),
    ensures
        parse_fields_spec(inp, fs, i, off, ctx) matches Run::Done((o2, c)) ==> off <= o2 <= inp.data.len() && keys_sorted(c),
    decreases fs, fs.len() - i,
{
    if 0 <= i < fs.len() {
        lemma_parse_field_keeps(inp, fs[i], off, ctx);
        match parse_field_spec(inp, fs[i], off, ctx) {
            Run::Done((o2, c2)) => lemma_parse_fields_keeps(inp, fs, i + 1, o2, c2),
            _ => {},
        }
    }
}

pub proof fn lemma_parse_items_keeps(inp: Input, elem: Field, n: nat, until_eof: bool, i: nat, off: nat, items: Seq<Json>)
    requires
        off <= inp.data.len(),
    ensures
        parse_items_spec(inp, elem, n, until_eof, i, off, items) matches Run::Done((o2, _)) ==> off <= o2 <= inp.data.len(),
    decreases elem, n - i,
{
    if i < n && off < inp.data.len() {
        lemma_parse_field_keeps(inp, elem, off, Seq::empty());
        match parse_field_spec(inp, elem, off, Seq::empty()) {
            Run::Done((o2, sub)) => lemma_parse_items_keeps(inp, elem, n, until_eof, i + 1, o2, items.push(element_value(sub))),
            _ => {},
        }
    }
}

/// A parsed template is an object with sorted keys, and the parser ends
/// at or after where it started, within the data.
pub proof fn lemma_parse_template_keeps(inp: Input, t: ProtocolTemplate, off: nat)
    requires
        off <= inp.data.len(),
    ensures
        parse_template_spec(inp, t, off) matches Run::Done((o2, v)) ==> off <= o2 <= inp.data.len()
            && (v matches Json::Object(c) && keys_sorted(c)),
{
    lemma_parse_fields_keeps(inp, t.fields@, 0, off, Seq::empty());
}

/// The orderings of conditions order values by the doubles they read as:
/// of two values that read as doubles other than NaN, the first is at most
/// the second exactly when it is not greater, at least the second exactly
/// when it is not less, never both less and greater; equal doubles are at
/// most and at least each other, and neither less nor greater.
pub proof fn lemma_orderings_total(a: Json, b: Json, texts: spec_fn(Seq<char>) -> Option<u64>)
    requires
        value_f64(a, texts) matches Some(x) && !crate::numeric::f64_is_nan(x),
        value_f64(b, texts) matches Some(y) && !crate::numeric::f64_is_nan(y),
    ensures
        values_compare(a, b, Relation::LessOrEqual, texts) <==> !values_compare(a, b, Relation::Greater, texts),
        values_compare(a, b, Relation::GreaterOrEqual, texts) <==> !values_compare(a, b, Relation::Less, texts),
        !(values_compare(a, b, Relation::Less, texts) && values_compare(a, b, Relation::Greater, texts)),
        value_f64(a, texts) == value_f64(b, texts) ==> values_compare(a, b, Relation::LessOrEqual, texts)
            && values_compare(a, b, Relation::GreaterOrEqual, texts)
            && !values_compare(a, b, Relation::Less, texts)
            && !values_compare(a, b, Relation::Greater, texts),
{
    let x = value_f64(a, texts)->0;
    let y = value_f64(b, texts)->0;
    let kx = crate::numeric::f64_order_key(x);
    let ky = crate::numeric::f64_order_key(y);
    assert(kx == ky ==> f64_eq(x, y));
    assert(f64_eq(x, y) ==> kx == ky);
}

/// Doubles of the same sign bit order as their bit patterns: positive
/// doubles by increasing pattern, negative ones by decreasing pattern.
pub proof fn lemma_orderings_follow_bits(x: u64, y: u64, texts: spec_fn(Seq<char>) -> Option<u64>)
    requires
        !crate::numeric::f64_is_nan(x),
        !crate::numeric::f64_is_nan(y),
    ensures
        x < 0x8000_0000_0000_0000 && y < 0x8000_0000_0000_0000 ==> (values_compare(
            Json::Number(JsonNumber::Float(x)),
            Json::Number(JsonNumber::Float(y)),
            Relation::Less,
            texts,
        ) <==> x < y),
        x >= 0x8000_0000_0000_0000 && y >= 0x8000_0000_0000_0000 ==> (values_compare(
            Json::Number(JsonNumber::Float(x)),
            Json::Number(JsonNumber::Float(y)),
            Relation::Less,
            texts,
        ) <==> y < x),
        values_compare(Json::Number(JsonNumber::Float(x)), Json::Number(JsonNumber::Float(y)), Relation::Greater, texts)
            <==> values_compare(Json::Number(JsonNumber::Float(y)), Json::Number(JsonNumber::Float(x)), Relation::Less, texts),
{
}

proof fn lemma_digits_value_is_decimal_value(t: Seq<char>)
    requires
        forall|k: int| 0 <= k < t.len() ==> is_digit(#[trigger] t[k]),
    ensures
        digits_value(t) as int == crate::decimal::decimal_value(t),
    decreases t.len(),
{
    if t.len() > 0 {
        let u = t.drop_last();
        assert forall|k: int| 0 <= k < u.len() implies is_digit(#[trigger] u[k]) by {
            assert(u[k] == t[k]);
        }
        lemma_digits_value_is_decimal_value(u);
        assert(is_digit(t[t.len() - 1]));
    }
}

/// Integer text reads back what decimal digits wrote: the digits of `n`
/// read as `n`, unsigned or signed, and with a minus sign in front as `-n`.
pub proof fn lemma_integer_text_reads_back(n: nat)
    ensures
        n <= u64::MAX ==> text_u64(crate::decimal::decimal(n)) == Some(n as u64),
        n <= i64::MAX ==> text_i64(crate::decimal::decimal(n)) == Some(n as i64),
        n <= i64::MAX ==> text_i64(seq!['-'] + crate::decimal::decimal(n)) == Some((-(n as int)) as i64),
{
    let t = crate::decimal::decimal(n);
    crate::decimal::lemma_decimal_reads_back(n);
    assert forall|k: int| 0 <= k < t.len() implies is_digit(#[trigger] t[k]) by {
        assert('0' <= t[k] <= '9');
    }
    lemma_digits_value_is_decimal_value(t);
    assert(t.len() >= 1) by {
        crate::decimal::lemma_decimal_len(n);
    }
    assert('0' <= t[0] <= '9');
    assert(all_digits(t));
    let m = seq!['-'] + t;
    assert(m.drop_first() =~= t);
}

} // verus!
