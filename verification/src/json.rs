//! JSON-like values produced by parsing, with the key order and number
//! classes of the JSON library that renders them.

use vstd::prelude::*;

verus! {

/// A JSON number: a non-negative integer, a negative integer, or a finite
/// double held as its IEEE-754 bit pattern.
#[derive(Debug, Clone, Copy, PartialEq, Eq, Structural)]
pub enum JsonNumber {
    PosInt(u64),
    NegInt(i64),
    Float(u64),
}

/// A JSON value. Object entries are kept in the order the JSON library
/// keeps them: ascending by the UTF-8 bytes of their keys, one entry per key.
#[derive(Debug)]
pub enum JsonValue {
    Null,
    Bool(bool),
    Number(JsonNumber),
    String(String),
    Array(Vec<JsonValue>),
    Object(Vec<(String, JsonValue)>),
}

/// The mathematical model of a `JsonValue`.
pub enum Json {
    Null,
    Bool(bool),
    Number(JsonNumber),
    Str(Seq<char>),
    Array(Seq<Json>),
    Object(Seq<(Seq<char>, Json)>),
}

pub open spec fn json_of(v: JsonValue) -> Json
    decreases v,
{
    match v {
        JsonValue::Null => Json::Null,
        JsonValue::Bool(b) => Json::Bool(b),
        JsonValue::Number(n) => Json::Number(n),
        JsonValue::String(s) => Json::Str(s@),
        JsonValue::Array(items) => Json::Array(
            Seq::new(items@.len(), |i: int| if 0 <= i < items@.len() { json_of(items@[i]) } else { Json::Null }),
        ),
        JsonValue::Object(entries) => Json::Object(
            Seq::new(
                entries@.len(),
                |i: int|
                    if 0 <= i < entries@.len() {
                        (entries@[i].0@, json_of(entries@[i].1))
                    } else {
                        (Seq::empty(), Json::Null)
                    },
            ),
        ),
    }
}

impl View for JsonValue {
    type V = Json;

    open spec fn view(&self) -> Json {
        json_of(*self)
    }
}

/// The model of a list of values.
pub open spec fn values_view(items: Seq<JsonValue>) -> Seq<Json> {
    Seq::new(items.len(), |i: int| if 0 <= i < items.len() { json_of(items[i]) } else { Json::Null })
}

/// The model of a list of object entries.
pub open spec fn entries_view(entries: Seq<(String, JsonValue)>) -> Seq<(Seq<char>, Json)> {
    Seq::new(
        entries.len(),
        |i: int|
            if 0 <= i < entries.len() {
                (entries[i].0@, json_of(entries[i].1))
            } else {
                (Seq::empty(), Json::Null)
            },
    )
}

pub proof fn lemma_array_view(items: Vec<JsonValue>)
    ensures
        JsonValue::Array(items)@ == Json::Array(values_view(items@)),
{
    match json_of(JsonValue::Array(items)) {
        Json::Array(s) => assert(s =~= values_view(items@)),
        _ => {},
    }
}

pub proof fn lemma_object_view(entries: Vec<(String, JsonValue)>)
    ensures
        JsonValue::Object(entries)@ == Json::Object(entries_view(entries@)),
{
    match json_of(JsonValue::Object(entries)) {
        Json::Object(s) => assert(s =~= entries_view(entries@)),
        _ => {},
    }
}

/// The number a signed integer becomes: negative ones are `NegInt`.
pub open spec fn number_from_i64(v: i64) -> JsonNumber {
    if v < 0 {
        JsonNumber::NegInt(v)
    } else {
        JsonNumber::PosInt(v as u64)
    }
}

pub fn json_from_i64(v: i64) -> (r: JsonValue)
    ensures
        r@ == Json::Number(number_from_i64(v)),
{
    if v < 0 {
        JsonValue::Number(JsonNumber::NegInt(v))
    } else {
        JsonValue::Number(JsonNumber::PosInt(v as u64))
    }
}

/// The value as a signed 64-bit integer, when it is an integer in range.
pub open spec fn json_as_i64(v: Json) -> Option<i64> {
    match v {
        Json::Number(JsonNumber::PosInt(n)) => if n <= i64::MAX as u64 {
            Some(n as i64)
        } else {
            None
        },
        Json::Number(JsonNumber::NegInt(n)) => Some(n),
        _ => None,
    }
}

/// The value as an unsigned 64-bit integer, when it is a non-negative integer.
pub open spec fn json_as_u64(v: Json) -> Option<u64> {
    match v {
        Json::Number(JsonNumber::PosInt(n)) => Some(n),
        _ => None,
    }
}

pub fn as_i64(v: &JsonValue) -> (r: Option<i64>)
    ensures
        r == json_as_i64(v@),
{
    match v {
        JsonValue::Number(JsonNumber::PosInt(n)) => if *n <= 0x7fff_ffff_ffff_ffff {
            Some(*n as i64)
        } else {
            None
        },
        JsonValue::Number(JsonNumber::NegInt(n)) => Some(*n),
        _ => None,
    }
}

pub fn as_u64(v: &JsonValue) -> (r: Option<u64>)
    ensures
        r == json_as_u64(v@),
{
    match v {
        JsonValue::Number(JsonNumber::PosInt(n)) => Some(*n),
        _ => None,
    }
}

/// An integer read from a value as a length or count: the value as an
/// unsigned integer, else as a signed one taken modulo 2^64.
pub open spec fn json_as_size(v: Json) -> Option<u64> {
    match json_as_u64(v) {
        Some(n) => Some(n),
        None => match json_as_i64(v) {
            Some(n) => Some(n as u64),
            None => None,
        },
    }
}

pub fn as_size(v: &JsonValue) -> (r: Option<u64>)
    ensures
        r == json_as_size(v@),
{
    match as_u64(v) {
        Some(n) => Some(n),
        None => match as_i64(v) {
            Some(n) => Some(n as u64),
            None => None,
        },
    }
}

/// A copy of a value with the same model.
#[verifier::loop_isolation(false)]
pub fn deep_clone(v: &JsonValue) -> (r: JsonValue)
    ensures
        r@ == v@,
    decreases v,
{
    match v {
        JsonValue::Null => JsonValue::Null,
        JsonValue::Bool(b) => JsonValue::Bool(*b),
        JsonValue::Number(n) => JsonValue::Number(*n),
        JsonValue::String(s) => JsonValue::String(s.clone()),
        JsonValue::Array(items) => {
            let mut out: Vec<JsonValue> = Vec::new();
            let mut i: usize = 0;
            while i < items.len()
                invariant
                    i <= items@.len(),
                    values_view(out@) == values_view(items@).subrange(0, i as int),
                decreases items@.len() - i,
            {
                proof { assert(decreases_to!(v => items@[i as int])); }
                let c = deep_clone(&items[i]);
                let ghost before = out@;
                out.push(c);
                proof {
                    assert(values_view(out@) =~= values_view(before).push(c@));
                    assert(values_view(items@).subrange(0, i + 1 as int) =~= values_view(items@).subrange(0, i as int).push(items@[i as int]@));
                }
                i = i + 1;
            }
            proof {
                assert(values_view(items@).subrange(0, items@.len() as int) =~= values_view(items@));
                lemma_array_view(out);
                lemma_array_view(*items);
            }
            JsonValue::Array(out)
        },
        JsonValue::Object(entries) => {
            let mut out: Vec<(String, JsonValue)> = Vec::new();
            let mut i: usize = 0;
            while i < entries.len()
                invariant
                    i <= entries@.len(),
                    entries_view(out@) == entries_view(entries@).subrange(0, i as int),
                decreases entries@.len() - i,
            {
                proof {
                    assert(decreases_to!(v => entries@[i as int].1));
                }
                let k = entries[i].0.clone();
                let c = deep_clone(&entries[i].1);
                let ghost before = out@;
                out.push((k, c));
                proof {
                    assert(entries_view(out@) =~= entries_view(before).push((k@, c@)));
                    assert(entries_view(entries@).subrange(0, i + 1 as int) =~= entries_view(entries@).subrange(0, i as int).push((entries@[i as int].0@, entries@[i as int].1@)));
                }
                i = i + 1;
            }
            proof {
                assert(entries_view(entries@).subrange(0, entries@.len() as int) =~= entries_view(entries@));
                lemma_object_view(out);
                lemma_object_view(*entries);
            }
            JsonValue::Object(out)
        },
    }
}

// ---------------------------------------------------------------------
// Object keys and their order

/// `a` comes strictly before `b` in lexicographic byte order.
pub open spec fn bytes_lt(a: Seq<u8>, b: Seq<u8>) -> bool
    decreases a.len(),
{
    if a.len() == 0 {
        b.len() > 0
    } else if b.len() == 0 {
        false
    } else if a[0] != b[0] {
        a[0] < b[0]
    } else {
        bytes_lt(a.drop_first(), b.drop_first())
    }
}

/// Key `a` sorts before key `b`: the order of their UTF-8 bytes.
pub open spec fn key_lt(a: Seq<char>, b: Seq<char>) -> bool {
    bytes_lt(vstd::utf8::encode_utf8(a), vstd::utf8::encode_utf8(b))
}

#[derive(Debug, Clone, Copy, PartialEq, Eq, Structural)]
pub enum KeyOrder {
    Less,
    Equal,
    Greater,
}

proof fn lemma_bytes_lt_from(a: Seq<u8>, b: Seq<u8>, i: int)
    requires
        0 <= i <= a.len(),
        i <= b.len(),
        a.subrange(0, i) == b.subrange(0, i),
    ensures
        bytes_lt(a, b) == bytes_lt(a.subrange(i, a.len() as int), b.subrange(i, b.len() as int)),
    decreases i,
{
    if i > 0 {
        assert(a[0] == a.subrange(0, i)[0]);
        assert(b[0] == b.subrange(0, i)[0]);
        assert(a.drop_first().subrange(0, i - 1) =~= a.subrange(0, i).drop_first());
        assert(b.drop_first().subrange(0, i - 1) =~= b.subrange(0, i).drop_first());
        lemma_bytes_lt_from(a.drop_first(), b.drop_first(), i - 1);
        assert(a.drop_first().subrange(i - 1, a.len() - 1) =~= a.subrange(i, a.len() as int));
        assert(b.drop_first().subrange(i - 1, b.len() - 1) =~= b.subrange(i, b.len() as int));
    } else {
        assert(a.subrange(0, a.len() as int) =~= a);
        assert(b.subrange(0, b.len() as int) =~= b);
    }
}

pub proof fn lemma_encode_injective(a: Seq<char>, b: Seq<char>)
    requires
        vstd::utf8::encode_utf8(a) == vstd::utf8::encode_utf8(b),
    ensures
        a == b,
{
    vstd::utf8::encode_utf8_decode_utf8(a);
    vstd::utf8::encode_utf8_decode_utf8(b);
}

/// Compares two keys by their UTF-8 bytes.
pub fn compare_keys(a: &str, b: &str) -> (r: KeyOrder)
    ensures
        (r == KeyOrder::Equal) == (a@ == b@),
        (r == KeyOrder::Less) == key_lt(a@, b@),
        (r == KeyOrder::Greater) == key_lt(b@, a@),
{
    let x = a.as_bytes();
    let y = b.as_bytes();
    let mut i: usize = 0;
    while i < x.len() && i < y.len()
        invariant
            x@ == vstd::utf8::encode_utf8(a@),
            y@ == vstd::utf8::encode_utf8(b@),
            i <= x@.len(),
            i <= y@.len(),
            x@.subrange(0, i as int) == y@.subrange(0, i as int),
        decreases x@.len() - i,
    {
        if x[i] != y[i] {
            proof {
                lemma_bytes_lt_from(x@, y@, i as int);
                lemma_bytes_lt_from(y@, x@, i as int);
                assert(x@.subrange(i as int, x@.len() as int)[0] == x@[i as int]);
                assert(y@.subrange(i as int, y@.len() as int)[0] == y@[i as int]);
                if a@ == b@ {
                    assert(x@ == y@);
                }
            }
            if x[i] < y[i] {
                return KeyOrder::Less;
            } else {
                return KeyOrder::Greater;
            }
        }
        proof {
            assert(x@.subrange(0, i + 1 as int) =~= x@.subrange(0, i as int).push(x@[i as int]));
            assert(y@.subrange(0, i + 1 as int) =~= y@.subrange(0, i as int).push(y@[i as int]));
        }
        i = i + 1;
    }
    proof {
        lemma_bytes_lt_from(x@, y@, i as int);
        lemma_bytes_lt_from(y@, x@, i as int);
    }
    if x.len() == y.len() {
        proof {
            assert(x@ =~= x@.subrange(0, i as int));
            assert(y@ =~= y@.subrange(0, i as int));
            lemma_encode_injective(a@, b@);
        }
        KeyOrder::Equal
    } else if x.len() < y.len() {
        KeyOrder::Less
    } else {
        KeyOrder::Greater
    }
}

// ---------------------------------------------------------------------
// Objects as ordered entry lists

/// The value of the first entry with key `k`.
pub open spec fn obj_get(o: Seq<(Seq<char>, Json)>, k: Seq<char>) -> Option<Json>
    decreases o.len(),
{
    if o.len() == 0 {
        None
    } else if o[0].0 == k {
        Some(o[0].1)
    } else {
        obj_get(o.drop_first(), k)
    }
}

/// The entries with `k` set to `v`: the entry with key `k` is replaced, or a
/// new one goes before the first key that sorts after `k`.
pub open spec fn obj_insert(o: Seq<(Seq<char>, Json)>, k: Seq<char>, v: Json) -> Seq<(Seq<char>, Json)>
    decreases o.len(),
{
    if o.len() == 0 {
        seq![(k, v)]
    } else if o[0].0 == k {
        seq![(k, v)] + o.drop_first()
    } else if key_lt(k, o[0].0) {
        seq![(k, v)] + o
    } else {
        seq![o[0]] + obj_insert(o.drop_first(), k, v)
    }
}

/// All entries of `more` set into `o`, in order.
pub open spec fn obj_merge(o: Seq<(Seq<char>, Json)>, more: Seq<(Seq<char>, Json)>) -> Seq<(Seq<char>, Json)>
    decreases more.len(),
{
    if more.len() == 0 {
        o
    } else {
        obj_merge(obj_insert(o, more[0].0, more[0].1), more.drop_first())
    }
}

proof fn lemma_obj_insert_skip(o: Seq<(Seq<char>, Json)>, i: int, k: Seq<char>, v: Json)
    requires
        0 <= i < o.len(),
        forall|j: int| 0 <= j < i ==> o[j].0 != k && !key_lt(k, o[j].0),
        o[i].0 != k,
        !key_lt(k, o[i].0),
    ensures
        obj_insert(o, k, v) == o.subrange(0, i + 1) + obj_insert(o.subrange(i + 1, o.len() as int), k, v),
    decreases i,
{
    if i == 0 {
        assert(o.drop_first() =~= o.subrange(1, o.len() as int));
        assert(o.subrange(0, 1) =~= seq![o[0]]);
    } else {
        let t = o.drop_first();
        assert forall|j: int| 0 <= j < i - 1 implies t[j].0 != k && !key_lt(k, t[j].0) by {
            assert(t[j] == o[j + 1]);
        }
        lemma_obj_insert_skip(t, i - 1, k, v);
        assert(t.subrange(0, i) =~= o.subrange(1, i + 1));
        assert(t.subrange(i, t.len() as int) =~= o.subrange(i + 1, o.len() as int));
        assert(o.subrange(0, i + 1) =~= seq![o[0]] + o.subrange(1, i + 1));
    }
}

/// Sets `key` to `value` in an object's entries, keeping key order.
pub fn obj_set(entries: &mut Vec<(String, JsonValue)>, key: String, value: JsonValue)
    ensures
        entries_view(final(entries)@) == obj_insert(entries_view(old(entries)@), key@, value@),
{
    let ghost o = entries_view(entries@);
    let mut i: usize = 0;
    while i < entries.len()
        invariant
            entries_view(entries@) == o,
            o == entries_view(old(entries)@),
            i <= entries@.len(),
            forall|j: int| 0 <= j < i ==> o[j].0 != key@ && !key_lt(key@, o[j].0),
        decreases entries@.len() - i,
    {
        let ord = compare_keys(entries[i].0.as_str(), key.as_str());
        if ord == KeyOrder::Equal || ord == KeyOrder::Greater {
            proof {
                if i > 0 {
                    lemma_obj_insert_skip(o, i - 1, key@, value@);
                } else {
                    assert(o.subrange(0, 0) + o.subrange(0, o.len() as int) =~= o);
                }
                let rest = o.subrange(i as int, o.len() as int);
                assert(rest[0] == o[i as int]);
                assert(obj_insert(o, key@, value@) == o.subrange(0, i as int) + obj_insert(rest, key@, value@)) by {
                    if i > 0 {
                        assert(o.subrange(0, i as int) =~= o.subrange(0, i - 1 + 1));
                    } else {
                        assert(o.subrange(0, 0) + obj_insert(rest, key@, value@) =~= obj_insert(rest, key@, value@));
                        assert(rest =~= o);
                    }
                }
            }
            let ghost ke = key@;
            let ghost ve = value@;
            if ord == KeyOrder::Equal {
                let ghost before = entries@;
                entries.set(i, (key, value));
                proof {
                    let rest = o.subrange(i as int, o.len() as int);
                    assert(entries_view(entries@) =~= o.subrange(0, i as int) + (seq![(ke, ve)] + rest.drop_first()));
                    assert(rest[0].0 == ke);
                    assert(obj_insert(rest, ke, ve) == seq![(ke, ve)] + rest.drop_first());
                    assert(entries_view(entries@) == obj_insert(o, ke, ve));
                }
            } else {
                entries.insert(i, (key, value));
                proof {
                    let rest = o.subrange(i as int, o.len() as int);
                    assert(key_lt(ke, rest[0].0));
                    assert(entries_view(entries@) =~= o.subrange(0, i as int) + (seq![(ke, ve)] + rest));
                    assert(rest[0].0 != ke);
                    assert(obj_insert(rest, ke, ve) == seq![(ke, ve)] + rest);
                    assert(entries_view(entries@) == obj_insert(o, ke, ve));
                }
            }
            return;
        }
        i = i + 1;
    }
    proof {
        if i > 0 {
            lemma_obj_insert_skip(o, i - 1, key@, value@);
            assert(o.subrange(i as int, o.len() as int) =~= Seq::<(Seq<char>, Json)>::empty());
            assert(o.subrange(0, i as int) =~= o);
        }
    }
    let ghost ke = key@;
    let ghost ve = value@;
    entries.push((key, value));
    proof {
        assert(entries_view(entries@) =~= o + seq![(ke, ve)]);
    }
}

/// Finds the value of the entry with key `key`.
pub fn obj_lookup<'a>(entries: &'a Vec<(String, JsonValue)>, key: &str) -> (r: Option<&'a JsonValue>)
    ensures
        match obj_get(entries_view(entries@), key@) {
            Some(v) => r is Some && r->Some_0@ == v,
            None => r is None,
        },
{
    let ghost o = entries_view(entries@);
    let mut i: usize = 0;
    assert(o.subrange(0, o.len() as int) =~= o);
    while i < entries.len()
        invariant
            o == entries_view(entries@),
            i <= entries@.len(),
            obj_get(o, key@) == obj_get(o.subrange(i as int, o.len() as int), key@),
        decreases entries@.len() - i,
    {
        let ghost rest = o.subrange(i as int, o.len() as int);
        if compare_keys(entries[i].0.as_str(), key) == KeyOrder::Equal {
            assert(rest[0] == o[i as int]);
            return Some(&entries[i].1);
        }
        assert(rest.drop_first() =~= o.subrange(i + 1, o.len() as int));
        i = i + 1;
    }
    None
}

/// A copy of an object's entries with the same model.
pub fn clone_entries(entries: &Vec<(String, JsonValue)>) -> (r: Vec<(String, JsonValue)>)
    ensures
        entries_view(r@) == entries_view(entries@),
{
    let mut out: Vec<(String, JsonValue)> = Vec::new();
    let mut i: usize = 0;
    while i < entries.len()
        invariant
            i <= entries@.len(),
            entries_view(out@) == entries_view(entries@).subrange(0, i as int),
        decreases entries@.len() - i,
    {
        let k = entries[i].0.clone();
        let c = deep_clone(&entries[i].1);
        let ghost before = out@;
        out.push((k, c));
        proof {
            assert(entries_view(out@) =~= entries_view(before).push((k@, c@)));
            assert(entries_view(entries@).subrange(0, i + 1 as int) =~= entries_view(entries@).subrange(0, i as int).push((entries@[i as int].0@, entries@[i as int].1@)));
        }
        i = i + 1;
    }
    proof {
        assert(entries_view(entries@).subrange(0, entries@.len() as int) =~= entries_view(entries@));
    }
    out
}

/// Sets every entry of `more` into `entries`, in order.
pub fn obj_merge_into(entries: &mut Vec<(String, JsonValue)>, more: Vec<(String, JsonValue)>)
    ensures
        entries_view(final(entries)@) == obj_merge(entries_view(old(entries)@), entries_view(more@)),
{
    let ghost m = entries_view(more@);
    let ghost start = entries_view(entries@);
    let mut more = more;
    let mut i: usize = 0;
    let n = more.len();
    assert(m.subrange(0, n as int) =~= m);
    while more.len() > 0
        invariant
            i + more@.len() == n,
            n == m.len(),
            entries_view(more@) == m.subrange(i as int, n as int),
            obj_merge(start, m) == obj_merge(entries_view(entries@), m.subrange(i as int, n as int)),
        decreases more@.len(),
    {
        let (k, v) = more.remove(0);
        proof {
            let rest = m.subrange(i as int, n as int);
            assert(rest[0] == (k@, v@));
            assert(rest.drop_first() =~= m.subrange(i + 1, n as int));
            assert(entries_view(more@) =~= m.subrange(i + 1, n as int));
        }
        obj_set(entries, k, v);
        i = i + 1;
    }
}

// ---------------------------------------------------------------------
// What setting a key does

/// Keys in strictly ascending byte order, hence each once.
pub open spec fn keys_sorted(o: Seq<(Seq<char>, Json)>) -> bool {
    forall|i: int, j: int| 0 <= i < j < o.len() ==> key_lt(#[trigger] o[i].0, #[trigger] o[j].0)
}

pub proof fn lemma_bytes_lt_trans(a: Seq<u8>, b: Seq<u8>, c: Seq<u8>)
    requires
        bytes_lt(a, b),
        bytes_lt(b, c),
    ensures
        bytes_lt(a, c),
    decreases a.len(),
{
    if a.len() > 0 && b.len() > 0 && c.len() > 0 && a[0] == b[0] && b[0] == c[0] {
        lemma_bytes_lt_trans(a.drop_first(), b.drop_first(), c.drop_first());
    }
}

pub proof fn lemma_bytes_lt_total(a: Seq<u8>, b: Seq<u8>)
    requires
        a != b,
    ensures
        bytes_lt(a, b) || bytes_lt(b, a),
    decreases a.len(),
{
    if a.len() > 0 && b.len() > 0 && a[0] == b[0] {
        if a.drop_first() == b.drop_first() {
            assert(a =~= seq![a[0]] + a.drop_first());
            assert(b =~= seq![b[0]] + b.drop_first());
        }
        lemma_bytes_lt_total(a.drop_first(), b.drop_first());
    } else if a.len() == 0 && b.len() == 0 {
        assert(a =~= b);
    }
}

pub proof fn lemma_bytes_lt_asym(a: Seq<u8>, b: Seq<u8>)
    ensures
        !(bytes_lt(a, b) && bytes_lt(b, a)),
    decreases a.len(),
{
    if a.len() > 0 && b.len() > 0 && a[0] == b[0] {
        lemma_bytes_lt_asym(a.drop_first(), b.drop_first());
    }
}

/// Two different keys are ordered one way or the other, never both.
pub proof fn lemma_key_order(a: Seq<char>, b: Seq<char>)
    ensures
        a != b ==> key_lt(a, b) || key_lt(b, a),
        !(key_lt(a, b) && key_lt(b, a)),
        !key_lt(a, a),
{
    lemma_bytes_lt_asym(vstd::utf8::encode_utf8(a), vstd::utf8::encode_utf8(b));
    lemma_bytes_lt_asym(vstd::utf8::encode_utf8(a), vstd::utf8::encode_utf8(a));
    if a != b {
        if vstd::utf8::encode_utf8(a) == vstd::utf8::encode_utf8(b) {
            lemma_encode_injective(a, b);
        }
        lemma_bytes_lt_total(vstd::utf8::encode_utf8(a), vstd::utf8::encode_utf8(b));
    }
}

pub proof fn lemma_key_lt_trans(a: Seq<char>, b: Seq<char>, c: Seq<char>)
    requires
        key_lt(a, b),
        key_lt(b, c),
    ensures
        key_lt(a, c),
{
    lemma_bytes_lt_trans(vstd::utf8::encode_utf8(a), vstd::utf8::encode_utf8(b), vstd::utf8::encode_utf8(c));
}

/// Reading a key just set gives the value set.
pub proof fn lemma_obj_insert_get(o: Seq<(Seq<char>, Json)>, k: Seq<char>, v: Json)
    ensures
        obj_get(obj_insert(o, k, v), k) == Some(v),
    decreases o.len(),
{
    if o.len() > 0 && o[0].0 != k && !key_lt(k, o[0].0) {
        lemma_obj_insert_get(o.drop_first(), k, v);
        assert((seq![o[0]] + obj_insert(o.drop_first(), k, v)).drop_first() =~= obj_insert(o.drop_first(), k, v));
    }
}

/// Setting a key leaves every other key as it was, in objects whose keys
/// are sorted (as every object the library builds is).
pub proof fn lemma_obj_insert_other(o: Seq<(Seq<char>, Json)>, k: Seq<char>, v: Json, k2: Seq<char>)
    requires
        keys_sorted(o),
        k2 != k,
    ensures
        obj_get(obj_insert(o, k, v), k2) == obj_get(o, k2),
    decreases o.len(),
{
    if o.len() > 0 {
        let t = o.drop_first();
        assert(keys_sorted(t)) by {
            assert forall|i: int, j: int| 0 <= i < j < t.len() implies key_lt(#[trigger] t[i].0, #[trigger] t[j].0) by {
                assert(t[i] == o[i + 1] && t[j] == o[j + 1]);
            }
        }
        if o[0].0 == k {
            assert((seq![(k, v)] + t).drop_first() =~= t);
        } else if key_lt(k, o[0].0) {
            assert((seq![(k, v)] + o).drop_first() =~= o);
        } else {
            lemma_obj_insert_other(t, k, v, k2);
            assert((seq![o[0]] + obj_insert(t, k, v)).drop_first() =~= obj_insert(t, k, v));
        }
    } else {
        assert(seq![(k, v)].drop_first() =~= o);
    }
}

/// Keys of `obj_insert(o, k, v)` are those of `o` and `k`.
pub proof fn lemma_obj_insert_keys(o: Seq<(Seq<char>, Json)>, k: Seq<char>, v: Json)
    ensures
        forall|i: int| 0 <= i < obj_insert(o, k, v).len() ==> (#[trigger] obj_insert(o, k, v)[i]).0 == k
            || exists|j: int| 0 <= j < o.len() && o[j].0 == obj_insert(o, k, v)[i].0,
    decreases o.len(),
{
    let r = obj_insert(o, k, v);
    if o.len() == 0 {
    } else if o[0].0 == k {
        assert forall|i: int| 0 <= i < r.len() implies (#[trigger] r[i]).0 == k
            || exists|j: int| 0 <= j < o.len() && o[j].0 == r[i].0 by {
            if i > 0 {
                assert(r[i] == o[i]);
            }
        }
    } else if key_lt(k, o[0].0) {
        assert forall|i: int| 0 <= i < r.len() implies (#[trigger] r[i]).0 == k
            || exists|j: int| 0 <= j < o.len() && o[j].0 == r[i].0 by {
            if i > 0 {
                assert(r[i] == o[i - 1]);
            }
        }
    } else {
        let t = o.drop_first();
        lemma_obj_insert_keys(t, k, v);
        assert forall|i: int| 0 <= i < r.len() implies (#[trigger] r[i]).0 == k
            || exists|j: int| 0 <= j < o.len() && o[j].0 == r[i].0 by {
            if i == 0 {
                assert(o[0].0 == r[0].0);
            } else {
                assert(r[i] == obj_insert(t, k, v)[i - 1]);
                if r[i].0 != k {
                    let j = choose|j: int| 0 <= j < t.len() && t[j].0 == obj_insert(t, k, v)[i - 1].0;
                    assert(o[j + 1].0 == r[i].0);
                }
            }
        }
    }
}

/// Setting a key keeps the keys sorted.
pub proof fn lemma_obj_insert_sorted(o: Seq<(Seq<char>, Json)>, k: Seq<char>, v: Json)
    requires
        keys_sorted(o),
    ensures
        keys_sorted(obj_insert(o, k, v)),
    decreases o.len(),
{
    let r = obj_insert(o, k, v);
    if o.len() == 0 {
    } else if o[0].0 == k {
        assert forall|i: int, j: int| 0 <= i < j < r.len() implies key_lt(#[trigger] r[i].0, #[trigger] r[j].0) by {
            assert(r[j] == o[j]);
            if i > 0 {
                assert(r[i] == o[i]);
            }
        }
    } else if key_lt(k, o[0].0) {
        assert forall|i: int, j: int| 0 <= i < j < r.len() implies key_lt(#[trigger] r[i].0, #[trigger] r[j].0) by {
            assert(r[j] == o[j - 1]);
            if i == 0 {
                if j - 1 > 0 {
                    lemma_key_lt_trans(k, o[0].0, o[j - 1].0);
                }
            } else {
                assert(r[i] == o[i - 1]);
            }
        }
    } else {
        let t = o.drop_first();
        assert(keys_sorted(t)) by {
            assert forall|i: int, j: int| 0 <= i < j < t.len() implies key_lt(#[trigger] t[i].0, #[trigger] t[j].0) by {
                assert(t[i] == o[i + 1] && t[j] == o[j + 1]);
            }
        }
        lemma_obj_insert_sorted(t, k, v);
        lemma_obj_insert_keys(t, k, v);
        lemma_key_order(k, o[0].0);
        let rt = obj_insert(t, k, v);
        assert forall|i: int, j: int| 0 <= i < j < r.len() implies key_lt(#[trigger] r[i].0, #[trigger] r[j].0) by {
            assert(r[j] == rt[j - 1]);
            if i == 0 {
                assert(r[0] == o[0]);
                if rt[j - 1].0 != k {
                    let m = choose|m: int| 0 <= m < t.len() && t[m].0 == rt[j - 1].0;
                    assert(o[m + 1].0 == rt[j - 1].0);
                }
            } else {
                assert(r[i] == rt[i - 1]);
            }
        }
    }
}

/// Setting every key of another object keeps the keys sorted.
pub proof fn lemma_obj_merge_sorted(o: Seq<(Seq<char>, Json)>, more: Seq<(Seq<char>, Json)>)
    requires
        keys_sorted(o),
    ensures
        keys_sorted(obj_merge(o, more)),
    decreases more.len(),
{
    if more.len() > 0 {
        lemma_obj_insert_sorted(o, more[0].0, more[0].1);
        lemma_obj_merge_sorted(obj_insert(o, more[0].0, more[0].1), more.drop_first());
    }
}

/// Keys sort by their UTF-8 bytes, lexicographically: where two byte
/// strings first differ the smaller byte comes first, and a proper prefix
/// comes before the longer string.
pub proof fn lemma_bytes_lt_lexicographic(a: Seq<u8>, b: Seq<u8>, i: int)
    requires
        0 <= i <= a.len(),
        i <= b.len(),
        a.subrange(0, i) == b.subrange(0, i),
    ensures
        i < a.len() && i < b.len() && a[i] != b[i] ==> (bytes_lt(a, b) <==> a[i] < b[i]),
        i == a.len() ==> (bytes_lt(a, b) <==> i < b.len()),
{
    lemma_bytes_lt_from(a, b, i);
    let ra = a.subrange(i, a.len() as int);
    let rb = b.subrange(i, b.len() as int);
    if i < a.len() && i < b.len() {
        assert(ra[0] == a[i] && rb[0] == b[i]);
    }
}

} // verus!
