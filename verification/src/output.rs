//! What the parse results are written as: one JSON record per packet, or
//! CSV rows whose columns are the flattened keys of the parsed objects.

use vstd::prelude::*;
use vstd::string::{StrSliceExecFns, StringExecFns};
use crate::decimal::{append_decimal, append_zero_padded, decimal, zero_padded};
use crate::json::{
    bytes_lt, compare_keys, entries_view, key_lt, obj_get, obj_insert, obj_lookup, obj_set,
    values_view, Json, JsonNumber, JsonValue, KeyOrder,
};
use crate::pcap::PcapPacket;

verus! {

/// The formats results are written in.
#[derive(Debug, Clone, Copy, PartialEq, Eq, Structural)]
pub enum OutputFormat {
    Json,
    JsonPretty,
    Csv,
}

pub type Obj = Seq<(Seq<char>, Json)>;

// ---------------------------------------------------------------------
// JSON records

/// A capture timestamp: seconds, a dot, and microseconds as six digits.
pub open spec fn timestamp_text(sec: u32, usec: u32) -> Seq<char> {
    decimal(sec as nat) + "."@ + zero_padded(usec as nat, 6)
}

pub fn timestamp_string(sec: u32, usec: u32) -> (r: String)
    ensures
        r@ == timestamp_text(sec, usec),
{
    let mut s = String::new();
    append_decimal(&mut s, sec as u64);
    proof { reveal_strlit("."); }
    s.append(".");
    append_zero_padded(&mut s, usec as u64, 6);
    assert(s@ =~= timestamp_text(sec, usec));
    s
}

/// The record of the packet at index `idx`: its one-based number, its
/// timestamp, its length on the wire, and its parse error or parsed value.
pub open spec fn packet_record_spec(idx: nat, p: (u32, u32, u32, Seq<u8>), result: Option<Json>, error: Option<Seq<char>>) -> Json {
    let o0 = obj_insert(Seq::empty(), "packet_index"@, Json::Number(JsonNumber::PosInt((idx + 1) as u64)));
    let o1 = obj_insert(o0, "timestamp"@, Json::Str(timestamp_text(p.0, p.1)));
    let o2 = obj_insert(o1, "original_length"@, Json::Number(JsonNumber::PosInt(p.2 as u64)));
    let o3 = match error {
        Some(e) => obj_insert(o2, "parse_error"@, Json::Str(e)),
        None => o2,
    };
    let o4 = match result {
        Some(r) => obj_insert(o3, "parsed"@, r),
        None => o3,
    };
    Json::Object(o4)
}

pub open spec fn opt_view(v: Option<&JsonValue>) -> Option<Json> {
    match v {
        Some(x) => Some(x@),
        None => None,
    }
}

pub open spec fn opt_text(v: Option<&str>) -> Option<Seq<char>> {
    match v {
        Some(x) => Some(x@),
        None => None,
    }
}

/// The JSON record of one packet.
pub fn packet_record(idx: usize, packet: &PcapPacket, result: Option<&JsonValue>, error: Option<&str>) -> (r: JsonValue)
    requires
        idx < usize::MAX,
    ensures
        r@ == packet_record_spec(idx as nat, packet@, opt_view(result), opt_text(error)),
{
    proof {
        reveal_strlit("packet_index");
        reveal_strlit("timestamp");
        reveal_strlit("original_length");
        reveal_strlit("parse_error");
        reveal_strlit("parsed");
    }
    let mut entries: Vec<(String, JsonValue)> = Vec::new();
    assert(entries_view(entries@) =~= Seq::<(Seq<char>, Json)>::empty());
    obj_set(&mut entries, "packet_index".to_owned(), JsonValue::Number(JsonNumber::PosInt((idx + 1) as u64)));
    obj_set(&mut entries, "timestamp".to_owned(), JsonValue::String(timestamp_string(packet.ts_sec, packet.ts_usec)));
    obj_set(&mut entries, "original_length".to_owned(), JsonValue::Number(JsonNumber::PosInt(packet.orig_len as u64)));
    match error {
        Some(e) => obj_set(&mut entries, "parse_error".to_owned(), JsonValue::String(e.to_owned())),
        None => {},
    }
    match result {
        Some(v) => obj_set(&mut entries, "parsed".to_owned(), crate::json::deep_clone(v)),
        None => {},
    }
    proof { crate::json::lemma_object_view(entries); }
    JsonValue::Object(entries)
}

/// One record per packet, as far as packets, results and errors all go.
pub fn packet_records(packets: &[PcapPacket], results: &[Option<JsonValue>], errors: &[Option<String>]) -> (r: Vec<JsonValue>)
    ensures
        r@.len() == vstd::math::min(vstd::math::min(packets@.len() as int, results@.len() as int), errors@.len() as int),
        forall|i: int| 0 <= i < r@.len() ==> (#[trigger] r@[i])@ == packet_record_spec(
            i as nat,
            packets@[i]@,
            match results@[i] { Some(v) => Some(v@), None => None },
            match errors@[i] { Some(e) => Some(e@), None => None },
        ),
{
    let mut n = packets.len();
    if results.len() < n {
        n = results.len();
    }
    if errors.len() < n {
        n = errors.len();
    }
    let mut out: Vec<JsonValue> = Vec::new();
    let mut i: usize = 0;
    while i < n
        invariant
            n <= packets@.len(),
            n <= results@.len(),
            n <= errors@.len(),
            n == vstd::math::min(vstd::math::min(packets@.len() as int, results@.len() as int), errors@.len() as int),
            i <= n,
            out@.len() == i,
            forall|k: int| 0 <= k < i ==> (#[trigger] out@[k])@ == packet_record_spec(
                k as nat,
                packets@[k]@,
                match results@[k] { Some(v) => Some(v@), None => None },
                match errors@[k] { Some(e) => Some(e@), None => None },
            ),
        decreases n - i,
    {
        let res = match &results[i] {
            Some(v) => Some(v),
            None => None,
        };
        let err = match &errors[i] {
            Some(e) => Some(e.as_str()),
            None => None,
        };
        let rec = packet_record(i, &packets[i], res, err);
        out.push(rec);
        i = i + 1;
    }
    out
}

// ---------------------------------------------------------------------
// Flattened keys

/// The key of an entry under `prefix`: the name alone at the top, else
/// the prefix, a dot and the name.
pub open spec fn join_key(prefix: Seq<char>, k: Seq<char>) -> Seq<char> {
    if prefix.len() == 0 { k } else { prefix + "."@ + k }
}

/// The key of the `i`-th element of an array.
pub open spec fn index_key(key: Seq<char>, i: nat) -> Seq<char> {
    key + "["@ + decimal(i) + "]"@
}

/// The flattened keys of the entries `o[i..]` under `prefix`, in order and
/// with repetitions: objects are walked into, each array element is a key
/// (an object element walked into), and an empty array is a key of its own.
pub open spec fn keys_of_entries(o: Obj, i: int, prefix: Seq<char>) -> Seq<Seq<char>>
    decreases o, o.len() - i,
{
    if i < 0 || i >= o.len() {
        Seq::empty()
    } else {
        proof { assert(decreases_to!(o => o[i])); }
        let full = join_key(prefix, o[i].0);
        let here = match o[i].1 {
            Json::Object(sub) => keys_of_entries(sub, 0, full),
            Json::Array(items) => keys_of_items(items, 0, full) + if items.len() == 0 {
                seq![full]
            } else {
                Seq::empty()
            },
            _ => seq![full],
        };
        here + keys_of_entries(o, i + 1, prefix)
    }
}

/// The flattened keys of the array elements `items[j..]` of `key`.
pub open spec fn keys_of_items(items: Seq<Json>, j: int, key: Seq<char>) -> Seq<Seq<char>>
    decreases items, items.len() - j,
{
    if j < 0 || j >= items.len() {
        Seq::empty()
    } else {
        let ak = index_key(key, j as nat);
        let here = match items[j] {
            Json::Object(sub) => keys_of_entries(sub, 0, ak),
            _ => seq![ak],
        };
        here + keys_of_items(items, j + 1, key)
    }
}

/// The leaves of the entries `o[i..]` under `prefix`, set one after
/// another into the sorted map `acc`.
pub open spec fn flatten_entries(o: Obj, i: int, prefix: Seq<char>, acc: Obj) -> Obj
    decreases o, o.len() - i,
{
    if i < 0 || i >= o.len() {
        acc
    } else {
        proof { assert(decreases_to!(o => o[i])); }
        let full = join_key(prefix, o[i].0);
        let acc2 = match o[i].1 {
            Json::Object(sub) => flatten_entries(sub, 0, full, acc),
            Json::Array(items) => flatten_items(items, 0, full, acc),
            other => obj_insert(acc, full, other),
        };
        flatten_entries(o, i + 1, prefix, acc2)
    }
}

/// The leaves of the array elements `items[j..]` of `key`.
pub open spec fn flatten_items(items: Seq<Json>, j: int, key: Seq<char>, acc: Obj) -> Obj
    decreases items, items.len() - j,
{
    if j < 0 || j >= items.len() {
        acc
    } else {
        let ak = index_key(key, j as nat);
        let acc2 = match items[j] {
            Json::Object(sub) => flatten_entries(sub, 0, ak, acc),
            other => obj_insert(acc, ak, other),
        };
        flatten_items(items, j + 1, key, acc2)
    }
}

pub open spec fn texts(v: Seq<String>) -> Seq<Seq<char>> {
    Seq::new(v.len(), |i: int| v[i]@)
}

fn join_key_exec(prefix: &str, k: &str) -> (r: String)
    ensures
        r@ == join_key(prefix@, k@),
{
    if prefix.unicode_len() == 0 {
        k.to_owned()
    } else {
        proof { reveal_strlit("."); }
        let mut s = prefix.to_owned();
        s.append(".");
        s.append(k);
        s
    }
}

fn index_key_exec(key: &str, i: usize) -> (r: String)
    ensures
        r@ == index_key(key@, i as nat),
{
    proof {
        reveal_strlit("[");
        reveal_strlit("]");
    }
    let mut s = key.to_owned();
    s.append("[");
    append_decimal(&mut s, i as u64);
    s.append("]");
    s
}

/// Appends the flattened keys of an object under `prefix`.
#[verifier::loop_isolation(false)]
fn collect_keys(obj: &Vec<(String, JsonValue)>, keys: &mut Vec<String>, prefix: &str)
    ensures
        texts(final(keys)@) == texts(old(keys)@) + keys_of_entries(entries_view(obj@), 0, prefix@),
    decreases obj,
{
    let ghost o = entries_view(obj@);
    let ghost k0 = texts(keys@);
    let mut i: usize = 0;
    assert(texts(keys@) =~= k0 + Seq::<Seq<char>>::empty());
    while i < obj.len()
        invariant
            o == entries_view(obj@),
            i <= obj@.len(),
            texts(keys@) + keys_of_entries(o, i as int, prefix@) == k0 + keys_of_entries(o, 0, prefix@),
        decreases obj@.len() - i,
    {
        let ghost before = texts(keys@);
        let full_key = join_key_exec(prefix, obj[i].0.as_str());
        let ghost full = full_key@;
        assert(o[i as int].0 == obj@[i as int].0@);
        match &obj[i].1 {
            JsonValue::Object(sub) => {
                proof {
                    assert(decreases_to!(obj => obj@[i as int].1));
                    crate::json::lemma_object_view(*sub);
                }
                collect_keys(sub, keys, full_key.as_str());
            },
            JsonValue::Array(arr) => {
                proof {
                    assert(decreases_to!(obj => obj@[i as int].1));
                    crate::json::lemma_array_view(*arr);
                }
                let ghost items = values_view(arr@);
                let mut j: usize = 0;
                let ghost mid = texts(keys@);
                assert(texts(keys@) =~= mid + Seq::<Seq<char>>::empty());
                while j < arr.len()
                    invariant
                        items == values_view(arr@),
                        j <= arr@.len(),
                        texts(keys@) + keys_of_items(items, j as int, full) == mid + keys_of_items(items, 0, full),
                    decreases arr@.len() - j,
                {
                    let ghost b2 = texts(keys@);
                    let array_key = index_key_exec(full_key.as_str(), j);
                    match &arr[j] {
                        JsonValue::Object(sub) => {
                            proof {
                                assert(decreases_to!(obj => obj@[i as int].1));
                                assert(decreases_to!(arr => arr@[j as int]));
                                crate::json::lemma_object_view(*sub);
                            }
                            collect_keys(sub, keys, array_key.as_str());
                        },
                        _ => {
                            let ghost ak = array_key@;
                            keys.push(array_key);
                            assert(texts(keys@) =~= b2 + seq![ak]);
                        },
                    }
                    proof {
                        assert(keys_of_items(items, j as int, full) == (match items[j as int] {
                            Json::Object(sub) => keys_of_entries(sub, 0, index_key(full, j as nat)),
                            _ => seq![index_key(full, j as nat)],
                        }) + keys_of_items(items, j + 1, full));
                    }
                    j = j + 1;
                }
                if arr.len() == 0 {
                    keys.push(full_key);
                    assert(texts(keys@) =~= mid + seq![full]);
                }
                assert(keys_of_items(items, arr@.len() as int, full) =~= Seq::<Seq<char>>::empty());
            },
            _ => {
                keys.push(full_key);
                assert(texts(keys@) =~= before + seq![full]);
            },
        }
        proof {
            assert(keys_of_entries(o, i as int, prefix@) == (match o[i as int].1 {
                Json::Object(sub) => keys_of_entries(sub, 0, full),
                Json::Array(items) => keys_of_items(items, 0, full) + if items.len() == 0 {
                    seq![full]
                } else {
                    Seq::empty()
                },
                _ => seq![full],
            }) + keys_of_entries(o, i + 1, prefix@));
        }
        i = i + 1;
    }
}

/// Sets the leaves of an object under `prefix` into the sorted map `result`.
#[verifier::loop_isolation(false)]
fn flatten_object_inner(obj: &Vec<(String, JsonValue)>, result: &mut Vec<(String, JsonValue)>, prefix: &str)
    ensures
        entries_view(final(result)@) == flatten_entries(entries_view(obj@), 0, prefix@, entries_view(old(result)@)),
    decreases obj,
{
    let ghost o = entries_view(obj@);
    let mut i: usize = 0;
    while i < obj.len()
        invariant
            o == entries_view(obj@),
            i <= obj@.len(),
            flatten_entries(o, i as int, prefix@, entries_view(result@)) == flatten_entries(o, 0, prefix@, entries_view(old(result)@)),
        decreases obj@.len() - i,
    {
        let ghost acc = entries_view(result@);
        let full_key = join_key_exec(prefix, obj[i].0.as_str());
        let ghost full = full_key@;
        assert(o[i as int].0 == obj@[i as int].0@);
        match &obj[i].1 {
            JsonValue::Object(sub) => {
                proof {
                    assert(decreases_to!(obj => obj@[i as int].1));
                    crate::json::lemma_object_view(*sub);
                }
                flatten_object_inner(sub, result, full_key.as_str());
            },
            JsonValue::Array(arr) => {
                proof {
                    assert(decreases_to!(obj => obj@[i as int].1));
                    crate::json::lemma_array_view(*arr);
                }
                let ghost items = values_view(arr@);
                let mut j: usize = 0;
                while j < arr.len()
                    invariant
                        items == values_view(arr@),
                        j <= arr@.len(),
                        flatten_items(items, j as int, full, entries_view(result@)) == flatten_items(items, 0, full, acc),
                    decreases arr@.len() - j,
                {
                    let array_key = index_key_exec(full_key.as_str(), j);
                    match &arr[j] {
                        JsonValue::Object(sub) => {
                            proof {
                                assert(decreases_to!(arr => arr@[j as int]));
                                crate::json::lemma_object_view(*sub);
                            }
                            flatten_object_inner(sub, result, array_key.as_str());
                        },
                        other => {
                            obj_set(result, array_key, crate::json::deep_clone(other));
                        },
                    }
                    j = j + 1;
                }
            },
            other => {
                obj_set(result, full_key, crate::json::deep_clone(other));
            },
        }
        i = i + 1;
    }
}

/// The leaves of an object by their flattened keys, sorted by key; a key
/// met again keeps the later leaf.
pub fn flatten_object(obj: &Vec<(String, JsonValue)>) -> (r: Vec<(String, JsonValue)>)
    ensures
        entries_view(r@) == flatten_entries(entries_view(obj@), 0, Seq::empty(), Seq::empty()),
{
    let mut result: Vec<(String, JsonValue)> = Vec::new();
    assert(entries_view(result@) =~= Seq::<(Seq<char>, Json)>::empty());
    proof { reveal_strlit(""); }
    assert(""@ =~= Seq::<char>::empty());
    flatten_object_inner(obj, &mut result, "");
    result
}

// ---------------------------------------------------------------------
// The columns of the CSV output

proof fn lemma_bytes_lt_trans(a: Seq<u8>, b: Seq<u8>, c: Seq<u8>)
    requires
        bytes_lt(a, b),
        bytes_lt(b, c),
    ensures
        bytes_lt(a, c),
    decreases a.len(),
{
    if a.len() > 0 && b.len() > 0 && c.len() > 0 && a[0] == b[0] && b[0] == c[0] {
        lemma_bytes_lt_trans(a.drop_first(), b.drop_first(), c.drop_first());
    }
}

proof fn lemma_bytes_lt_irreflexive(a: Seq<u8>)
    ensures
        !bytes_lt(a, a),
    decreases a.len(),
{
    if a.len() > 0 {
        lemma_bytes_lt_irreflexive(a.drop_first());
    }
}

/// Every key sorts before the keys after it.
pub open spec fn sorted_keys(s: Seq<Seq<char>>) -> bool {
    forall|i: int, j: int| 0 <= i < j < s.len() ==> key_lt(#[trigger] s[i], #[trigger] s[j])
}

/// Adds a key to a sorted list of keys unless it is there.
fn insert_key(keys: &mut Vec<String>, k: String)
    requires
        sorted_keys(texts(old(keys)@)),
    ensures
        sorted_keys(texts(final(keys)@)),
        texts(final(keys)@).to_set() == texts(old(keys)@).to_set().insert(k@),
{
    let ghost s = texts(keys@);
    let mut i: usize = 0;
    while i < keys.len()
        invariant
            s == texts(keys@),
            s == texts(old(keys)@),
            sorted_keys(s),
            i <= keys@.len(),
            forall|j: int| 0 <= j < i ==> key_lt(#[trigger] s[j], k@),
        decreases keys@.len() - i,
    {
        let ord = compare_keys(keys[i].as_str(), k.as_str());
        assert(s[i as int] == keys@[i as int]@);
        if ord == KeyOrder::Equal {
            assert(s.to_set().insert(k@) =~= s.to_set()) by {
                assert(s.contains(k@));
            }
            return;
        }
        if ord == KeyOrder::Greater {
            let ghost kv = k@;
            keys.insert(i, k);
            proof {
                let t = texts(keys@);
                assert(t =~= s.insert(i as int, kv));
                assert forall|a: int, b: int| 0 <= a < b < t.len() implies key_lt(#[trigger] t[a], #[trigger] t[b]) by {
                    if b == i {
                    } else if a == i {
                        if b > i + 1 {
                            lemma_bytes_lt_trans(vstd::utf8::encode_utf8(kv), vstd::utf8::encode_utf8(s[i as int]), vstd::utf8::encode_utf8(s[b - 1]));
                        }
                    } else if a < i && b > i {
                        assert(key_lt(s[a], s[b - 1]));
                    } else if a > i {
                        assert(key_lt(s[a - 1], s[b - 1]));
                    }
                }
                assert(t.to_set() =~= s.to_set().insert(kv)) by {
                    assert forall|x: Seq<char>| t.to_set().contains(x) <==> s.to_set().insert(kv).contains(x) by {
                        if t.contains(x) {
                            let m = choose|m: int| 0 <= m < t.len() && t[m] == x;
                            if m < i {
                                assert(s[m] == x);
                            } else if m > i {
                                assert(s[m - 1] == x);
                            }
                        }
                        if s.contains(x) {
                            let m = choose|m: int| 0 <= m < s.len() && s[m] == x;
                            if m < i {
                                assert(t[m] == x);
                            } else {
                                assert(t[m + 1] == x);
                            }
                        }
                        if x == kv {
                            assert(t[i as int] == x);
                        }
                    }
                }
            }
            return;
        }
        i = i + 1;
    }
    let ghost kv = k@;
    keys.push(k);
    proof {
        let t = texts(keys@);
        assert(t =~= s.push(kv));
        assert forall|a: int, b: int| 0 <= a < b < t.len() implies key_lt(#[trigger] t[a], #[trigger] t[b]) by {
            if b == s.len() {
                assert(key_lt(s[a], kv));
            }
        }
        assert(t.to_set() =~= s.to_set().insert(kv)) by {
            assert forall|x: Seq<char>| t.to_set().contains(x) <==> s.to_set().insert(kv).contains(x) by {
                if t.contains(x) {
                    let m = choose|m: int| 0 <= m < t.len() && t[m] == x;
                    if m < s.len() {
                        assert(s[m] == x);
                    }
                }
                if s.contains(x) {
                    let m = choose|m: int| 0 <= m < s.len() && s[m] == x;
                    assert(t[m] == x);
                }
                if x == kv {
                    assert(t[s.len() as int] == x);
                }
            }
        }
    }
}

/// The flattened keys of the objects among the results, in order.
pub open spec fn result_keys(rs: Seq<Option<Json>>) -> Seq<Seq<char>>
    decreases rs.len(),
{
    if rs.len() == 0 {
        Seq::empty()
    } else {
        result_keys(rs.drop_last()) + match rs.last() {
            Some(Json::Object(o)) => keys_of_entries(o, 0, Seq::empty()),
            _ => Seq::empty(),
        }
    }
}

pub open spec fn result_views(rs: Seq<Option<JsonValue>>) -> Seq<Option<Json>> {
    Seq::new(rs.len(), |i: int| match rs[i] { Some(v) => Some(v@), None => None })
}

/// The data columns of the CSV output: every flattened key of the parsed
/// objects, once each, sorted.
pub fn csv_data_keys(results: &[Option<JsonValue>]) -> (r: Vec<String>)
    ensures
        sorted_keys(texts(r@)),
        texts(r@).to_set() == result_keys(result_views(results@)).to_set(),
{
    let ghost rv = result_views(results@);
    let mut all: Vec<String> = Vec::new();
    let mut i: usize = 0;
    proof { reveal_strlit(""); }
    assert(texts(all@) =~= result_keys(rv.subrange(0, 0)));
    while i < results.len()
        invariant
            rv == result_views(results@),
            i <= results@.len(),
            texts(all@) == result_keys(rv.subrange(0, i as int)),
        decreases results@.len() - i,
    {
        let ghost before = texts(all@);
        assert(rv.subrange(0, i + 1).drop_last() =~= rv.subrange(0, i as int));
        proof { reveal_strlit(""); }
        assert(""@ =~= Seq::<char>::empty());
        match &results[i] {
            Some(JsonValue::Object(obj)) => {
                proof { crate::json::lemma_object_view(*obj); }
                collect_keys(obj, &mut all, "");
                assert(rv[i as int] == Some(Json::Object(entries_view(obj@))));
            },
            _ => {
                assert(!(rv[i as int] matches Some(Json::Object(_))));
                assert(texts(all@) =~= before + Seq::<Seq<char>>::empty());
            },
        }
        i = i + 1;
    }
    assert(rv.subrange(0, results@.len() as int) =~= rv);
    let ghost every = texts(all@);
    let mut sorted: Vec<String> = Vec::new();
    let mut k: usize = 0;
    assert(texts(sorted@).to_set() =~= every.subrange(0, 0).to_set());
    while k < all.len()
        invariant
            every == texts(all@),
            k <= all@.len(),
            sorted_keys(texts(sorted@)),
            texts(sorted@).to_set() == every.subrange(0, k as int).to_set(),
        decreases all@.len() - k,
    {
        let key = all[k].clone();
        assert(key@ == every[k as int]);
        insert_key(&mut sorted, key);
        assert(every.subrange(0, k + 1) =~= every.subrange(0, k as int).push(every[k as int]));
        proof { every.subrange(0, k as int).lemma_push_to_set_commute(every[k as int]); }
        k = k + 1;
    }
    assert(every.subrange(0, all@.len() as int) =~= every);
    sorted
}

/// The columns every CSV output starts with.
pub open spec fn fixed_headers() -> Seq<Seq<char>> {
    seq!["packet_index"@, "timestamp"@, "original_length"@, "parse_error"@]
}

/// The CSV header: the fixed columns, then the data keys.
pub fn csv_header(data_keys: &Vec<String>) -> (r: Vec<String>)
    ensures
        texts(r@) == fixed_headers() + texts(data_keys@),
{
    let mut headers: Vec<String> = Vec::new();
    headers.push("packet_index".to_owned());
    headers.push("timestamp".to_owned());
    headers.push("original_length".to_owned());
    headers.push("parse_error".to_owned());
    let mut i: usize = 0;
    while i < data_keys.len()
        invariant
            i <= data_keys@.len(),
            texts(headers@) == fixed_headers() + texts(data_keys@).subrange(0, i as int),
        decreases data_keys@.len() - i,
    {
        let ghost before = texts(headers@);
        let key = data_keys[i].clone();
        assert(key@ == texts(data_keys@)[i as int]);
        headers.push(key);
        assert(texts(headers@) =~= before.push(texts(data_keys@)[i as int]));
        assert(texts(headers@) =~= fixed_headers() + texts(data_keys@).subrange(0, i + 1));
        i = i + 1;
    }
    assert(texts(data_keys@).subrange(0, data_keys@.len() as int) =~= texts(data_keys@));
    headers
}

/// The first cells of a packet's CSV row: its one-based number, its
/// timestamp, its length on the wire, its parse error or nothing.
pub open spec fn fixed_cells(idx: nat, p: (u32, u32, u32, Seq<u8>), error: Option<Seq<char>>) -> Seq<Seq<char>> {
    seq![
        decimal(idx + 1),
        timestamp_text(p.0, p.1),
        decimal(p.2 as nat),
        match error {
            Some(e) => e,
            None => Seq::empty(),
        },
    ]
}

/// The value of each data key in a parsed object; none when there is no
/// parsed object or it lacks the key.
pub open spec fn data_cells(result: Option<Json>, keys: Seq<Seq<char>>) -> Seq<Option<Json>> {
    match result {
        Some(Json::Object(o)) => {
            let flat = flatten_entries(o, 0, Seq::empty(), Seq::empty());
            Seq::new(keys.len(), |i: int| obj_get(flat, keys[i]))
        },
        _ => Seq::new(keys.len(), |i: int| None::<Json>),
    }
}

pub open spec fn opt_views(v: Seq<Option<JsonValue>>) -> Seq<Option<Json>> {
    Seq::new(v.len(), |i: int| match v[i] { Some(x) => Some(x@), None => None })
}

/// A packet's CSV row: its fixed cells, and the leaf value of each data key.
#[verifier::loop_isolation(false)]
pub fn csv_row(idx: usize, packet: &PcapPacket, result: Option<&JsonValue>, error: Option<&str>, data_keys: &Vec<String>) -> (r: (Vec<String>, Vec<Option<JsonValue>>))
    requires
        idx < usize::MAX,
    ensures
        texts(r.0@) == fixed_cells(idx as nat, packet@, opt_text(error)),
        opt_views(r.1@) == data_cells(opt_view(result), texts(data_keys@)),
{
    let mut cells: Vec<String> = Vec::new();
    let mut number = String::new();
    append_decimal(&mut number, (idx + 1) as u64);
    cells.push(number);
    cells.push(timestamp_string(packet.ts_sec, packet.ts_usec));
    let mut len = String::new();
    append_decimal(&mut len, packet.orig_len as u64);
    cells.push(len);
    match error {
        Some(e) => cells.push(e.to_owned()),
        None => cells.push(String::new()),
    }
    assert(texts(cells@) =~= fixed_cells(idx as nat, packet@, opt_text(error)));
    let ghost keys = texts(data_keys@);
    let mut values: Vec<Option<JsonValue>> = Vec::new();
    match result {
        Some(JsonValue::Object(obj)) => {
            proof { crate::json::lemma_object_view(*obj); }
            let flat = flatten_object(obj);
            let mut i: usize = 0;
            while i < data_keys.len()
                invariant
                    keys == texts(data_keys@),
                    i <= data_keys@.len(),
                    opt_views(values@) == data_cells(opt_view(result), keys).subrange(0, i as int),
                decreases data_keys@.len() - i,
            {
                let ghost before = opt_views(values@);
                let v = match obj_lookup(&flat, data_keys[i].as_str()) {
                    Some(x) => Some(crate::json::deep_clone(x)),
                    None => None,
                };
                assert(match v { Some(x) => Some(x@), None => None } == data_cells(opt_view(result), keys)[i as int]);
                values.push(v);
                assert(opt_views(values@) =~= before.push(data_cells(opt_view(result), keys)[i as int]));
                assert(opt_views(values@) =~= data_cells(opt_view(result), keys).subrange(0, i + 1));
                i = i + 1;
            }
        },
        _ => {
            let mut i: usize = 0;
            while i < data_keys.len()
                invariant
                    keys == texts(data_keys@),
                    i <= data_keys@.len(),
                    !(opt_view(result) matches Some(Json::Object(_))),
                    opt_views(values@) == data_cells(opt_view(result), keys).subrange(0, i as int),
                decreases data_keys@.len() - i,
            {
                let ghost before = opt_views(values@);
                values.push(None);
                assert(opt_views(values@) =~= before.push(data_cells(opt_view(result), keys)[i as int]));
                assert(opt_views(values@) =~= data_cells(opt_view(result), keys).subrange(0, i + 1));
                i = i + 1;
            }
        },
    }
    assert(data_cells(opt_view(result), keys).subrange(0, keys.len() as int) =~= data_cells(opt_view(result), keys));
    (cells, values)
}

// ---------------------------------------------------------------------
// Every leaf has a column

/// Some entry of `o` has key `k`.
pub open spec fn has_key(o: Obj, k: Seq<char>) -> bool {
    exists|a: int| 0 <= a < o.len() && #[trigger] o[a].0 == k
}

/// Every key of `r` is a key of `acc` or one of `ks`.
pub open spec fn keys_within(r: Obj, acc: Obj, ks: Seq<Seq<char>>) -> bool {
    forall|m: int| 0 <= m < r.len() ==> has_key(acc, #[trigger] r[m].0) || ks.contains(r[m].0)
}

proof fn lemma_keys_within_trans(r: Obj, acc2: Obj, acc: Obj, here: Seq<Seq<char>>, rest: Seq<Seq<char>>)
    requires
        keys_within(r, acc2, rest),
        keys_within(acc2, acc, here),
    ensures
        keys_within(r, acc, here + rest),
{
    assert forall|m: int| 0 <= m < r.len() implies has_key(acc, #[trigger] r[m].0) || (here + rest).contains(r[m].0) by {
        let k = r[m].0;
        if rest.contains(k) {
            let x = choose|x: int| 0 <= x < rest.len() && rest[x] == k;
            assert((here + rest)[here.len() + x] == k);
        } else {
            assert(has_key(acc2, k));
            let a = choose|a: int| 0 <= a < acc2.len() && #[trigger] acc2[a].0 == k;
            assert(has_key(acc, acc2[a].0) || here.contains(acc2[a].0));
            if here.contains(k) {
                let x = choose|x: int| 0 <= x < here.len() && here[x] == k;
                assert((here + rest)[x] == k);
            }
        }
    }
}

proof fn lemma_keys_within_refl(acc: Obj, ks: Seq<Seq<char>>)
    ensures
        keys_within(acc, acc, ks),
{
    assert forall|m: int| 0 <= m < acc.len() implies has_key(acc, #[trigger] acc[m].0) || ks.contains(acc[m].0) by {
        assert(acc[m].0 == acc[m].0);
    }
}

proof fn lemma_keys_within_insert(acc: Obj, k: Seq<char>, v: Json)
    ensures
        keys_within(obj_insert(acc, k, v), acc, seq![k]),
{
    crate::json::lemma_obj_insert_keys(acc, k, v);
    let r = obj_insert(acc, k, v);
    assert forall|m: int| 0 <= m < r.len() implies has_key(acc, #[trigger] r[m].0) || seq![k].contains(r[m].0) by {
        if r[m].0 == k {
            assert(seq![k][0] == k);
        } else {
            let j = choose|j: int| 0 <= j < acc.len() && acc[j].0 == r[m].0;
        }
    }
}

proof fn lemma_keys_within_widen(r: Obj, acc: Obj, ks: Seq<Seq<char>>, more: Seq<Seq<char>>)
    requires
        keys_within(r, acc, ks),
    ensures
        keys_within(r, acc, ks + more),
{
    assert forall|m: int| 0 <= m < r.len() implies has_key(acc, #[trigger] r[m].0) || (ks + more).contains(r[m].0) by {
        if ks.contains(r[m].0) {
            let x = choose|x: int| 0 <= x < ks.len() && ks[x] == r[m].0;
            assert((ks + more)[x] == r[m].0);
        }
    }
}

pub proof fn lemma_flatten_entries_keys(o: Obj, i: int, prefix: Seq<char>, acc: Obj)
    ensures
        keys_within(flatten_entries(o, i, prefix, acc), acc, keys_of_entries(o, i, prefix)),
    decreases o, o.len() - i,
{
    if i < 0 || i >= o.len() {
        lemma_keys_within_refl(acc, keys_of_entries(o, i, prefix));
    } else {
        assert(decreases_to!(o => o[i]));
        let full = join_key(prefix, o[i].0);
        let acc2 = match o[i].1 {
            Json::Object(sub) => flatten_entries(sub, 0, full, acc),
            Json::Array(items) => flatten_items(items, 0, full, acc),
            other => obj_insert(acc, full, other),
        };
        let here = match o[i].1 {
            Json::Object(sub) => keys_of_entries(sub, 0, full),
            Json::Array(items) => keys_of_items(items, 0, full) + if items.len() == 0 {
                seq![full]
            } else {
                Seq::empty()
            },
            _ => seq![full],
        };
        match o[i].1 {
            Json::Object(sub) => lemma_flatten_entries_keys(sub, 0, full, acc),
            Json::Array(items) => {
                lemma_flatten_items_keys(items, 0, full, acc);
                lemma_keys_within_widen(acc2, acc, keys_of_items(items, 0, full), if items.len() == 0 {
                    seq![full]
                } else {
                    Seq::empty()
                });
            },
            other => lemma_keys_within_insert(acc, full, other),
        }
        assert(keys_within(acc2, acc, here));
        lemma_flatten_entries_keys(o, i + 1, prefix, acc2);
        lemma_keys_within_trans(flatten_entries(o, i + 1, prefix, acc2), acc2, acc, here, keys_of_entries(o, i + 1, prefix));
    }
}

pub proof fn lemma_flatten_items_keys(items: Seq<Json>, j: int, key: Seq<char>, acc: Obj)
    ensures
        keys_within(flatten_items(items, j, key, acc), acc, keys_of_items(items, j, key)),
    decreases items, items.len() - j,
{
    if j < 0 || j >= items.len() {
        lemma_keys_within_refl(acc, keys_of_items(items, j, key));
    } else {
        let ak = index_key(key, j as nat);
        let acc2 = match items[j] {
            Json::Object(sub) => flatten_entries(sub, 0, ak, acc),
            other => obj_insert(acc, ak, other),
        };
        let here = match items[j] {
            Json::Object(sub) => keys_of_entries(sub, 0, ak),
            _ => seq![ak],
        };
        match items[j] {
            Json::Object(sub) => lemma_flatten_entries_keys(sub, 0, ak, acc),
            other => lemma_keys_within_insert(acc, ak, other),
        }
        lemma_flatten_items_keys(items, j + 1, key, acc2);
        lemma_keys_within_trans(flatten_items(items, j + 1, key, acc2), acc2, acc, here, keys_of_items(items, j + 1, key));
    }
}

proof fn lemma_result_keys_include(rs: Seq<Option<Json>>, i: int, k: Seq<char>)
    requires
        0 <= i < rs.len(),
        rs[i] matches Some(Json::Object(o)) && keys_of_entries(o, 0, Seq::empty()).contains(k),
    ensures
        result_keys(rs).contains(k),
    decreases rs.len(),
{
    let t = rs.drop_last();
    let tail = match rs.last() {
        Some(Json::Object(o)) => keys_of_entries(o, 0, Seq::empty()),
        _ => Seq::empty(),
    };
    if i < rs.len() - 1 {
        assert(t[i] == rs[i]);
        lemma_result_keys_include(t, i, k);
        let x = choose|x: int| 0 <= x < result_keys(t).len() && result_keys(t)[x] == k;
        assert((result_keys(t) + tail)[x] == k);
    } else {
        let x = choose|x: int| 0 <= x < tail.len() && tail[x] == k;
        assert((result_keys(t) + tail)[result_keys(t).len() + x] == k);
    }
}

/// Every leaf of every parsed object has a CSV column: its flattened key
/// is among the keys the data columns are made of.
pub proof fn lemma_leaves_have_columns(rs: Seq<Option<Json>>, i: int, k: Seq<char>)
    requires
        0 <= i < rs.len(),
        rs[i] matches Some(Json::Object(o)) && has_key(flatten_entries(o, 0, Seq::empty(), Seq::empty()), k),
    ensures
        result_keys(rs).contains(k),
{
    match rs[i] {
        Some(Json::Object(o)) => {
            let flat = flatten_entries(o, 0, Seq::empty(), Seq::empty());
            lemma_flatten_entries_keys(o, 0, Seq::empty(), Seq::empty());
            let m = choose|m: int| 0 <= m < flat.len() && #[trigger] flat[m].0 == k;
            assert(has_key(Seq::empty(), flat[m].0) || keys_of_entries(o, 0, Seq::empty()).contains(flat[m].0));
            lemma_result_keys_include(rs, i, k);
        },
        _ => {},
    }
}

/// Every CSV row has one cell under each column of the header: the fixed
/// cells under the fixed columns, a data cell under each data key.
pub proof fn lemma_row_fits_header(
    idx: nat,
    p: (u32, u32, u32, Seq<u8>),
    error: Option<Seq<char>>,
    result: Option<Json>,
    keys: Seq<Seq<char>>,
)
    ensures
        fixed_cells(idx, p, error).len() == fixed_headers().len(),
        data_cells(result, keys).len() == keys.len(),
        fixed_cells(idx, p, error).len() + data_cells(result, keys).len() == (fixed_headers() + keys).len(),
{
}

/// A timestamp's text is the seconds in decimal digits, a dot, and six
/// digits that stand for the microseconds.
pub proof fn lemma_timestamp_reads_back(sec: u32, usec: u32)
    requires
        usec < 1_000_000,
    ensures
        ({
            let t = timestamp_text(sec, usec);
            let k = decimal(sec as nat).len() as int;
            &&& t.len() == k + 7
            &&& t[k] == '.'
            &&& crate::decimal::decimal_value(t.subrange(0, k)) == sec
            &&& crate::decimal::decimal_value(t.subrange(k + 1, k + 7)) == usec
            &&& forall|j: int| 0 <= j < t.len() && j != k ==> '0' <= #[trigger] t[j] <= '9'
        }),
{
    reveal_strlit(".");
    crate::decimal::lemma_decimal_reads_back(sec as nat);
    crate::decimal::lemma_six_digits(usec as nat);
    let a = decimal(sec as nat);
    let b = zero_padded(usec as nat, 6);
    let t = timestamp_text(sec, usec);
    let k = a.len() as int;
    assert(t.subrange(0, k) =~= a);
    assert(t.subrange(k + 1, k + 7) =~= b);
    assert forall|j: int| 0 <= j < t.len() && j != k implies '0' <= #[trigger] t[j] <= '9' by {
        if j < k {
            assert(t[j] == a[j]);
        } else {
            assert(t[j] == b[j - k - 1]);
        }
    }
}

} // verus!
