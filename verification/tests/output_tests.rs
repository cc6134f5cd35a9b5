use pcap_parser::json::{JsonNumber, JsonValue};
use pcap_parser::output::{csv_data_keys, csv_header, csv_row, flatten_object, packet_record, packet_records, timestamp_string};
use pcap_parser::pcap::PcapPacket;

fn render(v: &JsonValue) -> String {
    match v {
        JsonValue::Null => "null".to_string(),
        JsonValue::Bool(b) => b.to_string(),
        JsonValue::Number(JsonNumber::PosInt(n)) => n.to_string(),
        JsonValue::Number(JsonNumber::NegInt(n)) => n.to_string(),
        JsonValue::Number(JsonNumber::Float(b)) => format!("{:?}", f64::from_bits(*b)),
        JsonValue::String(s) => format!("{:?}", s),
        JsonValue::Array(items) => format!("[{}]", items.iter().map(render).collect::<Vec<_>>().join(",")),
        JsonValue::Object(entries) => format!(
            "{{{}}}",
            entries.iter().map(|(k, v)| format!("{:?}:{}", k, render(v))).collect::<Vec<_>>().join(",")
        ),
    }
}

fn num(n: u64) -> JsonValue {
    JsonValue::Number(JsonNumber::PosInt(n))
}

fn obj(entries: Vec<(&str, JsonValue)>) -> JsonValue {
    JsonValue::Object(entries.into_iter().map(|(k, v)| (k.to_string(), v)).collect())
}

fn packet(sec: u32, usec: u32, len: u32) -> PcapPacket {
    PcapPacket { ts_sec: sec, ts_usec: usec, orig_len: len, data: vec![] }
}

fn nested() -> JsonValue {
    obj(vec![
        ("a", num(1)),
        ("b", obj(vec![("c", JsonValue::String("x".to_string())), ("d", JsonValue::Array(vec![num(5), obj(vec![("e", JsonValue::Bool(true))])]))])),
        ("f", JsonValue::Array(vec![])),
    ])
}

#[test]
fn timestamps_have_six_digit_microseconds() {
    assert_eq!(timestamp_string(1700000000, 123), "1700000000.000123");
    assert_eq!(timestamp_string(0, 0), "0.000000");
    assert_eq!(timestamp_string(5, 1234567), "5.1234567");
}

#[test]
fn record_of_a_parsed_packet() {
    let v = obj(vec![("x", num(1))]);
    let r = packet_record(0, &packet(10, 20, 60), Some(&v), None);
    assert_eq!(render(&r), r#"{"original_length":60,"packet_index":1,"parsed":{"x":1},"timestamp":"10.000020"}"#);
}

#[test]
fn record_of_a_failed_packet() {
    let r = packet_record(4, &packet(1, 2, 3), None, Some("bad"));
    assert_eq!(render(&r), r#"{"original_length":3,"packet_index":5,"parse_error":"bad","timestamp":"1.000002"}"#);
}

#[test]
fn records_follow_the_shortest_list() {
    let ps = vec![packet(1, 0, 1), packet(2, 0, 2)];
    let rs = vec![Some(num(1)), None, Some(num(3))];
    let es = vec![None, Some("e".to_string())];
    let out = packet_records(&ps, &rs, &es);
    assert_eq!(out.len(), 2);
    assert_eq!(render(&out[1]), r#"{"original_length":2,"packet_index":2,"parse_error":"e","timestamp":"2.000000"}"#);
}

#[test]
fn flattened_leaves() {
    let v = nested();
    let entries = match &v {
        JsonValue::Object(e) => e,
        _ => unreachable!(),
    };
    let flat = flatten_object(entries);
    let keys: Vec<&str> = flat.iter().map(|(k, _)| k.as_str()).collect();
    assert_eq!(keys, vec!["a", "b.c", "b.d[0]", "b.d[1].e"]);
    assert_eq!(render(&flat[2].1), "5");
}

#[test]
fn data_keys_are_sorted_and_unique() {
    let results = vec![Some(nested()), None, Some(obj(vec![("a", num(2)), ("z", num(0))])), Some(num(7))];
    let keys = csv_data_keys(&results);
    assert_eq!(keys, vec!["a", "b.c", "b.d[0]", "b.d[1].e", "f", "z"]);
    let header = csv_header(&keys);
    assert_eq!(header[..5], ["packet_index", "timestamp", "original_length", "parse_error", "a"]);
    assert_eq!(header.len(), 10);
}

#[test]
fn csv_rows() {
    let v = nested();
    let keys = csv_data_keys(&[Some(nested())]);
    let (cells, values) = csv_row(2, &packet(7, 8, 9), Some(&v), None, &keys);
    assert_eq!(cells, vec!["3", "7.000008", "9", ""]);
    let shown: Vec<String> = values.iter().map(|v| v.as_ref().map(render).unwrap_or_default()).collect();
    assert_eq!(shown, vec!["1", "\"x\"", "5", "true", ""]);
    let (cells2, values2) = csv_row(0, &packet(1, 1, 1), None, Some("oops"), &keys);
    assert_eq!(cells2[3], "oops");
    assert!(values2.iter().all(|v| v.is_none()));
}

#[test]
fn every_leaf_has_a_column() {
    let results = vec![Some(nested())];
    let keys = csv_data_keys(&results);
    let entries = match &results[0] {
        Some(JsonValue::Object(e)) => e,
        _ => unreachable!(),
    };
    for (k, _) in flatten_object(entries) {
        assert!(keys.contains(&k));
    }
}
