use pcap_parser::capture_gen::sample_payload;
use pcap_parser::json::{JsonNumber, JsonValue};
use pcap_parser::parser::{
    parse_text_i64, parse_text_u64, values_compare_exec, values_equal_exec, BinaryParser, ParseErrorOf,
    Relation,
};
use pcap_parser::template::{Condition, ConditionalBranch, Endian, Field, FieldType, ProtocolTemplate};

fn render(v: &JsonValue) -> String {
    match v {
        JsonValue::Null => "null".to_string(),
        JsonValue::Bool(b) => b.to_string(),
        JsonValue::Number(JsonNumber::PosInt(n)) => n.to_string(),
        JsonValue::Number(JsonNumber::NegInt(n)) => n.to_string(),
        JsonValue::Number(JsonNumber::Float(b)) => format!("{:?}", f64::from_bits(*b)),
        JsonValue::String(s) => format!("{:?}", s),
        JsonValue::Array(items) => format!("[{}]", items.iter().map(render).collect::<Vec<_>>().join(",")),
        JsonValue::Object(entries) => format!(
            "{{{}}}",
            entries.iter().map(|(k, v)| format!("{:?}:{}", k, render(v))).collect::<Vec<_>>().join(",")
        ),
    }
}

fn read_float(s: &str) -> Option<u64> {
    s.parse::<f64>().ok().map(|f| f.to_bits())
}

fn scalar(name: &str, data_type: FieldType) -> Field {
    Field::Scalar { name: name.to_string(), data_type, endian: None, length: None, length_field: None, encoding: None }
}

fn sized(name: &str, data_type: FieldType, length_field: &str) -> Field {
    Field::Scalar {
        name: name.to_string(),
        data_type,
        endian: None,
        length: None,
        length_field: Some(length_field.to_string()),
        encoding: None,
    }
}

fn cond_eq(field: &str, v: u64) -> Condition {
    Condition {
        field: field.to_string(),
        eq: Some(JsonValue::Number(JsonNumber::PosInt(v))),
        ne: None,
        gt: None,
        lt: None,
        ge: None,
        le: None,
        in_list: None,
    }
}

fn template(fields: Vec<Field>) -> ProtocolTemplate {
    ProtocolTemplate { name: None, endian: Endian::Big, signature: None, fields }
}

fn sample_template() -> ProtocolTemplate {
    let request = vec![
        scalar("method_len", FieldType::U8),
        sized("method", FieldType::String, "method_len"),
        scalar("flags", FieldType::U8),
        scalar("data_len", FieldType::U16),
        sized("data", FieldType::Bytes, "data_len"),
    ];
    let response = vec![
        scalar("status", FieldType::U16),
        scalar("body_len", FieldType::U32),
        sized("body", FieldType::String, "body_len"),
    ];
    let item = Field::Struct {
        name: None,
        fields: vec![scalar("id", FieldType::U32), scalar("name_len", FieldType::U8), sized("name", FieldType::String, "name_len")],
    };
    let list = vec![
        scalar("count", FieldType::U16),
        Field::Array { name: "items".to_string(), element: Box::new(item), count: None, count_field: Some("count".to_string()), until_eof: false },
        scalar("tag", FieldType::U8),
        scalar("tail_len", FieldType::U16),
        sized("tail", FieldType::String, "tail_len"),
    ];
    template(vec![
        scalar("msg_len", FieldType::U16),
        scalar("msg_type", FieldType::U32),
        Field::Conditional {
            name: Some("body".to_string()),
            conditions: vec![
                ConditionalBranch { when: Some(cond_eq("msg_type", 1)), fields: {
                    let mut f = vec![scalar("request_id", FieldType::U32)];
                    f.extend(request);
                    f
                } },
                ConditionalBranch { when: Some(cond_eq("msg_type", 2)), fields: {
                    let mut f = vec![scalar("request_id", FieldType::U32)];
                    f.extend(response);
                    f
                } },
            ],
            default: Some(list),
        },
    ])
}

fn parse(data: &[u8], t: &ProtocolTemplate) -> Result<JsonValue, pcap_parser::parser::ParseError> {
    let mut p = BinaryParser::new(data, Endian::Big);
    p.parse_template(t, &read_float)
}

#[test]
fn interpreter_parses_request() {
    let payload = sample_payload(1);
    let v = parse(&payload, &sample_template()).unwrap();
    assert_eq!(
        render(&v),
        r#"{"body":{"data":"4142","data_len":2,"flags":1,"method":"GET","method_len":3,"request_id":42},"msg_len":9,"msg_type":1}"#
    );
}

#[test]
fn interpreter_parses_response() {
    let payload = sample_payload(2);
    let v = parse(&payload, &sample_template()).unwrap();
    assert_eq!(
        render(&v),
        r#"{"body":{"body":"OK","body_len":2,"request_id":42,"status":200},"msg_len":16,"msg_type":2}"#
    );
}

#[test]
fn interpreter_parses_list_by_default_branch() {
    let payload = sample_payload(3);
    let v = parse(&payload, &sample_template()).unwrap();
    assert_eq!(
        render(&v),
        r#"{"body":{"count":2,"items":[{"id":100,"name":"Alice","name_len":5},{"id":101,"name":"Bob","name_len":3}],"tag":10,"tail":"test","tail_len":4},"msg_len":24,"msg_type":3}"#
    );
}

#[test]
fn single_field_elements_are_unwrapped() {
    let t = template(vec![Field::Array {
        name: "xs".to_string(),
        element: Box::new(scalar("x", FieldType::U8)),
        count: None,
        count_field: None,
        until_eof: true,
    }]);
    let v = parse(&[1, 2, 3], &t).unwrap();
    assert_eq!(render(&v), r#"{"xs":[1,2,3]}"#);
}

#[test]
fn signed_and_little_endian_scalars() {
    let t = template(vec![
        scalar("a", FieldType::I8),
        Field::Scalar { name: "b".to_string(), data_type: FieldType::I16, endian: Some(Endian::Little), length: None, length_field: None, encoding: None },
        scalar("c", FieldType::U32),
    ]);
    let v = parse(&[0xff, 0xfe, 0xff, 0, 0, 1, 0], &t).unwrap();
    assert_eq!(render(&v), r#"{"a":-1,"b":-2,"c":256}"#);
}

#[test]
fn floats_are_read_as_doubles() {
    let t = template(vec![scalar("f", FieldType::F32), scalar("g", FieldType::F64)]);
    let mut data = 1.5f32.to_be_bytes().to_vec();
    data.extend_from_slice(&(-0.25f64).to_be_bytes());
    let v = parse(&data, &t).unwrap();
    assert_eq!(render(&v), r#"{"f":1.5,"g":-0.25}"#);
}

#[test]
fn nan_float_becomes_null() {
    let t = template(vec![scalar("f", FieldType::F64)]);
    let v = parse(&f64::NAN.to_be_bytes(), &t).unwrap();
    assert_eq!(render(&v), r#"{"f":null}"#);
}

#[test]
fn utf16_strings_decode() {
    let t = template(vec![Field::Scalar {
        name: "s".to_string(),
        data_type: FieldType::String,
        endian: None,
        length: Some(4),
        length_field: None,
        encoding: Some("utf-16le".to_string()),
    }]);
    let v = parse(&[0x48, 0, 0x69, 0], &t).unwrap();
    assert_eq!(render(&v), r#"{"s":"Hi"}"#);
}

#[test]
fn odd_utf16_length_is_no_run() {
    let t = template(vec![Field::Scalar {
        name: "s".to_string(),
        data_type: FieldType::String,
        endian: None,
        length: Some(3),
        length_field: None,
        encoding: Some("utf-16be".to_string()),
    }]);
    let mut p = BinaryParser::new(&[0, 0x48, 0], Endian::Big);
    assert!(p.try_parse_template(&t, &read_float).is_none());
}

#[test]
fn remaining_bytes_by_default() {
    let t = template(vec![scalar("a", FieldType::U8), scalar("rest", FieldType::Bytes)]);
    let v = parse(&[1, 0xab, 0xcd], &t).unwrap();
    assert_eq!(render(&v), r#"{"a":1,"rest":"abcd"}"#);
}

#[test]
fn unnamed_struct_merges() {
    let t = template(vec![
        scalar("z", FieldType::U8),
        Field::Struct { name: None, fields: vec![scalar("a", FieldType::U8)] },
        Field::Struct { name: Some("s".to_string()), fields: vec![scalar("b", FieldType::U8)] },
    ]);
    let v = parse(&[1, 2, 3], &t).unwrap();
    assert_eq!(render(&v), r#"{"a":2,"s":{"b":3},"z":1}"#);
}

#[test]
fn nested_fields_are_found_by_name() {
    let t = template(vec![
        Field::Struct { name: Some("hdr".to_string()), fields: vec![scalar("n", FieldType::U8)] },
        sized("data", FieldType::Bytes, "n"),
    ]);
    let v = parse(&[2, 0xaa, 0xbb, 0xcc], &t).unwrap();
    assert_eq!(render(&v), r#"{"data":"aabb","hdr":{"n":2}}"#);
}

#[test]
fn error_end_of_data_reading_u8() {
    let t = template(vec![scalar("a", FieldType::U8)]);
    assert!(matches!(parse(&[], &t), Err(ParseErrorOf::EndOfDataReadingU8)));
}

#[test]
fn error_end_of_data() {
    let t = template(vec![scalar("a", FieldType::U8), scalar("b", FieldType::U32)]);
    assert!(matches!(parse(&[1, 2, 3], &t), Err(ParseErrorOf::EndOfData { need: 4, remaining: 2 })));
}

#[test]
fn error_length_field_not_found() {
    let t = template(vec![sized("d", FieldType::Bytes, "missing")]);
    match parse(&[1], &t) {
        Err(ParseErrorOf::LengthFieldNotFound(name)) => assert_eq!(name, "missing"),
        other => panic!("unexpected {:?}", other),
    }
}

#[test]
fn error_length_field_not_integer() {
    let t = template(vec![Field::Scalar { name: "s".to_string(), data_type: FieldType::String, endian: None, length: Some(1), length_field: None, encoding: None }, sized("d", FieldType::Bytes, "s")]);
    assert!(matches!(parse(b"x", &t), Err(ParseErrorOf::LengthFieldNotInteger(_))));
}

#[test]
fn error_no_branch_matched() {
    let t = template(vec![
        scalar("k", FieldType::U8),
        Field::Conditional { name: None, conditions: vec![ConditionalBranch { when: Some(cond_eq("k", 5)), fields: vec![] }], default: None },
    ]);
    assert!(matches!(parse(&[1], &t), Err(ParseErrorOf::NoBranchMatched)));
}

#[test]
fn error_condition_field_not_found() {
    let t = template(vec![Field::Conditional {
        name: None,
        conditions: vec![ConditionalBranch { when: Some(cond_eq("nope", 5)), fields: vec![] }],
        default: None,
    }]);
    assert!(matches!(parse(&[1], &t), Err(ParseErrorOf::ConditionFieldNotFound(_))));
}

#[test]
fn error_condition_without_operator() {
    let mut c = cond_eq("k", 1);
    c.eq = None;
    let t = template(vec![
        scalar("k", FieldType::U8),
        Field::Conditional { name: None, conditions: vec![ConditionalBranch { when: Some(c), fields: vec![] }], default: None },
    ]);
    assert!(matches!(parse(&[1], &t), Err(ParseErrorOf::ConditionWithoutOperator)));
}

#[test]
fn error_count_field_not_found_and_not_integer() {
    let t = template(vec![Field::Array { name: "a".to_string(), element: Box::new(scalar("x", FieldType::U8)), count: None, count_field: Some("c".to_string()), until_eof: false }]);
    assert!(matches!(parse(&[1], &t), Err(ParseErrorOf::CountFieldNotFound(_))));
    let t2 = template(vec![
        Field::Scalar { name: "c".to_string(), data_type: FieldType::String, endian: None, length: Some(1), length_field: None, encoding: None },
        Field::Array { name: "a".to_string(), element: Box::new(scalar("x", FieldType::U8)), count: None, count_field: Some("c".to_string()), until_eof: false },
    ]);
    assert!(matches!(parse(b"z", &t2), Err(ParseErrorOf::CountFieldNotInteger(_))));
}

#[test]
fn error_array_without_count() {
    let t = template(vec![Field::Array { name: "a".to_string(), element: Box::new(scalar("x", FieldType::U8)), count: None, count_field: None, until_eof: false }]);
    assert!(matches!(parse(&[1], &t), Err(ParseErrorOf::ArrayWithoutCount)));
}

#[test]
fn error_end_of_data_in_array() {
    let t = template(vec![Field::Array { name: "a".to_string(), element: Box::new(scalar("x", FieldType::U8)), count: Some(3), count_field: None, until_eof: false }]);
    assert!(matches!(parse(&[1, 2], &t), Err(ParseErrorOf::EndOfDataInArray)));
}

#[test]
fn ordering_conditions_read_text_as_numbers() {
    let mut c = cond_eq("s", 0);
    c.eq = None;
    c.gt = Some(JsonValue::Number(JsonNumber::PosInt(10)));
    let t = template(vec![
        Field::Scalar { name: "s".to_string(), data_type: FieldType::String, endian: None, length: Some(4), length_field: None, encoding: None },
        Field::Conditional {
            name: None,
            conditions: vec![ConditionalBranch { when: Some(c), fields: vec![scalar("big", FieldType::U8)] }],
            default: Some(vec![scalar("small", FieldType::U8)]),
        },
    ]);
    let v = parse(b"12.5\x07", &t).unwrap();
    assert_eq!(render(&v), r#"{"big":7,"s":"12.5"}"#);
    let v2 = parse(b"9e-1\x07", &t).unwrap();
    assert_eq!(render(&v2), r#"{"s":"9e-1","small":7}"#);
}

#[test]
fn in_list_and_ne_conditions() {
    let c = Condition {
        field: "k".to_string(),
        eq: None,
        ne: Some(JsonValue::Number(JsonNumber::PosInt(4))),
        gt: None,
        lt: None,
        ge: None,
        le: None,
        in_list: Some(vec![JsonValue::Number(JsonNumber::PosInt(2)), JsonValue::String("3".to_string())]),
    };
    let t = template(vec![
        scalar("k", FieldType::U8),
        Field::Conditional { name: Some("r".to_string()), conditions: vec![ConditionalBranch { when: Some(c), fields: vec![scalar("hit", FieldType::U8)] }], default: Some(vec![]) },
    ]);
    assert_eq!(render(&parse(&[3, 9], &t).unwrap()), r#"{"k":3,"r":{"hit":9}}"#);
    assert_eq!(render(&parse(&[4, 9], &t).unwrap()), r#"{"k":4,"r":{}}"#);
}

#[test]
fn branches_without_condition_are_passed_over() {
    let t = template(vec![
        scalar("k", FieldType::U8),
        Field::Conditional {
            name: None,
            conditions: vec![ConditionalBranch { when: None, fields: vec![scalar("never", FieldType::U8)] }],
            default: Some(vec![scalar("dflt", FieldType::U8)]),
        },
    ]);
    assert_eq!(render(&parse(&[1, 2], &t).unwrap()), r#"{"dflt":2,"k":1}"#);
}

#[test]
fn parser_continues_from_its_position() {
    let t = template(vec![scalar("a", FieldType::U8)]);
    let data = [5u8, 6];
    let mut p = BinaryParser::new(&data, Endian::Big);
    assert_eq!(render(&p.parse_template(&t, &read_float).unwrap()), r#"{"a":5}"#);
    assert_eq!(render(&p.parse_template(&t, &read_float).unwrap()), r#"{"a":6}"#);
}

#[test]
fn integer_text_parsing() {
    assert_eq!(parse_text_i64("-42"), Some(-42));
    assert_eq!(parse_text_i64("+7"), Some(7));
    assert_eq!(parse_text_i64("-9223372036854775808"), Some(i64::MIN));
    assert_eq!(parse_text_i64("9223372036854775808"), None);
    assert_eq!(parse_text_i64("-"), None);
    assert_eq!(parse_text_i64(""), None);
    assert_eq!(parse_text_i64("1a"), None);
    assert_eq!(parse_text_u64("18446744073709551615"), Some(u64::MAX));
    assert_eq!(parse_text_u64("18446744073709551616"), None);
    assert_eq!(parse_text_u64("-1"), None);
    assert_eq!(parse_text_u64("007"), Some(7));
}

#[test]
fn value_equality_rules() {
    let n = |v: u64| JsonValue::Number(JsonNumber::PosInt(v));
    let s = |t: &str| JsonValue::String(t.to_string());
    assert!(values_equal_exec(&n(5), &n(5)));
    assert!(values_equal_exec(&n(5), &s("5")));
    assert!(values_equal_exec(&s("+5"), &n(5)));
    assert!(!values_equal_exec(&s("5.0"), &n(5)));
    assert!(values_equal_exec(&n(2), &JsonValue::Number(JsonNumber::Float(2.0f64.to_bits()))));
    assert!(values_equal_exec(&JsonValue::Number(JsonNumber::NegInt(-3)), &s("-3")));
    assert!(!values_equal_exec(&JsonValue::Null, &JsonValue::Null));
    assert!(values_equal_exec(&JsonValue::Bool(true), &JsonValue::Bool(true)));
}

#[test]
fn value_ordering_rules() {
    let n = |v: u64| JsonValue::Number(JsonNumber::PosInt(v));
    let s = |t: &str| JsonValue::String(t.to_string());
    assert!(values_compare_exec(&n(5), &n(3), Relation::Greater, &read_float));
    assert!(values_compare_exec(&s("2.5"), &n(3), Relation::Less, &read_float));
    assert!(values_compare_exec(&n(3), &n(3), Relation::GreaterOrEqual, &read_float));
    assert!(!values_compare_exec(&s("abc"), &n(3), Relation::LessOrEqual, &read_float));
    assert!(!values_compare_exec(&s("NaN"), &n(3), Relation::Less, &read_float));
}

#[test]
fn every_operator_of_a_condition_must_hold() {
    let mut c = cond_eq("k", 0);
    c.eq = None;
    c.ge = Some(JsonValue::Number(JsonNumber::PosInt(2)));
    c.le = Some(JsonValue::Number(JsonNumber::PosInt(4)));
    let t = template(vec![
        scalar("k", FieldType::U8),
        Field::Conditional {
            name: None,
            conditions: vec![ConditionalBranch { when: Some(c), fields: vec![scalar("mid", FieldType::U8)] }],
            default: Some(vec![scalar("out", FieldType::U8)]),
        },
    ]);
    assert_eq!(render(&parse(&[3, 9], &t).unwrap()), r#"{"k":3,"mid":9}"#);
    assert_eq!(render(&parse(&[5, 9], &t).unwrap()), r#"{"k":5,"out":9}"#);
    assert_eq!(render(&parse(&[1, 9], &t).unwrap()), r#"{"k":1,"out":9}"#);
}
