use pcap_parser::capture_gen::{
    build_eth_ip_tcp, build_matching_payload, build_non_matching_payload, bulk_packet, make_ether_ip_tcp_payload,
    sample_capture, sample_payload,
};
use pcap_parser::decimal::{append_decimal, append_zero_padded};
use pcap_parser::compiler::{try_compile_template, CompileErrorOf, CompileFailureOf};
use pcap_parser::hexcodec::HexError;
use pcap_parser::vm::VmParser;
use pcap_parser::json::{compare_keys, deep_clone, obj_lookup, obj_merge_into, obj_set, JsonNumber, JsonValue, KeyOrder};
use pcap_parser::numeric::{f32_to_f64, f64_equal, f64_less, magnitude_to_f64, number_to_f64};
use pcap_parser::pcap::{extract_l7_payload, l7_payload_readable_exec, PcapReader};
use pcap_parser::scalar::{decode_scalar, decode_text, utf16_code_units};
use pcap_parser::bytecode::{ScalarType, StringEncoding};
use pcap_parser::template::{
    template_format, Endian, Field, FieldType, ProtocolTemplate, TemplateFileError, TemplateFormat, TemplateSignature,
};

fn num(n: u64) -> JsonValue {
    JsonValue::Number(JsonNumber::PosInt(n))
}

#[test]
fn keys_compare_by_bytes() {
    assert_eq!(compare_keys("a", "b"), KeyOrder::Less);
    assert_eq!(compare_keys("ab", "a"), KeyOrder::Greater);
    assert_eq!(compare_keys("é", "z"), KeyOrder::Greater);
    assert_eq!(compare_keys("", ""), KeyOrder::Equal);
}

#[test]
fn objects_keep_keys_sorted_and_read_back() {
    let mut o: Vec<(String, JsonValue)> = Vec::new();
    obj_set(&mut o, "m".to_string(), num(1));
    obj_set(&mut o, "b".to_string(), num(2));
    obj_set(&mut o, "z".to_string(), num(3));
    obj_set(&mut o, "m".to_string(), num(4));
    let keys: Vec<&str> = o.iter().map(|(k, _)| k.as_str()).collect();
    assert_eq!(keys, vec!["b", "m", "z"]);
    assert!(matches!(obj_lookup(&o, "m"), Some(JsonValue::Number(JsonNumber::PosInt(4)))));
    assert!(matches!(obj_lookup(&o, "b"), Some(JsonValue::Number(JsonNumber::PosInt(2)))));
    assert!(obj_lookup(&o, "q").is_none());
    obj_merge_into(&mut o, vec![("a".to_string(), num(9)), ("z".to_string(), num(8))]);
    let keys: Vec<&str> = o.iter().map(|(k, _)| k.as_str()).collect();
    assert_eq!(keys, vec!["a", "b", "m", "z"]);
    assert!(matches!(obj_lookup(&o, "z"), Some(JsonValue::Number(JsonNumber::PosInt(8)))));
    let copy = deep_clone(&JsonValue::Object(o));
    assert!(matches!(copy, JsonValue::Object(ref e) if e.len() == 4));
}

fn signed_template(signature: &str) -> ProtocolTemplate {
    ProtocolTemplate {
        name: None,
        endian: Endian::Big,
        signature: Some(TemplateSignature { offset: 1, bytes: signature.to_string() }),
        fields: vec![Field::Scalar {
            name: "b".to_string(),
            data_type: FieldType::Bytes,
            endian: None,
            length: Some(3),
            length_field: None,
            encoding: None,
        }],
    }
}

#[test]
fn hex_round_trip_and_errors() {
    let program = try_compile_template(&signed_template("ABcd")).ok().unwrap();
    assert_eq!(program.signature.as_ref().unwrap().bytes, vec![0xab, 0xcd]);
    let data = [0x00u8, 0xab, 0x7f];
    let mut vm = VmParser::new(&data, &program);
    let v = vm.run_bounded(10).unwrap().unwrap();
    assert!(matches!(v, JsonValue::Object(ref e) if e.len() == 1 && e[0].0 == "b"
        && matches!(e[0].1, JsonValue::String(ref t) if t == "00ab7f")));
    assert!(matches!(
        try_compile_template(&signed_template("abc")),
        Err(CompileFailureOf::Error(CompileErrorOf::InvalidSignatureHex(HexError::OddLength)))
    ));
    assert!(matches!(
        try_compile_template(&signed_template("zz")),
        Err(CompileFailureOf::Error(CompileErrorOf::InvalidSignatureHex(HexError::InvalidHexCharacter { c: 'z', index: 0 })))
    ));
}

#[test]
fn template_formats() {
    assert!(matches!(template_format(Some("yml")), Ok(TemplateFormat::Yaml)));
    assert!(matches!(template_format(Some("yaml")), Ok(TemplateFormat::Yaml)));
    assert!(matches!(template_format(Some("json")), Ok(TemplateFormat::Json)));
    match template_format(Some("toml")) {
        Err(TemplateFileError::UnsupportedFormat(e)) => assert_eq!(e, "toml"),
        _ => panic!(),
    }
    assert!(matches!(template_format(None), Err(TemplateFileError::NoExtension)));
    assert_eq!(Endian::default(), Endian::Big);
}

#[test]
fn decimal_text() {
    let mut s = String::new();
    append_decimal(&mut s, 0);
    append_decimal(&mut s, 1234567890123);
    assert_eq!(s, "01234567890123");
    let mut p = String::from("x");
    append_zero_padded(&mut p, 42, 5);
    assert_eq!(p, "x00042");
}

#[test]
fn numbers_as_doubles() {
    assert_eq!(f64::from_bits(magnitude_to_f64(12345)), 12345.0);
    assert_eq!(f64::from_bits(magnitude_to_f64(u64::MAX)), u64::MAX as f64);
    assert_eq!(f64::from_bits(magnitude_to_f64((1 << 53) + 1)), ((1u64 << 53) + 1) as f64);
    assert_eq!(f64::from_bits(number_to_f64(JsonNumber::NegInt(-7))), -7.0);
    assert_eq!(f32_to_f64(1.25f32.to_bits()), Some(1.25f64.to_bits()));
    assert_eq!(f32_to_f64(f32::INFINITY.to_bits()), None);
    assert!(f64_equal(0.0f64.to_bits(), (-0.0f64).to_bits()));
    assert!(!f64_equal(f64::NAN.to_bits(), f64::NAN.to_bits()));
    assert!(f64_less((-2.0f64).to_bits(), 1.0f64.to_bits()));
    assert!(!f64_less(1.0f64.to_bits(), 1.0f64.to_bits()));
}

#[test]
fn scalars_and_text() {
    let d = [0x80u8, 0x01, 0xff, 0xff, 0xff, 0xfe];
    assert!(matches!(decode_scalar(&d, 0, ScalarType::I8, Endian::Big), JsonValue::Number(JsonNumber::NegInt(-128))));
    assert!(matches!(decode_scalar(&d, 0, ScalarType::U16, Endian::Little), JsonValue::Number(JsonNumber::PosInt(0x0180))));
    assert!(matches!(decode_scalar(&d, 2, ScalarType::I32, Endian::Big), JsonValue::Number(JsonNumber::NegInt(-2))));
    assert_eq!(utf16_code_units(&[1, 2, 3], true), vec![0x0201, 0]);
    assert_eq!(decode_text(&[0xd8, 0x00], StringEncoding::Utf16Be), "\u{fffd}");
    assert_eq!(decode_text(b"ok\xff", StringEncoding::Utf8), "ok\u{fffd}");
}

#[test]
fn sample_capture_reads_back() {
    let file = sample_capture();
    let reader = PcapReader::parse(&file).unwrap();
    assert_eq!(reader.packet_count(), 3);
    let times: Vec<(u32, u32)> = reader.packets().iter().map(|p| (p.ts_sec, p.ts_usec)).collect();
    assert_eq!(times, vec![(1_700_000_000, 123456), (1_700_000_001, 234567), (1_700_000_002, 345678)]);
    for (i, p) in reader.packets().iter().enumerate() {
        assert_eq!(extract_l7_payload(&p.data), sample_payload(i + 1).as_slice());
        assert_eq!(p.orig_len as usize, p.data.len());
    }
}

#[test]
fn big_endian_capture_header_is_read() {
    let mut file = vec![0xa1, 0xb2, 0xc3, 0xd4];
    file.extend_from_slice(&[0u8; 20]);
    file.extend_from_slice(&[0, 0, 0, 5, 0, 0, 0, 6, 0, 0, 0, 1, 0, 0, 0, 1, 0x77]);
    let reader = PcapReader::parse(&file).unwrap();
    assert_eq!(reader.packet_count(), 1);
    assert_eq!((reader.packets()[0].ts_sec, reader.packets()[0].ts_usec), (5, 6));
    assert_eq!(reader.packets()[0].data, vec![0x77]);
}

#[test]
fn truncated_record_ends_the_packets() {
    let mut out = sample_capture();
    out.truncate(out.len() - 1);
    assert_eq!(PcapReader::parse(&out).unwrap().packet_count(), 2);
    assert_eq!(PcapReader::read_u32(&[1, 0, 0, 0], true), 1);
    assert_eq!(PcapReader::read_u32(&[1, 0, 0, 0], false), 0x0100_0000);
}

#[test]
fn bulk_packets() {
    let (sec, usec, frame) = bulk_packet(2500, true);
    assert_eq!((sec, usec), (1_700_000_002, 500_000));
    assert_eq!(extract_l7_payload(&frame), build_matching_payload(2500 % 3 + 1, 2500).as_slice());
    let (_, _, other) = bulk_packet(7, false);
    assert_eq!(extract_l7_payload(&other), build_non_matching_payload(7).as_slice());
    assert_eq!(build_non_matching_payload(1), vec![0, 12, 0xff, 0, 0xff, 0, 0, 0, 0, 1, 0xaa, 0xbb, 0xcc, 0xdd]);
    assert_eq!(build_matching_payload(2, 9).len(), 16);
}

#[test]
fn frames_carry_their_payload() {
    let f = make_ether_ip_tcp_payload(b"xyz");
    assert_eq!(f.len(), 57);
    assert_eq!((f[16], f[17]), (0, 43));
    assert_eq!(extract_l7_payload(&f), b"xyz");
    let g = build_eth_ip_tcp(b"");
    assert_eq!(g.len(), 54);
    assert_eq!(extract_l7_payload(&g), b"");
    assert!(l7_payload_readable_exec(&g));
}

#[test]
fn non_ip_frames_keep_what_follows_the_ethernet_header() {
    let mut f = vec![0u8; 12];
    f.extend_from_slice(&[0x86, 0xdd, 1, 2, 3]);
    assert_eq!(extract_l7_payload(&f), &[1, 2, 3]);
    assert_eq!(extract_l7_payload(&[1, 2, 3]), &[1, 2, 3]);
}
