use pcap_parser::analyzer::{
    analyze_payloads, detect_signature, infer_fields, is_likely_ascii, try_match_u16, try_match_u32, EndianGuess,
    FieldPatternOf, InferredField,
};
use pcap_parser::capture_gen::sample_payload;
use pcap_parser::compiler::compile_template;
use pcap_parser::infer::{generate_analysis_summary, generate_template, inferred_to_field};
use pcap_parser::parser::BinaryParser;
use pcap_parser::template::{Endian, Field, FieldType};
use pcap_parser::vm::VmParser;

fn payloads() -> Vec<Vec<u8>> {
    vec![
        vec![0xAB, 0xCD, 0x01, 0x00, 0x10, 0x41],
        vec![0xAB, 0xCD, 0x02, 0x00, 0x20, 0x42],
        vec![0xAB, 0xCD, 0x03, 0x00, 0x30, 0x43, 0x99],
    ]
}

#[test]
fn byte_statistics() {
    let ps = payloads();
    let refs: Vec<&[u8]> = ps.iter().map(|p| p.as_slice()).collect();
    let a = analyze_payloads(&refs, 64);
    assert_eq!(a.total_packets, 3);
    assert_eq!(a.min_length, 6);
    assert_eq!(a.max_length, 7);
    assert_eq!(a.length_sum, 19);
    assert_eq!(a.byte_stats.len(), 6);
    let s0 = &a.byte_stats[0];
    assert!(s0.is_constant);
    assert_eq!(s0.constant_value, Some(0xAB));
    assert_eq!(s0.unique_values, vec![0xAB]);
    assert_eq!(s0.value_counts.get(&0xAB), Some(&3));
    let s2 = &a.byte_stats[2];
    assert!(!s2.is_constant);
    assert_eq!(s2.constant_value, None);
    assert_eq!(s2.unique_values, vec![1, 2, 3]);
    assert_eq!((s2.min, s2.max), (1, 3));
    assert_eq!(s2.count, 3);
    assert_eq!(s2.value_counts.len(), 3);
}

#[test]
fn analysed_width_is_limited() {
    let ps = payloads();
    let refs: Vec<&[u8]> = ps.iter().map(|p| p.as_slice()).collect();
    assert_eq!(analyze_payloads(&refs, 2).byte_stats.len(), 2);
    assert_eq!(analyze_payloads(&[], 8).byte_stats.len(), 0);
}

#[test]
fn inferred_fields_of_a_header() {
    let ps = payloads();
    let refs: Vec<&[u8]> = ps.iter().map(|p| p.as_slice()).collect();
    let a = analyze_payloads(&refs, 64);
    let fields = infer_fields(&a);
    let summary: Vec<(usize, usize, String, u8)> =
        fields.iter().map(|f| (f.offset, f.size, f.suggested_name.clone(), f.confidence)).collect();
    assert_eq!(
        summary,
        vec![
            (0, 2, "magic".to_string(), 95),
            (2, 2, "length".to_string(), 85),
            (4, 1, "field_u8_4".to_string(), 50),
            (5, 1, "char_5".to_string(), 60),
        ]
    );
    assert_eq!(fields[0].pattern, FieldPatternOf::Constant(vec![0xAB, 0xCD]));
    assert_eq!(
        fields[1].pattern,
        FieldPatternOf::LengthField { field_size: 2, endian: EndianGuess::Little, points_to: 4 }
    );
    assert_eq!(fields[2].pattern, FieldPatternOf::UInt8 { min: 0x10, max: 0x30 });
    assert_eq!(fields[3].pattern, FieldPatternOf::AsciiChar);
}

#[test]
fn fields_tile_the_analysed_bytes() {
    let ps = payloads();
    let refs: Vec<&[u8]> = ps.iter().map(|p| p.as_slice()).collect();
    let a = analyze_payloads(&refs, 64);
    let fields = infer_fields(&a);
    let mut next = 0;
    for f in &fields {
        assert_eq!(f.offset, next);
        assert!(f.size >= 1);
        next += f.size;
    }
    assert_eq!(next, a.byte_stats.len());
}

#[test]
fn thirty_two_bit_fields_and_names() {
    let ps: Vec<Vec<u8>> = (0..3u8).map(|i| vec![0xAA, 0xBB, 0xCC, 0xDD, i, i + 7, 0, 0]).collect();
    let refs: Vec<&[u8]> = ps.iter().map(|p| p.as_slice()).collect();
    let a = analyze_payloads(&refs, 64);
    let fields = infer_fields(&a);
    assert_eq!(fields.len(), 2);
    assert_eq!(fields[0].suggested_name, "magic");
    assert_eq!(fields[1].suggested_name, "msg_type");
    assert_eq!(fields[1].pattern, FieldPatternOf::UInt32 { min: 0, max: u32::MAX, endian: EndianGuess::Little });
}

#[test]
fn signature_is_the_longest_constant_run() {
    let ps: Vec<Vec<u8>> = (0..3u8).map(|i| vec![1, 2, i, 7, 8, 9, i, 5]).collect();
    let refs: Vec<&[u8]> = ps.iter().map(|p| p.as_slice()).collect();
    let a = analyze_payloads(&refs, 64);
    assert_eq!(detect_signature(&a), Some((3, vec![7, 8, 9])));
    let none: Vec<Vec<u8>> = (0..3u8).map(|i| vec![i, 1, i]).collect();
    let refs2: Vec<&[u8]> = none.iter().map(|p| p.as_slice()).collect();
    assert_eq!(detect_signature(&analyze_payloads(&refs2, 64)), None);
}

#[test]
fn ties_keep_the_first_run() {
    let ps: Vec<Vec<u8>> = (0..2u8).map(|i| vec![1, 2, i, 3, 4]).collect();
    let refs: Vec<&[u8]> = ps.iter().map(|p| p.as_slice()).collect();
    assert_eq!(detect_signature(&analyze_payloads(&refs, 64)), Some((0, vec![1, 2])));
}

#[test]
fn generated_template() {
    let ps = payloads();
    let refs: Vec<&[u8]> = ps.iter().map(|p| p.as_slice()).collect();
    let a = analyze_payloads(&refs, 64);
    let t = generate_template(&a, Some("demo"));
    assert_eq!(t.name.as_deref(), Some("demo"));
    assert_eq!(t.endian, Endian::Little);
    let sig = t.signature.as_ref().unwrap();
    assert_eq!((sig.offset, sig.bytes.as_str()), (0, "abcd"));
    assert_eq!(t.fields.len(), 4);
    match &t.fields[0] {
        Field::Scalar { name, data_type, length, endian, .. } => {
            assert_eq!(name, "magic");
            assert_eq!(*data_type, FieldType::Bytes);
            assert_eq!(*length, Some(2));
            assert_eq!(*endian, None);
        },
        _ => panic!("not a scalar"),
    }
    match &t.fields[1] {
        Field::Scalar { name, data_type, endian, .. } => {
            assert_eq!(name, "length");
            assert_eq!(*data_type, FieldType::U16);
            assert_eq!(*endian, None);
        },
        _ => panic!("not a scalar"),
    }
    match &t.fields[3] {
        Field::Scalar { data_type, length, encoding, .. } => {
            assert_eq!(*data_type, FieldType::String);
            assert_eq!(*length, Some(1));
            assert_eq!(encoding.as_deref(), Some("utf-8"));
        },
        _ => panic!("not a scalar"),
    }
}

#[test]
fn generated_signature_compiles_to_detected_bytes() {
    let ps: Vec<Vec<u8>> = (0..3usize).map(sample_payload_or_filler).collect();
    let refs: Vec<&[u8]> = ps.iter().map(|p| p.as_slice()).collect();
    let a = analyze_payloads(&refs, 64);
    let (offset, bytes) = detect_signature(&a).unwrap();
    let t = generate_template(&a, None);
    let p = compile_template(&t).unwrap();
    let sig = p.signature.unwrap();
    assert_eq!((sig.offset, sig.bytes), (offset, bytes.clone()));
    assert_eq!(hex::decode(t.signature.unwrap().bytes.as_bytes()).unwrap(), bytes);
}

fn sample_payload_or_filler(i: usize) -> Vec<u8> {
    let mut v = sample_payload(1);
    v[5] = i as u8;
    v
}

#[test]
fn summary_text() {
    let ps = payloads();
    let refs: Vec<&[u8]> = ps.iter().map(|p| p.as_slice()).collect();
    let a = analyze_payloads(&refs, 3);
    let s = generate_analysis_summary(&a, "6.3");
    let lines = vec![
        "总包数: 3".to_string(),
        format!("长度范围: {} - {} (平均 {:.1})", 6, 7, 19.0f64 / 3.0),
        "分析字节范围: 0 - 2".to_string(),
        String::new(),
        "字节分布概览:".to_string(),
        "  常数字节数: 2".to_string(),
        "  变字节数: 1".to_string(),
        String::new(),
        "前32字节详情:".to_string(),
        format!("  [{:3}] {:10} {} (唯一值: {})", 0, format!("0x{:02X}", 0xABu8), "常量", 1),
        format!("  [{:3}] {:10} {} (唯一值: {})", 1, format!("0x{:02X}", 0xCDu8), "常量", 1),
        format!("  [{:3}] {:10} {} (唯一值: {})", 2, format!("0x{:02X}-0x{:02X}", 1u8, 3u8), "变化", 3),
    ];
    let expected = lines.join("\n");
    assert_eq!(s, expected);
}

#[test]
fn generated_template_reads_alike_in_both_engines() {
    let ps = payloads();
    let refs: Vec<&[u8]> = ps.iter().map(|p| p.as_slice()).collect();
    let a = analyze_payloads(&refs, 64);
    let t = generate_template(&a, None);
    let program = compile_template(&t).unwrap();
    for p in &ps {
        let mut vm = VmParser::new(p, &program);
        let from_vm = vm.run_bounded(program.instructions.len() as u64).unwrap().unwrap();
        let mut parser = BinaryParser::new(p, t.endian);
        let from_interpreter = parser.parse_template(&t, &|s: &str| s.parse::<f64>().ok().map(f64::to_bits)).unwrap();
        assert_eq!(format!("{:?}", from_vm), format!("{:?}", from_interpreter));
    }
}

#[test]
fn matchers_on_neighbouring_offsets() {
    let ps = payloads();
    let refs: Vec<&[u8]> = ps.iter().map(|p| p.as_slice()).collect();
    let a = analyze_payloads(&refs, 64);
    let st = &a.byte_stats;
    assert!(try_match_u16(&st[5..]).is_none());
    assert!(matches!(
        try_match_u16(&st[1..]),
        Some((FieldPatternOf::UInt16 { min: 0, max: 255, endian: EndianGuess::Big }, 2))
    ));
    assert!(matches!(
        try_match_u16(&st[2..]),
        Some((FieldPatternOf::UInt16 { min: 0, max: 255, endian: EndianGuess::Little }, 2))
    ));
    assert!(try_match_u16(&st[0..]).is_none());
    assert!(try_match_u32(&st[3..]).is_none());
    assert!(try_match_u32(&st[0..]).is_none());
    let q: Vec<Vec<u8>> = vec![vec![1, 2, 3, 4], vec![1, 2, 5, 6]];
    let qrefs: Vec<&[u8]> = q.iter().map(|p| p.as_slice()).collect();
    let b = analyze_payloads(&qrefs, 64);
    assert!(matches!(
        try_match_u32(&b.byte_stats),
        Some((FieldPatternOf::UInt32 { min: 0, max: 0xffff_ffff, endian: EndianGuess::Big }, 4))
    ));
    assert!(is_likely_ascii(&st[5]));
    assert!(!is_likely_ascii(&st[4]));
}

#[test]
fn inferred_fields_become_template_fields() {
    let f = InferredField {
        offset: 2,
        size: 2,
        pattern: FieldPatternOf::UInt16 { min: 0, max: 255, endian: EndianGuess::Little },
        suggested_name: "x".to_string(),
        confidence: 70,
    };
    match inferred_to_field(&f, Endian::Big) {
        Field::Scalar { name, data_type, endian, length, length_field, .. } => {
            assert_eq!((name.as_str(), data_type, endian, length, length_field), ("x", FieldType::U16, Some(Endian::Little), None, None));
        },
        _ => panic!("not a scalar"),
    }
    let c = InferredField {
        offset: 0,
        size: 2,
        pattern: FieldPatternOf::Constant(vec![0xab, 0xcd]),
        suggested_name: "magic".to_string(),
        confidence: 95,
    };
    match inferred_to_field(&c, Endian::Little) {
        Field::Scalar { data_type, length, endian, .. } => {
            assert_eq!((data_type, length, endian), (FieldType::Bytes, Some(2), None));
        },
        _ => panic!("not a scalar"),
    }
}

#[test]
fn constant_fields_cover_maximal_runs() {
    let ps = payloads();
    let refs: Vec<&[u8]> = ps.iter().map(|p| p.as_slice()).collect();
    let a = analyze_payloads(&refs, 64);
    let fields = infer_fields(&a);
    for f in &fields {
        match &f.pattern {
            FieldPatternOf::Constant(b) => {
                assert_eq!(b.len(), f.size);
                for j in 0..f.size {
                    assert!(a.byte_stats[f.offset + j].is_constant);
                    assert_eq!(Some(b[j]), a.byte_stats[f.offset + j].constant_value);
                }
                assert!(f.offset + f.size == a.byte_stats.len() || !a.byte_stats[f.offset + f.size].is_constant);
                if f.offset < 4 {
                    assert_eq!(f.suggested_name, "magic");
                }
            },
            _ => assert!(f.size == 1 || f.size == 2 || f.size == 4),
        }
    }
}
