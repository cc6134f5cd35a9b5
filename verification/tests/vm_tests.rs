use pcap_parser::bytecode::{is_scalar_type, Instruction, JumpValue, LoopCount, ScalarType, VarLength};
use pcap_parser::capture_gen::sample_payload;
use pcap_parser::compiler::{compile_template, try_compile_template, CompileErrorOf, CompileFailureOf};
use pcap_parser::json::{JsonNumber, JsonValue};
use pcap_parser::parser::BinaryParser;
use pcap_parser::template::{Condition, ConditionalBranch, Endian, Field, FieldType, ProtocolTemplate, TemplateSignature};
use pcap_parser::vm::{run_packet, PacketOutcome, VmError, VmParser};

fn render(v: &JsonValue) -> String {
    match v {
        JsonValue::Null => "null".to_string(),
        JsonValue::Bool(b) => b.to_string(),
        JsonValue::Number(JsonNumber::PosInt(n)) => n.to_string(),
        JsonValue::Number(JsonNumber::NegInt(n)) => n.to_string(),
        JsonValue::Number(JsonNumber::Float(b)) => format!("{:?}", f64::from_bits(*b)),
        JsonValue::String(s) => format!("{:?}", s),
        JsonValue::Array(items) => format!("[{}]", items.iter().map(render).collect::<Vec<_>>().join(",")),
        JsonValue::Object(entries) => format!(
            "{{{}}}",
            entries.iter().map(|(k, v)| format!("{:?}:{}", k, render(v))).collect::<Vec<_>>().join(",")
        ),
    }
}

fn read_float(s: &str) -> Option<u64> {
    s.parse::<f64>().ok().map(|f| f.to_bits())
}

fn scalar(name: &str, data_type: FieldType) -> Field {
    Field::Scalar { name: name.to_string(), data_type, endian: None, length: None, length_field: None, encoding: None }
}

fn sized(name: &str, data_type: FieldType, length_field: &str) -> Field {
    Field::Scalar {
        name: name.to_string(),
        data_type,
        endian: None,
        length: None,
        length_field: Some(length_field.to_string()),
        encoding: None,
    }
}

fn cond_eq(field: &str, v: u64) -> Condition {
    Condition {
        field: field.to_string(),
        eq: Some(JsonValue::Number(JsonNumber::PosInt(v))),
        ne: None,
        gt: None,
        lt: None,
        ge: None,
        le: None,
        in_list: None,
    }
}

fn template(fields: Vec<Field>) -> ProtocolTemplate {
    ProtocolTemplate { name: None, endian: Endian::Big, signature: None, fields }
}

fn message_template() -> ProtocolTemplate {
    template(vec![
        scalar("msg_len", FieldType::U16),
        scalar("msg_type", FieldType::U32),
        Field::Conditional {
            name: Some("body".to_string()),
            conditions: vec![
                ConditionalBranch {
                    when: Some(cond_eq("msg_type", 1)),
                    fields: vec![
                        scalar("request_id", FieldType::U32),
                        scalar("method_len", FieldType::U8),
                        sized("method", FieldType::String, "method_len"),
                    ],
                },
                ConditionalBranch {
                    when: Some(cond_eq("msg_type", 2)),
                    fields: vec![scalar("request_id", FieldType::U32), scalar("status", FieldType::U16)],
                },
            ],
            default: Some(vec![
                scalar("count", FieldType::U16),
                Field::Array {
                    name: "items".to_string(),
                    element: Box::new(Field::Struct {
                        name: None,
                        fields: vec![scalar("id", FieldType::U32), scalar("name_len", FieldType::U8), sized("name", FieldType::String, "name_len")],
                    }),
                    count: None,
                    count_field: Some("count".to_string()),
                    until_eof: false,
                },
            ]),
        },
    ])
}

fn run_vm(data: &[u8], t: &ProtocolTemplate) -> Result<JsonValue, VmError> {
    let program = compile_template(t).unwrap();
    let mut vm = VmParser::new(data, &program);
    vm.run()
}

#[test]
fn vm_runs_request() {
    let payload = sample_payload(1);
    let v = run_vm(&payload, &message_template()).unwrap();
    assert_eq!(render(&v), r#"{"body":{"method":"GET","method_len":3,"request_id":42},"msg_len":9,"msg_type":1}"#);
}

#[test]
fn vm_runs_response() {
    let payload = sample_payload(2);
    let v = run_vm(&payload, &message_template()).unwrap();
    assert_eq!(render(&v), r#"{"body":{"request_id":42,"status":200},"msg_len":16,"msg_type":2}"#);
}

#[test]
fn vm_runs_list() {
    let payload = sample_payload(3);
    let v = run_vm(&payload, &message_template()).unwrap();
    assert_eq!(
        render(&v),
        r#"{"body":{"count":2,"items":[{"id":100,"name":"Alice","name_len":5},{"id":101,"name":"Bob","name_len":3}]},"msg_len":24,"msg_type":3}"#
    );
}

#[test]
fn vm_and_interpreter_agree_on_the_samples() {
    let t = message_template();
    for kind in 1..=3 {
        let payload = sample_payload(kind);
        let a = run_vm(&payload, &t).unwrap();
        let mut p = BinaryParser::new(&payload, Endian::Big);
        let b = p.parse_template(&t, &read_float).unwrap();
        assert_eq!(render(&a), render(&b));
    }
}

#[test]
fn bounded_run_agrees_with_run() {
    let t = message_template();
    let payload = sample_payload(3);
    let program = compile_template(&t).unwrap();
    let mut vm = VmParser::new(&payload, &program);
    let bounded = vm.run_bounded(10_000).unwrap().unwrap();
    assert_eq!(render(&bounded), render(&run_vm(&payload, &t).unwrap()));
    let mut short = VmParser::new(&payload, &program);
    assert!(short.run_bounded(2).is_none());
}

#[test]
fn vm_errors() {
    let t = template(vec![scalar("a", FieldType::U8)]);
    assert!(matches!(run_vm(&[], &t), Err(VmError::EndOfDataReadingU8)));
    let t2 = template(vec![scalar("a", FieldType::U32)]);
    assert!(matches!(run_vm(&[1, 2], &t2), Err(VmError::EndOfData { need: 4, remaining: 2 })));
}

#[test]
fn signature_check() {
    let mut t = template(vec![scalar("a", FieldType::U8)]);
    t.signature = Some(TemplateSignature { offset: 1, bytes: "beef".to_string() });
    let program = compile_template(&t).unwrap();
    assert!(VmParser::check_signature(&[0, 0xbe, 0xef, 1], &program));
    assert!(!VmParser::check_signature(&[0xbe, 0xef, 1], &program));
    assert!(!VmParser::check_signature(&[0, 0xbe], &program));
}

#[test]
fn compiled_instructions() {
    let t = template(vec![scalar("n", FieldType::U16), sized("d", FieldType::Bytes, "n")]);
    let p = compile_template(&t).unwrap();
    assert_eq!(p.instructions.len(), 2);
    assert!(matches!(p.instructions[0], Instruction::ReadScalar { name_idx: 0, var_idx: 0, scalar_type: ScalarType::U16, endian: Endian::Big }));
    assert!(matches!(p.instructions[1], Instruction::ReadBytes { name_idx: 1, var_idx: 1, length: VarLength::Ref(0) }));
    assert_eq!(p.string_table, vec!["n".to_string(), "d".to_string()]);
    assert_eq!(p.num_vars, 2);
    assert!(p.is_well_formed());
}

#[test]
fn compile_errors() {
    let t = template(vec![sized("d", FieldType::Bytes, "nope")]);
    assert!(matches!(compile_template(&t), Err(CompileErrorOf::LengthFieldNotFound(_))));
    let mut t2 = template(vec![]);
    t2.signature = Some(TemplateSignature { offset: 0, bytes: "abc".to_string() });
    assert!(matches!(compile_template(&t2), Err(CompileErrorOf::InvalidSignatureHex(_))));
    let t3 = template(vec![Field::Array {
        name: "a".to_string(),
        element: Box::new(scalar("x", FieldType::U8)),
        count: None,
        count_field: Some("c".to_string()),
        until_eof: false,
    }]);
    assert!(matches!(compile_template(&t3), Err(CompileErrorOf::CountFieldNotFound(_))));
}

#[test]
fn ordering_conditions_do_not_compile() {
    let mut c = cond_eq("k", 1);
    c.eq = None;
    c.gt = Some(JsonValue::Number(JsonNumber::PosInt(1)));
    let t = template(vec![
        scalar("k", FieldType::U8),
        Field::Conditional { name: None, conditions: vec![ConditionalBranch { when: Some(c), fields: vec![] }], default: None },
    ]);
    assert!(matches!(try_compile_template(&t), Err(CompileFailureOf::UnsupportedCondition)));
}

#[test]
fn scalar_types() {
    assert!(is_scalar_type(&FieldType::F64));
    assert!(!is_scalar_type(&FieldType::Bytes));
    assert_eq!(ScalarType::from_field_type(&FieldType::I16), ScalarType::I16);
}

fn fixed(name: &str, data_type: FieldType, length: usize) -> Field {
    Field::Scalar { name: name.to_string(), data_type, endian: None, length: Some(length), length_field: None, encoding: None }
}

fn flat_template() -> ProtocolTemplate {
    template(vec![
        scalar("kind", FieldType::U16),
        Field::Struct {
            name: Some("head".to_string()),
            fields: vec![scalar("flag", FieldType::I8), fixed("tag", FieldType::Bytes, 2)],
        },
        Field::Struct { name: None, fields: vec![fixed("word", FieldType::String, 3)] },
        scalar("rest", FieldType::Bytes),
    ])
}

#[test]
fn engines_agree_on_scalars_and_structures() {
    let t = flat_template();
    let data = [0x01u8, 0x02, 0xff, 0xab, 0xcd, b'a', b'b', b'c', 0x10, 0x20];
    let program = compile_template(&t).unwrap();
    let mut vm = VmParser::new(&data, &program);
    let a = vm.run_bounded(program.instructions.len() as u64).unwrap().unwrap();
    let mut p = BinaryParser::new(&data, Endian::Big);
    let b = p.parse_template(&t, &read_float).unwrap();
    assert_eq!(render(&a), render(&b));
    assert_eq!(render(&a), r#"{"head":{"flag":-1,"tag":"abcd"},"kind":258,"rest":"1020","word":"abc"}"#);
}

#[test]
fn engines_agree_on_short_data() {
    let t = flat_template();
    let data = [0x01u8, 0x02, 0xff, 0xab];
    let program = compile_template(&t).unwrap();
    let mut vm = VmParser::new(&data, &program);
    let a = vm.run_bounded(program.instructions.len() as u64).unwrap().unwrap_err();
    assert_eq!(a, VmError::EndOfData { need: 2, remaining: 1 });
    let mut p = BinaryParser::new(&data, Endian::Big);
    let b = p.parse_template(&t, &read_float).unwrap_err();
    assert!(matches!(b, pcap_parser::parser::ParseErrorOf::EndOfData { need: 2, remaining: 1 }));
}

#[test]
fn empty_arrays_read_nothing_in_either_engine() {
    let t = template(vec![Field::Array {
        name: "items".to_string(),
        element: Box::new(scalar("x", FieldType::U8)),
        count: Some(0),
        count_field: None,
        until_eof: false,
    }]);
    let data = [5u8, 6, 7];
    assert_eq!(render(&run_vm(&data, &t).unwrap()), r#"{"items":[]}"#);
    let mut p = BinaryParser::new(&data, Endian::Big);
    assert_eq!(render(&p.parse_template(&t, &read_float).unwrap()), r#"{"items":[]}"#);
    let counted = template(vec![
        scalar("n", FieldType::U8),
        Field::Array {
            name: "items".to_string(),
            element: Box::new(scalar("x", FieldType::U8)),
            count: None,
            count_field: Some("n".to_string()),
            until_eof: false,
        },
        scalar("after", FieldType::U8),
    ]);
    let data = [0u8, 9];
    assert_eq!(render(&run_vm(&data, &counted).unwrap()), r#"{"after":9,"items":[],"n":0}"#);
    let mut p = BinaryParser::new(&data, Endian::Big);
    assert_eq!(render(&p.parse_template(&counted, &read_float).unwrap()), r#"{"after":9,"items":[],"n":0}"#);
}

#[test]
fn engines_agree_on_fixed_arrays() {
    let t = template(vec![
        scalar("n", FieldType::U8),
        Field::Struct {
            name: Some("body".to_string()),
            fields: vec![
                Field::Array {
                    name: "values".to_string(),
                    element: Box::new(scalar("v", FieldType::U16)),
                    count: Some(2),
                    count_field: None,
                    until_eof: false,
                },
                fixed("tail", FieldType::Bytes, 1),
            ],
        },
    ]);
    let data = [3u8, 0x00, 0x07, 0x01, 0x00, 0xee];
    let program = compile_template(&t).unwrap();
    let mut vm = VmParser::new(&data, &program);
    let a = vm.run_bounded(64).unwrap().unwrap();
    let mut p = BinaryParser::new(&data, Endian::Big);
    let b = p.parse_template(&t, &read_float).unwrap();
    assert_eq!(render(&a), render(&b));
    assert_eq!(render(&a), r#"{"body":{"tail":"ee","values":[7,256]},"n":3}"#);
}

fn program(instructions: Vec<Instruction>, num_vars: usize) -> pcap_parser::bytecode::BytecodeProgram {
    pcap_parser::bytecode::BytecodeProgram { instructions, string_table: vec!["a".to_string()], num_vars, signature: None }
}

fn run_program(p: &pcap_parser::bytecode::BytecodeProgram, data: &[u8]) -> Result<JsonValue, VmError> {
    assert!(p.is_well_formed());
    VmParser::new(data, p).run_bounded(100).unwrap()
}

#[test]
fn machine_errors_of_hand_written_programs() {
    let p = program(vec![Instruction::PopFrame], 0);
    assert!(matches!(run_program(&p, &[]), Err(VmError::PopFrameWithoutFrame)));
    let p = program(vec![Instruction::LoopNext], 0);
    assert!(matches!(run_program(&p, &[]), Err(VmError::LoopNextWithoutLoop)));
    let p = program(vec![Instruction::StoreArray { name_idx: 0 }], 0);
    assert!(matches!(run_program(&p, &[]), Err(VmError::StoreArrayWithoutLoop)));
    let p = program(
        vec![
            Instruction::LoopStart { var_idx: 0, count: LoopCount::Fixed(1), end_pc: 3 },
            Instruction::PopFrame,
            Instruction::LoopNext,
        ],
        1,
    );
    assert!(matches!(run_program(&p, &[1]), Err(VmError::MissingElementFrame)));
    let p = program(vec![Instruction::JumpIfEq { var_idx: 0, value: JumpValue::UInt(1), target: 1 }], 1);
    assert!(matches!(run_program(&p, &[]), Err(VmError::VariableNotSet(0))));
    let p = program(vec![Instruction::LoopStart { var_idx: 0, count: LoopCount::Ref(0), end_pc: 1 }], 1);
    assert!(matches!(run_program(&p, &[]), Err(VmError::InvalidLoopCount)));
    let p = program(vec![Instruction::ReadBytes { name_idx: 0, var_idx: 0, length: VarLength::Ref(0) }], 1);
    assert!(matches!(run_program(&p, &[1]), Err(VmError::InvalidLength)));
}

#[test]
fn condition_values_that_cannot_be_compiled() {
    let mut c = cond_eq("a", 1);
    c.eq = Some(JsonValue::Bool(true));
    let t = template(vec![
        scalar("a", FieldType::U8),
        Field::Conditional {
            name: None,
            conditions: vec![ConditionalBranch { when: Some(c), fields: vec![] }],
            default: None,
        },
    ]);
    assert!(matches!(compile_template(&t), Err(CompileErrorOf::UnsupportedConditionValue)));
}

#[test]
fn packets_run_one_by_one() {
    let mut t = template(vec![scalar("a", FieldType::U16)]);
    t.signature = Some(TemplateSignature { offset: 0, bytes: "ab".to_string() });
    let program = compile_template(&t).unwrap();
    assert!(matches!(run_packet(&[0x00, 0x01], &program, 10), PacketOutcome::SignatureMismatch));
    assert!(matches!(run_packet(&[0xab], &program, 10), PacketOutcome::Failed(VmError::EndOfData { need: 2, remaining: 1 })));
    assert!(matches!(run_packet(&[0xab, 0x01], &program, 0), PacketOutcome::Unfinished));
    match run_packet(&[0xab, 0x01], &program, 10) {
        PacketOutcome::Parsed(v) => assert_eq!(render(&v), r#"{"a":43777}"#),
        other => panic!("unexpected {:?}", other),
    }
}

#[test]
fn string_table_holds_each_name_once() {
    let t = template(vec![
        scalar("a", FieldType::U8),
        Field::Struct { name: Some("a".to_string()), fields: vec![scalar("a", FieldType::U8), scalar("b", FieldType::U8)] },
        scalar("b", FieldType::U8),
    ]);
    let program = compile_template(&t).unwrap();
    assert_eq!(program.string_table, vec!["a".to_string(), "b".to_string()]);
}

#[test]
fn engines_agree_on_arrays_to_the_end() {
    let t = template(vec![
        scalar("n", FieldType::U8),
        Field::Array {
            name: "rest".to_string(),
            element: Box::new(scalar("v", FieldType::U16)),
            count: None,
            count_field: None,
            until_eof: true,
        },
    ]);
    for data in [vec![1u8], vec![1u8, 0, 2, 0, 3]] {
        let a = run_vm(&data, &t).unwrap();
        let mut p = BinaryParser::new(&data, Endian::Big);
        let b = p.parse_template(&t, &read_float).unwrap();
        assert_eq!(render(&a), render(&b));
    }
    assert_eq!(render(&run_vm(&[1u8, 0, 2, 0, 3], &t).unwrap()), r#"{"n":1,"rest":[2,3]}"#);
}
