use pcap_parser::editor::{
    add_scalar_field, apply_scalar_edit, cancelled_template, clear_signature, delete_field, editable_field_types,
    editor_result, field_type_to_str, format_field_label, move_field, parse_length, set_template_name, toggle_endian,
    type_selection_index,
};
use pcap_parser::template::{Endian, Field, FieldType, ProtocolTemplate, TemplateSignature};

fn scalar(name: &str, data_type: FieldType) -> Field {
    Field::Scalar { name: name.to_string(), data_type, endian: None, length: None, length_field: None, encoding: None }
}

fn names(t: &ProtocolTemplate) -> Vec<String> {
    t.fields
        .iter()
        .map(|f| match f {
            Field::Scalar { name, .. } => name.clone(),
            _ => "?".to_string(),
        })
        .collect()
}

fn draft() -> ProtocolTemplate {
    ProtocolTemplate {
        name: Some("t".to_string()),
        endian: Endian::Big,
        signature: Some(TemplateSignature { offset: 0, bytes: "ab".to_string() }),
        fields: vec![scalar("a", FieldType::U8), scalar("b", FieldType::U16), scalar("c", FieldType::U32)],
    }
}

#[test]
fn labels() {
    let f = Field::Scalar {
        name: "len".to_string(),
        data_type: FieldType::Bytes,
        endian: None,
        length: Some(4),
        length_field: None,
        encoding: None,
    };
    assert_eq!(format_field_label(2, &f), format!("[{}] {:<20} {}{}", 2, "len", "bytes", " [4]"));
    let s = Field::Struct { name: None, fields: vec![scalar("x", FieldType::U8)] };
    assert_eq!(format_field_label(0, &s), format!("[{}] {:<20} struct ({}字段)", 0, "(匿名)", 1));
    let a = Field::Array {
        name: "xs".to_string(),
        element: Box::new(scalar("x", FieldType::I16)),
        count: None,
        count_field: None,
        until_eof: true,
    };
    assert_eq!(format_field_label(11, &a), format!("[{}] {:<20} {}[]", 11, "xs", "i16"));
    let c = Field::Conditional { name: Some("c".to_string()), conditions: vec![], default: None };
    assert_eq!(format_field_label(1, &c), format!("[{}] {:<20} conditional", 1, "c"));
    assert_eq!(field_type_to_str(FieldType::F64), "f64");
}

#[test]
fn moving_fields() {
    let mut t = draft();
    move_field(&mut t, 0, 1);
    assert_eq!(names(&t), vec!["b", "a", "c"]);
    move_field(&mut t, 2, 5);
    assert_eq!(names(&t), vec!["b", "a", "c"]);
    move_field(&mut t, 2, -10);
    assert_eq!(names(&t), vec!["c", "a", "b"]);
}

#[test]
fn deleting_and_adding() {
    let mut t = draft();
    delete_field(&mut t, 1);
    assert_eq!(names(&t), vec!["a", "c"]);
    delete_field(&mut t, 9);
    assert_eq!(names(&t), vec!["a", "c"]);
    add_scalar_field(&mut t, "new_field".to_string(), FieldType::I32);
    assert_eq!(names(&t), vec!["a", "c", "new_field"]);
}

#[test]
fn editing_a_scalar() {
    let mut t = draft();
    apply_scalar_edit(&mut t, 1, "size".to_string(), FieldType::Bytes, "12", "".to_string());
    match &t.fields[1] {
        Field::Scalar { name, data_type, length, length_field, .. } => {
            assert_eq!(name, "size");
            assert_eq!(*data_type, FieldType::Bytes);
            assert_eq!(*length, Some(12));
            assert_eq!(*length_field, None);
        },
        _ => panic!(),
    }
    apply_scalar_edit(&mut t, 1, "size".to_string(), FieldType::Bytes, "x", "a".to_string());
    match &t.fields[1] {
        Field::Scalar { length, length_field, .. } => {
            assert_eq!(*length, None);
            assert_eq!(length_field.as_deref(), Some("a"));
        },
        _ => panic!(),
    }
}

#[test]
fn template_settings() {
    let mut t = draft();
    toggle_endian(&mut t);
    assert_eq!(t.endian, Endian::Little);
    set_template_name(&mut t, "");
    assert_eq!(t.name, None);
    set_template_name(&mut t, "p");
    assert_eq!(t.name.as_deref(), Some("p"));
    clear_signature(&mut t);
    assert!(t.signature.is_none());
}

#[test]
fn cancelling_gives_nothing() {
    assert!(editor_result(cancelled_template()).is_none());
    assert!(editor_result(draft()).is_some());
}

#[test]
fn type_list() {
    let types = editable_field_types();
    assert_eq!(types.len(), 10);
    assert_eq!(types[type_selection_index(FieldType::String)], FieldType::String);
    assert_eq!(type_selection_index(FieldType::F32), 0);
    assert_eq!(parse_length("+15"), Some(15));
    assert_eq!(parse_length(""), None);
}

#[test]
fn moving_back_and_deleting_the_added_field_undo() {
    let mut t = draft();
    move_field(&mut t, 2, -5);
    assert_eq!(names(&t), vec!["c", "b", "a"]);
    move_field(&mut t, 0, 2);
    assert_eq!(names(&t), vec!["a", "b", "c"]);
    add_scalar_field(&mut t, "d".to_string(), FieldType::U8);
    delete_field(&mut t, 3);
    assert_eq!(names(&t), vec!["a", "b", "c"]);
}
