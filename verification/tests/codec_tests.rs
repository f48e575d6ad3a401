use ezcfg::codec::{deserialize, serialize};
use ezcfg::error::Error;
use ezcfg::schema::{FieldDescriptor, Schema, TypeTag, Value, ValueSet};

fn two_field_schema() -> Schema {
    Schema {
        fields: vec![
            FieldDescriptor { name: "field1".to_string(), tag: TypeTag::Str },
            FieldDescriptor { name: "field2".to_string(), tag: TypeTag::U32 },
        ],
    }
}

fn hello_42() -> ValueSet {
    ValueSet { values: vec![Value::Str("hello".to_string()), Value::U32(42)] }
}

#[test]
fn deserialize_two_fields() {
    let schema = two_field_schema();
    let got = deserialize(&schema, "field1=hello\nfield2=42");
    assert_eq!(got, Ok(hello_42()));
}

#[test]
fn serialize_two_fields() {
    let schema = two_field_schema();
    let out = serialize(&schema, &hello_42());
    assert_eq!(out, "field1=hello\nfield2=42\n");
}

#[test]
fn missing_field_reported() {
    let schema = two_field_schema();
    let got = deserialize(&schema, "field1=hello");
    assert_eq!(got, Err(Error::Missing("field2".to_string())));
}

#[test]
fn parse_failure_reported() {
    let schema = two_field_schema();
    let got = deserialize(&schema, "field1=hello\nfield2=notanumber");
    assert_eq!(
        got,
        Err(Error::Parse("u32".to_string(), "notanumber".to_string()))
    );
}

#[test]
fn line_without_separator_rejected() {
    let schema = two_field_schema();
    let got = deserialize(&schema, "field1hello\nfield2=42");
    assert_eq!(got, Err(Error::Format("field1hello".to_string())));
}

#[test]
fn line_with_two_separators_rejected() {
    let schema = two_field_schema();
    let got = deserialize(&schema, "field1=a=b\nfield2=42");
    assert_eq!(got, Err(Error::Format("field1=a=b".to_string())));
}

#[test]
fn first_malformed_line_wins() {
    let schema = two_field_schema();
    let got = deserialize(&schema, "oops\nalso=bad=here");
    assert_eq!(got, Err(Error::Format("oops".to_string())));
}

#[test]
fn blank_middle_line_rejected() {
    let schema = two_field_schema();
    let got = deserialize(&schema, "field1=hello\n\nfield2=42");
    assert_eq!(got, Err(Error::Format(String::new())));
}

#[test]
fn trailing_newline_accepted() {
    let schema = two_field_schema();
    let got = deserialize(&schema, "field1=hello\nfield2=42\n");
    assert_eq!(got, Ok(hello_42()));
}

#[test]
fn round_trip_reconstructs_values() {
    let schema = two_field_schema();
    let written = serialize(&schema, &hello_42());
    let got = deserialize(&schema, &written);
    assert_eq!(got, Ok(hello_42()));
}

#[test]
fn reordered_lines_read_identically() {
    let schema = two_field_schema();
    let canonical = deserialize(&schema, "field1=hello\nfield2=42");
    let reordered = deserialize(&schema, "field2=42\nfield1=hello");
    assert_eq!(canonical, reordered);
    assert_eq!(reordered, Ok(hello_42()));
}

#[test]
fn duplicate_key_first_occurrence_wins() {
    let schema = two_field_schema();
    let got = deserialize(&schema, "field1=a\nfield1=b\nfield2=1");
    assert_eq!(
        got,
        Ok(ValueSet { values: vec![Value::Str("a".to_string()), Value::U32(1)] })
    );
}

#[test]
fn empty_text_misses_first_field() {
    let schema = two_field_schema();
    let got = deserialize(&schema, "");
    assert_eq!(got, Err(Error::Missing("field1".to_string())));
}

#[test]
fn empty_schema_accepts_empty_text() {
    let schema = Schema { fields: vec![] };
    let got = deserialize(&schema, "");
    assert_eq!(got, Ok(ValueSet { values: vec![] }));
}

#[test]
fn empty_string_value_accepted() {
    let schema = two_field_schema();
    let got = deserialize(&schema, "field1=\nfield2=0");
    assert_eq!(
        got,
        Ok(ValueSet { values: vec![Value::Str(String::new()), Value::U32(0)] })
    );
}

#[test]
fn extra_fields_are_ignored() {
    let schema = two_field_schema();
    let got = deserialize(&schema, "other=x\nfield1=hello\nfield2=42");
    assert_eq!(got, Ok(hello_42()));
}

#[test]
fn schema_invariant_checked() {
    assert!(two_field_schema().is_wf());
    assert!(Schema { fields: vec![] }.is_wf());
    let dup = Schema {
        fields: vec![
            FieldDescriptor { name: "a".to_string(), tag: TypeTag::Str },
            FieldDescriptor { name: "a".to_string(), tag: TypeTag::U32 },
        ],
    };
    assert!(!dup.is_wf());
    let key_with_separator = Schema {
        fields: vec![FieldDescriptor { name: "a=b".to_string(), tag: TypeTag::Str }],
    };
    assert!(!key_with_separator.is_wf());
    let key_with_newline = Schema {
        fields: vec![FieldDescriptor { name: "a\nb".to_string(), tag: TypeTag::Str }],
    };
    assert!(!key_with_newline.is_wf());
}

#[test]
fn value_set_checked_against_schema() {
    let schema = two_field_schema();
    assert!(hello_42().matches_schema(&schema));
    let wrong_len = ValueSet { values: vec![Value::U32(1)] };
    assert!(!wrong_len.matches_schema(&schema));
    let wrong_tag = ValueSet { values: vec![Value::U32(1), Value::U32(2)] };
    assert!(!wrong_tag.matches_schema(&schema));
}

#[test]
fn get_resolves_by_name_not_position() {
    let schema = two_field_schema();
    let vs = hello_42();
    assert_eq!(vs.get(&schema, &"field1".to_string()), Some(&Value::Str("hello".to_string())));
    assert_eq!(vs.get(&schema, &"field2".to_string()), Some(&Value::U32(42)));
    assert_eq!(vs.get(&schema, &"absent".to_string()), None);
}

#[test]
fn serialize_keeps_schema_declaration_order() {
    let schema = Schema {
        fields: vec![
            FieldDescriptor { name: "zeta".to_string(), tag: TypeTag::U32 },
            FieldDescriptor { name: "alpha".to_string(), tag: TypeTag::Str },
            FieldDescriptor { name: "mid".to_string(), tag: TypeTag::U32 },
        ],
    };
    let vs = ValueSet {
        values: vec![Value::U32(7), Value::Str("a".to_string()), Value::U32(0)],
    };
    let out = serialize(&schema, &vs);
    assert_eq!(out, "zeta=7\nalpha=a\nmid=0\n");
}
