use ezcfg::codec::{deserialize, serialize};
use ezcfg::error::Error;
use ezcfg::numeric::{parse_u32, u32_to_string};
use ezcfg::schema::{FieldDescriptor, Schema, TypeTag, Value, ValueSet};

fn u32_schema() -> Schema {
    Schema {
        fields: vec![FieldDescriptor { name: "n".to_string(), tag: TypeTag::U32 }],
    }
}

#[test]
fn parse_u32_accepts_canonical_decimals() {
    assert_eq!(parse_u32("0"), Some(0));
    assert_eq!(parse_u32("42"), Some(42));
    assert_eq!(parse_u32("4294967295"), Some(u32::MAX));
    assert_eq!(parse_u32("007"), Some(7));
}

#[test]
fn parse_u32_rejects_malformed_input() {
    assert_eq!(parse_u32(""), None);
    assert_eq!(parse_u32("notanumber"), None);
    assert_eq!(parse_u32("+42"), None);
    assert_eq!(parse_u32("-1"), None);
    assert_eq!(parse_u32("4 2"), None);
    assert_eq!(parse_u32("42x"), None);
}

#[test]
fn parse_u32_rejects_overflow() {
    assert_eq!(parse_u32("4294967296"), None);
    assert_eq!(parse_u32("99999999999999999999"), None);
}

#[test]
fn u32_renders_canonically() {
    assert_eq!(u32_to_string(0), "0");
    assert_eq!(u32_to_string(7), "7");
    assert_eq!(u32_to_string(42), "42");
    assert_eq!(u32_to_string(1000), "1000");
    assert_eq!(u32_to_string(u32::MAX), "4294967295");
}

#[test]
fn u32_value_round_trips_through_text() {
    let schema = u32_schema();
    let vs = ValueSet { values: vec![Value::U32(u32::MAX)] };
    let text = serialize(&schema, &vs);
    assert_eq!(text, "n=4294967295\n");
    assert_eq!(deserialize(&schema, &text), Ok(vs));
}

#[test]
fn overflowing_value_reported_as_parse_error() {
    let schema = u32_schema();
    let got = deserialize(&schema, "n=4294967296");
    assert_eq!(
        got,
        Err(Error::Parse("u32".to_string(), "4294967296".to_string()))
    );
}

#[test]
fn empty_raw_value_reported_as_parse_error() {
    let schema = u32_schema();
    let got = deserialize(&schema, "n=");
    assert_eq!(got, Err(Error::Parse("u32".to_string(), String::new())));
}

#[test]
fn format_error_message() {
    let e = Error::Format("field1hello".to_string());
    assert_eq!(e.message(), "Incorrect formatting: field1hello");
}

#[test]
fn parse_error_message() {
    let e = Error::Parse("u32".to_string(), "notanumber".to_string());
    assert_eq!(e.message(), "Failed to parse u32 from 'notanumber'");
}

#[test]
fn missing_error_message() {
    let e = Error::Missing("field2".to_string());
    assert_eq!(e.message(), "Missing field: field2");
}

#[test]
fn io_error_message_and_cause() {
    let e = Error::Io("file not found".to_string());
    assert_eq!(e.message(), "file not found");
    assert_eq!(e.cause(), Some(&"file not found".to_string()));
    assert_eq!(Error::Missing("x".to_string()).cause(), None);
    assert_eq!(Error::Format("y".to_string()).cause(), None);
    assert_eq!(Error::Parse("t".to_string(), "v".to_string()).cause(), None);
}
