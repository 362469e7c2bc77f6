use ron::error::Error;
use ron::raw::{RawValue, RawValueSerializer, RAW_VALUE_TOKEN};
use ron::ser::Serializer;

#[test]
fn raw_value_accepts_valid_ron() {
    let v = RawValue::from_ron("(a: 1, b: [true, false])").unwrap();
    assert_eq!(v.get_ron(), "(a: 1, b: [true, false])");
    let w = RawValue::from_boxed_ron("  Some(\"x\")  ".to_string()).unwrap();
    assert_eq!(w.get_ron(), "  Some(\"x\")  ");
}

#[test]
fn raw_value_rejects_invalid_ron() {
    assert!(RawValue::from_ron("(a: 1").is_err());
    assert!(RawValue::from_boxed_ron("[1, 2".to_string()).is_err());
    assert!(RawValue::from_ron("").is_err());
}

#[test]
fn raw_value_serializer_writes_only_strings() {
    let mut ser = Serializer::new();
    ser.serialize_unit_struct("Outer").unwrap();
    let mut raw = RawValueSerializer::new(ser);
    assert_eq!(raw.serialize_bool(true), Err(Error::ExpectedRawValue));
    assert_eq!(raw.serialize_u64(3), Err(Error::ExpectedRawValue));
    assert_eq!(raw.serialize_seq(Some(2)), Err(Error::ExpectedRawValue));
    assert_eq!(raw.serialize_struct_variant("E", "V", 1), Err(Error::ExpectedRawValue));
    assert_eq!(raw.serialize_float(), Err(Error::ExpectedRawValue));
    raw.serialize_str("(x: 1)").unwrap();
    assert_eq!(raw.into_inner().into_string(), "Outer(x: 1)");
    assert_eq!(RAW_VALUE_TOKEN, "$ron::private::RawValue");
}

#[test]
fn raw_value_read_takes_surrounding_whitespace() {
    let mut de = ron::de::Deserializer::from_str("  (a: 1, b: [2]) // done\n, 5").unwrap();
    let text = de.deserialize_raw_value().unwrap();
    assert_eq!(text, "(a: 1, b: [2]) // done\n");
    assert_eq!(de.remainder(), ", 5");
}

#[test]
fn raw_value_read_reports_bad_value() {
    let mut de = ron::de::Deserializer::from_str("[1, 2").unwrap();
    assert_eq!(de.deserialize_raw_value(), Err(Error::Eof));
}

#[test]
fn raw_value_text_reads_back() {
    let raw = RawValue::from_ron("(a: 1) // c").unwrap();
    assert_eq!(raw.get_ron(), "(a: 1) // c");
    assert!(ron::de::from_str(raw.get_ron()).is_ok());
    let copy = raw.clone();
    assert_eq!(copy.get_ron(), raw.get_ron());
}
