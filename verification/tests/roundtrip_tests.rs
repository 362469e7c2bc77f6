use ron::de::from_str;
use ron::encode::Encoder;
use ron::parse::ParsedInteger;
use ron::ser::Serializer;
use ron::value::{Number, Value};

fn show(v: &Value) -> String {
    format!("{:?}", v)
}

fn integer(p: ParsedInteger) -> Value {
    Value::Number(Number::Integer(p))
}

#[test]
fn serialized_integers_read_back() {
    let cases: [(i64, ParsedInteger); 6] = [
        (0, ParsedInteger::U8(0)),
        (255, ParsedInteger::U8(255)),
        (256, ParsedInteger::U16(256)),
        (-1, ParsedInteger::I8(-1)),
        (-129, ParsedInteger::I16(-129)),
        (i64::MIN, ParsedInteger::I64(i64::MIN)),
    ];
    for (v, expected) in cases {
        let mut s = Serializer::new();
        s.serialize_i64(v).unwrap();
        let text = s.into_string();
        assert_eq!(show(&from_str(&text).unwrap()), show(&integer(expected)));
    }
    let mut e = Encoder::new();
    e.emit_u64(u64::MAX).unwrap();
    assert_eq!(show(&from_str(e.output()).unwrap()), show(&integer(ParsedInteger::U64(u64::MAX))));
}

#[test]
fn serialized_strings_read_back() {
    for text in ["", "Hello", "this is a Rusty \u{1F980} string", "αβγ"] {
        let mut s = Serializer::new();
        s.serialize_str(text).unwrap();
        let written = s.into_string();
        assert_eq!(show(&from_str(&written).unwrap()), show(&Value::String(text.to_string())));
        let mut e = Encoder::new();
        e.emit_str(text).unwrap();
        assert_eq!(show(&from_str(e.output()).unwrap()), show(&Value::String(text.to_string())));
    }
}

// The serializer writes strings without escaping, so a string holding a
// double quote does not read back.
#[test]
fn serialized_quote_does_not_read_back() {
    let mut s = Serializer::new();
    s.serialize_str("say \"hi\"").unwrap();
    assert!(from_str(&s.into_string()).is_err());
}

#[test]
fn serialized_keywords_read_back() {
    let mut s = Serializer::new();
    s.serialize_bool(true).unwrap();
    assert_eq!(show(&from_str(s.output()).unwrap()), show(&Value::Bool(true)));
    let mut s = Serializer::new();
    s.serialize_bool(false).unwrap();
    assert_eq!(show(&from_str(s.output()).unwrap()), show(&Value::Bool(false)));
    let mut s = Serializer::new();
    s.serialize_none().unwrap();
    assert_eq!(show(&from_str(s.output()).unwrap()), show(&Value::Option(None)));
    let mut s = Serializer::new();
    s.serialize_unit().unwrap();
    assert_eq!(show(&from_str(s.output()).unwrap()), show(&Value::Unit));
}

#[test]
fn leading_space_changes_only_positions() {
    assert_eq!(show(&from_str(" [1, 2]").unwrap()), show(&from_str("[1, 2]").unwrap()));
    let a = from_str("[1 2]").unwrap_err();
    let b = from_str(" [1 2]").unwrap_err();
    assert_eq!(a.code, b.code);
    assert_eq!(a.position.line, b.position.line);
    assert_eq!(a.position.col + 1, b.position.col);
}

#[test]
fn trailing_comma_changes_nothing() {
    assert_eq!(show(&from_str("[1, 2,]").unwrap()), show(&from_str("[1, 2]").unwrap()));
    assert_eq!(show(&from_str("(a: 1,)").unwrap()), show(&from_str("(a: 1)").unwrap()));
    assert_eq!(show(&from_str("{1: 2,}").unwrap()), show(&from_str("{1: 2}").unwrap()));
}

#[test]
fn serialized_integer_list_reads_back() {
    let mut s = Serializer::new();
    s.serialize_seq().unwrap();
    for v in [1i64, -2, 300] {
        s.serialize_i64(v).unwrap();
        s.end_element().unwrap();
    }
    s.end_seq().unwrap();
    let text = s.into_string();
    assert_eq!(text, "[1,-2,300,]");
    let expected = Value::List(vec![
        integer(ParsedInteger::U8(1)),
        integer(ParsedInteger::I8(-2)),
        integer(ParsedInteger::U16(300)),
    ]);
    assert_eq!(show(&from_str(&text).unwrap()), show(&expected));
    let mut s = Serializer::new();
    s.serialize_seq().unwrap();
    s.end_seq().unwrap();
    assert_eq!(show(&from_str(&s.into_string()).unwrap()), show(&Value::List(vec![])));
}

#[test]
fn serialized_nested_values_read_back() {
    // Some([1, "a", (), None, [-300],]) as the serializer writes it
    let mut s = Serializer::new();
    s.serialize_some().unwrap();
    s.serialize_seq().unwrap();
    s.serialize_u8(1).unwrap();
    s.end_element().unwrap();
    s.serialize_str("a").unwrap();
    s.end_element().unwrap();
    s.serialize_unit().unwrap();
    s.end_element().unwrap();
    s.serialize_none().unwrap();
    s.end_element().unwrap();
    s.serialize_seq().unwrap();
    s.serialize_i16(-300).unwrap();
    s.end_element().unwrap();
    s.end_seq().unwrap();
    s.end_element().unwrap();
    s.end_seq().unwrap();
    s.end().unwrap();
    let text = s.into_string();
    assert_eq!(text, "Some([1,\"a\",(),None,[-300,],])");
    let expected = Value::Option(Some(Box::new(Value::List(vec![
        integer(ParsedInteger::U8(1)),
        Value::String(String::from("a")),
        Value::Unit,
        Value::Option(None),
        Value::List(vec![integer(ParsedInteger::I16(-300))]),
    ]))));
    assert_eq!(show(&from_str(&text).unwrap()), show(&expected));
}

#[test]
fn serialized_single_entry_map_reads_back() {
    let mut s = Serializer::new();
    s.serialize_map().unwrap();
    s.serialize_bool(true).unwrap();
    s.serialize_value().unwrap();
    s.serialize_seq().unwrap();
    s.end_seq().unwrap();
    s.end_map().unwrap();
    let text = s.into_string();
    assert_eq!(text, "{true:[]}");
    let expected = Value::Mapping(vec![(Value::Bool(true), Value::List(vec![]))]);
    assert_eq!(show(&from_str(&text).unwrap()), show(&expected));
}

#[test]
fn serialized_two_entry_map_does_not_read_back() {
    let mut s = Serializer::new();
    s.serialize_map().unwrap();
    s.serialize_u8(1).unwrap();
    s.serialize_value().unwrap();
    s.serialize_u8(2).unwrap();
    s.serialize_u8(3).unwrap();
    s.serialize_value().unwrap();
    s.serialize_u8(4).unwrap();
    s.end_map().unwrap();
    let text = s.into_string();
    assert_eq!(text, "{1:23:4}");
    assert!(from_str(&text).is_err());
}

#[test]
fn serialized_char_reads_back_as_string() {
    let mut s = Serializer::new();
    s.serialize_char('x').unwrap();
    let text = s.into_string();
    assert_eq!(show(&from_str(&text).unwrap()), show(&Value::String(String::from("x"))));
}
