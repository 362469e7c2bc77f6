use ron::de::{from_bytes, from_str};
use ron::parse::{DesireFloat, FloatLiteral, ParsedInteger};
use ron::value::{Number, Value, ValueMap};

fn show(v: &Value) -> String {
    format!("{:?}", v)
}

fn assert_reads_as(s: &str, expected: Value) {
    let read = from_str(s).unwrap();
    assert_eq!(show(&expected), show(&read), "reading {:?}", s);
    let read_bytes = from_bytes(s.as_bytes()).unwrap();
    assert_eq!(show(&read), show(&read_bytes), "reading the bytes of {:?}", s);
}

fn float_value(text: &str) -> Value {
    Value::Number(Number::Float(FloatLiteral { text: text.to_string(), width: DesireFloat::Any }))
}

fn string_value(s: &str) -> Value {
    Value::String(s.to_string())
}

#[test]
fn boolean() {
    assert_reads_as("true", Value::Bool(true));
    assert_reads_as("false", Value::Bool(false));
}

#[test]
fn float() {
    assert_reads_as("0.123", float_value("0.123"));
    assert_reads_as("-4.19", float_value("-4.19"));
    let text: f64 = "-4.19".parse().unwrap();
    assert_eq!(text, -4.19);
}

fn integer_of(p: ParsedInteger) -> i128 {
    match p {
        ParsedInteger::I8(v) => v as i128,
        ParsedInteger::I16(v) => v as i128,
        ParsedInteger::I32(v) => v as i128,
        ParsedInteger::I64(v) => v as i128,
        ParsedInteger::U8(v) => v as i128,
        ParsedInteger::U16(v) => v as i128,
        ParsedInteger::U32(v) => v as i128,
        ParsedInteger::U64(v) => v as i128,
    }
}

#[test]
fn integer() {
    // read directly into the type, and read into a value: the same number
    let cases = [
        ("626", ron::parse::DesireInteger::U32, ParsedInteger::U32(626), ParsedInteger::U16(626)),
        ("-50", ron::parse::DesireInteger::I32, ParsedInteger::I32(-50), ParsedInteger::I8(-50)),
    ];
    for (text, desire, direct, in_value) in cases {
        let mut d = ron::de::Deserializer::from_str(text).unwrap();
        let typed = d.deserialize_integer(desire).unwrap();
        d.end().unwrap();
        assert_eq!(typed, direct);
        assert_reads_as(text, Value::Number(Number::Integer(in_value)));
        assert_eq!(integer_of(typed), integer_of(in_value));
    }
}

#[test]
fn char() {
    assert_reads_as("'4'", Value::Char('4'));
    assert_reads_as("'c'", Value::Char('c'));
}

#[test]
fn string() {
    assert_reads_as(r#""hello world""#, string_value("hello world"));
    assert_reads_as(r#""this is a Rusty 🦀 string""#, string_value("this is a Rusty 🦀 string"));
    assert_reads_as(
        r#""this is now valid UTF-8 \xf0\x9f\xa6\x80""#,
        string_value("this is now valid UTF-8 \u{f0}\u{9f}\u{a6}\u{80}"),
    );
}

#[test]
fn map() {
    assert_reads_as(
        "{
'a': \"Hello\",
'b': \"Bye\",
        }",
        Value::Mapping(vec![
            (Value::Char('a'), string_value("Hello")),
            (Value::Char('b'), string_value("Bye")),
        ]),
    );
}

#[test]
fn option() {
    assert_reads_as("Some('a')", Value::Option(Some(Box::new(Value::Char('a')))));
    assert_reads_as("None", Value::Option(None));
}

#[test]
fn seq() {
    assert_reads_as(
        "[1.0, 2.0, 3.0, 4.0]",
        Value::List(vec![float_value("1.0"), float_value("2.0"), float_value("3.0"), float_value("4.0")]),
    );
}

#[test]
fn unit() {
    assert_reads_as("()", Value::Unit);
}

#[test]
fn duplicate_keys_keep_last_value_in_first_place() {
    let u8v = |n: u8| Value::Number(Number::Integer(ParsedInteger::U8(n)));
    let read = ron::de::from_str("{1: 2, 3: 4, 1: 5}").unwrap();
    let expected = Value::Mapping(vec![(u8v(1), u8v(5)), (u8v(3), u8v(4))]);
    assert_eq!(format!("{:?}", read), format!("{:?}", expected));
    assert!(ron::value::value_eq(&read, &expected));
    assert!(!ron::value::value_eq(&read, &Value::Mapping(vec![(u8v(1), u8v(5))])));
    let fields = ron::de::from_str("(a: 1, a: 2)").unwrap();
    let expected = Value::Mapping(vec![(Value::String(String::from("a")), u8v(2))]);
    assert_eq!(format!("{:?}", fields), format!("{:?}", expected));
}

#[test]
fn mappings_compare_as_maps() {
    let u8v = |n: u8| Value::Number(Number::Integer(ParsedInteger::U8(n)));
    let a = ron::de::from_str("{1: 2, 3: [4]}").unwrap();
    let b = ron::de::from_str("{3: [4], 1: 2}").unwrap();
    assert!(ron::value::value_eq(&a, &b));
    let c = ron::de::from_str("{3: [4], 1: 5}").unwrap();
    assert!(!ron::value::value_eq(&a, &c));
    let nested = Value::List(vec![Value::Mapping(vec![(u8v(1), u8v(2)), (u8v(3), Value::List(vec![u8v(4)]))])]);
    let read = ron::de::from_str("[{3: [4], 1: 2}]").unwrap();
    assert!(ron::value::value_eq(&nested, &read));
    assert!(!ron::value::value_eq(&u8v(1), &Value::Number(Number::Integer(ParsedInteger::U16(1)))));
}

#[test]
fn value_map_api() {
    let u8v = |n: u8| Value::Number(Number::Integer(ParsedInteger::U8(n)));
    let mut m = ValueMap::new();
    assert!(m.is_empty());
    assert!(m.insert(u8v(1), u8v(10)).is_none());
    assert!(m.insert(u8v(2), u8v(20)).is_none());
    assert_eq!(show(m.insert(u8v(1), u8v(11)).as_ref().unwrap()), show(&u8v(10)));
    assert_eq!(m.len(), 2);
    assert_eq!(show(m.get(&u8v(1)).unwrap()), show(&u8v(11)));
    assert_eq!(show(m.index(&u8v(2))), show(&u8v(20)));
    assert!(m.get(&u8v(3)).is_none());
    *m.get_mut(&u8v(2)).unwrap() = u8v(22);
    assert_eq!(show(m.get(&u8v(2)).unwrap()), show(&u8v(22)));
    let keys: Vec<String> = m.keys().into_iter().map(show).collect();
    assert_eq!(keys, vec![show(&u8v(1)), show(&u8v(2))]);
    let values: Vec<String> = m.values().into_iter().map(show).collect();
    assert_eq!(values, vec![show(&u8v(11)), show(&u8v(22))]);
    assert_eq!(m.iter().len(), 2);
    assert_eq!(show(&m.remove(&u8v(1)).unwrap()), show(&u8v(11)));
    assert!(m.remove(&u8v(1)).is_none());
    assert_eq!(m.len(), 1);
    let m = ValueMap::from_entries(vec![(u8v(5), u8v(1)), (u8v(6), u8v(2)), (u8v(5), u8v(3))]);
    let entries = m.into_entries();
    assert_eq!(entries.len(), 2);
    assert_eq!(show(&entries[0].1), show(&u8v(3)));
}
