use ron::de::from_str;
use ron::parse::{Bytes, DesireFloat, FloatLiteral, ParsedInteger};
use ron::value::{Number, Value};

fn show(v: &Value) -> String {
    format!("{:?}", v)
}

fn parsed(s: &str) -> Value {
    from_str(s).unwrap()
}

fn integer_value(p: ParsedInteger) -> Value {
    Value::Number(Number::Integer(p))
}

fn string(s: &str) -> Value {
    Value::String(s.to_string())
}

fn float_text(v: &Value) -> (String, DesireFloat) {
    match v {
        Value::Number(Number::Float(FloatLiteral { text, width })) => (text.clone(), *width),
        other => panic!("not a float: {:?}", other),
    }
}

// ----- the deserializer's own cases -----

#[test]
fn de_test_empty_struct() {
    assert_eq!(show(&Value::Unit), show(&parsed("EmptyStruct1")));
    assert_eq!(show(&Value::List(vec![])), show(&parsed("EmptyStruct2()")));
}

#[test]
fn de_test_option() {
    assert_eq!(
        show(&Value::Option(Some(Box::new(integer_value(ParsedInteger::U8(1)))))),
        show(&parsed("Some(1)"))
    );
    assert_eq!(show(&Value::Option(None)), show(&parsed("None")));
}

#[test]
fn de_test_array() {
    assert_eq!(show(&Value::Unit), show(&parsed("()")));
    assert_eq!(show(&Value::List(vec![])), show(&parsed("[]")));
    let two_three_four = Value::List(vec![
        integer_value(ParsedInteger::U8(2)),
        integer_value(ParsedInteger::U8(3)),
        integer_value(ParsedInteger::U8(4)),
    ]);
    assert_eq!(show(&two_three_four), show(&parsed("(2,3,4,)")));
    assert_eq!(show(&two_three_four), show(&parsed("[2,3,4,]")));
}

#[test]
fn de_test_string() {
    assert_eq!(show(&string("String")), show(&parsed("\"String\"")));
}

#[test]
fn de_test_char() {
    assert_eq!(show(&Value::Char('c')), show(&parsed("'c'")));
}

#[test]
fn de_test_escape_char() {
    assert_eq!(show(&Value::Char('\'')), show(&parsed("'\\''")));
}

#[test]
fn de_test_escape() {
    assert_eq!(show(&string("\"Quoted\"")), show(&parsed(r#""\"Quoted\"""#)));
}

// ----- the same cases, and more, as the crate's tests state them -----

#[test]
fn tests_test_empty_struct() {
    assert_eq!(show(&Value::Unit), show(&parsed("EmptyStruct1")));
    assert_eq!(show(&Value::List(vec![])), show(&parsed("EmptyStruct2()")));
}

#[test]
fn tests_test_option() {
    assert_eq!(
        show(&Value::Option(Some(Box::new(integer_value(ParsedInteger::U8(1)))))),
        show(&parsed("Some(1)"))
    );
    assert_eq!(show(&Value::Option(None)), show(&parsed("None")));
}

#[test]
fn tests_test_array() {
    assert_eq!(show(&Value::Unit), show(&parsed("()")));
    assert_eq!(show(&Value::List(vec![])), show(&parsed("[]")));
    let two_three_four = Value::List(vec![
        integer_value(ParsedInteger::U8(2)),
        integer_value(ParsedInteger::U8(3)),
        integer_value(ParsedInteger::U8(4)),
    ]);
    assert_eq!(show(&two_three_four), show(&parsed("(2,3,4,)")));
    assert_eq!(show(&two_three_four), show(&parsed("[2,3,4,]")));
}

#[test]
fn tests_test_string() {
    assert_eq!(show(&string("String")), show(&parsed("\"String\"")));
    assert_eq!(show(&string("String")), show(&parsed("r\"String\"")));
    assert_eq!(show(&string("String")), show(&parsed("r#\"String\"#")));
    assert_eq!(
        show(&string("String with\nmultiple\nlines\n")),
        show(&parsed("r#\"String with\nmultiple\nlines\n\"#"))
    );
    assert_eq!(
        show(&string("String with \"#")),
        show(&parsed("r##\"String with \"#\"##"))
    );
}

#[test]
fn tests_test_char() {
    assert_eq!(show(&Value::Char('c')), show(&parsed("'c'")));
}

#[test]
fn tests_test_escape_char() {
    assert_eq!(show(&Value::Char('\'')), show(&parsed("'\\''")));
}

#[test]
fn tests_test_escape() {
    assert_eq!(show(&string("\"Quoted\"")), show(&parsed(r#""\"Quoted\"""#)));
}

#[test]
fn tests_test_byte_stream() {
    let v = parsed("BytesStruct( small:[1, 2], large:\"AQIDBA==\" )");
    let expected = Value::Mapping(vec![
        (
            string("small"),
            Value::List(vec![integer_value(ParsedInteger::U8(1)), integer_value(ParsedInteger::U8(2))]),
        ),
        (string("large"), string("AQIDBA==")),
    ]);
    assert_eq!(show(&expected), show(&v));
    assert_eq!(Ok(vec![1u8, 2, 3, 4]), ron::de::decode_base64("AQIDBA=="));
}

#[test]
fn test_numbers() {
    let expected = Value::List(vec![
        integer_value(ParsedInteger::U16(1234)),
        integer_value(ParsedInteger::U16(12345)),
        integer_value(ParsedInteger::U32(123456)),
        integer_value(ParsedInteger::U32(1234567)),
        integer_value(ParsedInteger::U32(555_555)),
    ]);
    assert_eq!(
        show(&expected),
        show(&parsed("[1_234, 12_345, 1_2_3_4_5_6, 1_234_567, 5_55_55_5]"))
    );
}

fn any_number(s: &str) -> Value {
    let mut bytes = Bytes::new(s.as_bytes()).unwrap();
    bytes.any_number().unwrap()
}

/// A float read with no type asked for is an `f32` where that holds the
/// value exactly, and an `f64` otherwise.
fn check_float(s: &str, expected: f64, expect_f32: bool) {
    let (text, width) = float_text(&any_number(s));
    assert_eq!(width, DesireFloat::Any);
    let value: f64 = text.parse().unwrap();
    if expected.is_nan() {
        assert!(value.is_nan());
        assert_eq!(value.is_sign_negative(), expected.is_sign_negative());
    } else {
        assert_eq!(value, expected);
    }
    assert_eq!(expect_f32, (value as f32) as f64 == value || value.is_nan());
}

#[test]
fn tests_test_any_number_precision() {
    assert_eq!(show(&integer_value(ParsedInteger::U8(1))), show(&any_number("1")));
    assert_eq!(show(&integer_value(ParsedInteger::U8(1))), show(&any_number("+1")));
    assert_eq!(show(&integer_value(ParsedInteger::I8(-1))), show(&any_number("-1")));
    check_float("-1.0", -1.0, true);
    check_float("1.", 1.0, true);
    check_float("-1.", -1.0, true);
    check_float(".3", 0.3, false);
    check_float("-.3", -0.3, false);
    check_float("+.3", 0.3, false);
    check_float("0.3", 0.3, false);

    assert_eq!(show(&integer_value(ParsedInteger::I8(i8::MIN))), show(&any_number(&format!("{}", i8::MIN))));
    assert_eq!(show(&integer_value(ParsedInteger::I16(i16::MIN))), show(&any_number(&format!("{}", i16::MIN))));
    assert_eq!(show(&integer_value(ParsedInteger::I32(i32::MIN))), show(&any_number(&format!("{}", i32::MIN))));
    assert_eq!(show(&integer_value(ParsedInteger::I64(i64::MIN))), show(&any_number(&format!("{}", i64::MIN))));
    check_float(&format!("{}", f64::MIN), f64::MIN, false);
    assert_eq!(show(&integer_value(ParsedInteger::U8(u8::MAX))), show(&any_number(&format!("{}", u8::MAX))));
    assert_eq!(show(&integer_value(ParsedInteger::U16(u16::MAX))), show(&any_number(&format!("{}", u16::MAX))));
    assert_eq!(show(&integer_value(ParsedInteger::U32(u32::MAX))), show(&any_number(&format!("{}", u32::MAX))));
    assert_eq!(show(&integer_value(ParsedInteger::U64(u64::MAX))), show(&any_number(&format!("{}", u64::MAX))));
    check_float(&format!("{}", f64::MAX), f64::MAX, false);
}

#[test]
fn special_float_literals() {
    let mut bytes = Bytes::new(b"NaN").unwrap();
    let f = bytes.any_float(DesireFloat::Any).unwrap();
    assert_eq!(("NaN".to_string(), DesireFloat::F32), (f.text, f.width));
    let mut bytes = Bytes::new(b"-NaN").unwrap();
    let f = bytes.any_float(DesireFloat::Any).unwrap();
    assert_eq!(("-NaN".to_string(), DesireFloat::F32), (f.text, f.width));
    let mut bytes = Bytes::new(b"inf").unwrap();
    let f = bytes.any_float(DesireFloat::Any).unwrap();
    assert_eq!(("inf".to_string(), DesireFloat::F32), (f.text, f.width));
    let mut bytes = Bytes::new(b"-inf").unwrap();
    let f = bytes.any_float(DesireFloat::Any).unwrap();
    assert_eq!(("-inf".to_string(), DesireFloat::F32), (f.text, f.width));
    let mut bytes = Bytes::new(b"+inf_f64").unwrap();
    let f = bytes.any_float(DesireFloat::Any).unwrap();
    assert_eq!(("inf".to_string(), DesireFloat::F64), (f.text, f.width));
}

#[test]
fn parse_error_descriptions() {
    assert_eq!(ron::de::ParseError::Eof.description(), "Unexpected end of file");
    assert_eq!(ron::de::ParseError::ExpectedMapColon.description(), "Expected colon");
    assert_eq!(ron::de::ParseError::ExpectedStructEnd.description(), "Expected end of struct");
    assert_eq!(ron::de::ParseError::TrailingCharacters.description(), "Non-whitespace trailing characters");
    let bad = std::str::from_utf8(&[0xffu8]).unwrap_err();
    assert!(!ron::de::ParseError::Utf8Error(bad).description().is_empty());
}

fn float_value(text: &str) -> Value {
    Value::Number(Number::Float(FloatLiteral { text: text.to_string(), width: DesireFloat::Any }))
}

#[test]
fn de_test_struct() {
    let my_struct = Value::Mapping(vec![
        (string("x"), integer_value(ParsedInteger::U8(4))),
        (string("y"), integer_value(ParsedInteger::U8(7))),
    ]);
    assert_eq!(show(&my_struct), show(&parsed("MyStruct(x:4,y:7,)")));
    assert_eq!(show(&my_struct), show(&parsed("(x:4,y:7)")));
    assert_eq!(show(&Value::List(vec![integer_value(ParsedInteger::U8(42))])), show(&parsed("NewType(42)")));
    assert_eq!(show(&Value::List(vec![integer_value(ParsedInteger::U8(33))])), show(&parsed("(33)")));
    assert_eq!(
        show(&Value::List(vec![integer_value(ParsedInteger::U8(2)), integer_value(ParsedInteger::U8(5))])),
        show(&parsed("TupleStruct(2,5,)"))
    );
    assert_eq!(
        show(&Value::List(vec![integer_value(ParsedInteger::U8(3)), integer_value(ParsedInteger::U8(4))])),
        show(&parsed("(3,4)"))
    );
}

#[test]
fn de_test_enum() {
    assert_eq!(show(&Value::Unit), show(&parsed("A")));
    assert_eq!(show(&Value::List(vec![Value::Bool(true)])), show(&parsed("B(true,)")));
    assert_eq!(
        show(&Value::List(vec![Value::Bool(true), float_value("3.5")])),
        show(&parsed("C(true,3.5,)"))
    );
    assert_eq!(
        show(&Value::Mapping(vec![
            (string("a"), integer_value(ParsedInteger::U8(2))),
            (string("b"), integer_value(ParsedInteger::U8(3))),
        ])),
        show(&parsed("D(a:2,b:3,)"))
    );
}

#[test]
fn de_test_map() {
    let map = Value::Mapping(vec![
        (Value::List(vec![Value::Bool(true), Value::Bool(false)]), integer_value(ParsedInteger::U8(4))),
        (Value::List(vec![Value::Bool(false), Value::Bool(false)]), integer_value(ParsedInteger::U8(123))),
    ]);
    assert_eq!(
        show(&map),
        show(&parsed(
            "{
            (true,false,):4,
            (false,false,):123,
        }"
        ))
    );
}

#[test]
fn de_test_comment() {
    assert_eq!(
        show(&Value::Mapping(vec![(string("x"), float_value("1.0")), (string("y"), float_value("2.0"))])),
        show(&parsed(
            "(
x: 1.0, // x is just 1
// There is another comment in the very next line..
   // And y is indeed
y: 2.0 // 2!
        )"
        ))
    );
}

#[test]
fn bare_apostrophe_char() {
    let mut bytes = Bytes::new(b"'''").unwrap();
    assert_eq!(bytes.char(), Ok('\''));
    assert_eq!(bytes.bytes(), b"");
    assert_eq!(show(&parsed("'''")), show(&Value::Char('\'')));
    let mut bytes = Bytes::new(b"''").unwrap();
    assert_eq!(bytes.char(), Err(ron::error::Error::ExpectedChar));
}

#[test]
fn padded_and_oversized_decimals() {
    let mut bytes = Bytes::new(b"007,").unwrap();
    assert_eq!(bytes.any_integer(ron::parse::DesireInteger::Any), Ok(ParsedInteger::U8(7)));
    assert_eq!(bytes.bytes(), b",");
    let mut bytes = Bytes::new(b"-0000129").unwrap();
    assert_eq!(bytes.any_integer(ron::parse::DesireInteger::Any), Ok(ParsedInteger::I16(-129)));
    let mut bytes = Bytes::new(b"+18446744073709551615").unwrap();
    assert_eq!(bytes.any_integer(ron::parse::DesireInteger::Any), Ok(ParsedInteger::U64(u64::MAX)));
    let mut bytes = Bytes::new(b"18446744073709551616").unwrap();
    assert_eq!(
        bytes.any_integer(ron::parse::DesireInteger::Any),
        Err(ron::error::Error::IntegerOutOfBounds)
    );
    let mut bytes = Bytes::new(b"-9223372036854775809").unwrap();
    assert_eq!(
        bytes.any_integer(ron::parse::DesireInteger::Any),
        Err(ron::error::Error::IntegerOutOfBounds)
    );
}
