use ron::error::{Error, Position};
use ron::parse::{Bytes, DesireInteger, NewtypeMode, ParsedInteger, ParsedStr, StructType, TupleMode};

#[test]
fn decode_x10() {
    let mut bytes = Bytes::new(b"10").unwrap();
    assert_eq!(bytes.decode_ascii_escape(), Ok(0x10));
}

fn integer(s: &str, desire: DesireInteger) -> Result<ParsedInteger, Error> {
    let mut bytes = Bytes::new(s.as_bytes()).unwrap();
    bytes.any_integer(desire)
}

#[test]
fn integers_in_each_base() {
    assert_eq!(integer("0x1F", DesireInteger::Any), Ok(ParsedInteger::U8(31)));
    assert_eq!(integer("0b101", DesireInteger::Any), Ok(ParsedInteger::U8(5)));
    assert_eq!(integer("0o17", DesireInteger::Any), Ok(ParsedInteger::U8(15)));
    assert_eq!(integer("-0x80", DesireInteger::Any), Ok(ParsedInteger::I8(-128)));
    assert_eq!(integer("300", DesireInteger::Any), Ok(ParsedInteger::U16(300)));
}

#[test]
fn integer_suffixes_and_desires() {
    assert_eq!(integer("5i64", DesireInteger::Any), Ok(ParsedInteger::I64(5)));
    assert_eq!(integer("5u16", DesireInteger::U8), Ok(ParsedInteger::U16(5)));
    assert_eq!(integer("7", DesireInteger::I32), Ok(ParsedInteger::I32(7)));
    assert_eq!(integer("-1", DesireInteger::U8), Err(Error::IntegerOutOfBounds));
    assert_eq!(integer("256", DesireInteger::U8), Err(Error::IntegerOutOfBounds));
}

#[test]
fn integer_errors() {
    assert_eq!(integer("_1", DesireInteger::Any), Err(Error::UnderscoreAtBeginning));
    assert_eq!(integer("x", DesireInteger::Any), Err(Error::ExpectedInteger));
    assert_eq!(integer("", DesireInteger::Any), Err(Error::Eof));
    assert_eq!(
        integer("0b102", DesireInteger::Any),
        Err(Error::InvalidIntegerDigit { digit: '2', base: 2 })
    );
    let mut bytes = Bytes::new(b"0b102").unwrap();
    let _ = bytes.any_integer(DesireInteger::Any);
    assert_eq!(bytes.cursor(), Position { line: 1, col: 5 });
}

#[test]
fn found_messages() {
    assert_eq!(
        ParsedInteger::I8(-5).into_error_found_message(),
        "the specifically 8-bit signed integer `-5`"
    );
    assert_eq!(
        ParsedInteger::U64(18446744073709551615).into_error_found_message(),
        "the specifically 64-bit unsigned integer `18446744073709551615`"
    );
}

fn string(s: &str) -> Result<(bool, String), Error> {
    let mut bytes = Bytes::new(s.as_bytes()).unwrap();
    match bytes.string()? {
        ParsedStr::Allocated(s) => Ok((true, s)),
        ParsedStr::Slice(s) => Ok((false, s.to_string())),
    }
}

#[test]
fn strings_borrowed_and_built() {
    assert_eq!(string("\"plain\""), Ok((false, "plain".to_string())));
    assert_eq!(string("\"a\\nb\""), Ok((true, "a\nb".to_string())));
    assert_eq!(string("\"\\u{1F980}\""), Ok((true, "\u{1F980}".to_string())));
    assert_eq!(string("r##\"x\"#\"##"), Ok((false, "x\"#".to_string())));
    assert_eq!(string("\"open"), Err(Error::ExpectedStringEnd));
    assert_eq!(string("r#\"open\""), Err(Error::ExpectedStringEnd));
    assert_eq!(string("x"), Err(Error::ExpectedString));
    assert_eq!(string("\"\\q\""), Err(Error::InvalidEscape("Unknown escape character")));
}

#[test]
fn identifiers_and_raw_suggestions() {
    let mut bytes = Bytes::new(b"hello world").unwrap();
    assert_eq!(bytes.identifier(), Ok(&b"hello"[..]));
    let mut bytes = Bytes::new(b"r#a.b").unwrap();
    assert_eq!(bytes.identifier(), Ok(&b"a.b"[..]));
    let mut bytes = Bytes::new(b"a-b").unwrap();
    assert_eq!(bytes.identifier(), Err(Error::SuggestRawIdentifier("a-b".to_string())));
}

#[test]
fn whitespace_and_comments() {
    let mut bytes = Bytes::new(b"  // line\n /* a /* nested */ block */ x").unwrap();
    assert_eq!(bytes.peek(), Some(b'x'));
    assert_eq!(bytes.cursor(), Position { line: 2, col: 29 });
    assert_eq!(
        Bytes::new(b"/* open").err().map(|e| e.code),
        Some(Error::UnclosedBlockComment)
    );
}

#[test]
fn extension_attributes() {
    let bytes = Bytes::new(b"#![enable(implicit_some, unwrap_newtypes)] 5").unwrap();
    assert_eq!(bytes.exts().bits, 3);
    assert_eq!(
        Bytes::new(b"#![enable(nope)]").err().map(|e| e.code),
        Some(Error::NoSuchExtension("nope".to_string()))
    );
}

#[test]
fn struct_names() {
    let mut bytes = Bytes::new(b"Point(1)").unwrap();
    assert_eq!(bytes.consume_struct_name("Point"), Ok(true));
    let mut bytes = Bytes::new(b"(1)").unwrap();
    assert_eq!(bytes.consume_struct_name("Point"), Ok(false));
    let mut bytes = Bytes::new(b"Other(1)").unwrap();
    assert_eq!(
        bytes.consume_struct_name("Point"),
        Err(Error::ExpectedDifferentStructName { expected: "Point", found: "Other".to_string() })
    );
}

#[test]
fn struct_shapes() {
    let check = |s: &str, tuple: TupleMode| {
        let mut bytes = Bytes::new(s.as_bytes()).unwrap();
        bytes.check_struct_type(NewtypeMode::NoParensMeanUnit, tuple)
    };
    assert_eq!(check("Unit", TupleMode::DifferentiateNewtype), Ok(StructType::Unit));
    assert_eq!(check("(a: 1)", TupleMode::DifferentiateNewtype), Ok(StructType::Named));
    assert_eq!(check("(a, b)", TupleMode::DifferentiateNewtype), Ok(StructType::Tuple));
    assert_eq!(check("([1, 2], 3)", TupleMode::DifferentiateNewtype), Ok(StructType::Tuple));
    assert_eq!(check("([1, 2])", TupleMode::DifferentiateNewtype), Ok(StructType::NewtypeOrTuple));
    assert_eq!(check("([1, 2], 3)", TupleMode::ImpreciseTupleOrNewtype), Ok(StructType::NewtypeOrTuple));
}
