use ron::de::{enum_error_name, struct_error_name, Deserializer, OptionStart};
use ron::error::Error;
use ron::extensions::Extensions;
use ron::options::Options;
use ron::error::{Position, SpannedError};
use ron::parse::{DesireFloat, DesireInteger, ParsedInteger, ParsedStr};

#[test]
fn typed_sequence() {
    let mut d = Deserializer::from_str("[1, 2,]").unwrap();
    d.seq_open().unwrap();
    let mut had_comma = true;
    let mut items = Vec::new();
    while d.has_element(b']', had_comma).unwrap() {
        items.push(d.deserialize_integer(DesireInteger::U8).unwrap());
        had_comma = d.comma().unwrap();
    }
    d.seq_close().unwrap();
    d.end().unwrap();
    assert_eq!(items, vec![ParsedInteger::U8(1), ParsedInteger::U8(2)]);
}

#[test]
fn typed_sequence_needs_commas() {
    let mut d = Deserializer::from_str("[1 2]").unwrap();
    d.seq_open().unwrap();
    assert!(d.has_element(b']', true).unwrap());
    d.deserialize_integer(DesireInteger::I32).unwrap();
    let had_comma = d.comma().unwrap();
    assert!(!had_comma);
    assert_eq!(d.has_element(b']', had_comma), Err(Error::ExpectedComma));

    let mut d = Deserializer::from_str("(1)").unwrap();
    assert_eq!(d.seq_open(), Err(Error::ExpectedArray));
    let mut d = Deserializer::from_str("[1").unwrap();
    d.seq_open().unwrap();
    d.deserialize_integer(DesireInteger::I32).unwrap();
    assert_eq!(d.seq_close(), Err(Error::ExpectedArrayEnd));
}

#[test]
fn typed_struct_and_fields() {
    let mut d = Deserializer::from_str("MyStruct ( x: 4, y: 7 )").unwrap();
    assert_eq!(d.struct_open("MyStruct"), Ok(false));
    let mut had_comma = true;
    let mut fields = Vec::new();
    while d.has_element(b')', had_comma).unwrap() {
        let name = d.deserialize_identifier().unwrap().to_string();
        assert_eq!(d.last_identifier(), Some(name.as_str()));
        d.map_value_open().unwrap();
        let v = d.deserialize_integer(DesireInteger::I32).unwrap();
        fields.push((name, v));
        had_comma = d.comma().unwrap();
    }
    d.struct_close(false).unwrap();
    d.end().unwrap();
    assert_eq!(
        fields,
        vec![("x".to_string(), ParsedInteger::I32(4)), ("y".to_string(), ParsedInteger::I32(7))]
    );

    let mut d = Deserializer::from_str("Other(x: 1)").unwrap();
    assert_eq!(
        d.struct_open("MyStruct"),
        Err(Error::ExpectedDifferentStructName { expected: "MyStruct", found: "Other".to_string() })
    );
    let mut d = Deserializer::from_str("[]").unwrap();
    assert_eq!(d.struct_open("MyStruct"), Err(Error::ExpectedNamedStructLike("MyStruct")));
    let mut d = Deserializer::from_str("[]").unwrap();
    assert_eq!(d.struct_open(""), Err(Error::ExpectedStructLike));
}

#[test]
fn typed_tuples() {
    let mut d = Deserializer::from_str("(true, 'c')").unwrap();
    assert_eq!(d.tuple_open(), Ok(false));
    assert!(d.deserialize_bool().unwrap());
    assert!(d.comma().unwrap());
    assert_eq!(d.deserialize_char(), Ok('c'));
    d.struct_close(false).unwrap();

    let mut d = Deserializer::from_str("Pair(1, 2)").unwrap();
    assert_eq!(d.tuple_struct_open("Pair"), Ok(false));
    let mut d = Deserializer::from_str("{}").unwrap();
    assert_eq!(d.tuple_struct_open("Pair"), Err(Error::ExpectedNamedStructLike("Pair")));
}

#[test]
fn typed_options() {
    let mut d = Deserializer::from_str("Some ( 5 , )").unwrap();
    assert_eq!(d.option_open(), Ok(OptionStart::Present));
    assert_eq!(d.deserialize_integer(DesireInteger::U8), Ok(ParsedInteger::U8(5)));
    d.option_close().unwrap();
    d.end().unwrap();

    let mut d = Deserializer::from_str("None").unwrap();
    assert_eq!(d.option_open(), Ok(OptionStart::Absent));

    let mut d = Deserializer::from_str("5").unwrap();
    assert_eq!(d.option_open(), Err(Error::ExpectedOption));

    let mut d = Deserializer::from_str("#![enable(implicit_some)] 5").unwrap();
    assert_eq!(d.option_open(), Ok(OptionStart::Implicit));
    assert_eq!(d.deserialize_integer(DesireInteger::U8), Ok(ParsedInteger::U8(5)));

    let mut d = Deserializer::from_str("Some(5").unwrap();
    assert_eq!(d.option_open(), Ok(OptionStart::Present));
    d.deserialize_integer(DesireInteger::U8).unwrap();
    assert_eq!(d.option_close(), Err(Error::ExpectedOptionEnd));
}

#[test]
fn typed_units_and_newtypes() {
    let mut d = Deserializer::from_str("()").unwrap();
    assert_eq!(d.deserialize_unit(), Ok(()));
    let mut d = Deserializer::from_str("x").unwrap();
    assert_eq!(d.deserialize_unit(), Err(Error::ExpectedUnit));
    let mut d = Deserializer::from_str("Unit").unwrap();
    assert_eq!(d.deserialize_unit_struct("Unit"), Ok(()));
    let mut d = Deserializer::from_str("()").unwrap();
    assert_eq!(d.deserialize_unit_struct("Unit"), Ok(()));

    let mut d = Deserializer::from_str("NewType(42)").unwrap();
    assert_eq!(d.newtype_struct_open("NewType"), Ok(true));
    assert_eq!(d.deserialize_integer(DesireInteger::I64), Ok(ParsedInteger::I64(42)));
    d.newtype_close().unwrap();
    d.end().unwrap();

    let options = Options::build().with_default_extension(Extensions::unwrap_newtypes());
    let mut d = Deserializer::from_str_with_options("42", options).unwrap();
    assert_eq!(d.newtype_struct_open("NewType"), Ok(false));
    assert_eq!(d.deserialize_integer(DesireInteger::I64), Ok(ParsedInteger::I64(42)));
}

#[test]
fn typed_newtype_variants() {
    // without the extension, the content keeps its own parentheses
    let mut d = Deserializer::from_str("B((1, 2))").unwrap();
    assert_eq!(d.deserialize_identifier(), Ok("B"));
    d.newtype_variant_open().unwrap();
    assert_eq!(d.tuple_open(), Ok(false));

    let options = Options::build().with_default_extension(Extensions::unwrap_variant_newtypes());
    let mut d = Deserializer::from_str_with_options("B(1, 2)", options).unwrap();
    assert_eq!(d.deserialize_identifier(), Ok("B"));
    d.newtype_variant_open().unwrap();
    assert_eq!(d.tuple_open(), Ok(true));
    d.deserialize_integer(DesireInteger::I32).unwrap();
    assert!(d.comma().unwrap());
    d.deserialize_integer(DesireInteger::I32).unwrap();
    d.struct_close(true).unwrap();
    d.newtype_close().unwrap();
    d.end().unwrap();
}

#[test]
fn typed_strings_and_maps() {
    let mut d = Deserializer::from_str("{\"a\": \"b\\n\"}").unwrap();
    d.map_open().unwrap();
    assert!(d.has_element(b'}', true).unwrap());
    match d.deserialize_str().unwrap() {
        ParsedStr::Slice(s) => assert_eq!(s, "a"),
        ParsedStr::Allocated(s) => panic!("unexpected escape in {:?}", s),
    }
    d.map_value_open().unwrap();
    match d.deserialize_str().unwrap() {
        ParsedStr::Allocated(s) => assert_eq!(s, "b\n"),
        ParsedStr::Slice(s) => panic!("escape not decoded in {:?}", s),
    }
    assert!(!d.comma().unwrap());
    assert!(!d.has_element(b'}', false).unwrap());
    d.map_close().unwrap();

    let mut d = Deserializer::from_str("{\"a\" 1}").unwrap();
    d.map_open().unwrap();
    d.deserialize_str().unwrap();
    assert_eq!(d.map_value_open(), Err(Error::ExpectedMapColon));
}

#[test]
fn typed_recursion_guard() {
    let options = Options::build().with_recursion_limit(1);
    let mut d = Deserializer::from_str_with_options("[[1]]", options).unwrap();
    assert_eq!(d.guard_enter(), Ok(()));
    assert_eq!(d.guard_enter(), Err(Error::ExceededRecursionLimit));
    d.guard_leave();
    assert_eq!(d.guard_enter(), Ok(()));
}

#[test]
fn error_names_are_filled_in() {
    let e = struct_error_name(Error::MissingStructField { field: "a", outer: None }, Some("S"));
    assert_eq!(e, Error::MissingStructField { field: "a", outer: Some("S".to_string()) });
    let e = struct_error_name(Error::Eof, Some("S"));
    assert_eq!(e, Error::Eof);
    let e = struct_error_name(
        Error::DuplicateStructField { field: "a", outer: Some("T".to_string()) },
        Some("S"),
    );
    assert_eq!(e, Error::DuplicateStructField { field: "a", outer: Some("T".to_string()) });
    let e = enum_error_name(
        Error::NoSuchEnumVariant { expected: &["A"], found: "B".to_string(), outer: None },
        "E",
    );
    assert_eq!(
        e,
        Error::NoSuchEnumVariant { expected: &["A"], found: "B".to_string(), outer: Some("E".to_string()) }
    );
    let e = enum_error_name(
        Error::NoSuchEnumVariant { expected: &[], found: "B".to_string(), outer: None },
        "",
    );
    assert_eq!(e, Error::NoSuchEnumVariant { expected: &[], found: "B".to_string(), outer: None });
}

/// Reads the fields of a struct whose fields are floats, as a derived
/// deserializer asks for them, after its opening.
fn float_fields(d: &mut Deserializer) -> Result<Vec<(String, String)>, Error> {
    let mut had_comma = true;
    let mut fields = Vec::new();
    while d.has_element(b')', had_comma)? {
        let name = d.deserialize_identifier()?.to_string();
        d.map_value_open()?;
        let v = d.deserialize_float(DesireFloat::F32)?;
        fields.push((name, v.text));
        had_comma = d.comma()?;
    }
    Ok(fields)
}

fn at(d: &Deserializer, code: Error, line: usize, col: usize) -> bool {
    d.span_error(code.clone()) == SpannedError { code, position: Position { line, col } }
}

#[test]
fn test_err_wrong_value() {
    let mut d = Deserializer::from_str("'c'").unwrap();
    assert_eq!(d.deserialize_float(DesireFloat::F32).map(|f| f.text), Err(Error::ExpectedFloat));
    assert!(at(&d, Error::ExpectedFloat, 1, 1));
    let mut d = Deserializer::from_str("'c'").unwrap();
    assert_eq!(d.deserialize_str().map(|_| ()), Err(Error::ExpectedString));
    assert!(at(&d, Error::ExpectedString, 1, 1));
    let mut d = Deserializer::from_str("'c'").unwrap();
    assert_eq!(d.map_open(), Err(Error::ExpectedMap));
    assert!(at(&d, Error::ExpectedMap, 1, 1));
    let mut d = Deserializer::from_str("'c'").unwrap();
    assert_eq!(d.tuple_open(), Err(Error::ExpectedStructLike));
    assert!(at(&d, Error::ExpectedStructLike, 1, 1));
    let mut d = Deserializer::from_str("'c'").unwrap();
    assert_eq!(d.seq_open(), Err(Error::ExpectedArray));
    assert!(at(&d, Error::ExpectedArray, 1, 1));
    let mut d = Deserializer::from_str("'c'").unwrap();
    d.enum_open();
    assert_eq!(d.deserialize_identifier(), Err(Error::ExpectedIdentifier));
    assert!(at(&d, Error::ExpectedIdentifier, 1, 1));
    let mut d = Deserializer::from_str("'c'").unwrap();
    assert_eq!(d.struct_open("MyStruct"), Err(Error::ExpectedNamedStructLike("MyStruct")));
    assert!(at(&d, Error::ExpectedNamedStructLike("MyStruct"), 1, 1));
    let mut d = Deserializer::from_str("NotMyStruct(x: 4, y: 2)").unwrap();
    let e = Error::ExpectedDifferentStructName { expected: "MyStruct", found: String::from("NotMyStruct") };
    assert_eq!(d.struct_open("MyStruct"), Err(e.clone()));
    assert!(at(&d, e, 1, 12));
    let mut d = Deserializer::from_str("'c'").unwrap();
    assert_eq!(d.tuple_open(), Err(Error::ExpectedStructLike));
    assert!(at(&d, Error::ExpectedStructLike, 1, 1));
    let mut d = Deserializer::from_str("notabool").unwrap();
    assert_eq!(d.deserialize_bool(), Err(Error::ExpectedBoolean));
    assert!(at(&d, Error::ExpectedBoolean, 1, 1));

    let mut d = Deserializer::from_str("MyStruct(\n    x: true)").unwrap();
    d.struct_open("MyStruct").unwrap();
    assert_eq!(float_fields(&mut d), Err(Error::ExpectedFloat));
    assert!(at(&d, Error::ExpectedFloat, 2, 8));
    let mut d = Deserializer::from_str("MyStruct(\n    x: 3.5, \n    y:)").unwrap();
    d.struct_open("MyStruct").unwrap();
    assert_eq!(float_fields(&mut d), Err(Error::ExpectedFloat));
    assert!(at(&d, Error::ExpectedFloat, 3, 7));
}

#[test]
fn test_perm_ws() {
    let mut d = Deserializer::from_str("\nMyStruct  \t ( \n x   : 3.5 , \t y\n: 4.5 \n ) \t\n").unwrap();
    assert_eq!(d.struct_open("MyStruct"), Ok(false));
    let fields = float_fields(&mut d).unwrap();
    d.struct_close(false).unwrap();
    d.end().unwrap();
    assert_eq!(
        fields,
        vec![(String::from("x"), String::from("3.5")), (String::from("y"), String::from("4.5"))]
    );
}

#[test]
fn forgot_apostrophes() {
    let mut d = Deserializer::from_str("(4, \"Hello)").unwrap();
    assert_eq!(d.tuple_open(), Ok(false));
    assert_eq!(d.deserialize_integer(DesireInteger::I32), Ok(ParsedInteger::I32(4)));
    assert!(d.comma().unwrap());
    assert_eq!(d.deserialize_str().map(|_| ()), Err(Error::ExpectedStringEnd));
}

#[test]
fn expected_attribute() {
    assert_eq!(
        Deserializer::from_str("#\"Hello\"").map(|_| ()),
        Err(SpannedError { code: Error::ExpectedAttribute, position: Position { line: 1, col: 2 } })
    );
}

#[test]
fn expected_attribute_end() {
    assert_eq!(
        Deserializer::from_str("#![enable(unwrap_newtypes) \"Hello\"").map(|_| ()),
        Err(SpannedError { code: Error::ExpectedAttributeEnd, position: Position { line: 1, col: 28 } })
    );
}

#[test]
fn invalid_attribute() {
    assert_eq!(
        Deserializer::from_str("#![enable(invalid)] \"Hello\"").map(|_| ()),
        Err(SpannedError {
            code: Error::NoSuchExtension(String::from("invalid")),
            position: Position { line: 1, col: 18 },
        })
    );
}

#[test]
fn multiple_attributes() {
    let mut d =
        Deserializer::from_str("#![enable(unwrap_newtypes)] #![enable(unwrap_newtypes)] \"Hello\"").unwrap();
    assert_eq!(d.newtype_struct_open("New"), Ok(false));
    match d.deserialize_str().unwrap() {
        ParsedStr::Slice(s) => assert_eq!(s, "Hello"),
        ParsedStr::Allocated(s) => assert_eq!(s, "Hello"),
    }
    d.end().unwrap();
}

#[test]
fn uglified_attribute() {
    let mut d = Deserializer::from_str(
        "#   !\
    // We definitely want to add a comment here
    [\t\tenable( // best style ever
            unwrap_newtypes  ) ] ()",
    )
    .unwrap();
    assert_eq!(d.deserialize_unit(), Ok(()));
    assert_eq!(d.end(), Ok(()));
}

fn implicitly(s: &str) -> Deserializer<'static> {
    let text: &'static str = Box::leak(format!("#![enable(implicit_some)]\n{}", s).into_boxed_str());
    Deserializer::from_str(text).unwrap()
}

#[test]
fn implicit_some() {
    let mut d = implicitly("'c'");
    assert_eq!(d.option_open(), Ok(OptionStart::Implicit));
    assert_eq!(d.deserialize_char(), Ok('c'));
    d.end().unwrap();

    let mut d = implicitly("5");
    assert_eq!(d.option_open(), Ok(OptionStart::Implicit));
    assert_eq!(d.deserialize_integer(DesireInteger::I32), Ok(ParsedInteger::I32(5)));

    let mut d = implicitly("\"Hello\"");
    assert_eq!(d.option_open(), Ok(OptionStart::Implicit));
    match d.deserialize_str().unwrap() {
        ParsedStr::Slice(s) => assert_eq!(s, "Hello"),
        ParsedStr::Allocated(s) => assert_eq!(s, "Hello"),
    }

    let mut d = implicitly("false");
    assert_eq!(d.option_open(), Ok(OptionStart::Implicit));
    assert_eq!(d.deserialize_bool(), Ok(false));

    let mut d = implicitly("MyStruct(x: .4, y: .5)");
    assert_eq!(d.option_open(), Ok(OptionStart::Implicit));
    d.struct_open("MyStruct").unwrap();
    assert_eq!(
        float_fields(&mut d).unwrap(),
        vec![(String::from("x"), String::from(".4")), (String::from("y"), String::from(".5"))]
    );
    d.struct_close(false).unwrap();
    d.end().unwrap();

    let mut d = implicitly("None");
    assert_eq!(d.option_open(), Ok(OptionStart::Absent));
    d.end().unwrap();
}

#[test]
fn ws_tuple_newtype_variant() {
    let mut d = Deserializer::from_str("B  ( \n true \n ) ").unwrap();
    d.enum_open();
    assert_eq!(d.deserialize_identifier(), Ok("B"));
    d.newtype_variant_open().unwrap();
    assert_eq!(d.deserialize_bool(), Ok(true));
    d.newtype_close().unwrap();
    d.end().unwrap();
}

#[test]
fn end_of_document() {
    let mut d = Deserializer::from_str("5 5").unwrap();
    d.deserialize_integer(DesireInteger::U8).unwrap();
    assert_eq!(d.end(), Err(Error::TrailingCharacters));
    let mut d = Deserializer::from_str("5 /* open").unwrap();
    d.deserialize_integer(DesireInteger::U8).unwrap();
    assert_eq!(d.end(), Err(Error::UnclosedBlockComment));
    let mut d = Deserializer::from_str("5  \n\t // done").unwrap();
    d.deserialize_integer(DesireInteger::U8).unwrap();
    assert_eq!(d.end(), Ok(()));
}
