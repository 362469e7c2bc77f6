use ron::error::{Error, Position, SpannedError};
use ron::unexpected::Unexpected;
use ron::error::Base64DecodeError;

fn check_error_message(err: &Error, msg: &str) {
    assert_eq!(err.message(), msg);
}

#[test]
fn error_messages() {
    check_error_message(&Error::Fmt, "Formatting RON failed");
    check_error_message(&Error::Io(String::from("my-error")), "my-error");
    check_error_message(&Error::Message(String::from("my-ser-error")), "my-ser-error");
    check_error_message(&Error::Message(String::from("my-de-error")), "my-de-error");
        check_error_message(
        &Error::Base64Error(ron::error::Base64DecodeError::InvalidPadding),
        "Invalid base64: Invalid padding",
    );
    check_error_message(&Error::Eof, "Unexpected end of RON");
    check_error_message(&Error::ExpectedArray, "Expected opening `[`");
    check_error_message(&Error::ExpectedArrayEnd, "Expected closing `]`");
    check_error_message(
        &Error::ExpectedAttribute,
        "Expected an `#![enable(...)]` attribute",
    );
    check_error_message(
        &Error::ExpectedAttributeEnd,
        "Expected closing `)]` after the enable attribute",
    );
    check_error_message(&Error::ExpectedBoolean, "Expected boolean");
    check_error_message(&Error::ExpectedComma, "Expected comma");
    check_error_message(&Error::ExpectedChar, "Expected char");
    check_error_message(&Error::ExpectedByteLiteral, "Expected byte literal");
    check_error_message(&Error::ExpectedFloat, "Expected float");
    check_error_message(&Error::FloatUnderscore, "Unexpected underscore in float");
    check_error_message(&Error::ExpectedInteger, "Expected integer");
    check_error_message(&Error::ExpectedOption, "Expected option");
    check_error_message(&Error::ExpectedOptionEnd, "Expected closing `)`");
    check_error_message(&Error::ExpectedStructLikeEnd, "Expected closing `)`");
    check_error_message(&Error::ExpectedMap, "Expected opening `{`");
    check_error_message(&Error::ExpectedMapColon, "Expected colon");
    check_error_message(&Error::ExpectedMapEnd, "Expected closing `}`");
    check_error_message(
        &Error::ExpectedDifferentStructName {
            expected: "raw+identifier",
            found: String::from("identifier"),
        },
        "Expected struct `r#raw+identifier` but found `identifier`",
    );
    check_error_message(&Error::ExpectedStructLike, "Expected opening `(`");
    check_error_message(
        &Error::ExpectedNamedStructLike(""),
        "Expected only opening `(`, no name, for un-nameable struct",
    );
    check_error_message(
        &Error::ExpectedNamedStructLike("_ident"),
        "Expected opening `(` for struct `_ident`",
    );
    check_error_message(&Error::ExpectedUnit, "Expected unit");
    check_error_message(&Error::ExpectedString, "Expected string");
    check_error_message(&Error::ExpectedByteString, "Expected byte string");
    check_error_message(&Error::ExpectedStringEnd, "Expected end of string");
    check_error_message(&Error::ExpectedIdentifier, "Expected identifier");
    check_error_message(&Error::InvalidEscape("Invalid escape"), "Invalid escape");
    check_error_message(&Error::IntegerOutOfBounds, "Integer is out of bounds");
    check_error_message(
        &Error::InvalidIntegerDigit {
            digit: 'q',
            base: 16,
        },
        "Invalid digit 'q' for base 16 integers",
    );
    check_error_message(
        &Error::NoSuchExtension(String::from("unknown")),
        "No RON extension named `unknown`",
    );
    check_error_message(&Error::UnclosedBlockComment, "Unclosed block comment");
    check_error_message(
        &Error::UnclosedLineComment,
        "`ron::value::RawValue` cannot end in unclosed line comment, \
    try using a block comment or adding a newline",
    );
    check_error_message(
        &Error::UnderscoreAtBeginning,
        "Unexpected leading underscore in a number",
    );
    check_error_message(&Error::UnexpectedChar('🦀'), "Unexpected char \'🦀\'");
        check_error_message(
        &Error::Utf8Error(core::str::from_utf8(b"error: \xff\xff\xff\xff").unwrap_err()),
        "invalid utf-8 sequence of 1 bytes from index 7",
    );
    check_error_message(
        &Error::TrailingCharacters,
        "Non-whitespace trailing characters",
    );
    check_error_message(
        &Error::InvalidValueForType { expected: String::from("struct `Hi`"), found: String::from("an enum") },
        "Expected struct `Hi` but found an enum instead",
    );
    check_error_message(
        &Error::ExpectedDifferentLength { expected: String::from("two bees"), found: 0 },
        "Expected two bees but found zero elements instead",
    );
    check_error_message(
        &Error::ExpectedDifferentLength { expected: String::from("two bees"), found: 1 },
        "Expected two bees but found one element instead",
    );
    check_error_message(
        &Error::ExpectedDifferentLength { expected: String::from("two bees"), found: 3 },
        "Expected two bees but found 3 elements instead",
    );
    check_error_message(
        &Error::NoSuchEnumVariant { expected: &[], found: String::from("unknown"), outer: None },
        "Unexpected enum variant named `unknown`, there are no variants",
    );
    check_error_message(
        &Error::NoSuchEnumVariant {
            expected: &["A", "B+C"],
            found: String::from("D"),
            outer: Some(String::from("E")),
        },
        "Unexpected variant named `D` in enum `E`, \
        expected either `A` or `r#B+C` instead",
    );
    check_error_message(
        &Error::NoSuchStructField { expected: &[], found: String::from("unknown"), outer: None },
        "Unexpected field named `unknown`, there are no fields",
    );
    check_error_message(
        &Error::NoSuchStructField {
            expected: &["a"],
            found: String::from("b"),
            outer: Some(String::from("S")),
        },
        "Unexpected field named `b` in `S`, expected `a` instead",
    );
    check_error_message(
        &Error::NoSuchStructField {
            expected: &["a", "b+c", "d"],
            found: String::from("e"),
            outer: Some(String::from("S")),
        },
        "Unexpected field named `e` in `S`, \
        expected one of `a`, `r#b+c`, or `d` instead",
    );
    check_error_message(
        &Error::MissingStructField { field: "a", outer: None },
        "Unexpected missing field named `a`",
    );
    check_error_message(
        &Error::MissingStructField {
            field: "",
            outer: Some(String::from("S+T")),
        },
        "Unexpected missing field named \"\"_[invalid identifier] in `r#S+T`",
    );
    check_error_message(
        &Error::DuplicateStructField { field: "a", outer: None },
        "Unexpected duplicate field named `a`",
    );
    check_error_message(
        &Error::DuplicateStructField {
            field: "b+c",
            outer: Some(String::from("S+T")),
        },
        "Unexpected duplicate field named `r#b+c` in `r#S+T`",
    );
    check_error_message(
        &Error::InvalidIdentifier(String::from("why+🦀+not")),
        "Invalid identifier \"why+🦀+not\"",
    );
    check_error_message(
        &Error::SuggestRawIdentifier(String::from("raw+ident")),
        "Found invalid std identifier \"raw+ident\", \
        try the raw identifier `r#raw+ident` instead",
    );
    check_error_message(
        &Error::ExpectedRawValue,
        "Expected a `ron::value::RawValue`",
    );
    check_error_message(
        &Error::ExceededRecursionLimit,
        "Exceeded recursion limit, try increasing `ron::Options::recursion_limit` \
        and using `serde_stacker` to protect against a stack overflow",
    );
    check_error_message(
        &Error::ExpectedStructName(String::from("Struct")),
        "Expected the explicit struct name `Struct`, but none was found",
    );
}


#[test]
fn spanned_error_message() {
    let e = SpannedError { code: Error::ExpectedComma, position: Position { line: 3, col: 14 } };
    assert_eq!(e.message(), "3:14: Expected comma");
    assert_eq!(Position { line: 1, col: 1 }.text(), "1:1");
}

#[test]
fn identifiers_in_messages() {
    assert_eq!(ron::message::identifier("plain_1"), "`plain_1`");
    assert_eq!(ron::message::identifier("1st"), "`r#1st`");
    assert_eq!(ron::message::identifier("a.b"), "`r#a.b`");
    assert_eq!(ron::message::identifier(""), "\"\"_[invalid identifier]");
    assert_eq!(ron::message::identifier("sp ace"), "\"sp ace\"_[invalid identifier]");
}

#[test]
fn position_at_end_of_source() {
    assert_eq!(Position::from_src_end(""), Position { line: 1, col: 1 });
    assert_eq!(Position::from_src_end("a\nbc"), Position { line: 2, col: 3 });
    assert_eq!(Position::from_src_end("x\n"), Position { line: 2, col: 1 });
    assert_eq!(Position::from_src_end("αβγ\nδ"), Position { line: 2, col: 2 });
}

#[test]
fn unexpected_values_in_messages() {
    assert_eq!(Unexpected::Bool(true).text(), "the boolean `true`");
    assert_eq!(Unexpected::Unsigned(42).text(), "the unsigned integer `42`");
    assert_eq!(Unexpected::Signed(-5).text(), "the signed integer `-5`");
    assert_eq!(Unexpected::Float(String::from("1.5")).text(), "the floating point number `1.5`");
    assert_eq!(Unexpected::Char('🦀').text(), "the UTF-8 character `🦀`");
    assert_eq!(Unexpected::Str(String::from("hi\n")).text(), "the string \"hi\\n\"");
    assert_eq!(
        Unexpected::Bytes(vec![0x00, b'a', b'"', 0x9d, b'\n', b'\\', b'\'']).text(),
        "the byte string b\"\\x00a\\\"\\x9d\\n\\\\\\'\""
    );
    assert_eq!(Unexpected::Optional.text(), "an optional value");
    assert_eq!(Unexpected::Mapping.text(), "a map");
    assert_eq!(Unexpected::Other(String::from("something")).text(), "something");
}

#[test]
fn deserialization_errors_by_kind() {
    let e = Error::invalid_value(&Unexpected::Bool(true), String::from("a string"));
    assert_eq!(
        e,
        Error::InvalidValueForType { expected: String::from("a string"), found: String::from("the boolean `true`") }
    );
    assert_eq!(e.message(), "Expected a string but found the boolean `true` instead");
    assert_eq!(Error::invalid_type(&Unexpected::Unit, String::from("u8")).message(), "Expected u8 but found a unit value instead");
    assert_eq!(
        Error::invalid_length(3, String::from("a tuple of size 2")).message(),
        "Expected a tuple of size 2 but found 3 elements instead"
    );
    assert_eq!(
        Error::unknown_field("x", &["a", "b"]).message(),
        "Unexpected field named `x`, expected either `a` or `b` instead"
    );
    assert_eq!(
        Error::unknown_variant("C", &["A"]).message(),
        "Unexpected enum variant named `C`, expected `A` instead"
    );
    assert_eq!(Error::missing_field("a"), Error::MissingStructField { field: "a", outer: None });
    assert_eq!(Error::duplicate_field("a"), Error::DuplicateStructField { field: "a", outer: None });
}

#[test]
fn base64_message_prefix() {
    let mut de = ron::de::Deserializer::from_str("\"!!!\"").unwrap();
    let e = de.deserialize_byte_buf().unwrap_err();
    assert!(e.message().starts_with("Invalid base64: "));
}

#[test]
fn base64_messages_in_full() {
    assert_eq!(Error::Base64Error(Base64DecodeError::InvalidByte(3, 33)).message(), "Invalid base64: Invalid symbol 33, offset 3.");
    assert_eq!(Error::Base64Error(Base64DecodeError::InvalidLength(5)).message(), "Invalid base64: Invalid input length: 5");
    assert_eq!(
        Error::Base64Error(Base64DecodeError::InvalidLastSymbol(2, 66)).message(),
        "Invalid base64: Invalid last symbol 66, offset 2."
    );
    assert_eq!(Error::Base64Error(Base64DecodeError::InvalidPadding).message(), "Invalid base64: Invalid padding");
    let mut de = ron::de::Deserializer::from_str("\"AQ\"").unwrap();
    assert_eq!(de.deserialize_byte_buf(), Err(Error::Base64Error(Base64DecodeError::InvalidPadding)));
    let mut de = ron::de::Deserializer::from_str("\"AQ==\"").unwrap();
    assert_eq!(de.deserialize_byte_buf(), Ok(vec![1u8]));
}

#[test]
fn spanned_error_into_code() {
    assert_eq!(
        Error::from(SpannedError { code: Error::Eof, position: Position { line: 1, col: 1 } }),
        Error::Eof
    );
    assert_eq!(
        Error::from(SpannedError { code: Error::ExpectedRawValue, position: Position { line: 1, col: 5 } }),
        Error::ExpectedRawValue
    );
}
