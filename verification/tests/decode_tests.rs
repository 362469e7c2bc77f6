use ron::decode::{Decoder, Error, ErrorCode, Parser, ParserError};

fn chars(s: &str) -> Vec<char> {
    s.chars().collect()
}

#[test]
fn parser_tracks_lines_and_columns() {
    let mut p = Parser::new(chars(" \t\n  x"));
    assert!(p.ch_is(' '));
    assert_eq!(p.error::<()>(ErrorCode::InvalidSyntax), Err(ParserError::Syntax(ErrorCode::InvalidSyntax, 1, 1)));
    p.parse_whitespace();
    assert!(p.ch_is('x'));
    assert_eq!(p.error::<()>(ErrorCode::ExpectedColon), Err(ParserError::Syntax(ErrorCode::ExpectedColon, 2, 4)));
    p.bump();
    assert!(!p.ch_is('x'));
    assert_eq!(p.error::<()>(ErrorCode::EOFWhileParsingValue), Err(ParserError::Syntax(ErrorCode::EOFWhileParsingValue, 2, 5)));
}

#[test]
fn parser_whitespace_to_the_end() {
    let mut p = Parser::new(chars("\r\n\n"));
    p.parse_whitespace();
    assert!(!p.ch_is('\n'));
    assert_eq!(p.error::<u8>(ErrorCode::EOFWhileParsingObject), Err(ParserError::Syntax(ErrorCode::EOFWhileParsingObject, 3, 2)));
    let mut empty = Parser::new(Vec::new());
    empty.parse_whitespace();
    assert_eq!(empty.error::<u8>(ErrorCode::NotUtf8), Err(ParserError::Syntax(ErrorCode::NotUtf8, 1, 1)));
}

#[test]
fn parser_error_equality() {
    let a = ParserError::Syntax(ErrorCode::InvalidNumber, 3, 4);
    assert_eq!(a, ParserError::Syntax(ErrorCode::InvalidNumber, 3, 4));
    assert_ne!(a, ParserError::Syntax(ErrorCode::InvalidNumber, 3, 5));
    assert_ne!(a, ParserError::Syntax(ErrorCode::InvalidEscape, 3, 4));
    let io = ParserError::Io(std::io::Error::new(std::io::ErrorKind::Other, "x"));
    assert_ne!(io, ParserError::Io(std::io::Error::new(std::io::ErrorKind::Other, "x")));
    assert_ne!(io, a);
}

#[test]
fn decoder_reads_report_eof() {
    let mut d = Decoder::new(chars("(1, 2)"));
    assert_eq!(d.read_nil(), Err(Error::EOF));
    assert_eq!(d.read_u64(), Err(Error::EOF));
    assert_eq!(d.read_i8(), Err(Error::EOF));
    assert_eq!(d.read_bool(), Err(Error::EOF));
    assert_eq!(d.read_str(), Err(Error::EOF));
    assert_eq!(d.read_compound::<Vec<u8>>(), Err(Error::EOF));
    assert_eq!(d.error("bad"), Error::Application("bad".to_string()));
}
