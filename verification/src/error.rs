//! Errors of RON parsing, and positions in the source text.

use vstd::prelude::*;

verus! {

#[verifier::external_type_specification]
#[verifier::external_body]
pub struct ExUtf8Error(core::str::Utf8Error);

/// `Utf8Error::clone`: copies the error; nothing is claimed of the copy.
pub assume_specification[ <core::str::Utf8Error as Clone>::clone ](e: &core::str::Utf8Error) -> core::str::Utf8Error;

/// Why base64 text could not be decoded.
#[derive(Clone, Copy, Debug, PartialEq, Eq, Structural)]
pub enum Base64DecodeError {
    /// A byte that is not a base64 symbol, by its offset and value.
    InvalidByte(usize, u8),
    /// The number of base64 symbols, which cannot end a group.
    InvalidLength(usize),
    /// A last symbol whose unused bits are not zero, by its offset and value.
    InvalidLastSymbol(usize, u8),
    /// Padding that is missing or out of place.
    InvalidPadding,
}

/// A line and column in a RON document, both counted from 1.
#[derive(Clone, Copy, Debug, PartialEq, Eq, Structural)]
pub struct Position {
    pub line: usize,
    pub col: usize,
}

/// The range of text between two positions.
#[derive(Clone, Copy, Debug, PartialEq, Eq, Structural)]
pub struct Span {
    pub start: Position,
    pub end: Position,
}

/// An error together with the position at which the parser stood when it
/// came upon it.
#[derive(Clone, Debug, PartialEq)]
pub struct SpannedError {
    pub code: Error,
    pub position: Position,
}

/// All the errors that can occur when reading or writing RON.
#[allow(inconsistent_fields)]
#[derive(Clone, Debug, PartialEq)]
pub enum Error {
    Fmt,
    Io(String),
    Message(String),
    Base64Error(Base64DecodeError),
    Eof,
    ExpectedArray,
    ExpectedArrayEnd,
    ExpectedAttribute,
    ExpectedAttributeEnd,
    ExpectedBoolean,
    ExpectedComma,
    ExpectedChar,
    ExpectedByteLiteral,
    ExpectedFloat,
    FloatUnderscore,
    ExpectedInteger,
    ExpectedOption,
    ExpectedOptionEnd,
    ExpectedMap,
    ExpectedMapColon,
    ExpectedMapEnd,
    ExpectedDifferentStructName { expected: &'static str, found: String },
    ExpectedStructLike,
    ExpectedNamedStructLike(&'static str),
    ExpectedStructLikeEnd,
    ExpectedUnit,
    ExpectedString,
    ExpectedByteString,
    ExpectedStringEnd,
    ExpectedIdentifier,
    InvalidEscape(&'static str),
    IntegerOutOfBounds,
    InvalidIntegerDigit { digit: char, base: u8 },
    NoSuchExtension(String),
    UnclosedBlockComment,
    UnclosedLineComment,
    UnderscoreAtBeginning,
    UnexpectedChar(char),
    Utf8Error(core::str::Utf8Error),
    TrailingCharacters,
    InvalidValueForType { expected: String, found: String },
    ExpectedDifferentLength { expected: String, found: usize },
    NoSuchEnumVariant { expected: &'static [&'static str], found: String, outer: Option<String> },
    NoSuchStructField { expected: &'static [&'static str], found: String, outer: Option<String> },
    MissingStructField { field: &'static str, outer: Option<String> },
    DuplicateStructField { field: &'static str, outer: Option<String> },
    InvalidIdentifier(String),
    SuggestRawIdentifier(String),
    ExpectedRawValue,
    ExceededRecursionLimit,
    ExpectedStructName(String),
}

/// An error with a position gives up the position.
impl From<SpannedError> for Error {
    fn from(e: SpannedError) -> (r: Error) {
        e.code
    }
}

impl vstd::std_specs::convert::FromSpecImpl<SpannedError> for Error {
    open spec fn obeys_from_spec() -> bool {
        true
    }

    open spec fn from_spec(e: SpannedError) -> Error {
        e.code
    }
}

/// The position one step past `p` after reading the byte `b`: a newline
/// starts the next line, every other byte moves one column on.
pub open spec fn step_pos(p: Position, b: u8) -> Position {
    if b == 10 {
        Position { line: (p.line + 1) as usize, col: 1 }
    } else {
        Position { line: p.line, col: (p.col + 1) as usize }
    }
}

/// The position reached from `p` after reading all of `s`.
pub open spec fn pos_after(p: Position, s: Seq<u8>) -> Position
    decreases s.len(),
{
    if s.len() == 0 {
        p
    } else {
        step_pos(pos_after(p, s.drop_last()), s.last())
    }
}

impl Position {
    /// The position at the start of a document.
    pub fn start() -> (p: Position)
        ensures
            p.line == 1,
            p.col == 1,
    {
        Position { line: 1, col: 1 }
    }
}

} // verus!
