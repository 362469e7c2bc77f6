//! The beginnings of a streaming RON decoder: a cursor over characters that
//! tracks lines and columns, and a decoder whose reads all report the end of
//! the input.

use vstd::prelude::*;

verus! {

/// A line of the input, counted from 1.
pub type Line = usize;

/// A column of the input, counted from 1.
pub type Column = usize;

#[verifier::external_type_specification]
#[verifier::external_body]
pub struct ExIoError(std::io::Error);

/// The errors that can arise while parsing a RON stream.
#[derive(Clone, Copy, Debug, PartialEq, Eq, Structural)]
pub enum ErrorCode {
    InvalidSyntax,
    InvalidNumber,
    EOFWhileParsingObject,
    EOFWhileParsingArray,
    EOFWhileParsingMap,
    EOFWhileParsingValue,
    KeyMustBeAValue,
    ExpectedColon,
    TrailingCharacters,
    InvalidEscape,
    InvalidUnicodeCodePoint,
    LoneLeadingSurrogateInHexEscape,
    NotUtf8,
}

/// A syntax error at a line and column, or an error of the input stream.
#[derive(Debug)]
pub enum ParserError {
    Syntax(ErrorCode, Line, Column),
    Io(std::io::Error),
}

/// Two syntax errors are equal when code, line and column are; an input
/// error equals nothing.
pub open spec fn parser_error_eq(a: &ParserError, b: &ParserError) -> bool {
    match (a, b) {
        (ParserError::Syntax(c0, l0, k0), ParserError::Syntax(c1, l1, k1)) => c0 == c1 && l0 == l1
            && k0 == k1,
        _ => false,
    }
}

impl PartialEq for ParserError {
    fn eq(&self, other: &ParserError) -> (r: bool) {
        match (self, other) {
            (ParserError::Syntax(msg0, line0, col0), ParserError::Syntax(msg1, line1, col1)) => *msg0
                == *msg1 && *line0 == *line1 && *col0 == *col1,
            (ParserError::Io(_), _) => false,
            (_, ParserError::Io(_)) => false,
        }
    }
}

impl vstd::std_specs::cmp::PartialEqSpecImpl for ParserError {
    open spec fn obeys_eq_spec() -> bool {
        true
    }

    open spec fn eq_spec(&self, other: &ParserError) -> bool {
        parser_error_eq(self, other)
    }
}

/// The errors of decoding.
#[derive(Debug, PartialEq)]
pub enum Error {
    Parse(ParserError),
    Expectation(String, String),
    MissingField(String),
    UnknownVariant(String),
    Application(String),
    EOF,
}

/// Where the parser stands inside nested values.
#[derive(Clone, Debug, PartialEq)]
pub enum InternalStackElement {
    Index(u32),
    Key(u16, u16),
}

/// The nesting of the values being parsed.
pub struct Stack {
    elements: Vec<InternalStackElement>,
    str_buffer: Vec<u8>,
}

impl Stack {
    /// An empty stack.
    pub fn new() -> (s: Stack)
        ensures
            s.depth() == 0,
            s.buffered() == 0,
    {
        Stack { elements: Vec::new(), str_buffer: Vec::new() }
    }

    /// How many nested values are open.
    pub closed spec fn depth(&self) -> nat {
        self.elements@.len()
    }

    /// How many key bytes are kept.
    pub closed spec fn buffered(&self) -> nat {
        self.str_buffer@.len()
    }
}

/// Whether `c` is a character that the parser skips between tokens.
pub open spec fn is_ws(c: Option<char>) -> bool {
    c == Some(' ') || c == Some('\n') || c == Some('\t') || c == Some('\r')
}

/// What a parser holds: its input, the index of the next character to read,
/// the current character (`None` past the end), the line and column of the
/// current character, and how many nested values are open.
pub struct ParserModel {
    pub input: Seq<char>,
    pub next: nat,
    pub ch: Option<char>,
    pub line: nat,
    pub col: nat,
    pub depth: nat,
}

/// The parser after reading one more character: the next one, or `None` at
/// the end. A newline starts a new line at column 1; anything else moves a
/// column on.
pub open spec fn bump_model(m: ParserModel) -> ParserModel {
    let ch = if m.next < m.input.len() { Some(m.input[m.next as int]) } else { None };
    ParserModel {
        input: m.input,
        next: if m.next < m.input.len() { m.next + 1 } else { m.next },
        ch: ch,
        line: if ch == Some('\n') { m.line + 1 } else { m.line },
        col: if ch == Some('\n') { 1 } else { m.col + 1 },
        depth: m.depth,
    }
}

/// The parser after skipping whitespace: reading on while the current
/// character is whitespace.
pub open spec fn skip_ws_model(m: ParserModel) -> ParserModel
    decreases (m.input.len() - m.next) + (if m.ch is Some { 1int } else { 0int }),
    when m.next <= m.input.len()
{
    if is_ws(m.ch) {
        skip_ws_model(bump_model(m))
    } else {
        m
    }
}

/// Skipping whitespace stops on a character that is not whitespace, so
/// skipping again moves nothing.
pub proof fn lemma_skip_ws_idempotent(m: ParserModel)
    requires
        m.next <= m.input.len(),
    ensures
        !is_ws(skip_ws_model(m).ch),
        skip_ws_model(m).next <= m.input.len(),
        skip_ws_model(skip_ws_model(m)) == skip_ws_model(m),
    decreases (m.input.len() - m.next) + (if m.ch is Some { 1int } else { 0int }),
{
    if is_ws(m.ch) {
        lemma_skip_ws_idempotent(bump_model(m));
    }
}

/// A cursor over the characters of a RON document.
pub struct Parser {
    input: Vec<char>,
    next: usize,
    ch: Option<char>,
    line: Line,
    col: Column,
    stack: Stack,
}

impl View for Parser {
    type V = ParserModel;

    closed spec fn view(&self) -> ParserModel {
        ParserModel {
            input: self.input@,
            next: self.next as nat,
            ch: self.ch,
            line: self.line as nat,
            col: self.col as nat,
            depth: self.stack.depth(),
        }
    }
}

impl Parser {
    /// The cursor stays within its input, and line and column cannot pass
    /// the number of characters read.
    pub closed spec fn wf(&self) -> bool {
        &&& self.next <= self.input.len()
        &&& self.input.len() <= usize::MAX - 2
        &&& self.line <= self.next + 1
        &&& self.ch is Some ==> self.col <= self.next + 1
        &&& self.ch is None ==> self.col <= self.next + 2
    }

    /// A parser over `input`, standing on its first character.
    pub fn new(input: Vec<char>) -> (p: Parser)
        requires
            input.len() <= usize::MAX - 2,
        ensures
            p.wf(),
            p@ == bump_model(
                ParserModel { input: input@, next: 0, ch: Some('\0'), line: 1, col: 0, depth: 0 },
            ),
    {
        let mut p = Parser { input, next: 0, ch: Some('\0'), line: 1, col: 0, stack: Stack::new() };
        p.bump();
        p
    }

    /// Whether the current character is `c`.
    pub fn ch_is(&self, c: char) -> (r: bool)
        ensures
            r == (self@.ch == Some(c)),
    {
        match self.ch {
            Some(d) => d == c,
            None => false,
        }
    }

    /// Reads the next character.
    pub fn bump(&mut self)
        requires
            old(self).wf(),
            old(self)@.ch is Some,
        ensures
            final(self).wf(),
            final(self)@ == bump_model(old(self)@),
    {
        if self.next < self.input.len() {
            self.ch = Some(self.input[self.next]);
            self.next = self.next + 1;
        } else {
            self.ch = None;
        }
        if self.ch_is('\n') {
            self.line = self.line + 1;
            self.col = 1;
        } else {
            self.col = self.col + 1;
        }
    }

    /// A syntax error for `reason` at the current line and column.
    pub fn error<E>(&self, reason: ErrorCode) -> (r: Result<E, ParserError>)
        ensures
            r matches Err(ParserError::Syntax(c, l, k)) && c == reason && l == self@.line && k
                == self@.col,
    {
        Err(ParserError::Syntax(reason, self.line, self.col))
    }

    /// Skips spaces, newlines, tabs and carriage returns.
    pub fn parse_whitespace(&mut self)
        requires
            old(self).wf(),
        ensures
            final(self).wf(),
            final(self)@ == skip_ws_model(old(self)@),
            !is_ws(final(self)@.ch),
    {
        while self.ch_is(' ') || self.ch_is('\n') || self.ch_is('\t') || self.ch_is('\r')
            invariant
                self.wf(),
                skip_ws_model(self@) == skip_ws_model(old(self)@),
            decreases (self.input.len() - self.next) + (if self.ch is Some { 1int } else { 0int }),
        {
            self.bump();
        }
    }
}

/// A decoder of RON text.
pub struct Decoder {
    parser: Parser,
}

impl Decoder {
    /// A decoder over the characters of `input`.
    pub fn new(input: Vec<char>) -> (d: Decoder)
        requires
            input.len() <= usize::MAX - 2,
        ensures
            d.parser()@ == bump_model(
                ParserModel { input: input@, next: 0, ch: Some('\0'), line: 1, col: 0, depth: 0 },
            ),
    {
        Decoder { parser: Parser::new(input) }
    }

    /// The parser of the decoder.
    pub closed spec fn parser(&self) -> Parser {
        self.parser
    }

    /// Reading a value is not supported yet: every read reports the end of
    /// the input.
    pub fn read_nil(&mut self) -> (r: Result<(), Error>)
        ensures
            r == Err::<(), Error>(Error::EOF),
    {
        Err(Error::EOF)
    }

    /// Reports the end of the input.
    pub fn read_usize(&mut self) -> (r: Result<usize, Error>)
        ensures
            r == Err::<usize, Error>(Error::EOF),
    {
        Err(Error::EOF)
    }

    /// Reports the end of the input.
    pub fn read_u8(&mut self) -> (r: Result<u8, Error>)
        ensures
            r == Err::<u8, Error>(Error::EOF),
    {
        Err(Error::EOF)
    }

    /// Reports the end of the input.
    pub fn read_u16(&mut self) -> (r: Result<u16, Error>)
        ensures
            r == Err::<u16, Error>(Error::EOF),
    {
        Err(Error::EOF)
    }

    /// Reports the end of the input.
    pub fn read_u32(&mut self) -> (r: Result<u32, Error>)
        ensures
            r == Err::<u32, Error>(Error::EOF),
    {
        Err(Error::EOF)
    }

    /// Reports the end of the input.
    pub fn read_u64(&mut self) -> (r: Result<u64, Error>)
        ensures
            r == Err::<u64, Error>(Error::EOF),
    {
        Err(Error::EOF)
    }

    /// Reports the end of the input.
    pub fn read_isize(&mut self) -> (r: Result<isize, Error>)
        ensures
            r == Err::<isize, Error>(Error::EOF),
    {
        Err(Error::EOF)
    }

    /// Reports the end of the input.
    pub fn read_i8(&mut self) -> (r: Result<i8, Error>)
        ensures
            r == Err::<i8, Error>(Error::EOF),
    {
        Err(Error::EOF)
    }

    /// Reports the end of the input.
    pub fn read_i16(&mut self) -> (r: Result<i16, Error>)
        ensures
            r == Err::<i16, Error>(Error::EOF),
    {
        Err(Error::EOF)
    }

    /// Reports the end of the input.
    pub fn read_i32(&mut self) -> (r: Result<i32, Error>)
        ensures
            r == Err::<i32, Error>(Error::EOF),
    {
        Err(Error::EOF)
    }

    /// Reports the end of the input.
    pub fn read_i64(&mut self) -> (r: Result<i64, Error>)
        ensures
            r == Err::<i64, Error>(Error::EOF),
    {
        Err(Error::EOF)
    }

    /// Reports the end of the input.
    pub fn read_bool(&mut self) -> (r: Result<bool, Error>)
        ensures
            r == Err::<bool, Error>(Error::EOF),
    {
        Err(Error::EOF)
    }

    /// Reports the end of the input.
    pub fn read_char(&mut self) -> (r: Result<char, Error>)
        ensures
            r == Err::<char, Error>(Error::EOF),
    {
        Err(Error::EOF)
    }

    /// Reports the end of the input.
    pub fn read_str(&mut self) -> (r: Result<String, Error>)
        ensures
            r == Err::<String, Error>(Error::EOF),
    {
        Err(Error::EOF)
    }

    /// Reading a compound value (enum, variant, struct, tuple, option,
    /// sequence, map, or one of their parts) reports the end of the input
    /// without reading its contents.
    pub fn read_compound<T>(&mut self) -> (r: Result<T, Error>)
        ensures
            r == Err::<T, Error>(Error::EOF),
    {
        Err(Error::EOF)
    }

    /// An error raised by the value being decoded.
    pub fn error(&mut self, err: &str) -> (e: Error)
        ensures
            e matches Error::Application(m) && m@ == err@,
    {
        Error::Application(err.to_string())
    }
}

} // verus!
