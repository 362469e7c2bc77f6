//! The human-readable messages of errors.

use vstd::prelude::*;
use vstd::string::{StrSliceExecFns, StringExecFns};

use crate::error::{Base64DecodeError, Error, Position, SpannedError};
use crate::parse::{spec_is_ident_first_char, spec_is_ident_other_char, spec_is_ident_raw_char};
use crate::util::{ascii_chars, decimal, decimal_string};

verus! {

/// The text that the standard library's `Debug` gives for the character
/// `c`: the character between single quotes, escaped where needed.
pub uninterp spec fn debug_char(c: char) -> Seq<char>;

/// The text that the standard library's `Debug` gives for the string `s`:
/// the string between double quotes, escaped where needed.
pub uninterp spec fn debug_str(s: Seq<char>) -> Seq<char>;

/// Whether `c` has the Unicode property XID_Continue.
pub uninterp spec fn xid_continue(c: char) -> bool;

/// `format!("{:?}", c)`: the `Debug` text of a character, which depends on
/// the character alone.
#[verifier::external_body]
fn char_debug(c: char) -> (s: String)
    ensures
        s@ == debug_char(c),
{
    format!("{:?}", c)
}

/// `format!("{:?}", s)`: the `Debug` text of a string, which depends on the
/// string alone.
#[verifier::external_body]
pub(crate) fn str_debug(s: &str) -> (t: String)
    ensures
        t@ == debug_str(s@),
{
    format!("{:?}", s)
}

/// `unicode_ident::is_xid_continue`: whether the character has the Unicode
/// property XID_Continue. Its source answers by a table for ASCII
/// characters, which marks exactly the ASCII letters, digits and `_`.
#[verifier::external_body]
fn is_xid_continue(c: char) -> (b: bool)
    ensures
        b == xid_continue(c),
        (c as u32) < 128 ==> (b == spec_is_ident_other_char(c as u32 as u8)),
{
    unicode_ident::is_xid_continue(c)
}

/// How base64's `DecodeError` shows itself (its `Display`), arm by arm.
pub open spec fn base64_error_text(e: Base64DecodeError) -> Seq<char> {
    match e {
        Base64DecodeError::InvalidByte(index, byte) => "Invalid symbol "@ + ascii_chars(decimal(byte as nat))
            + ", offset "@ + ascii_chars(decimal(index as nat)) + "."@,
        Base64DecodeError::InvalidLength(len) => "Invalid input length: "@ + ascii_chars(
            decimal(len as nat),
        ),
        Base64DecodeError::InvalidLastSymbol(index, byte) => "Invalid last symbol "@ + ascii_chars(
            decimal(byte as nat),
        ) + ", offset "@ + ascii_chars(decimal(index as nat)) + "."@,
        Base64DecodeError::InvalidPadding => "Invalid padding"@,
    }
}

/// `Display` of the standard library's `Utf8Error`. The text depends on the
/// error alone; which text it is is not stated here.
#[verifier::external_body]
fn utf8_error_text(e: &core::str::Utf8Error) -> (s: String) {
    format!("{}", e)
}

/// Whether `c` is an ASCII byte that may stand in a raw identifier.
pub open spec fn raw_ident_char(c: char) -> bool {
    (c as u32) < 128 && spec_is_ident_raw_char(c as u32 as u8)
}

/// Whether `c` is an ASCII byte that may start an identifier.
pub open spec fn first_ident_char(c: char) -> bool {
    (c as u32) < 128 && spec_is_ident_first_char(c as u32 as u8)
}

/// Whether `c` is an ASCII byte that may continue an identifier: a
/// letter, a digit or `_`.
pub open spec fn other_ident_char(c: char) -> bool {
    (c as u32) < 128 && spec_is_ident_other_char(c as u32 as u8)
}

/// How a message names an identifier: in backquotes; with `r#` in front
/// where it is not a plain identifier; and, where it is empty or holds a
/// character that no identifier may hold, as a quoted string marked
/// invalid.
pub open spec fn identifier_text(s: Seq<char>) -> Seq<char> {
    if s.len() == 0 || !(forall|i: int| 0 <= i < s.len() ==> raw_ident_char(#[trigger] s[i])) {
        debug_str(s) + "_[invalid identifier]"@
    } else if !first_ident_char(s[0]) || !(forall|i: int|
        1 <= i < s.len() ==> other_ident_char(#[trigger] s[i])) {
        "`r#"@ + s + "`"@
    } else {
        "`"@ + s + "`"@
    }
}

/// Where a message names the enum or struct that holds the culprit: the
/// words `lead` and its name, or nothing.
pub open spec fn in_outer(outer: Option<String>, lead: Seq<char>) -> Seq<char> {
    match outer {
        Some(o) => lead + identifier_text(o@),
        None => Seq::empty(),
    }
}

/// The names of `alts` after the first, each after `, `.
pub open spec fn more_alts(alts: Seq<Seq<char>>) -> Seq<char>
    decreases alts.len(),
{
    if alts.len() == 0 {
        Seq::empty()
    } else {
        more_alts(alts.drop_last()) + ", "@ + identifier_text(alts.last())
    }
}

/// How a message lists what was expected instead: that there are no
/// `none`, the one alternative, either of two, or one of many.
pub open spec fn one_of_text(alts: Seq<Seq<char>>, none: Seq<char>) -> Seq<char> {
    if alts.len() == 0 {
        "there are no "@ + none
    } else if alts.len() == 1 {
        "expected "@ + identifier_text(alts[0]) + " instead"@
    } else if alts.len() == 2 {
        "expected either "@ + identifier_text(alts[0]) + " or "@ + identifier_text(alts[1])
            + " instead"@
    } else {
        "expected one of "@ + identifier_text(alts[0]) + more_alts(
            alts.subrange(1, alts.len() - 1),
        ) + ", or "@ + identifier_text(alts.last()) + " instead"@
    }
}

/// The message of the error `e`. The messages of a base64 error and of a
/// UTF-8 error are those of the outside error and are left open here.
pub open spec fn error_message(e: Error) -> Seq<char> {
    match e {
        Error::Fmt => "Formatting RON failed"@,
        Error::Io(s) => s@,
        Error::Message(s) => s@,
        Error::Eof => "Unexpected end of RON"@,
        Error::ExpectedArray => "Expected opening `[`"@,
        Error::ExpectedArrayEnd => "Expected closing `]`"@,
        Error::ExpectedAttribute => "Expected an `#![enable(...)]` attribute"@,
        Error::ExpectedAttributeEnd => "Expected closing `)]` after the enable attribute"@,
        Error::ExpectedBoolean => "Expected boolean"@,
        Error::ExpectedComma => "Expected comma"@,
        Error::ExpectedChar => "Expected char"@,
        Error::ExpectedByteLiteral => "Expected byte literal"@,
        Error::ExpectedFloat => "Expected float"@,
        Error::FloatUnderscore => "Unexpected underscore in float"@,
        Error::ExpectedInteger => "Expected integer"@,
        Error::ExpectedOption => "Expected option"@,
        Error::ExpectedOptionEnd => "Expected closing `)`"@,
        Error::ExpectedStructLikeEnd => "Expected closing `)`"@,
        Error::ExpectedMap => "Expected opening `{`"@,
        Error::ExpectedMapColon => "Expected colon"@,
        Error::ExpectedMapEnd => "Expected closing `}`"@,
        Error::ExpectedDifferentStructName { expected, found } => "Expected struct "@
            + identifier_text(expected@) + " but found "@ + identifier_text(found@),
        Error::ExpectedStructLike => "Expected opening `(`"@,
        Error::ExpectedNamedStructLike(name) => if name@.len() == 0 {
            "Expected only opening `(`, no name, for un-nameable struct"@
        } else {
            "Expected opening `(` for struct "@ + identifier_text(name@)
        },
        Error::ExpectedUnit => "Expected unit"@,
        Error::ExpectedString => "Expected string"@,
        Error::ExpectedByteString => "Expected byte string"@,
        Error::ExpectedStringEnd => "Expected end of string"@,
        Error::ExpectedIdentifier => "Expected identifier"@,
        Error::InvalidEscape(s) => s@,
        Error::IntegerOutOfBounds => "Integer is out of bounds"@,
        Error::InvalidIntegerDigit { digit, base } => "Invalid digit "@ + debug_char(digit)
            + " for base "@ + ascii_chars(decimal(base as nat)) + " integers"@,
        Error::NoSuchExtension(name) => "No RON extension named "@ + identifier_text(name@),
        Error::UnclosedBlockComment => "Unclosed block comment"@,
        Error::UnclosedLineComment =>
            "`ron::value::RawValue` cannot end in unclosed line comment, try using a block comment or adding a newline"@,
        Error::UnderscoreAtBeginning => "Unexpected leading underscore in a number"@,
        Error::UnexpectedChar(c) => "Unexpected char "@ + debug_char(c),
        Error::TrailingCharacters => "Non-whitespace trailing characters"@,
        Error::InvalidValueForType { expected, found } => "Expected "@ + expected@ + " but found "@
            + found@ + " instead"@,
        Error::ExpectedDifferentLength { expected, found } => "Expected "@ + expected@
            + " but found "@ + (if found == 0 {
            "zero elements"@
        } else if found == 1 {
            "one element"@
        } else {
            ascii_chars(decimal(found as nat)) + " elements"@
        }) + " instead"@,
        Error::NoSuchEnumVariant { expected, found, outer } => "Unexpected "@ + (if outer is None {
            "enum "@
        } else {
            Seq::empty()
        }) + "variant named "@ + identifier_text(found@) + in_outer(outer, " in enum "@) + ", "@
            + one_of_text(expected@.map_values(|a: &'static str| a@), "variants"@),
        Error::NoSuchStructField { expected, found, outer } => "Unexpected field named "@
            + identifier_text(found@) + in_outer(outer, " in "@) + ", "@ + one_of_text(
            expected@.map_values(|a: &'static str| a@),
            "fields"@,
        ),
        Error::MissingStructField { field, outer } => "Unexpected missing field named "@
            + identifier_text(field@) + in_outer(outer, " in "@),
        Error::DuplicateStructField { field, outer } => "Unexpected duplicate field named "@
            + identifier_text(field@) + in_outer(outer, " in "@),
        Error::InvalidIdentifier(s) => "Invalid identifier "@ + debug_str(s@),
        Error::SuggestRawIdentifier(s) => "Found invalid std identifier "@ + debug_str(s@)
            + ", try the raw identifier `r#"@ + s@ + "` instead"@,
        Error::ExpectedRawValue => "Expected a `ron::value::RawValue`"@,
        Error::ExceededRecursionLimit =>
            "Exceeded recursion limit, try increasing `ron::Options::recursion_limit` and using `serde_stacker` to protect against a stack overflow"@,
        Error::ExpectedStructName(name) => "Expected the explicit struct name "@ + identifier_text(
            name@,
        ) + ", but none was found"@,
        Error::Base64Error(e) => "Invalid base64: "@ + base64_error_text(e),
        Error::Utf8Error(_) => Seq::empty(),
    }
}

fn text(s: &str) -> (t: String)
    ensures
        t@ == s@,
{
    String::from_str(s)
}

fn is_raw_char(c: char) -> (b: bool)
    ensures
        b == raw_ident_char(c),
{
    let u = c as u32;
    u < 128 && crate::parse::is_ident_raw_char(u as u8)
}

fn is_first_char(c: char) -> (b: bool)
    ensures
        b == first_ident_char(c),
{
    let u = c as u32;
    u < 128 && crate::parse::is_ident_first_char(u as u8)
}

/// How a message names the identifier `s`; see [`identifier_text`].
pub fn identifier(s: &str) -> (t: String)
    ensures
        t@ == identifier_text(s@),
{
    let len = s.unicode_len();
    let mut all_raw = len > 0;
    let mut i: usize = 0;
    while i < len
        invariant
            i <= len,
            len == s@.len(),
            all_raw == (s@.len() > 0 && forall|j: int| 0 <= j < i ==> raw_ident_char(#[trigger] s@[j])),
        decreases len - i,
    {
        if !is_raw_char(s.get_char(i)) {
            all_raw = false;
        }
        i = i + 1;
    }
    if !all_raw {
        let mut t = str_debug(s);
        t.append("_[invalid identifier]");
        return t;
    }
    let mut plain = is_first_char(s.get_char(0));
    let mut k: usize = 1;
    while k < len
        invariant
            1 <= k <= len,
            len == s@.len(),
            forall|j: int| 0 <= j < len ==> raw_ident_char(#[trigger] s@[j]),
            plain == (first_ident_char(s@[0]) && forall|j: int| 1 <= j < k ==> other_ident_char(#[trigger] s@[j])),
        decreases len - k,
    {
        let c = s.get_char(k);
        assert(raw_ident_char(s@[k as int]));
        if !is_xid_continue(c) {
            plain = false;
        }
        k = k + 1;
    }
    let mut t = if plain { text("`") } else { text("`r#") };
    t.append(s);
    t.append("`");
    t
}

fn outer_text(t: &mut String, outer: &Option<String>, lead: &str)
    ensures
        final(t)@ == old(t)@ + in_outer(*outer, lead@),
{
    match outer {
        Some(o) => {
            t.append(lead);
            t.append(identifier(o.as_str()).as_str());
        },
        None => {
            assert(old(t)@ + Seq::<char>::empty() =~= old(t)@);
        },
    }
}

/// Appends how a message lists the alternatives `alts`; see
/// [`one_of_text`].
fn one_of(t: &mut String, alts: &[&'static str], none: &str)
    ensures
        final(t)@ == old(t)@ + one_of_text(alts@.map_values(|a: &'static str| a@), none@),
{
    let ghost names = alts@.map_values(|a: &'static str| a@);
    let n = alts.len();
    if n == 0 {
        t.append("there are no ");
        t.append(none);
    } else if n == 1 {
        t.append("expected ");
        t.append(identifier(alts[0]).as_str());
        t.append(" instead");
    } else if n == 2 {
        t.append("expected either ");
        t.append(identifier(alts[0]).as_str());
        t.append(" or ");
        t.append(identifier(alts[1]).as_str());
        t.append(" instead");
    } else {
        t.append("expected one of ");
        t.append(identifier(alts[0]).as_str());
        let ghost before = t@;
        let mut i: usize = 1;
        while i < n - 1
            invariant
                1 <= i <= n - 1,
                n == alts@.len(),
                n > 2,
                names == alts@.map_values(|a: &'static str| a@),
                t@ == before + more_alts(names.subrange(1, i as int)),
            decreases n - 1 - i,
        {
            t.append(", ");
            t.append(identifier(alts[i]).as_str());
            proof {
                let sub = names.subrange(1, i + 1);
                assert(sub.drop_last() =~= names.subrange(1, i as int));
                assert(sub.last() == alts@[i as int]@);
            }
            i = i + 1;
        }
        t.append(", or ");
        t.append(identifier(alts[n - 1]).as_str());
        t.append(" instead");
    }
}

impl Error {
    /// The message of the error; see [`error_message`]. A UTF-8 error's is
    /// the outside error's text, which is not stated.
    pub fn message(&self) -> (s: String)
        ensures
            !(self is Utf8Error) ==> s@ == error_message(*self),
    {
        match self {
            Error::Fmt => text("Formatting RON failed"),
            Error::Io(s) => s.clone(),
            Error::Message(s) => s.clone(),
            Error::Base64Error(e) => {
                let mut t = text("Invalid base64: ");
                match e {
                    Base64DecodeError::InvalidByte(index, byte) => {
                        t.append("Invalid symbol ");
                        t.append(decimal_string(*byte as u64).as_str());
                        t.append(", offset ");
                        t.append(decimal_string(*index as u64).as_str());
                        t.append(".");
                    },
                    Base64DecodeError::InvalidLength(len) => {
                        t.append("Invalid input length: ");
                        t.append(decimal_string(*len as u64).as_str());
                    },
                    Base64DecodeError::InvalidLastSymbol(index, byte) => {
                        t.append("Invalid last symbol ");
                        t.append(decimal_string(*byte as u64).as_str());
                        t.append(", offset ");
                        t.append(decimal_string(*index as u64).as_str());
                        t.append(".");
                    },
                    Base64DecodeError::InvalidPadding => {
                        t.append("Invalid padding");
                    },
                }
                t
            },
            Error::Eof => text("Unexpected end of RON"),
            Error::ExpectedArray => text("Expected opening `[`"),
            Error::ExpectedArrayEnd => text("Expected closing `]`"),
            Error::ExpectedAttribute => text("Expected an `#![enable(...)]` attribute"),
            Error::ExpectedAttributeEnd => text("Expected closing `)]` after the enable attribute"),
            Error::ExpectedBoolean => text("Expected boolean"),
            Error::ExpectedComma => text("Expected comma"),
            Error::ExpectedChar => text("Expected char"),
            Error::ExpectedByteLiteral => text("Expected byte literal"),
            Error::ExpectedFloat => text("Expected float"),
            Error::FloatUnderscore => text("Unexpected underscore in float"),
            Error::ExpectedInteger => text("Expected integer"),
            Error::ExpectedOption => text("Expected option"),
            Error::ExpectedOptionEnd => text("Expected closing `)`"),
            Error::ExpectedStructLikeEnd => text("Expected closing `)`"),
            Error::ExpectedMap => text("Expected opening `{`"),
            Error::ExpectedMapColon => text("Expected colon"),
            Error::ExpectedMapEnd => text("Expected closing `}`"),
            Error::ExpectedDifferentStructName { expected, found } => {
                let mut t = text("Expected struct ");
                t.append(identifier(expected).as_str());
                t.append(" but found ");
                t.append(identifier(found.as_str()).as_str());
                t
            },
            Error::ExpectedStructLike => text("Expected opening `(`"),
            Error::ExpectedNamedStructLike(name) => {
                if name.unicode_len() == 0 {
                    text("Expected only opening `(`, no name, for un-nameable struct")
                } else {
                    let mut t = text("Expected opening `(` for struct ");
                    t.append(identifier(name).as_str());
                    t
                }
            },
            Error::ExpectedUnit => text("Expected unit"),
            Error::ExpectedString => text("Expected string"),
            Error::ExpectedByteString => text("Expected byte string"),
            Error::ExpectedStringEnd => text("Expected end of string"),
            Error::ExpectedIdentifier => text("Expected identifier"),
            Error::InvalidEscape(s) => text(s),
            Error::IntegerOutOfBounds => text("Integer is out of bounds"),
            Error::InvalidIntegerDigit { digit, base } => {
                let mut t = text("Invalid digit ");
                t.append(char_debug(*digit).as_str());
                t.append(" for base ");
                t.append(decimal_string(*base as u64).as_str());
                t.append(" integers");
                t
            },
            Error::NoSuchExtension(name) => {
                let mut t = text("No RON extension named ");
                t.append(identifier(name.as_str()).as_str());
                t
            },
            Error::UnclosedBlockComment => text("Unclosed block comment"),
            Error::UnclosedLineComment => text(
                "`ron::value::RawValue` cannot end in unclosed line comment, try using a block comment or adding a newline",
            ),
            Error::UnderscoreAtBeginning => text("Unexpected leading underscore in a number"),
            Error::UnexpectedChar(c) => {
                let mut t = text("Unexpected char ");
                t.append(char_debug(*c).as_str());
                t
            },
            Error::Utf8Error(e) => utf8_error_text(e),
            Error::TrailingCharacters => text("Non-whitespace trailing characters"),
            Error::InvalidValueForType { expected, found } => {
                let mut t = text("Expected ");
                t.append(expected.as_str());
                t.append(" but found ");
                t.append(found.as_str());
                t.append(" instead");
                t
            },
            Error::ExpectedDifferentLength { expected, found } => {
                let mut t = text("Expected ");
                t.append(expected.as_str());
                t.append(" but found ");
                if *found == 0 {
                    t.append("zero elements");
                } else if *found == 1 {
                    t.append("one element");
                } else {
                    t.append(decimal_string(*found as u64).as_str());
                    t.append(" elements");
                }
                t.append(" instead");
                t
            },
            Error::NoSuchEnumVariant { expected, found, outer } => {
                let mut t = text("Unexpected ");
                if outer.is_none() {
                    t.append("enum ");
                }
                t.append("variant named ");
                t.append(identifier(found.as_str()).as_str());
                outer_text(&mut t, outer, " in enum ");
                t.append(", ");
                one_of(&mut t, expected, "variants");
                t
            },
            Error::NoSuchStructField { expected, found, outer } => {
                let mut t = text("Unexpected field named ");
                t.append(identifier(found.as_str()).as_str());
                outer_text(&mut t, outer, " in ");
                t.append(", ");
                one_of(&mut t, expected, "fields");
                t
            },
            Error::MissingStructField { field, outer } => {
                let mut t = text("Unexpected missing field named ");
                t.append(identifier(field).as_str());
                outer_text(&mut t, outer, " in ");
                t
            },
            Error::DuplicateStructField { field, outer } => {
                let mut t = text("Unexpected duplicate field named ");
                t.append(identifier(field).as_str());
                outer_text(&mut t, outer, " in ");
                t
            },
            Error::InvalidIdentifier(s) => {
                let mut t = text("Invalid identifier ");
                t.append(str_debug(s.as_str()).as_str());
                t
            },
            Error::SuggestRawIdentifier(s) => {
                let mut t = text("Found invalid std identifier ");
                t.append(str_debug(s.as_str()).as_str());
                t.append(", try the raw identifier `r#");
                t.append(s.as_str());
                t.append("` instead");
                t
            },
            Error::ExpectedRawValue => text("Expected a `ron::value::RawValue`"),
            Error::ExceededRecursionLimit => text(
                "Exceeded recursion limit, try increasing `ron::Options::recursion_limit` and using `serde_stacker` to protect against a stack overflow",
            ),
            Error::ExpectedStructName(name) => {
                let mut t = text("Expected the explicit struct name ");
                t.append(identifier(name.as_str()).as_str());
                t.append(", but none was found");
                t
            },
        }
    }
}

/// How a message names a position: line, `:`, column.
pub open spec fn position_text(p: Position) -> Seq<char> {
    ascii_chars(decimal(p.line as nat)) + seq![':'] + ascii_chars(decimal(p.col as nat))
}

/// How many newlines `s` holds.
pub open spec fn newlines(s: Seq<char>) -> nat
    decreases s.len(),
{
    if s.len() == 0 {
        0
    } else {
        newlines(s.drop_last()) + if s.last() == '\n' { 1nat } else { 0nat }
    }
}

/// How many characters `s` ends with after its last newline.
pub open spec fn last_line_len(s: Seq<char>) -> nat
    decreases s.len(),
{
    if s.len() == 0 {
        0
    } else if s.last() == '\n' {
        0
    } else {
        last_line_len(s.drop_last()) + 1
    }
}

proof fn lemma_line_counts_bound(s: Seq<char>)
    ensures
        newlines(s) <= s.len(),
        last_line_len(s) <= s.len(),
    decreases s.len(),
{
    if s.len() > 0 {
        lemma_line_counts_bound(s.drop_last());
    }
}

impl Position {
    /// The position just past the end of `src`: one line more than it has
    /// newlines, and one column more than its last line has characters.
    pub fn from_src_end(src: &str) -> (p: Position)
        requires
            src@.len() < usize::MAX,
        ensures
            p.line == 1 + newlines(src@),
            p.col == 1 + last_line_len(src@),
    {
        let len = src.unicode_len();
        let mut lines: usize = 0;
        let mut tail: usize = 0;
        let mut i: usize = 0;
        while i < len
            invariant
                i <= len,
                len == src@.len(),
                len < usize::MAX,
                lines == newlines(src@.take(i as int)),
                tail == last_line_len(src@.take(i as int)),
            decreases len - i,
        {
            proof {
                let t = src@.take(i + 1);
                assert(t.drop_last() =~= src@.take(i as int));
                assert(t.last() == src@[i as int]);
                lemma_line_counts_bound(t);
            }
            if src.get_char(i) == '\n' {
                lines = lines + 1;
                tail = 0;
            } else {
                tail = tail + 1;
            }
            i = i + 1;
        }
        proof {
            assert(src@.take(len as int) =~= src@);
            lemma_line_counts_bound(src@);
        }
        Position { line: 1 + lines, col: 1 + tail }
    }

    /// The position as `line:column`.
    pub fn text(&self) -> (s: String)
        ensures
            s@ == position_text(*self),
    {
        let mut t = decimal_string(self.line as u64);
        t.append(":");
        t.append(decimal_string(self.col as u64).as_str());
        proof {
            reveal_strlit(":");
        }
        t
    }
}

impl SpannedError {
    /// The message of the error after its position: `line:column: message`.
    pub fn message(&self) -> (s: String)
        ensures
            !(self.code is Utf8Error) ==> s@ == position_text(self.position) + ": "@ + error_message(
                self.code,
            ),
    {
        let mut t = self.position.text();
        t.append(": ");
        let m = self.code.message();
        t.append(m.as_str());
        t
    }
}

/// For ASCII text, the position that the parser reaches after reading the
/// whole of it from the start is the position that
/// [`Position::from_src_end`] gives for it.
pub proof fn lemma_end_position_ascii(s: Seq<char>)
    requires
        forall|i: int| 0 <= i < s.len() ==> (#[trigger] s[i] as u32) < 128,
        s.len() < usize::MAX,
    ensures
        crate::error::pos_after(Position { line: 1, col: 1 }, s.map_values(|c: char| c as u8))
            == (Position { line: (1 + newlines(s)) as usize, col: (1 + last_line_len(s)) as usize }),
    decreases s.len(),
{
    let b = s.map_values(|c: char| c as u8);
    lemma_line_counts_bound(s);
    if s.len() > 0 {
        let t = s.drop_last();
        assert(b.drop_last() =~= t.map_values(|c: char| c as u8));
        lemma_end_position_ascii(t);
        lemma_line_counts_bound(t);
        let c = s.last();
        assert(b.last() == c as u8);
        assert((c as u32) < 128);
        assert((c == '\n') == (c as u8 == 10u8)) by {
            if c as u8 == 10u8 {
                vstd::utf8::char_u32_cast(c, c as u32);
                assert((c as u32) == 10);
                assert((10u32 as char) == '\n');
            }
        }
    }
}

} // verus!
