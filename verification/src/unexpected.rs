//! What a value was found to be where a value of another type was
//! expected, and the errors that deserialising into a type raises.

use vstd::prelude::*;
use vstd::string::StringExecFns;

use crate::error::Error;
use crate::message::{debug_str, str_debug};
use crate::util::{ascii_chars, decimal, decimal_string, signed_decimal, signed_decimal_string, string_push};

verus! {

/// What a value turned out to be where a value of another type was
/// expected. A floating point number is held by the text that `Display`
/// gives for it.
#[derive(Clone, Debug, PartialEq)]
pub enum Unexpected {
    Bool(bool),
    Unsigned(u64),
    Signed(i64),
    Float(String),
    Char(char),
    Str(String),
    Bytes(Vec<u8>),
    Unit,
    Optional,
    NewtypeStruct,
    Sequence,
    Mapping,
    Enum,
    UnitVariant,
    NewtypeVariant,
    TupleVariant,
    StructVariant,
    Other(String),
}

/// The lower-case hexadecimal digit of `d`, below 16.
pub open spec fn hex_digit(d: u8) -> char {
    if d < 10 {
        (48 + d) as char
    } else {
        (87 + d) as char
    }
}

/// How `core::ascii::escape_default` writes the byte `b`: tab, carriage
/// return, line feed, quotes and backslash by a backslash escape, the other
/// printable ASCII bytes as they are, and every other byte as `\x` and two
/// lower-case hexadecimal digits.
pub open spec fn escape_byte(b: u8) -> Seq<char> {
    if b == 9 {
        seq!['\\', 't']
    } else if b == 13 {
        seq!['\\', 'r']
    } else if b == 10 {
        seq!['\\', 'n']
    } else if b == 39 || b == 34 || b == 92 {
        seq!['\\', b as char]
    } else if 32 <= b < 127 {
        seq![b as char]
    } else {
        seq!['\\', 'x', hex_digit(b / 16), hex_digit(b % 16)]
    }
}

/// The bytes `s`, each written as [`escape_byte`] writes it.
pub open spec fn bytes_escaped(s: Seq<u8>) -> Seq<char>
    decreases s.len(),
{
    if s.len() == 0 {
        Seq::empty()
    } else {
        bytes_escaped(s.drop_last()) + escape_byte(s.last())
    }
}

/// How an error message names what a value turned out to be.
pub open spec fn unexpected_text(u: Unexpected) -> Seq<char> {
    match u {
        Unexpected::Bool(b) => "the boolean `"@ + (if b {
            "true"@
        } else {
            "false"@
        }) + "`"@,
        Unexpected::Unsigned(i) => "the unsigned integer `"@ + ascii_chars(decimal(i as nat)) + "`"@,
        Unexpected::Signed(i) => "the signed integer `"@ + ascii_chars(signed_decimal(i as int)) + "`"@,
        Unexpected::Float(t) => "the floating point number `"@ + t@ + "`"@,
        Unexpected::Char(c) => "the UTF-8 character `"@ + seq![c] + "`"@,
        Unexpected::Str(s) => "the string "@ + debug_str(s@),
        Unexpected::Bytes(b) => "the byte string b\""@ + bytes_escaped(b@) + "\""@,
        Unexpected::Unit => "a unit value"@,
        Unexpected::Optional => "an optional value"@,
        Unexpected::NewtypeStruct => "a newtype struct"@,
        Unexpected::Sequence => "a sequence"@,
        Unexpected::Mapping => "a map"@,
        Unexpected::Enum => "an enum"@,
        Unexpected::UnitVariant => "a unit variant"@,
        Unexpected::NewtypeVariant => "a newtype variant"@,
        Unexpected::TupleVariant => "a tuple variant"@,
        Unexpected::StructVariant => "a struct variant"@,
        Unexpected::Other(o) => o@,
    }
}

fn hex_char(d: u8) -> (c: char)
    requires
        d < 16,
    ensures
        c == hex_digit(d),
{
    if d < 10 {
        (48 + d) as char
    } else {
        (87 + d) as char
    }
}

/// Appends the byte `b` as [`escape_byte`] writes it.
fn push_escaped(t: &mut String, b: u8)
    ensures
        final(t)@ == old(t)@ + escape_byte(b),
{
    if b == 9 {
        string_push(t, '\\');
        string_push(t, 't');
    } else if b == 13 {
        string_push(t, '\\');
        string_push(t, 'r');
    } else if b == 10 {
        string_push(t, '\\');
        string_push(t, 'n');
    } else if b == 39 || b == 34 || b == 92 {
        string_push(t, '\\');
        string_push(t, b as char);
    } else if 32 <= b && b < 127 {
        string_push(t, b as char);
    } else {
        string_push(t, '\\');
        string_push(t, 'x');
        string_push(t, hex_char(b / 16));
        string_push(t, hex_char(b % 16));
    }
    assert(final(t)@ =~= old(t)@ + escape_byte(b));
}

impl Unexpected {
    /// How an error message names this value; see [`unexpected_text`].
    pub fn text(&self) -> (s: String)
        ensures
            s@ == unexpected_text(*self),
    {
        match self {
            Unexpected::Bool(b) => {
                let mut t = String::from_str("the boolean `");
                if *b {
                    t.append("true");
                } else {
                    t.append("false");
                }
                t.append("`");
                t
            },
            Unexpected::Unsigned(i) => {
                let mut t = String::from_str("the unsigned integer `");
                t.append(decimal_string(*i).as_str());
                t.append("`");
                t
            },
            Unexpected::Signed(i) => {
                let mut t = String::from_str("the signed integer `");
                t.append(signed_decimal_string(*i).as_str());
                t.append("`");
                t
            },
            Unexpected::Float(f) => {
                let mut t = String::from_str("the floating point number `");
                t.append(f.as_str());
                t.append("`");
                t
            },
            Unexpected::Char(c) => {
                let mut t = String::from_str("the UTF-8 character `");
                string_push(&mut t, *c);
                t.append("`");
                t
            },
            Unexpected::Str(s) => {
                let mut t = String::from_str("the string ");
                t.append(str_debug(s.as_str()).as_str());
                t
            },
            Unexpected::Bytes(b) => {
                let mut t = String::from_str("the byte string b\"");
                let ghost start = t@;
                let mut i: usize = 0;
                while i < b.len()
                    invariant
                        i <= b.len(),
                        t@ == start + bytes_escaped(b@.take(i as int)),
                    decreases b.len() - i,
                {
                    push_escaped(&mut t, b[i]);
                    proof {
                        assert(b@.take(i + 1).drop_last() =~= b@.take(i as int));
                    }
                    i = i + 1;
                }
                proof {
                    assert(b@.take(b@.len() as int) =~= b@);
                }
                t.append("\"");
                t
            },
            Unexpected::Unit => String::from_str("a unit value"),
            Unexpected::Optional => String::from_str("an optional value"),
            Unexpected::NewtypeStruct => String::from_str("a newtype struct"),
            Unexpected::Sequence => String::from_str("a sequence"),
            Unexpected::Mapping => String::from_str("a map"),
            Unexpected::Enum => String::from_str("an enum"),
            Unexpected::UnitVariant => String::from_str("a unit variant"),
            Unexpected::NewtypeVariant => String::from_str("a newtype variant"),
            Unexpected::TupleVariant => String::from_str("a tuple variant"),
            Unexpected::StructVariant => String::from_str("a struct variant"),
            Unexpected::Other(o) => o.clone(),
        }
    }
}

impl Error {
    /// The error for a value of the wrong kind: `unexp` is what was found,
    /// `expected` names what was wanted. A value of the wrong type is
    /// reported the same way.
    pub fn invalid_value(unexp: &Unexpected, expected: String) -> (e: Error)
        ensures
            e matches Error::InvalidValueForType { expected: x, found: f } && x@ == expected@ && f@
                == unexpected_text(*unexp),
    {
        Error::InvalidValueForType { expected, found: unexp.text() }
    }

    /// The error for a value of the wrong type; the same as
    /// [`Error::invalid_value`].
    pub fn invalid_type(unexp: &Unexpected, expected: String) -> (e: Error)
        ensures
            e matches Error::InvalidValueForType { expected: x, found: f } && x@ == expected@ && f@
                == unexpected_text(*unexp),
    {
        Self::invalid_value(unexp, expected)
    }

    /// The error for a sequence or map of `len` elements where `expected`
    /// describes the length wanted.
    pub fn invalid_length(len: usize, expected: String) -> (e: Error)
        ensures
            e matches Error::ExpectedDifferentLength { expected: x, found } && x@ == expected@ && found
                == len,
    {
        Error::ExpectedDifferentLength { expected, found: len }
    }

    /// The error for an enum variant named `variant` that is not among
    /// `expected`.
    pub fn unknown_variant(variant: &str, expected: &'static [&'static str]) -> (e: Error)
        ensures
            e matches Error::NoSuchEnumVariant { expected: x, found, outer } && x == expected && found@
                == variant@ && outer is None,
    {
        Error::NoSuchEnumVariant { expected, found: String::from_str(variant), outer: None }
    }

    /// The error for a struct field named `field` that is not among
    /// `expected`.
    pub fn unknown_field(field: &str, expected: &'static [&'static str]) -> (e: Error)
        ensures
            e matches Error::NoSuchStructField { expected: x, found, outer } && x == expected && found@
                == field@ && outer is None,
    {
        Error::NoSuchStructField { expected, found: String::from_str(field), outer: None }
    }

    /// The error for the struct field `field`, which is missing.
    pub fn missing_field(field: &'static str) -> (e: Error)
        ensures
            e == (Error::MissingStructField { field, outer: None }),
    {
        Error::MissingStructField { field, outer: None }
    }

    /// The error for the struct field `field`, which came twice.
    pub fn duplicate_field(field: &'static str) -> (e: Error)
        ensures
            e == (Error::DuplicateStructField { field, outer: None }),
    {
        Error::DuplicateStructField { field, outer: None }
    }
}

} // verus!
