//! A bare-bones writer of RON text, in the shape of a serde serializer.
//!
//! Each scalar is written by one call. A compound value is written by a
//! call that opens it, calls for its contents, and a call that ends it; an
//! element or field is followed by [`Serializer::end_element`], which writes
//! its `,`.

use vstd::prelude::*;
use vstd::string::StringExecFns;
use crate::util::{ascii_chars, decimal, decimal_string, signed_decimal, signed_decimal_string, string_push};

verus! {

/// The error of the serializer: a message handed in by a serialized value.
#[derive(Clone, Debug, PartialEq)]
pub enum Error {
    Message(String),
}

impl Error {
    /// The message of the error.
    pub fn description(&self) -> (s: &str)
        ensures
            match self {
                Error::Message(m) => s@ == m@,
            },
    {
        match self {
            Error::Message(e) => e.as_str(),
        }
    }
}

/// The result of one serializer call.
pub type Result<T> = core::result::Result<T, Error>;

/// A serializer that writes RON text into an owned string.
pub struct Serializer {
    output: String,
}

impl View for Serializer {
    type V = Seq<char>;

    closed spec fn view(&self) -> Seq<char> {
        self.output@
    }
}

/// The text of a byte string: each byte in decimal followed by `,`.
pub open spec fn bytes_text(bs: Seq<u8>) -> Seq<char>
    decreases bs.len(),
{
    if bs.len() == 0 {
        Seq::empty()
    } else {
        bytes_text(bs.drop_last()) + ascii_chars(decimal(bs.last() as nat)) + seq![',']
    }
}

impl Serializer {
    /// A serializer with nothing written.
    pub fn new() -> (s: Serializer)
        ensures
            s@ == Seq::<char>::empty(),
    {
        Serializer { output: String::new() }
    }

    /// The text written so far.
    pub fn output(&self) -> (s: &str)
        ensures
            s@ == self@,
    {
        self.output.as_str()
    }

    /// The text written, taking the serializer apart.
    pub fn into_string(self) -> (s: String)
        ensures
            s@ == self@,
    {
        self.output
    }

    pub(crate) fn write(&mut self, s: &str)
        ensures
            final(self)@ == old(self)@ + s@,
    {
        self.output.append(s);
    }

    fn write_char(&mut self, c: char)
        ensures
            final(self)@ == old(self)@ + seq![c],
    {
        string_push(&mut self.output, c);
        assert(old(self)@.push(c) =~= old(self)@ + seq![c]);
    }

    /// Writes `true` or `false`.
    pub fn serialize_bool(&mut self, v: bool) -> (r: Result<()>)
        ensures
            r is Ok,
            final(self)@ == old(self)@ + (if v { "true"@ } else { "false"@ }),
    {
        if v {
            self.write("true");
        } else {
            self.write("false");
        }
        Ok(())
    }

    /// Writes `v` in decimal.
    pub fn serialize_i8(&mut self, v: i8) -> (r: Result<()>)
        ensures
            r is Ok,
            final(self)@ == old(self)@ + ascii_chars(signed_decimal(v as int)),
    {
        self.serialize_i64(v as i64)
    }

    /// Writes `v` in decimal.
    pub fn serialize_i16(&mut self, v: i16) -> (r: Result<()>)
        ensures
            r is Ok,
            final(self)@ == old(self)@ + ascii_chars(signed_decimal(v as int)),
    {
        self.serialize_i64(v as i64)
    }

    /// Writes `v` in decimal.
    pub fn serialize_i32(&mut self, v: i32) -> (r: Result<()>)
        ensures
            r is Ok,
            final(self)@ == old(self)@ + ascii_chars(signed_decimal(v as int)),
    {
        self.serialize_i64(v as i64)
    }

    /// Writes `v` in decimal, with a `-` in front when negative.
    pub fn serialize_i64(&mut self, v: i64) -> (r: Result<()>)
        ensures
            r is Ok,
            final(self)@ == old(self)@ + ascii_chars(signed_decimal(v as int)),
    {
        let s = signed_decimal_string(v);
        self.write(s.as_str());
        Ok(())
    }

    /// Writes `v` in decimal.
    pub fn serialize_u8(&mut self, v: u8) -> (r: Result<()>)
        ensures
            r is Ok,
            final(self)@ == old(self)@ + ascii_chars(decimal(v as nat)),
    {
        self.serialize_u64(v as u64)
    }

    /// Writes `v` in decimal.
    pub fn serialize_u16(&mut self, v: u16) -> (r: Result<()>)
        ensures
            r is Ok,
            final(self)@ == old(self)@ + ascii_chars(decimal(v as nat)),
    {
        self.serialize_u64(v as u64)
    }

    /// Writes `v` in decimal.
    pub fn serialize_u32(&mut self, v: u32) -> (r: Result<()>)
        ensures
            r is Ok,
            final(self)@ == old(self)@ + ascii_chars(decimal(v as nat)),
    {
        self.serialize_u64(v as u64)
    }

    /// Writes `v` in decimal.
    pub fn serialize_u64(&mut self, v: u64) -> (r: Result<()>)
        ensures
            r is Ok,
            final(self)@ == old(self)@ + ascii_chars(decimal(v as nat)),
    {
        let s = decimal_string(v);
        self.write(s.as_str());
        Ok(())
    }

    /// Writes `text`, the displayed form of a floating-point number.
    pub fn serialize_float_text(&mut self, text: &str) -> (r: Result<()>)
        ensures
            r is Ok,
            final(self)@ == old(self)@ + text@,
    {
        self.write(text);
        Ok(())
    }

    /// Writes `v` as a one-character string.
    pub fn serialize_char(&mut self, v: char) -> (r: Result<()>)
        ensures
            r is Ok,
            final(self)@ == old(self)@ + seq!['"', v, '"'],
    {
        self.write_char('"');
        self.write_char(v);
        self.write_char('"');
        assert(old(self)@ + seq!['"'] + seq![v] + seq!['"'] =~= old(self)@ + seq!['"', v, '"']);
        Ok(())
    }

    /// Writes `v` between double quotes, as it is.
    pub fn serialize_str(&mut self, v: &str) -> (r: Result<()>)
        ensures
            r is Ok,
            final(self)@ == old(self)@ + seq!['"'] + v@ + seq!['"'],
    {
        self.write_char('"');
        self.write(v);
        self.write_char('"');
        Ok(())
    }

    /// Writes `v` as a sequence of numbers: `[`, each byte in decimal
    /// followed by `,`, and `]`.
    pub fn serialize_bytes(&mut self, v: &[u8]) -> (r: Result<()>)
        ensures
            r is Ok,
            final(self)@ == old(self)@ + seq!['['] + bytes_text(v@) + seq![']'],
    {
        self.write_char('[');
        let mut i: usize = 0;
        while i < v.len()
            invariant
                i <= v.len(),
                self@ == old(self)@ + seq!['['] + bytes_text(v@.subrange(0, i as int)),
            decreases v.len() - i,
        {
            let b = v[i];
            let ghost before = self@;
            self.serialize_u8(b);
            self.write_char(',');
            i = i + 1;
            proof {
                let s = v@.subrange(0, i as int);
                assert(s.drop_last() =~= v@.subrange(0, i - 1));
                assert(self@ =~= old(self)@ + seq!['['] + bytes_text(s));
            }
        }
        assert(v@.subrange(0, v.len() as int) =~= v@);
        self.write_char(']');
        Ok(())
    }

    /// Writes `None`.
    pub fn serialize_none(&mut self) -> (r: Result<()>)
        ensures
            r is Ok,
            final(self)@ == old(self)@ + "None"@,
    {
        self.write("None");
        Ok(())
    }

    /// Opens `Some(..)`: writes `Some(`; [`Serializer::end`] closes it.
    pub fn serialize_some(&mut self) -> (r: Result<()>)
        ensures
            r is Ok,
            final(self)@ == old(self)@ + "Some("@,
    {
        self.write("Some(");
        Ok(())
    }

    /// Writes `()`.
    pub fn serialize_unit(&mut self) -> (r: Result<()>)
        ensures
            r is Ok,
            final(self)@ == old(self)@ + seq!['(', ')'],
    {
        self.write_char('(');
        self.write_char(')');
        assert(old(self)@ + seq!['('] + seq![')'] =~= old(self)@ + seq!['(', ')']);
        Ok(())
    }

    /// Writes the name of a unit struct.
    pub fn serialize_unit_struct(&mut self, name: &str) -> (r: Result<()>)
        ensures
            r is Ok,
            final(self)@ == old(self)@ + name@,
    {
        self.write(name);
        Ok(())
    }

    /// Writes the name of a unit variant.
    pub fn serialize_unit_variant(&mut self, variant: &str) -> (r: Result<()>)
        ensures
            r is Ok,
            final(self)@ == old(self)@ + variant@,
    {
        self.write(variant);
        Ok(())
    }

    /// Opens a newtype struct: writes its name and `(`.
    pub fn serialize_newtype_struct(&mut self, name: &str) -> (r: Result<()>)
        ensures
            r is Ok,
            final(self)@ == old(self)@ + name@ + seq!['('],
    {
        self.write(name);
        self.write_char('(');
        Ok(())
    }

    /// Opens a newtype variant: writes its name and `(`.
    pub fn serialize_newtype_variant(&mut self, variant: &str) -> (r: Result<()>)
        ensures
            r is Ok,
            final(self)@ == old(self)@ + variant@ + seq!['('],
    {
        self.write(variant);
        self.write_char('(');
        Ok(())
    }

    /// Ends a newtype variant: writes `,)`.
    pub fn end_newtype_variant(&mut self) -> (r: Result<()>)
        ensures
            r is Ok,
            final(self)@ == old(self)@ + seq![',', ')'],
    {
        self.write_char(',');
        self.write_char(')');
        assert(old(self)@ + seq![','] + seq![')'] =~= old(self)@ + seq![',', ')']);
        Ok(())
    }

    /// Opens a sequence: writes `[`.
    pub fn serialize_seq(&mut self) -> (r: Result<()>)
        ensures
            r is Ok,
            final(self)@ == old(self)@ + seq!['['],
    {
        self.write_char('[');
        Ok(())
    }

    /// Ends a sequence: writes `]`.
    pub fn end_seq(&mut self) -> (r: Result<()>)
        ensures
            r is Ok,
            final(self)@ == old(self)@ + seq![']'],
    {
        self.write_char(']');
        Ok(())
    }

    /// Opens a tuple: writes `(`.
    pub fn serialize_tuple(&mut self) -> (r: Result<()>)
        ensures
            r is Ok,
            final(self)@ == old(self)@ + seq!['('],
    {
        self.write_char('(');
        Ok(())
    }

    /// Opens a tuple struct: writes its name and `(`.
    pub fn serialize_tuple_struct(&mut self, name: &str) -> (r: Result<()>)
        ensures
            r is Ok,
            final(self)@ == old(self)@ + name@ + seq!['('],
    {
        self.write(name);
        self.serialize_tuple()
    }

    /// Opens a tuple variant: writes its name and `(`.
    pub fn serialize_tuple_variant(&mut self, variant: &str) -> (r: Result<()>)
        ensures
            r is Ok,
            final(self)@ == old(self)@ + variant@ + seq!['('],
    {
        self.write(variant);
        self.write_char('(');
        Ok(())
    }

    /// Opens a map: writes `{`.
    pub fn serialize_map(&mut self) -> (r: Result<()>)
        ensures
            r is Ok,
            final(self)@ == old(self)@ + seq!['{'],
    {
        self.write_char('{');
        Ok(())
    }

    /// Opens a map value: writes `:`.
    pub fn serialize_value(&mut self) -> (r: Result<()>)
        ensures
            r is Ok,
            final(self)@ == old(self)@ + seq![':'],
    {
        self.write_char(':');
        Ok(())
    }

    /// Ends a map: writes `}`.
    pub fn end_map(&mut self) -> (r: Result<()>)
        ensures
            r is Ok,
            final(self)@ == old(self)@ + seq!['}'],
    {
        self.write_char('}');
        Ok(())
    }

    /// Opens a struct: writes its name and `(`.
    pub fn serialize_struct(&mut self, name: &str) -> (r: Result<()>)
        ensures
            r is Ok,
            final(self)@ == old(self)@ + name@ + seq!['('],
    {
        self.write(name);
        self.write_char('(');
        Ok(())
    }

    /// Opens a struct variant: writes its name and `(`.
    pub fn serialize_struct_variant(&mut self, variant: &str) -> (r: Result<()>)
        ensures
            r is Ok,
            final(self)@ == old(self)@ + variant@ + seq!['('],
    {
        self.write(variant);
        self.write_char('(');
        Ok(())
    }

    /// Opens a named field: writes its name and `:`.
    pub fn serialize_field(&mut self, key: &str) -> (r: Result<()>)
        ensures
            r is Ok,
            final(self)@ == old(self)@ + key@ + seq![':'],
    {
        self.write(key);
        self.write_char(':');
        Ok(())
    }

    /// Follows an element or a field: writes `,`.
    pub fn end_element(&mut self) -> (r: Result<()>)
        ensures
            r is Ok,
            final(self)@ == old(self)@ + seq![','],
    {
        self.write_char(',');
        Ok(())
    }

    /// Ends a tuple, tuple struct, tuple variant, struct or struct variant:
    /// writes `)`.
    pub fn end(&mut self) -> (r: Result<()>)
        ensures
            r is Ok,
            final(self)@ == old(self)@ + seq![')'],
    {
        self.write_char(')');
        Ok(())
    }
}

} // verus!
