//! Raw values: text of RON kept as it is, checked to be a valid document.

use vstd::prelude::*;
use vstd::string::StringSliceAdditionalSpecFns;

use crate::de::{document_scan, document_realizes, from_str};
use crate::error::{Error, SpannedError};
use crate::options::DEFAULT_RECURSION_LIMIT;
use crate::ser::Serializer;

verus! {

/// The name under which a raw value passes through serde.
pub const RAW_VALUE_TOKEN: &'static str = "$ron::private::RawValue";

/// Whether `ron` is a valid RON document under the default options.
pub open spec fn valid_ron(ron: Seq<u8>) -> bool {
    document_scan(ron, Some(DEFAULT_RECURSION_LIMIT), 0) is Done
}

/// A string of RON that reads as a valid document.
#[derive(Debug, PartialEq, Eq, PartialOrd, Ord, Hash)]
pub struct RawValue {
    ron: String,
}

impl View for RawValue {
    type V = Seq<char>;

    closed spec fn view(&self) -> Seq<char> {
        self.ron@
    }
}

impl Clone for RawValue {
    fn clone(&self) -> (r: RawValue)
        ensures
            r@ == self@,
    {
        proof {
            use_type_invariant(self);
        }
        RawValue { ron: self.ron.clone() }
    }
}

impl RawValue {
    /// A raw value always holds a valid RON document.
    #[verifier::type_invariant]
    spec fn holds_valid_ron(self) -> bool {
        valid_ron(vstd::utf8::encode_utf8(self.ron@))
    }

    /// The raw RON text, which is a valid document.
    pub fn get_ron(&self) -> (s: &str)
        ensures
            s@ == self@,
            valid_ron(s.spec_bytes()),
    {
        proof {
            use_type_invariant(self);
        }
        self.ron.as_str()
    }

    /// Checks that `ron` is a valid RON document and keeps it as a raw
    /// value; otherwise answers the error that reading it gives.
    pub fn from_ron(ron: &str) -> (r: Result<RawValue, SpannedError>)
        requires
            ron.spec_bytes().len() + 2 <= usize::MAX,
        ensures
            r is Ok <==> valid_ron(ron.spec_bytes()),
            r matches Ok(v) ==> v@ == ron@,
            r is Err ==> exists|x: Result<crate::value::Value, SpannedError>|
                document_realizes(
                    document_scan(ron.spec_bytes(), Some(DEFAULT_RECURSION_LIMIT), 0),
                    ron.spec_bytes(),
                    x,
                ) && x is Err && x->Err_0 == r->Err_0,
    {
        match from_str(ron) {
            Ok(_) => Ok(RawValue { ron: ron.to_string() }),
            Err(e) => Err(e),
        }
    }

    /// Checks that the owned text `ron` is a valid RON document and keeps
    /// it as a raw value; otherwise answers the error that reading it
    /// gives.
    pub fn from_boxed_ron(ron: String) -> (r: Result<RawValue, SpannedError>)
        requires
            vstd::utf8::encode_utf8(ron@).len() + 2 <= usize::MAX,
        ensures
            r is Ok <==> valid_ron(vstd::utf8::encode_utf8(ron@)),
            r matches Ok(v) ==> v@ == ron@,
            r is Err ==> exists|x: Result<crate::value::Value, SpannedError>|
                document_realizes(
                    document_scan(vstd::utf8::encode_utf8(ron@), Some(DEFAULT_RECURSION_LIMIT), 0),
                    vstd::utf8::encode_utf8(ron@),
                    x,
                ) && x is Err && x->Err_0 == r->Err_0,
    {
        match from_str(ron.as_str()) {
            Ok(_) => Ok(RawValue { ron }),
            Err(e) => Err(e),
        }
    }
}

/// A serializer that accepts only a string of RON, which it writes as it
/// is into the serializer it holds.
pub struct RawValueSerializer {
    ser: Serializer,
}

impl View for RawValueSerializer {
    type V = Seq<char>;

    closed spec fn view(&self) -> Seq<char> {
        self.ser@
    }
}

impl RawValueSerializer {
    /// A raw value serializer writing into `ser`.
    pub fn new(ser: Serializer) -> (s: RawValueSerializer)
        ensures
            s@ == ser@,
    {
        RawValueSerializer { ser }
    }

    /// The serializer written into, given back.
    pub fn into_inner(self) -> (s: Serializer)
        ensures
            s@ == self@,
    {
        self.ser
    }

    /// Writes the RON text `ron` as it is.
    pub fn serialize_str(&mut self, ron: &str) -> (r: Result<(), Error>)
        ensures
            r is Ok,
            final(self)@ == old(self)@ + ron@,
    {
        self.ser.write(ron);
        Ok(())
    }

    /// Refuses a boolean: only a string of RON stands in a raw value.
    pub fn serialize_bool(&self, v: bool) -> (r: Result<(), Error>)
        ensures
            r == Err::<(), Error>(Error::ExpectedRawValue),
    {
        Err(Error::ExpectedRawValue)
    }

    /// Refuses an integer: only a string of RON stands in a raw value.
    pub fn serialize_i8(&self, v: i8) -> (r: Result<(), Error>)
        ensures
            r == Err::<(), Error>(Error::ExpectedRawValue),
    {
        Err(Error::ExpectedRawValue)
    }

    /// Refuses an integer: only a string of RON stands in a raw value.
    pub fn serialize_i16(&self, v: i16) -> (r: Result<(), Error>)
        ensures
            r == Err::<(), Error>(Error::ExpectedRawValue),
    {
        Err(Error::ExpectedRawValue)
    }

    /// Refuses an integer: only a string of RON stands in a raw value.
    pub fn serialize_i32(&self, v: i32) -> (r: Result<(), Error>)
        ensures
            r == Err::<(), Error>(Error::ExpectedRawValue),
    {
        Err(Error::ExpectedRawValue)
    }

    /// Refuses an integer: only a string of RON stands in a raw value.
    pub fn serialize_i64(&self, v: i64) -> (r: Result<(), Error>)
        ensures
            r == Err::<(), Error>(Error::ExpectedRawValue),
    {
        Err(Error::ExpectedRawValue)
    }

    /// Refuses an integer: only a string of RON stands in a raw value.
    pub fn serialize_u8(&self, v: u8) -> (r: Result<(), Error>)
        ensures
            r == Err::<(), Error>(Error::ExpectedRawValue),
    {
        Err(Error::ExpectedRawValue)
    }

    /// Refuses an integer: only a string of RON stands in a raw value.
    pub fn serialize_u16(&self, v: u16) -> (r: Result<(), Error>)
        ensures
            r == Err::<(), Error>(Error::ExpectedRawValue),
    {
        Err(Error::ExpectedRawValue)
    }

    /// Refuses an integer: only a string of RON stands in a raw value.
    pub fn serialize_u32(&self, v: u32) -> (r: Result<(), Error>)
        ensures
            r == Err::<(), Error>(Error::ExpectedRawValue),
    {
        Err(Error::ExpectedRawValue)
    }

    /// Refuses an integer: only a string of RON stands in a raw value.
    pub fn serialize_u64(&self, v: u64) -> (r: Result<(), Error>)
        ensures
            r == Err::<(), Error>(Error::ExpectedRawValue),
    {
        Err(Error::ExpectedRawValue)
    }

    /// Refuses a floating-point number: only a string of RON stands in a raw value.
    pub fn serialize_float(&self) -> (r: Result<(), Error>)
        ensures
            r == Err::<(), Error>(Error::ExpectedRawValue),
    {
        Err(Error::ExpectedRawValue)
    }

    /// Refuses a character: only a string of RON stands in a raw value.
    pub fn serialize_char(&self, v: char) -> (r: Result<(), Error>)
        ensures
            r == Err::<(), Error>(Error::ExpectedRawValue),
    {
        Err(Error::ExpectedRawValue)
    }

    /// Refuses a byte string: only a string of RON stands in a raw value.
    pub fn serialize_bytes(&self, v: &[u8]) -> (r: Result<(), Error>)
        ensures
            r == Err::<(), Error>(Error::ExpectedRawValue),
    {
        Err(Error::ExpectedRawValue)
    }

    /// Refuses `None`: only a string of RON stands in a raw value.
    pub fn serialize_none(&self) -> (r: Result<(), Error>)
        ensures
            r == Err::<(), Error>(Error::ExpectedRawValue),
    {
        Err(Error::ExpectedRawValue)
    }

    /// Refuses `Some(..)`: only a string of RON stands in a raw value.
    pub fn serialize_some(&self) -> (r: Result<(), Error>)
        ensures
            r == Err::<(), Error>(Error::ExpectedRawValue),
    {
        Err(Error::ExpectedRawValue)
    }

    /// Refuses a unit: only a string of RON stands in a raw value.
    pub fn serialize_unit(&self) -> (r: Result<(), Error>)
        ensures
            r == Err::<(), Error>(Error::ExpectedRawValue),
    {
        Err(Error::ExpectedRawValue)
    }

    /// Refuses a unit struct: only a string of RON stands in a raw value.
    pub fn serialize_unit_struct(&self, name: &str) -> (r: Result<(), Error>)
        ensures
            r == Err::<(), Error>(Error::ExpectedRawValue),
    {
        Err(Error::ExpectedRawValue)
    }

    /// Refuses a unit variant: only a string of RON stands in a raw value.
    pub fn serialize_unit_variant(&self, name: &str, variant: &str) -> (r: Result<(), Error>)
        ensures
            r == Err::<(), Error>(Error::ExpectedRawValue),
    {
        Err(Error::ExpectedRawValue)
    }

    /// Refuses a newtype struct: only a string of RON stands in a raw value.
    pub fn serialize_newtype_struct(&self, name: &str) -> (r: Result<(), Error>)
        ensures
            r == Err::<(), Error>(Error::ExpectedRawValue),
    {
        Err(Error::ExpectedRawValue)
    }

    /// Refuses a newtype variant: only a string of RON stands in a raw value.
    pub fn serialize_newtype_variant(&self, name: &str, variant: &str) -> (r: Result<(), Error>)
        ensures
            r == Err::<(), Error>(Error::ExpectedRawValue),
    {
        Err(Error::ExpectedRawValue)
    }

    /// Refuses a sequence: only a string of RON stands in a raw value.
    pub fn serialize_seq(&self, len: Option<usize>) -> (r: Result<(), Error>)
        ensures
            r == Err::<(), Error>(Error::ExpectedRawValue),
    {
        Err(Error::ExpectedRawValue)
    }

    /// Refuses a tuple: only a string of RON stands in a raw value.
    pub fn serialize_tuple(&self, len: usize) -> (r: Result<(), Error>)
        ensures
            r == Err::<(), Error>(Error::ExpectedRawValue),
    {
        Err(Error::ExpectedRawValue)
    }

    /// Refuses a tuple struct: only a string of RON stands in a raw value.
    pub fn serialize_tuple_struct(&self, name: &str, len: usize) -> (r: Result<(), Error>)
        ensures
            r == Err::<(), Error>(Error::ExpectedRawValue),
    {
        Err(Error::ExpectedRawValue)
    }

    /// Refuses a tuple variant: only a string of RON stands in a raw value.
    pub fn serialize_tuple_variant(&self, name: &str, variant: &str, len: usize) -> (r: Result<(), Error>)
        ensures
            r == Err::<(), Error>(Error::ExpectedRawValue),
    {
        Err(Error::ExpectedRawValue)
    }

    /// Refuses a map: only a string of RON stands in a raw value.
    pub fn serialize_map(&self, len: Option<usize>) -> (r: Result<(), Error>)
        ensures
            r == Err::<(), Error>(Error::ExpectedRawValue),
    {
        Err(Error::ExpectedRawValue)
    }

    /// Refuses a struct: only a string of RON stands in a raw value.
    pub fn serialize_struct(&self, name: &str, len: usize) -> (r: Result<(), Error>)
        ensures
            r == Err::<(), Error>(Error::ExpectedRawValue),
    {
        Err(Error::ExpectedRawValue)
    }

    /// Refuses a struct variant: only a string of RON stands in a raw value.
    pub fn serialize_struct_variant(&self, name: &str, variant: &str, len: usize) -> (r: Result<(), Error>)
        ensures
            r == Err::<(), Error>(Error::ExpectedRawValue),
    {
        Err(Error::ExpectedRawValue)
    }
}

} // verus!
