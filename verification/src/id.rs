//! A deserializer that reads nothing but identifiers, by handing them to the
//! deserializer it wraps.

use vstd::prelude::*;

verus! {

/// Wraps a deserializer `d`, through which only identifiers are read.
pub struct IdDeserializer<D> {
    d: D,
}

impl<D> IdDeserializer<D> {
    /// An identifier deserializer reading through `d`.
    pub fn new(d: D) -> (s: IdDeserializer<D>)
        ensures
            s.inner() == d,
    {
        IdDeserializer { d }
    }

    /// The deserializer read through.
    pub closed spec fn inner(&self) -> D {
        self.d
    }

    /// The deserializer read through, given back.
    pub fn into_inner(self) -> (d: D)
        ensures
            d == self.inner(),
    {
        self.d
    }
}

} // verus!
