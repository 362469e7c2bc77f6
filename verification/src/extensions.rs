//! The `#![enable(...)]` extensions of RON, as a set of bit flags.

use vstd::prelude::*;
use vstd::string::StringSliceAdditionalSpecFns;

use crate::util::bytes_eq;

verus! {

/// A set of RON extensions, held as a bit set.
#[derive(Clone, Copy, Debug, PartialEq, Eq, Structural)]
pub struct Extensions {
    pub bits: usize,
}

/// The bit of the `unwrap_newtypes` extension.
pub const UNWRAP_NEWTYPES_BIT: usize = 1;
/// The bit of the `implicit_some` extension.
pub const IMPLICIT_SOME_BIT: usize = 2;
/// The bit of the `unwrap_variant_newtypes` extension.
pub const UNWRAP_VARIANT_NEWTYPES_BIT: usize = 4;
/// The bit of the `explicit_struct_names` extension: during deserialization,
/// structs' names must be stated explicitly.
pub const EXPLICIT_STRUCT_NAMES_BIT: usize = 8;

/// The bits that name a known extension.
pub const ALL_BITS: usize = 15;

impl Extensions {
    /// Whether every bit of `other` is set in `self`.
    pub open spec fn spec_contains(self, other: Extensions) -> bool {
        self.bits & other.bits == other.bits
    }

    /// The extension that `ident` names, if any.
    pub open spec fn spec_from_ident(ident: Seq<u8>) -> Option<Extensions> {
        if ident == "unwrap_newtypes".spec_bytes() {
            Some(Extensions { bits: UNWRAP_NEWTYPES_BIT })
        } else if ident == "implicit_some".spec_bytes() {
            Some(Extensions { bits: IMPLICIT_SOME_BIT })
        } else if ident == "unwrap_variant_newtypes".spec_bytes() {
            Some(Extensions { bits: UNWRAP_VARIANT_NEWTYPES_BIT })
        } else if ident == "explicit_struct_names".spec_bytes() {
            Some(Extensions { bits: EXPLICIT_STRUCT_NAMES_BIT })
        } else {
            None
        }
    }

    /// Creates an extension flag from an identifier.
    pub fn from_ident(ident: &str) -> (r: Option<Extensions>)
        ensures
            r == Self::spec_from_ident(ident.spec_bytes()),
    {
        let b = ident.as_bytes();
        if bytes_eq(b, "unwrap_newtypes".as_bytes()) {
            Some(Extensions { bits: UNWRAP_NEWTYPES_BIT })
        } else if bytes_eq(b, "implicit_some".as_bytes()) {
            Some(Extensions { bits: IMPLICIT_SOME_BIT })
        } else if bytes_eq(b, "unwrap_variant_newtypes".as_bytes()) {
            Some(Extensions { bits: UNWRAP_VARIANT_NEWTYPES_BIT })
        } else if bytes_eq(b, "explicit_struct_names".as_bytes()) {
            Some(Extensions { bits: EXPLICIT_STRUCT_NAMES_BIT })
        } else {
            None
        }
    }

    /// The set with no extension.
    pub fn empty() -> (e: Extensions)
        ensures
            e.bits == 0,
    {
        Extensions { bits: 0 }
    }

    pub fn unwrap_newtypes() -> (e: Extensions)
        ensures
            e.bits == UNWRAP_NEWTYPES_BIT,
    {
        Extensions { bits: UNWRAP_NEWTYPES_BIT }
    }

    pub fn implicit_some() -> (e: Extensions)
        ensures
            e.bits == IMPLICIT_SOME_BIT,
    {
        Extensions { bits: IMPLICIT_SOME_BIT }
    }

    pub fn unwrap_variant_newtypes() -> (e: Extensions)
        ensures
            e.bits == UNWRAP_VARIANT_NEWTYPES_BIT,
    {
        Extensions { bits: UNWRAP_VARIANT_NEWTYPES_BIT }
    }

    pub fn explicit_struct_names() -> (e: Extensions)
        ensures
            e.bits == EXPLICIT_STRUCT_NAMES_BIT,
    {
        Extensions { bits: EXPLICIT_STRUCT_NAMES_BIT }
    }

    /// Whether no extension is set.
    pub fn is_empty(&self) -> (b: bool)
        ensures
            b == (self.bits == 0),
    {
        self.bits == 0
    }

    /// Whether every extension of `other` is set in `self`.
    pub fn contains(&self, other: Extensions) -> (b: bool)
        ensures
            b == self.spec_contains(other),
    {
        self.bits & other.bits == other.bits
    }

    /// The extensions set in `self` or in `other`.
    pub fn union(self, other: Extensions) -> (e: Extensions)
        ensures
            e.bits == self.bits | other.bits,
    {
        Extensions { bits: self.bits | other.bits }
    }

    /// The extensions set in `self` but not in `other`.
    pub fn difference(self, other: Extensions) -> (e: Extensions)
        ensures
            e.bits == self.bits & !other.bits,
    {
        Extensions { bits: self.bits & !other.bits }
    }
}

} // verus!
