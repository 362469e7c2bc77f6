//! Descriptions of serde data types, and which of them survive a round trip
//! through RON in the company of serde's untagged, internally tagged and
//! flattened representations.
//!
//! Each predicate answers whether a value of the described type is
//! supported in a position; the known exceptions are noted where they
//! apply.

use vstd::prelude::*;

use crate::extensions::{Extensions, IMPLICIT_SOME_BIT, UNWRAP_NEWTYPES_BIT, UNWRAP_VARIANT_NEWTYPES_BIT};
use crate::raw::RAW_VALUE_TOKEN;
use crate::util::str_eq;

verus! {

/// How an enum is represented by serde.
#[derive(Debug, Default, PartialEq)]
pub enum SerdeEnumRepresentation {
    #[default]
    ExternallyTagged,
    InternallyTagged { tag: String },
    AdjacentlyTagged { tag: String, content: String },
    Untagged,
}

/// The shape of one variant of an enum.
#[derive(Debug, Default, PartialEq)]
pub enum SerdeDataVariantType {
    #[default]
    Unit,
    TaggedOther,
    Newtype { inner: Box<SerdeDataType> },
    Tuple { fields: Vec<SerdeDataType> },
    /// Field names, field types, and whether each field is flattened.
    Struct { fields: (Vec<String>, Vec<SerdeDataType>, Vec<bool>) },
}

/// A serde data type.
#[derive(Debug, Default, PartialEq)]
pub enum SerdeDataType {
    #[default]
    Unit,
    Bool,
    I8,
    I16,
    I32,
    I64,
    I128,
    ISize,
    U8,
    U16,
    U32,
    U64,
    U128,
    USize,
    F32,
    F64,
    Char,
    String,
    ByteBuf,
    Option { inner: Box<SerdeDataType> },
    Array { kind: Box<SerdeDataType>, len: usize },
    Tuple { elems: Vec<SerdeDataType> },
    Vec { item: Box<SerdeDataType> },
    Mapping { key: Box<SerdeDataType>, value: Box<SerdeDataType> },
    UnitStruct { name: String },
    Newtype { name: String, inner: Box<SerdeDataType> },
    TupleStruct { name: String, fields: Vec<SerdeDataType> },
    /// The name, the tag, and the field names, field types, and whether
    /// each field is flattened.
    Struct { name: String, tag: Option<String>, fields: (Vec<String>, Vec<SerdeDataType>, Vec<bool>) },
    Enum {
        name: String,
        variants: (Vec<String>, Vec<SerdeDataVariantType>),
        representation: SerdeEnumRepresentation,
    },
}

/// Whether the `implicit_some` extension is on.
pub open spec fn implicit_some(e: Extensions) -> bool {
    e.spec_contains(Extensions { bits: IMPLICIT_SOME_BIT })
}

/// Whether the `unwrap_variant_newtypes` extension is on.
pub open spec fn unwrap_variant_newtypes(e: Extensions) -> bool {
    e.spec_contains(Extensions { bits: UNWRAP_VARIANT_NEWTYPES_BIT })
}

/// Whether the `unwrap_newtypes` extension is on.
pub open spec fn unwrap_newtypes(e: Extensions) -> bool {
    e.spec_contains(Extensions { bits: UNWRAP_NEWTYPES_BIT })
}

/// Whether a value of type `t` survives inside an untagged enum, under the
/// extensions `e`, directly inside a newtype variant (`nv`) or an option
/// (`opt`).
pub open spec fn untagged_ok(t: SerdeDataType, e: Extensions, nv: bool, opt: bool) -> bool
    decreases t,
{
    match t {
        // implicit `Some(())` is written as `()`, which reads back as `None`
        SerdeDataType::Unit => !(opt && implicit_some(e)),
        // serde's content has no 128-bit integers
        SerdeDataType::I128 => false,
        SerdeDataType::U128 => false,
        SerdeDataType::Option { inner } => untagged_ok(*inner, e, true, true),
        SerdeDataType::Array { kind, len } => {
            // an empty array looks like a unit; a one-element array inside an
            // unwrapped variant newtype is swallowed
            &&& len != 0
            &&& !(len == 1 && nv && unwrap_variant_newtypes(e))
            &&& untagged_ok(*kind, e, false, false)
        },
        SerdeDataType::Tuple { elems } => {
            &&& elems@.len() != 0
            &&& !(elems@.len() == 1 && nv && unwrap_variant_newtypes(e))
            &&& forall|i: int| 0 <= i < elems@.len() ==> untagged_ok(#[trigger] elems@[i], e, false, false)
        },
        SerdeDataType::Vec { item } => untagged_ok(*item, e, false, false),
        SerdeDataType::Mapping { key, value } => untagged_ok(*key, e, false, false) && untagged_ok(
            *value,
            e,
            false,
            false,
        ),
        SerdeDataType::UnitStruct { .. } => !(opt && implicit_some(e)),
        // newtypes inside untagged look like one-element tuples
        SerdeDataType::Newtype { .. } => false,
        SerdeDataType::TupleStruct { fields, .. } => {
            &&& fields@.len() != 0
            &&& !(fields@.len() == 1 && nv && unwrap_variant_newtypes(e))
            &&& forall|i: int| 0 <= i < fields@.len() ==> untagged_ok(#[trigger] fields@[i], e, false, false)
        },
        SerdeDataType::Struct { fields, .. } => {
            &&& fields.0@.len() != 0
            &&& forall|i: int| 0 <= i < fields.1@.len() ==> untagged_ok(#[trigger] fields.1@[i], e, false, false)
        },
        SerdeDataType::Enum { variants, representation, .. } => forall|i: int|
            0 <= i < variants.1@.len() ==> variant_untagged_ok(
                #[trigger] variants.1@[i],
                representation,
                e,
                opt,
            ),
        _ => true,
    }
}

/// Whether a variant of an enum represented by `rep` survives inside an
/// untagged enum; see [`untagged_ok`].
pub open spec fn variant_untagged_ok(
    v: SerdeDataVariantType,
    rep: SerdeEnumRepresentation,
    e: Extensions,
    opt: bool,
) -> bool
    decreases v,
{
    match v {
        SerdeDataVariantType::Unit => !(opt && implicit_some(e) && rep is Untagged),
        SerdeDataVariantType::TaggedOther => true,
        SerdeDataVariantType::Newtype { inner } => untagged_ok(
            *inner,
            e,
            true,
            opt && unwrap_variant_newtypes(e),
        ),
        SerdeDataVariantType::Tuple { fields } => {
            // a one-element tuple variant looks like a newtype variant
            &&& fields@.len() != 0
            &&& !(rep is ExternallyTagged && fields@.len() == 1)
            &&& forall|i: int| 0 <= i < fields@.len() ==> untagged_ok(#[trigger] fields@[i], e, false, false)
        },
        SerdeDataVariantType::Struct { fields } => {
            &&& fields.0@.len() != 0
            &&& forall|i: int| 0 <= i < fields.1@.len() ==> untagged_ok(#[trigger] fields.1@[i], e, false, false)
        },
    }
}

/// Whether a value of type `t` survives as the content of an internally
/// tagged newtype variant, `inside` an untagged newtype variant or not.
pub open spec fn internally_tagged_ok(t: SerdeDataType, inside: bool) -> bool
    decreases t,
{
    match t {
        // a unit there expects a unit, but only the tag is written
        SerdeDataType::Unit => !inside,
        SerdeDataType::Mapping { .. } => true,
        SerdeDataType::UnitStruct { .. } => !inside,
        SerdeDataType::Newtype { inner, .. } => internally_tagged_ok(*inner, inside),
        SerdeDataType::Struct { .. } => true,
        SerdeDataType::Enum { variants, representation, .. } => forall|i: int|
            0 <= i < variants.1@.len() ==> variant_internally_tagged_ok(
                #[trigger] variants.1@[i],
                representation,
            ),
        _ => false,
    }
}

/// Whether a variant of an enum represented by `rep` survives as the
/// content of an internally tagged newtype variant.
pub open spec fn variant_internally_tagged_ok(v: SerdeDataVariantType, rep: SerdeEnumRepresentation) -> bool
    decreases v,
{
    match v {
        SerdeDataVariantType::Unit => !(rep is Untagged),
        SerdeDataVariantType::TaggedOther => !(rep is Untagged),
        SerdeDataVariantType::Newtype { inner } => rep is Untagged ==> internally_tagged_ok(*inner, true),
        SerdeDataVariantType::Tuple { .. } => !(rep is Untagged || rep is AdjacentlyTagged),
        SerdeDataVariantType::Struct { .. } => true,
    }
}

/// Whether a value of type `t` survives inside a flattened field, `inside`
/// an untagged newtype variant or not.
pub open spec fn flatten_ok(t: SerdeDataType, inside: bool) -> bool
    decreases t,
{
    match t {
        SerdeDataType::Unit => !inside,
        SerdeDataType::Option { inner } => flatten_ok(*inner, inside),
        SerdeDataType::Mapping { key, .. } => flatten_key_ok(*key),
        SerdeDataType::Newtype { name, inner } => name@ != RAW_VALUE_TOKEN@ && flatten_ok(*inner, inside),
        SerdeDataType::Struct { .. } => true,
        SerdeDataType::Enum { variants, representation, .. } => forall|i: int|
            0 <= i < variants.1@.len() ==> variant_flatten_ok(
                #[trigger] variants.1@[i],
                representation,
                inside,
            ),
        _ => false,
    }
}

/// Whether a variant of an enum represented by `rep` survives inside a
/// flattened field.
pub open spec fn variant_flatten_ok(v: SerdeDataVariantType, rep: SerdeEnumRepresentation, inside: bool) -> bool
    decreases v,
{
    match v {
        SerdeDataVariantType::Unit => false,
        SerdeDataVariantType::TaggedOther => false,
        SerdeDataVariantType::Newtype { inner } => if rep is Untagged {
            flatten_ok(*inner, true)
        } else {
            flatten_ok(*inner, inside)
        },
        SerdeDataVariantType::Tuple { .. } => !(rep is Untagged),
        SerdeDataVariantType::Struct { .. } => true,
    }
}

/// Whether the keys of a flattened map may have type `t`: strings only.
pub open spec fn flatten_key_ok(t: SerdeDataType) -> bool {
    t is String
}

/// Whether any of `s` is set.
pub open spec fn any_set(s: Seq<bool>) -> bool {
    exists|i: int| 0 <= i < s.len() && s[i]
}

/// Whether `rep` writes the variant name as a tag beside the content.
pub open spec fn tagged_beside(rep: SerdeEnumRepresentation) -> bool {
    rep is InternallyTagged || rep is AdjacentlyTagged
}

/// The check of a flattened map inside a flattened field, with the state it
/// threads: whether a flattened map has been seen (`map`) and whether a key
/// unknown to some struct has been (`unknown`). The answer is the verdict
/// and the state after the check; a failing check leaves the state as it
/// stood when it failed.
pub open spec fn flat_map_ok(
    t: SerdeDataType,
    e: Extensions,
    flattened: bool,
    untagged: bool,
    map: bool,
    unknown: bool,
) -> (bool, bool, bool)
    decreases t,
{
    match t {
        SerdeDataType::Option { inner } => if flattened && untagged {
            // a flattened `None` writes an empty struct, which reads back as
            // `Some`
            (false, map, unknown)
        } else if flattened || implicit_some(e) {
            flat_map_ok(*inner, e, flattened, untagged, map, unknown)
        } else {
            (true, map, unknown)
        },
        SerdeDataType::Mapping { .. } => if flattened {
            if unknown || map {
                // a flattened map also sees the unknown key, and at most one
                // flattened map is supported
                (false, map, unknown)
            } else {
                (true, true, unknown)
            }
        } else {
            (true, map, unknown)
        },
        SerdeDataType::Newtype { inner, .. } => if flattened || unwrap_newtypes(e) {
            flat_map_ok(*inner, e, flattened, untagged, map, unknown)
        } else {
            (true, map, unknown)
        },
        SerdeDataType::Struct { tag, fields, .. } => if flattened {
            if tag is Some && map {
                (false, map, unknown)
            } else if tag is Some && unknown && untagged {
                (false, map, unknown)
            } else {
                flat_map_fields(
                    fields.1@,
                    fields.2@,
                    e,
                    untagged,
                    map,
                    if tag is Some { true } else { unknown },
                )
            }
        } else if any_set(fields.2@) {
            if map {
                (false, map, unknown)
            } else {
                (true, map, true)
            }
        } else {
            (true, map, unknown)
        },
        SerdeDataType::Enum { variants, representation, .. } => flat_map_variants(
            variants.1@,
            representation,
            e,
            flattened,
            untagged,
            map,
            unknown,
        ),
        _ => (true, map, unknown),
    }
}

/// [`flat_map_ok`] for the fields of a struct in turn, each flattened or
/// not as `flags` says, stopping at the first that fails or when either
/// runs out.
pub open spec fn flat_map_fields(
    fields: Seq<SerdeDataType>,
    flags: Seq<bool>,
    e: Extensions,
    untagged: bool,
    map: bool,
    unknown: bool,
) -> (bool, bool, bool)
    decreases fields,
{
    if fields.len() == 0 || flags.len() == 0 {
        (true, map, unknown)
    } else {
        let first = flat_map_ok(fields[0], e, flags[0], untagged, map, unknown);
        if !first.0 {
            first
        } else {
            flat_map_fields(fields.drop_first(), flags.drop_first(), e, untagged, first.1, first.2)
        }
    }
}

/// [`flat_map_variant`] for the variants of an enum in turn, stopping at the
/// first that fails.
pub open spec fn flat_map_variants(
    vs: Seq<SerdeDataVariantType>,
    rep: SerdeEnumRepresentation,
    e: Extensions,
    flattened: bool,
    untagged: bool,
    map: bool,
    unknown: bool,
) -> (bool, bool, bool)
    decreases vs,
{
    if vs.len() == 0 {
        (true, map, unknown)
    } else {
        let first = flat_map_variant(vs[0], rep, e, flattened, untagged, map, unknown);
        if !first.0 {
            first
        } else {
            flat_map_variants(vs.drop_first(), rep, e, flattened, untagged, first.1, first.2)
        }
    }
}

/// [`flat_map_ok`] for one variant of an enum represented by `rep`.
pub open spec fn flat_map_variant(
    v: SerdeDataVariantType,
    rep: SerdeEnumRepresentation,
    e: Extensions,
    flattened: bool,
    untagged: bool,
    map: bool,
    unknown: bool,
) -> (bool, bool, bool)
    decreases v,
{
    match v {
        SerdeDataVariantType::Newtype { inner } => if rep is Untagged {
            flat_map_ok(*inner, e, flattened, true, map, unknown)
        } else if flattened {
            if rep is ExternallyTagged && unknown {
                // flattened enums read through serde's content, which
                // expects a map of one field
                (false, map, unknown)
            } else if rep is InternallyTagged && !internally_tagged_ok(*inner, true) {
                (false, map, unknown)
            } else {
                let inner_check = if rep is InternallyTagged {
                    flat_map_ok(*inner, e, flattened, false, map, unknown)
                } else {
                    (true, map, unknown)
                };
                if !inner_check.0 {
                    inner_check
                } else if inner_check.1 {
                    (false, inner_check.1, inner_check.2)
                } else {
                    (true, inner_check.1, true)
                }
            }
        } else {
            (true, map, unknown)
        },
        SerdeDataVariantType::Tuple { .. } => if flattened && (rep is ExternallyTagged
            || rep is AdjacentlyTagged) {
            if map {
                (false, map, unknown)
            } else {
                (true, map, true)
            }
        } else {
            (true, map, unknown)
        },
        SerdeDataVariantType::Struct { fields } => {
            if flattened && map {
                (false, map, unknown)
            } else {
                let unknown1 = if flattened { true } else { unknown };
                if rep is Untagged && (flattened || any_set(fields.2@)) {
                    if map || unknown1 {
                        (false, map, unknown1)
                    } else {
                        (true, map, true)
                    }
                } else if flattened && rep is ExternallyTagged && unknown1 {
                    (false, map, unknown1)
                } else {
                    (true, map, unknown1)
                }
            }
        },
        // unit and other variants
        _ => if flattened && tagged_beside(rep) {
            if map {
                (false, map, unknown)
            } else {
                (true, map, true)
            }
        } else {
            (true, map, unknown)
        },
    }
}

fn has_implicit_some(e: Extensions) -> (b: bool)
    ensures
        b == implicit_some(e),
{
    e.contains(Extensions::implicit_some())
}

fn has_unwrap_variant_newtypes(e: Extensions) -> (b: bool)
    ensures
        b == unwrap_variant_newtypes(e),
{
    e.contains(Extensions::unwrap_variant_newtypes())
}

fn has_unwrap_newtypes(e: Extensions) -> (b: bool)
    ensures
        b == unwrap_newtypes(e),
{
    e.contains(Extensions::unwrap_newtypes())
}

/// Whether every type of `items` survives inside an untagged enum, outside
/// any newtype variant or option.
fn all_untagged(items: &Vec<SerdeDataType>, e: Extensions) -> (r: bool)
    ensures
        r == forall|i: int| 0 <= i < items@.len() ==> untagged_ok(#[trigger] items@[i], e, false, false),
    decreases items,
{
    let mut i: usize = 0;
    while i < items.len()
        invariant
            i <= items@.len(),
            forall|j: int| 0 <= j < i ==> untagged_ok(#[trigger] items@[j], e, false, false),
        decreases items@.len() - i,
    {
        if !items[i].supported_inside_untagged(e, false, false) {
            return false;
        }
        i = i + 1;
    }
    true
}

/// Whether every variant of `vs`, of an enum represented by `rep`, survives
/// inside an untagged enum.
fn all_variants_untagged(
    vs: &Vec<SerdeDataVariantType>,
    rep: &SerdeEnumRepresentation,
    e: Extensions,
    opt: bool,
) -> (r: bool)
    ensures
        r == forall|i: int| 0 <= i < vs@.len() ==> variant_untagged_ok(#[trigger] vs@[i], *rep, e, opt),
    decreases vs,
{
    let mut i: usize = 0;
    while i < vs.len()
        invariant
            i <= vs@.len(),
            forall|j: int| 0 <= j < i ==> variant_untagged_ok(#[trigger] vs@[j], *rep, e, opt),
        decreases vs@.len() - i,
    {
        if !vs[i].supported_inside_untagged(rep, e, opt) {
            return false;
        }
        i = i + 1;
    }
    true
}

/// Whether every variant of `vs`, of an enum represented by `rep`, survives
/// as the content of an internally tagged newtype variant.
fn all_variants_internally_tagged(vs: &Vec<SerdeDataVariantType>, rep: &SerdeEnumRepresentation) -> (r: bool)
    ensures
        r == forall|i: int| 0 <= i < vs@.len() ==> variant_internally_tagged_ok(#[trigger] vs@[i], *rep),
    decreases vs,
{
    let mut i: usize = 0;
    while i < vs.len()
        invariant
            i <= vs@.len(),
            forall|j: int| 0 <= j < i ==> variant_internally_tagged_ok(#[trigger] vs@[j], *rep),
        decreases vs@.len() - i,
    {
        if !vs[i].supported_inside_internally_tagged_newtype(rep) {
            return false;
        }
        i = i + 1;
    }
    true
}

/// Whether every variant of `vs`, of an enum represented by `rep`, survives
/// inside a flattened field.
fn all_variants_flatten(vs: &Vec<SerdeDataVariantType>, rep: &SerdeEnumRepresentation, inside: bool) -> (r: bool)
    ensures
        r == forall|i: int| 0 <= i < vs@.len() ==> variant_flatten_ok(#[trigger] vs@[i], *rep, inside),
    decreases vs,
{
    let mut i: usize = 0;
    while i < vs.len()
        invariant
            i <= vs@.len(),
            forall|j: int| 0 <= j < i ==> variant_flatten_ok(#[trigger] vs@[j], *rep, inside),
        decreases vs@.len() - i,
    {
        if !vs[i].supported_inside_flatten(rep, inside) {
            return false;
        }
        i = i + 1;
    }
    true
}

/// Whether any of `flags` is set.
fn any_flag(flags: &Vec<bool>) -> (r: bool)
    ensures
        r == any_set(flags@),
{
    let mut i: usize = 0;
    while i < flags.len()
        invariant
            i <= flags@.len(),
            forall|j: int| 0 <= j < i ==> !flags@[j],
        decreases flags@.len() - i,
    {
        if flags[i] {
            return true;
        }
        i = i + 1;
    }
    false
}

impl SerdeEnumRepresentation {
    fn is_untagged(&self) -> (b: bool)
        ensures
            b == (*self is Untagged),
    {
        match self {
            SerdeEnumRepresentation::Untagged => true,
            _ => false,
        }
    }

    fn is_externally_tagged(&self) -> (b: bool)
        ensures
            b == (*self is ExternallyTagged),
    {
        match self {
            SerdeEnumRepresentation::ExternallyTagged => true,
            _ => false,
        }
    }

    fn is_internally_tagged(&self) -> (b: bool)
        ensures
            b == (*self is InternallyTagged),
    {
        match self {
            SerdeEnumRepresentation::InternallyTagged { .. } => true,
            _ => false,
        }
    }

    fn is_adjacently_tagged(&self) -> (b: bool)
        ensures
            b == (*self is AdjacentlyTagged),
    {
        match self {
            SerdeEnumRepresentation::AdjacentlyTagged { .. } => true,
            _ => false,
        }
    }
}

impl SerdeDataVariantType {
    /// Whether this variant of an enum represented by `rep` survives inside
    /// an untagged enum, under `extensions`, `inside_option` or not.
    pub fn supported_inside_untagged(
        &self,
        rep: &SerdeEnumRepresentation,
        extensions: Extensions,
        inside_option: bool,
    ) -> (r: bool)
        ensures
            r == variant_untagged_ok(*self, *rep, extensions, inside_option),
        decreases self,
    {
        match self {
            SerdeDataVariantType::Unit => !(inside_option && has_implicit_some(extensions)
                && rep.is_untagged()),
            SerdeDataVariantType::TaggedOther => true,
            SerdeDataVariantType::Newtype { inner } => inner.supported_inside_untagged(
                extensions,
                true,
                inside_option && has_unwrap_variant_newtypes(extensions),
            ),
            SerdeDataVariantType::Tuple { fields } => {
                if fields.len() == 0 {
                    return false;
                }
                if rep.is_externally_tagged() && fields.len() == 1 {
                    return false;
                }
                all_untagged(fields, extensions)
            },
            SerdeDataVariantType::Struct { fields } => {
                if fields.0.len() == 0 {
                    return false;
                }
                all_untagged(&fields.1, extensions)
            },
        }
    }

    /// Whether this variant of an enum represented by `rep` survives as the
    /// content of an internally tagged newtype variant.
    pub fn supported_inside_internally_tagged_newtype(&self, rep: &SerdeEnumRepresentation) -> (r: bool)
        ensures
            r == variant_internally_tagged_ok(*self, *rep),
        decreases self,
    {
        match self {
            SerdeDataVariantType::Unit | SerdeDataVariantType::TaggedOther => !rep.is_untagged(),
            SerdeDataVariantType::Newtype { inner } => {
                if rep.is_untagged() {
                    inner.supported_inside_internally_tagged_newtype(true)
                } else {
                    true
                }
            },
            SerdeDataVariantType::Tuple { .. } => !(rep.is_untagged() || rep.is_adjacently_tagged()),
            SerdeDataVariantType::Struct { .. } => true,
        }
    }

    /// Whether this variant of an enum represented by `rep` survives inside
    /// a flattened field.
    pub fn supported_inside_flatten(&self, rep: &SerdeEnumRepresentation, inside: bool) -> (r: bool)
        ensures
            r == variant_flatten_ok(*self, *rep, inside),
        decreases self,
    {
        match self {
            SerdeDataVariantType::Unit => false,
            SerdeDataVariantType::TaggedOther => false,
            SerdeDataVariantType::Newtype { inner } => {
                if rep.is_untagged() {
                    inner.supported_inside_flatten(true)
                } else {
                    inner.supported_inside_flatten(inside)
                }
            },
            SerdeDataVariantType::Tuple { .. } => !rep.is_untagged(),
            SerdeDataVariantType::Struct { .. } => true,
        }
    }
}

impl SerdeDataType {
    /// Whether a value of this type survives inside an untagged enum, under
    /// `extensions`, directly inside a newtype variant or an option.
    pub fn supported_inside_untagged(
        &self,
        extensions: Extensions,
        inside_newtype_variant: bool,
        inside_option: bool,
    ) -> (r: bool)
        ensures
            r == untagged_ok(*self, extensions, inside_newtype_variant, inside_option),
        decreases self,
    {
        match self {
            SerdeDataType::Unit => !(inside_option && has_implicit_some(extensions)),
            SerdeDataType::I128 => false,
            SerdeDataType::U128 => false,
            SerdeDataType::Option { inner } => inner.supported_inside_untagged(extensions, true, true),
            SerdeDataType::Array { kind, len } => {
                if *len == 0 {
                    return false;
                }
                if *len == 1 && inside_newtype_variant && has_unwrap_variant_newtypes(extensions) {
                    return false;
                }
                kind.supported_inside_untagged(extensions, false, false)
            },
            SerdeDataType::Tuple { elems } => {
                if elems.len() == 0 {
                    return false;
                }
                if elems.len() == 1 && inside_newtype_variant && has_unwrap_variant_newtypes(
                    extensions,
                ) {
                    return false;
                }
                all_untagged(elems, extensions)
            },
            SerdeDataType::Vec { item } => item.supported_inside_untagged(extensions, false, false),
            SerdeDataType::Mapping { key, value } => key.supported_inside_untagged(
                extensions,
                false,
                false,
            ) && value.supported_inside_untagged(extensions, false, false),
            SerdeDataType::UnitStruct { .. } => !(inside_option && has_implicit_some(extensions)),
            SerdeDataType::Newtype { .. } => false,
            SerdeDataType::TupleStruct { fields, .. } => {
                if fields.len() == 0 {
                    return false;
                }
                if fields.len() == 1 && inside_newtype_variant && has_unwrap_variant_newtypes(
                    extensions,
                ) {
                    return false;
                }
                all_untagged(fields, extensions)
            },
            SerdeDataType::Struct { fields, .. } => {
                if fields.0.len() == 0 {
                    return false;
                }
                all_untagged(&fields.1, extensions)
            },
            SerdeDataType::Enum { variants, representation, .. } => all_variants_untagged(&variants.1, representation, extensions, inside_option),
            _ => true,
        }
    }

    /// Whether a value of this type survives as the content of an
    /// internally tagged newtype variant, inside an untagged newtype variant
    /// or not.
    pub fn supported_inside_internally_tagged_newtype(&self, inside_untagged_newtype_variant: bool) -> (r: bool)
        ensures
            r == internally_tagged_ok(*self, inside_untagged_newtype_variant),
        decreases self,
    {
        match self {
            SerdeDataType::Unit => !inside_untagged_newtype_variant,
            SerdeDataType::Mapping { .. } => true,
            SerdeDataType::UnitStruct { .. } => !inside_untagged_newtype_variant,
            SerdeDataType::Newtype { inner, .. } => inner.supported_inside_internally_tagged_newtype(
                inside_untagged_newtype_variant,
            ),
            SerdeDataType::Struct { .. } => true,
            SerdeDataType::Enum { variants, representation, .. } => all_variants_internally_tagged(&variants.1, representation),
            _ => false,
        }
    }

    /// Whether a value of this type survives inside a flattened field,
    /// inside an untagged newtype variant or not.
    pub fn supported_inside_flatten(&self, inside_untagged_newtype_variant: bool) -> (r: bool)
        ensures
            r == flatten_ok(*self, inside_untagged_newtype_variant),
        decreases self,
    {
        match self {
            SerdeDataType::Unit => !inside_untagged_newtype_variant,
            SerdeDataType::Option { inner } => inner.supported_inside_flatten(
                inside_untagged_newtype_variant,
            ),
            SerdeDataType::Mapping { key, .. } => key.supported_inside_flatten_key(),
            SerdeDataType::Newtype { name, inner } => {
                if str_eq(name.as_str(), RAW_VALUE_TOKEN) {
                    return false;
                }
                inner.supported_inside_flatten(inside_untagged_newtype_variant)
            },
            SerdeDataType::Struct { .. } => true,
            SerdeDataType::Enum { variants, representation, .. } => all_variants_flatten(&variants.1, representation, inside_untagged_newtype_variant),
            _ => false,
        }
    }

    /// Whether this type may be the key of a flattened map: only strings.
    pub fn supported_inside_flatten_key(&self) -> (r: bool)
        ensures
            r == flatten_key_ok(*self),
    {
        match self {
            SerdeDataType::String => true,
            _ => false,
        }
    }
}

/// [`SerdeDataType::supported_flattened_map_inside_flatten_field`] for the
/// fields of a struct in turn, each flattened or not as `flags` says,
/// stopping at the first that fails or when either runs out.
fn flattened_map_fields(
    fields: &Vec<SerdeDataType>,
    flags: &Vec<bool>,
    e: Extensions,
    is_untagged: bool,
    has_flattened_map: &mut bool,
    has_unknown_key: &mut bool,
) -> (r: bool)
    ensures
        (r, *final(has_flattened_map), *final(has_unknown_key)) == flat_map_fields(
            fields@,
            flags@,
            e,
            is_untagged,
            *old(has_flattened_map),
            *old(has_unknown_key),
        ),
    decreases fields,
{
    let mut i: usize = 0;
    assert(fields@.subrange(0, fields@.len() as int) =~= fields@);
    assert(flags@.subrange(0, flags@.len() as int) =~= flags@);
    while i < fields.len() && i < flags.len()
        invariant
            i <= fields@.len(),
            i <= flags@.len(),
            flat_map_fields(fields@, flags@, e, is_untagged, *old(has_flattened_map), *old(has_unknown_key))
                == flat_map_fields(
                fields@.subrange(i as int, fields@.len() as int),
                flags@.subrange(i as int, flags@.len() as int),
                e,
                is_untagged,
                *has_flattened_map,
                *has_unknown_key,
            ),
        decreases fields@.len() - i,
    {
        proof {
            let fs = fields@.subrange(i as int, fields@.len() as int);
            let gs = flags@.subrange(i as int, flags@.len() as int);
            assert(fs.drop_first() =~= fields@.subrange(i + 1, fields@.len() as int));
            assert(gs.drop_first() =~= flags@.subrange(i + 1, flags@.len() as int));
            assert(fs[0] == fields@[i as int]);
            assert(gs[0] == flags@[i as int]);
        }
        if !fields[i].supported_flattened_map_inside_flatten_field(
            e,
            flags[i],
            is_untagged,
            has_flattened_map,
            has_unknown_key,
        ) {
            return false;
        }
        i = i + 1;
    }
    true
}

/// [`SerdeDataVariantType::supported_flattened_map_inside_flatten_field`]
/// for the variants of an enum in turn, stopping at the first that fails.
fn flattened_map_variants(
    vs: &Vec<SerdeDataVariantType>,
    rep: &SerdeEnumRepresentation,
    e: Extensions,
    is_flattened: bool,
    is_untagged: bool,
    has_flattened_map: &mut bool,
    has_unknown_key: &mut bool,
) -> (r: bool)
    ensures
        (r, *final(has_flattened_map), *final(has_unknown_key)) == flat_map_variants(
            vs@,
            *rep,
            e,
            is_flattened,
            is_untagged,
            *old(has_flattened_map),
            *old(has_unknown_key),
        ),
    decreases vs,
{
    let mut i: usize = 0;
    assert(vs@.subrange(0, vs@.len() as int) =~= vs@);
    while i < vs.len()
        invariant
            i <= vs@.len(),
            flat_map_variants(
                vs@,
                *rep,
                e,
                is_flattened,
                is_untagged,
                *old(has_flattened_map),
                *old(has_unknown_key),
            ) == flat_map_variants(
                vs@.subrange(i as int, vs@.len() as int),
                *rep,
                e,
                is_flattened,
                is_untagged,
                *has_flattened_map,
                *has_unknown_key,
            ),
        decreases vs@.len() - i,
    {
        proof {
            let ws = vs@.subrange(i as int, vs@.len() as int);
            assert(ws.drop_first() =~= vs@.subrange(i + 1, vs@.len() as int));
            assert(ws[0] == vs@[i as int]);
        }
        if !vs[i].supported_flattened_map_inside_flatten_field(
            rep,
            e,
            is_flattened,
            is_untagged,
            has_flattened_map,
            has_unknown_key,
        ) {
            return false;
        }
        i = i + 1;
    }
    true
}

impl SerdeDataVariantType {
    /// Whether this variant of an enum represented by `rep` keeps a
    /// flattened map working inside a flattened field; see
    /// [`flat_map_variant`] for the state it threads.
    pub fn supported_flattened_map_inside_flatten_field(
        &self,
        rep: &SerdeEnumRepresentation,
        extensions: Extensions,
        is_flattened: bool,
        is_untagged: bool,
        has_flattened_map: &mut bool,
        has_unknown_key: &mut bool,
    ) -> (r: bool)
        ensures
            (r, *final(has_flattened_map), *final(has_unknown_key)) == flat_map_variant(
                *self,
                *rep,
                extensions,
                is_flattened,
                is_untagged,
                *old(has_flattened_map),
                *old(has_unknown_key),
            ),
        decreases self,
    {
        match self {
            SerdeDataVariantType::Newtype { inner } => {
                if rep.is_untagged() {
                    inner.supported_flattened_map_inside_flatten_field(
                        extensions,
                        is_flattened,
                        true,
                        has_flattened_map,
                        has_unknown_key,
                    )
                } else if is_flattened {
                    if rep.is_externally_tagged() && *has_unknown_key {
                        return false;
                    }
                    if rep.is_internally_tagged() {
                        if !inner.supported_inside_internally_tagged_newtype(true) {
                            return false;
                        }
                        if !inner.supported_flattened_map_inside_flatten_field(
                            extensions,
                            is_flattened,
                            false,
                            has_flattened_map,
                            has_unknown_key,
                        ) {
                            return false;
                        }
                    }
                    if *has_flattened_map {
                        return false;
                    }
                    *has_unknown_key = true;
                    true
                } else {
                    true
                }
            },
            SerdeDataVariantType::Tuple { .. } => {
                if is_flattened && (rep.is_externally_tagged() || rep.is_adjacently_tagged()) {
                    if *has_flattened_map {
                        return false;
                    }
                    *has_unknown_key = true;
                }
                true
            },
            SerdeDataVariantType::Struct { fields } => {
                if is_flattened {
                    if *has_flattened_map {
                        return false;
                    }
                    *has_unknown_key = true;
                }
                if rep.is_untagged() && (is_flattened || any_flag(&fields.2)) {
                    if *has_flattened_map {
                        return false;
                    }
                    if *has_unknown_key {
                        return false;
                    }
                    *has_unknown_key = true;
                }
                if is_flattened && rep.is_externally_tagged() && *has_unknown_key {
                    return false;
                }
                true
            },
            _ => {
                if is_flattened && (rep.is_internally_tagged() || rep.is_adjacently_tagged()) {
                    if *has_flattened_map {
                        return false;
                    }
                    *has_unknown_key = true;
                    true
                } else {
                    true
                }
            },
        }
    }
}

impl SerdeDataType {
    /// Whether a value of this type keeps a flattened map working inside a
    /// flattened field, under `extensions`, flattened or not, inside an
    /// untagged enum or not. `has_flattened_map` and `has_unknown_key`
    /// carry what earlier fields have shown; see [`flat_map_ok`].
    pub fn supported_flattened_map_inside_flatten_field(
        &self,
        extensions: Extensions,
        is_flattened: bool,
        is_untagged: bool,
        has_flattened_map: &mut bool,
        has_unknown_key: &mut bool,
    ) -> (r: bool)
        ensures
            (r, *final(has_flattened_map), *final(has_unknown_key)) == flat_map_ok(
                *self,
                extensions,
                is_flattened,
                is_untagged,
                *old(has_flattened_map),
                *old(has_unknown_key),
            ),
        decreases self,
    {
        match self {
            SerdeDataType::Option { inner } => {
                if is_flattened && is_untagged {
                    false
                } else if is_flattened || has_implicit_some(extensions) {
                    inner.supported_flattened_map_inside_flatten_field(
                        extensions,
                        is_flattened,
                        is_untagged,
                        has_flattened_map,
                        has_unknown_key,
                    )
                } else {
                    true
                }
            },
            SerdeDataType::Mapping { .. } => {
                if is_flattened {
                    if *has_unknown_key {
                        return false;
                    }
                    if *has_flattened_map {
                        return false;
                    }
                    *has_flattened_map = true;
                }
                true
            },
            SerdeDataType::Newtype { inner, .. } => {
                if is_flattened || has_unwrap_newtypes(extensions) {
                    inner.supported_flattened_map_inside_flatten_field(
                        extensions,
                        is_flattened,
                        is_untagged,
                        has_flattened_map,
                        has_unknown_key,
                    )
                } else {
                    true
                }
            },
            SerdeDataType::Struct { tag, fields, .. } => {
                if is_flattened {
                    if tag.is_some() {
                        if *has_flattened_map {
                            return false;
                        }
                        if *has_unknown_key && is_untagged {
                            return false;
                        }
                        *has_unknown_key = true;
                    }
                    flattened_map_fields(
                        &fields.1,
                        &fields.2,
                        extensions,
                        is_untagged,
                        has_flattened_map,
                        has_unknown_key,
                    )
                } else if any_flag(&fields.2) {
                    if *has_flattened_map {
                        return false;
                    }
                    *has_unknown_key = true;
                    true
                } else {
                    true
                }
            },
            SerdeDataType::Enum { variants, representation, .. } => flattened_map_variants(
                &variants.1,
                representation,
                extensions,
                is_flattened,
                is_untagged,
                has_flattened_map,
                has_unknown_key,
            ),
            _ => true,
        }
    }
}

} // verus!
