//! Deserialization: reading a RON document into a [`Value`] tree, and the
//! deserializer that holds the cursor, the recursion limit and the state
//! between values.

use vstd::prelude::*;
use vstd::string::{StrSliceExecFns, StringSliceAdditionalSpecFns};
use vstd::utf8::*;

use crate::error::{pos_after, Base64DecodeError, Error, Position, SpannedError};
use crate::options::Options;
use crate::extensions::Extensions;
use crate::parse::float::float_scan;
use crate::parse::integer::any_integer_scan;
use crate::parse::string::string_scan;
use crate::parse::structs::{lemma_struct_type_unit, struct_name_scan, struct_type_scan};
use crate::parse::{
    bool_scan, header_scan, lemma_header_scan_len, lemma_pos_after_concat, new_realizes,
    char_scan, comma_scan, err_matches, ident_scan, lit, realizes, span_len, spec_ident_follows, starts_with,
    ws_scan, lemma_ws_scan_len, lemma_comma_scan_len, lemma_ident_scan_len, Bytes, CharClass,
    DesireFloat, DesireInteger, ErrSpec, NewtypeMode, Outcome, StructType, TupleMode,
};
use crate::parse::float::float_literal_view;
use crate::parse::string::parsed_str_view;
use crate::parse::{FloatLiteral, ParsedInteger, ParsedStr};
use crate::util::{lemma_ascii_utf8, lemma_lit_ascii, str_from_utf8};
use crate::value::{
    entries_view, last_wins, last_wins_entries, lemma_value_view, number_view, value_view, values_view, Number, Value, ValueModel,
};

verus! {

/// One level deeper under the recursion limit `lim`: `None` when the limit
/// is used up, and no limit stays no limit.
pub open spec fn deeper(lim: Option<usize>) -> Option<Option<usize>> {
    match lim {
        None => Some(None),
        Some(k) => if k == 0 {
            None
        } else {
            Some(Some((k - 1) as usize))
        },
    }
}

/// Whether a float rather than an integer starts `s`; see
/// [`Bytes::next_bytes_is_float`].
pub open spec fn next_is_float(s: Seq<u8>) -> bool {
    s.len() > 0 && ({
        let skip: int = if s[0] == 43 || s[0] == 45 {
            1
        } else {
            0
        };
        span_len(s.skip(skip), CharClass::Float) > span_len(s.skip(skip), CharClass::Int)
    })
}

/// Scanning a number: a float where the bytes look like one; otherwise an
/// integer in its smallest type, or, where that fails, a float that reads
/// at least as far.
#[verifier::opaque]
pub open spec fn number_scan(s: Seq<u8>) -> Outcome<ValueModel> {
    if next_is_float(s) {
        match float_scan(s, DesireFloat::Any) {
            Outcome::Done { n, value } => Outcome::Done { n, value: ValueModel::Float(value.0, value.1) },
            Outcome::Fail { n, err } => Outcome::Fail { n, err },
        }
    } else {
        match any_integer_scan(s, DesireInteger::Any) {
            Outcome::Done { n, value } => Outcome::Done { n, value: ValueModel::Integer(value) },
            Outcome::Fail { n: ni, err } => match float_scan(s, DesireFloat::Any) {
                Outcome::Done { n: nf, value } => if nf >= ni {
                    Outcome::Done { n: nf, value: ValueModel::Float(value.0, value.1) }
                } else {
                    Outcome::Fail { n: ni, err }
                },
                Outcome::Fail { .. } => Outcome::Fail { n: ni, err },
            },
        }
    }
}

/// The list that the elements read by `o` make.
pub open spec fn as_list(o: Outcome<Seq<ValueModel>>) -> Outcome<ValueModel> {
    match o {
        Outcome::Done { n, value } => Outcome::Done { n, value: ValueModel::List(value) },
        Outcome::Fail { n, err } => Outcome::Fail { n, err },
    }
}

/// The mapping that the entries read by `o` make: each key once, where it
/// first came, with the value it last had.
pub open spec fn as_mapping(o: Outcome<Seq<(ValueModel, ValueModel)>>) -> Outcome<ValueModel> {
    match o {
        Outcome::Done { n, value } => Outcome::Done { n, value: ValueModel::Mapping(last_wins(value)) },
        Outcome::Fail { n, err } => Outcome::Fail { n, err },
    }
}

/// Scanning whitespace and then the closing byte `term` of a container
/// whose contents `inner` read: the value of `inner` is kept, and a missing
/// closing byte is the error `missing`.
pub open spec fn close_scan<V>(s: Seq<u8>, inner: Outcome<V>, term: u8, missing: Error) -> Outcome<V> {
    match inner {
        Outcome::Fail { n, err } => Outcome::Fail { n, err },
        Outcome::Done { n, value } => {
            let w = ws_scan(s.skip(n));
            if w.1 is Some {
                Outcome::Fail { n: n + w.0, err: ErrSpec::Plain(w.1.unwrap()) }
            } else if s.len() > n + w.0 && s[n + w.0] == term {
                Outcome::Done { n: n + w.0 + 1, value }
            } else {
                Outcome::Fail { n: n + w.0, err: ErrSpec::Plain(missing) }
            }
        },
    }
}

/// Scanning a RON value under the recursion limit `lim`, with the
/// extensions `exts` enabled: what reading any value into a [`Value`]
/// does.
pub open spec fn value_scan(s: Seq<u8>, lim: Option<usize>, exts: Extensions) -> Outcome<ValueModel>
    decreases s.len(), 3int,
{
    if spec_ident_follows(s, lit("true")) {
        Outcome::Done { n: 4, value: ValueModel::Bool(true) }
    } else if spec_ident_follows(s, lit("false")) {
        Outcome::Done { n: 5, value: ValueModel::Bool(false) }
    } else if spec_ident_follows(s, lit("Some")) {
        option_scan(s, lim, exts)
    } else if spec_ident_follows(s, lit("None")) {
        Outcome::Done { n: 4, value: ValueModel::Option(None) }
    } else if starts_with(s, lit("()")) {
        Outcome::Done { n: 2, value: ValueModel::Unit }
    } else if spec_ident_follows(s, lit("inf")) {
        Outcome::Done { n: 3, value: ValueModel::Float(lit("inf"), DesireFloat::F64) }
    } else if spec_ident_follows(s, lit("-inf")) {
        Outcome::Done { n: 4, value: ValueModel::Float(lit("-inf"), DesireFloat::F64) }
    } else if spec_ident_follows(s, lit("NaN")) {
        Outcome::Done { n: 3, value: ValueModel::Float(lit("NaN"), DesireFloat::F64) }
    } else if ident_scan(s) is Done {
        let n = ident_scan(s).consumed();
        let w = ws_scan(s.skip(n));
        if w.1 is Some {
            Outcome::Fail { n: n + w.0, err: ErrSpec::Plain(w.1.unwrap()) }
        } else if n < 1 || n + w.0 > s.len() {
            Outcome::Fail { n: 0, err: ErrSpec::Plain(Error::Eof) }
        } else {
            proof {
                lemma_ws_scan_len(s.skip(n));
            }
            any_struct_scan(s.skip(n + w.0), lim, exts).shift(n + w.0)
        }
    } else {
        dispatch_scan(s, lim, exts)
    }
}

/// Scanning a value by its first byte, once no keyword or identifier
/// starts it: a struct or tuple, a list, a mapping, a number, a float
/// starting with `.`, a string or a char.
pub open spec fn dispatch_scan(s: Seq<u8>, lim: Option<usize>, exts: Extensions) -> Outcome<
    ValueModel,
>
    decreases s.len(), 2int,
{
    if s.len() == 0 {
        Outcome::Fail { n: 0, err: ErrSpec::Plain(Error::Eof) }
    } else {
        let c = s[0];
        if c == 40 {
            any_struct_scan(s, lim, exts)
        } else if c == 91 {
            container_scan(s, lim, exts, 93)
        } else if c == 123 {
            container_scan(s, lim, exts, 125)
        } else if (48 <= c <= 57) || c == 43 || c == 45 {
            number_scan(s)
        } else if c == 46 {
            match float_scan(s, DesireFloat::F64) {
                Outcome::Done { n, value } => Outcome::Done {
                    n,
                    value: ValueModel::Float(value.0, value.1),
                },
                Outcome::Fail { n, err } => Outcome::Fail { n, err },
            }
        } else if c == 34 || c == 114 {
            match string_scan(s) {
                Outcome::Done { n, value } => Outcome::Done { n, value: ValueModel::String(value.1) },
                Outcome::Fail { n, err } => Outcome::Fail { n, err },
            }
        } else if c == 39 {
            match char_scan(s) {
                Outcome::Done { n, value } => Outcome::Done { n, value: ValueModel::Char(value) },
                Outcome::Fail { n, err } => Outcome::Fail { n, err },
            }
        } else {
            Outcome::Fail { n: 0, err: ErrSpec::Plain(Error::UnexpectedChar(c as char)) }
        }
    }
}

/// Scanning `Some(...)` or, with the `implicit_some` extension, `Some`
/// followed by a bare value.
pub open spec fn option_scan(s: Seq<u8>, lim: Option<usize>, exts: Extensions) -> Outcome<
    ValueModel,
>
    decreases s.len(), 1int,
{
    let w = ws_scan(s.skip(4));
    let p = 4 + w.0;
    if s.len() < 4 || w.1 is Some {
        Outcome::Fail { n: p, err: ErrSpec::Plain(w.1.unwrap()) }
    } else if s.len() > p && s[p] == 40 {
        let w2 = ws_scan(s.skip(p + 1));
        let q = p + 1 + w2.0;
        if w2.1 is Some {
            Outcome::Fail { n: q, err: ErrSpec::Plain(w2.1.unwrap()) }
        } else if q > s.len() {
            Outcome::Fail { n: 0, err: ErrSpec::Plain(Error::Eof) }
        } else {
            match deeper(lim) {
                None => Outcome::Fail { n: q, err: ErrSpec::Plain(Error::ExceededRecursionLimit) },
                Some(l2) => match {
                    proof {
                        lemma_ws_scan_len(s.skip(4));
                        lemma_ws_scan_len(s.skip(p + 1));
                    }
                    value_scan(s.skip(q), l2, exts)
                } {
                    Outcome::Fail { n, err } => Outcome::Fail { n: q + n, err },
                    Outcome::Done { n, value } => if n < 0 || q + n > s.len() {
                        Outcome::Fail { n: 0, err: ErrSpec::Plain(Error::Eof) }
                    } else {
                        let t = s.skip(q + n);
                        match comma_scan(t) {
                            Outcome::Fail { n: m, err } => Outcome::Fail { n: q + n + m, err },
                            Outcome::Done { n: m, .. } => if t.len() > m && t[m] == 41 {
                                Outcome::Done {
                                    n: q + n + m + 1,
                                    value: ValueModel::Option(Some(Box::new(value))),
                                }
                            } else {
                                Outcome::Fail {
                                    n: q + n + m,
                                    err: ErrSpec::Plain(Error::ExpectedOptionEnd),
                                }
                            },
                        }
                    },
                },
            }
        }
    } else if exts.spec_contains(Extensions { bits: crate::extensions::IMPLICIT_SOME_BIT }) {
        match deeper(lim) {
            None => Outcome::Fail { n: p, err: ErrSpec::Plain(Error::ExceededRecursionLimit) },
            Some(l2) => if p > s.len() {
                Outcome::Fail { n: 0, err: ErrSpec::Plain(Error::Eof) }
            } else {
                match {
                    proof {
                        lemma_ws_scan_len(s.skip(4));
                    }
                    value_scan(s.skip(p), l2, exts)
                } {
                    Outcome::Fail { n, err } => Outcome::Fail { n: p + n, err },
                    Outcome::Done { n, value } => Outcome::Done {
                        n: p + n,
                        value: ValueModel::Option(Some(Box::new(value))),
                    },
                }
            },
        }
    } else {
        Outcome::Fail { n: p, err: ErrSpec::Plain(Error::ExpectedOption) }
    }
}

/// Scanning a struct after its name, if any: a unit struct when no `(`
/// follows, a struct with named fields as a mapping from field names to
/// values, and a tuple struct as a list.
pub open spec fn any_struct_scan(s: Seq<u8>, lim: Option<usize>, exts: Extensions) -> Outcome<
    ValueModel,
>
    decreases s.len(), 1int,
{
    match struct_type_scan(s, NewtypeMode::NoParensMeanUnit, TupleMode::ImpreciseTupleOrNewtype) {
        Outcome::Fail { n, err } => Outcome::Fail { n, err },
        Outcome::Done { value, .. } => if value is Unit {
            Outcome::Done { n: 0, value: ValueModel::Unit }
        } else if s.len() == 0 {
            Outcome::Fail { n: 0, err: ErrSpec::Plain(Error::ExpectedStructLike) }
        } else if value is Named {
            container_scan(s, lim, exts, 41)
        } else {
            container_scan(s, lim, exts, 0)
        }
    }
}

/// Scanning the elements of a list or tuple after its opening byte, then
/// whitespace and the closing byte `close`, whose absence is `missing`.
pub open spec fn list_body_scan(
    s: Seq<u8>,
    l1: Option<usize>,
    exts: Extensions,
    close: u8,
    missing: Error,
) -> Outcome<ValueModel>
    decreases s.len(), 6int,
{
    as_list(close_scan(s, items_scan(s, l1, exts, close, true), close, missing))
}

/// Scanning the entries of a mapping, or the fields of a struct, after its
/// opening byte, then whitespace and the closing byte.
pub open spec fn mapping_body_scan(s: Seq<u8>, l1: Option<usize>, exts: Extensions, fields: bool) -> Outcome<
    ValueModel,
>
    decreases s.len(), 8int,
{
    if fields {
        as_mapping(close_scan(s, entries_scan(s, l1, exts, true, true), 41, Error::ExpectedStructLikeEnd))
    } else {
        as_mapping(close_scan(s, entries_scan(s, l1, exts, false, true), 125, Error::ExpectedMapEnd))
    }
}

/// Scanning a container from its opening byte: a list closed by `]`
/// (`term` 93), a mapping closed by `}` (125), the named fields of a
/// struct closed by `)` (41), or the fields of a tuple closed by `)`
/// (`term` 0).
pub open spec fn container_scan(s: Seq<u8>, lim: Option<usize>, exts: Extensions, term: u8) -> Outcome<
    ValueModel,
>
    decreases s.len(), 0int,
{
    if s.len() == 0 {
        Outcome::Fail { n: 0, err: ErrSpec::Plain(Error::Eof) }
    } else {
        match deeper(lim) {
            None => Outcome::Fail { n: 1, err: ErrSpec::Plain(Error::ExceededRecursionLimit) },
            Some(l1) => if term == 93 {
                list_body_scan(s.skip(1), l1, exts, 93, Error::ExpectedArrayEnd).shift(1)
            } else if term == 0 {
                list_body_scan(s.skip(1), l1, exts, 41, Error::ExpectedStructLikeEnd).shift(1)
            } else {
                mapping_body_scan(s.skip(1), l1, exts, term != 125).shift(1)
            },
        }
    }
}

/// Scanning the elements of a list or tuple up to its closing byte
/// `term`, which is not read; `had_comma` tells whether a comma came after
/// the last element read (or none was read yet).
pub open spec fn items_scan(
    s: Seq<u8>,
    lim: Option<usize>,
    exts: Extensions,
    term: u8,
    had_comma: bool,
) -> Outcome<Seq<ValueModel>>
    decreases s.len(), if had_comma {
        5int
    } else {
        4int
    },
{
    let w = ws_scan(s);
    let t = s.skip(w.0);
    if w.1 is Some {
        Outcome::Fail { n: w.0, err: ErrSpec::Plain(w.1.unwrap()) }
    } else if w.0 < 0 || w.0 > s.len() {
        Outcome::Fail { n: 0, err: ErrSpec::Plain(Error::Eof) }
    } else if t.len() == 0 {
        Outcome::Fail { n: w.0, err: ErrSpec::Plain(Error::Eof) }
    } else if t[0] == term {
        Outcome::Done { n: w.0, value: Seq::empty() }
    } else if !had_comma {
        Outcome::Fail { n: w.0, err: ErrSpec::Plain(Error::ExpectedComma) }
    } else {
        match deeper(lim) {
            None => Outcome::Fail { n: w.0, err: ErrSpec::Plain(Error::ExceededRecursionLimit) },
            Some(l2) => match value_scan(t, l2, exts) {
                Outcome::Fail { n, err } => Outcome::Fail { n: w.0 + n, err },
                Outcome::Done { n, value } => if n < 0 || n > t.len() {
                    Outcome::Fail { n: 0, err: ErrSpec::Plain(Error::Eof) }
                } else {
                    match comma_scan(t.skip(n)) {
                        Outcome::Fail { n: m, err } => Outcome::Fail { n: w.0 + n + m, err },
                        Outcome::Done { n: m, value: c } => {
                            proof {
                                lemma_ws_scan_len(s);
                                lemma_comma_scan_len(t.skip(n));
                            }
                            match items_scan(t.skip(n + m), lim, exts, term, c) {
                                Outcome::Fail { n: k, err } => Outcome::Fail {
                                    n: w.0 + n + m + k,
                                    err,
                                },
                                Outcome::Done { n: k, value: rest } => Outcome::Done {
                                    n: w.0 + n + m + k,
                                    value: seq![value] + rest,
                                },
                            }
                        },
                    }
                },
            },
        }
    }
}

/// Scanning the name of a struct field: an identifier, which stands for
/// the string of its name.
pub open spec fn field_name_scan(s: Seq<u8>) -> Outcome<ValueModel> {
    match ident_scan(s) {
        Outcome::Done { n, value } => Outcome::Done { n, value: ValueModel::String(decode_utf8(value)) },
        Outcome::Fail { n, err } => Outcome::Fail { n, err },
    }
}

/// Scanning a key and its value: the key, whitespace, `:`, whitespace
/// and a value.
pub open spec fn entry_scan(s: Seq<u8>, l2: Option<usize>, exts: Extensions, fields: bool) -> Outcome<
    (ValueModel, ValueModel),
>
    decreases s.len(), 5int,
{
    match if fields {
        field_name_scan(s)
    } else {
        value_scan(s, l2, exts)
    } {
        Outcome::Fail { n, err } => Outcome::Fail { n, err },
        Outcome::Done { n, value: k } => if n < 0 || n > s.len() {
            Outcome::Fail { n: 0, err: ErrSpec::Plain(Error::Eof) }
        } else {
            let w = ws_scan(s.skip(n));
            let p = n + w.0;
            if w.1 is Some {
                Outcome::Fail { n: p, err: ErrSpec::Plain(w.1.unwrap()) }
            } else if !(s.len() > p && s[p] == 58) {
                Outcome::Fail { n: p, err: ErrSpec::Plain(Error::ExpectedMapColon) }
            } else {
                let w2 = ws_scan(s.skip(p + 1));
                let q = p + 1 + w2.0;
                if w2.1 is Some {
                    Outcome::Fail { n: q, err: ErrSpec::Plain(w2.1.unwrap()) }
                } else if q > s.len() {
                    Outcome::Fail { n: 0, err: ErrSpec::Plain(Error::Eof) }
                } else {
                    match {
                        proof {
                            lemma_ws_scan_len(s.skip(n));
                            lemma_ws_scan_len(s.skip(p + 1));
                        }
                        value_scan(s.skip(q), l2, exts)
                    } {
                        Outcome::Fail { n: m, err } => Outcome::Fail { n: q + m, err },
                        Outcome::Done { n: m, value: v } => Outcome::Done { n: q + m, value: (k, v) },
                    }
                }
            }
        },
    }
}

/// Scanning the entries of a mapping, or the named fields of a struct, up
/// to the closing byte, which is not read.
pub open spec fn entries_scan(
    s: Seq<u8>,
    lim: Option<usize>,
    exts: Extensions,
    fields: bool,
    had_comma: bool,
) -> Outcome<Seq<(ValueModel, ValueModel)>>
    decreases s.len(), if had_comma {
        7int
    } else {
        6int
    },
{
    let term: u8 = if fields {
        41
    } else {
        125
    };
    let w = ws_scan(s);
    let t = s.skip(w.0);
    if w.1 is Some {
        Outcome::Fail { n: w.0, err: ErrSpec::Plain(w.1.unwrap()) }
    } else if t.len() == 0 {
        Outcome::Fail { n: w.0, err: ErrSpec::Plain(Error::Eof) }
    } else if t[0] == term {
        Outcome::Done { n: w.0, value: Seq::empty() }
    } else if !had_comma {
        Outcome::Fail { n: w.0, err: ErrSpec::Plain(Error::ExpectedComma) }
    } else {
        match deeper(lim) {
            None => Outcome::Fail { n: w.0, err: ErrSpec::Plain(Error::ExceededRecursionLimit) },
            Some(l2) => match {
                proof {
                    lemma_ws_scan_len(s);
                }
                entry_scan(t, l2, exts, fields)
            } {
                Outcome::Fail { n, err } => Outcome::Fail { n: w.0 + n, err },
                Outcome::Done { n, value } => if n < 0 || n > t.len() {
                    Outcome::Fail { n: 0, err: ErrSpec::Plain(Error::Eof) }
                } else {
                    match comma_scan(t.skip(n)) {
                        Outcome::Fail { n: m, err } => Outcome::Fail { n: w.0 + n + m, err },
                        Outcome::Done { n: m, value: c } => {
                            proof {
                                lemma_ws_scan_len(s);
                                lemma_comma_scan_len(t.skip(n));
                            }
                            match entries_scan(t.skip(n + m), lim, exts, fields, c) {
                                Outcome::Fail { n: k, err } => Outcome::Fail {
                                    n: w.0 + n + m + k,
                                    err,
                                },
                                Outcome::Done { n: k, value: rest } => Outcome::Done {
                                    n: w.0 + n + m + k,
                                    value: seq![value] + rest,
                                },
                            }
                        },
                    }
                },
            },
        }
    }
}

/// Reading a raw value: whitespace, one value under the recursion limit
/// `lim`, and whitespace again; how many bytes that takes.
pub open spec fn raw_value_scan(s: Seq<u8>, lim: Option<usize>, exts: Extensions) -> Outcome<()> {
    match ws_outcome(s) {
        Outcome::Fail { n, err } => Outcome::Fail { n, err },
        Outcome::Done { n, .. } => match value_scan(s.skip(n), lim, exts) {
            Outcome::Fail { n: m, err } => Outcome::Fail { n: n + m, err },
            Outcome::Done { n: m, .. } => ws_outcome(s.skip(n + m)).shift(n + m),
        },
    }
}

/// Whether the result `r` of reading a value, which left the cursor at
/// `now` having started at `before`, is what the outcome `o` says.
pub open spec fn value_realizes(o: Outcome<ValueModel>, r: Result<Value, Error>, now: Bytes, before: Bytes) -> bool {
    match o {
        Outcome::Done { n, value } => r matches Ok(x) && value_view(x) == value && now.is_advance_of(
            before,
            n,
        ),
        Outcome::Fail { n, err } => r matches Err(e) && err_matches(e, err) && now.is_advance_of(
            before,
            n,
        ),
    }
}

/// A value read `k` bytes on, after `mid` was reached from `start`, is the
/// same reading shifted by `k` as seen from `start`.
pub proof fn lemma_value_realizes_shift<'a>(
    o: Outcome<ValueModel>,
    r: Result<Value, Error>,
    now: Bytes<'a>,
    mid: Bytes<'a>,
    start: Bytes<'a>,
    k: int,
)
    requires
        value_realizes(o, r, now, mid),
        mid.is_advance_of(start, k),
    ensures
        value_realizes(o.shift(k), r, now, start),
{
    Bytes::lemma_advance_trans(start, mid, now, k, o.consumed());
}

/// `v` itself, with the model of `v` unfolded one level.
fn leaf(v: Value) -> (r: Value)
    ensures
        r == v,
        value_view(r) == match v {
            Value::Bool(b) => ValueModel::Bool(b),
            Value::Char(c) => ValueModel::Char(c),
            Value::Mapping(m) => ValueModel::Mapping(entries_view(m@)),
            Value::Number(n) => number_view(n),
            Value::Option(o) => match o {
                Some(b) => ValueModel::Option(Some(Box::new(value_view(*b)))),
                None => ValueModel::Option(None),
            },
            Value::String(s) => ValueModel::String(s@),
            Value::List(s) => ValueModel::List(values_view(s@)),
            Value::Unit => ValueModel::Unit,
        },
{
    proof {
        lemma_value_view(v);
    }
    v
}

/// One level deeper under the recursion limit `lim`; see [`deeper`].
fn go_deeper(lim: Option<usize>) -> (r: Result<Option<usize>, Error>)
    ensures
        match deeper(lim) {
            Some(l) => r == Ok::<Option<usize>, Error>(l),
            None => r == Err::<Option<usize>, Error>(Error::ExceededRecursionLimit),
        },
{
    match lim {
        None => Ok(None),
        Some(k) => if k == 0 {
            Err(Error::ExceededRecursionLimit)
        } else {
            Ok(Some(k - 1))
        },
    }
}

impl<'a> Bytes<'a> {
    /// Reads any RON value under the recursion limit `lim`; see
    /// [`value_scan`].
    pub fn parse_value(&mut self, lim: Option<usize>) -> (r: Result<Value, Error>)
        requires
            old(self).wf(),
        ensures
            final(self).wf(),
            value_realizes(
                value_scan(old(self).spec_rest(), lim, old(self).spec_exts()),
                r,
                *final(self),
                *old(self),
            ),
        decreases old(self).spec_rest().len(), 3int,
    {
        let ghost start = *self;
        let ghost s = self.spec_rest();
        proof {
            Self::lemma_advance_zero(start);
            reveal_strlit("true");
            reveal_strlit("false");
            reveal_strlit("Some");
            reveal_strlit("None");
            reveal_strlit("()");
            reveal_strlit("inf");
            reveal_strlit("-inf");
            reveal_strlit("NaN");
            lemma_lit_ascii("true");
            lemma_lit_ascii("false");
            lemma_lit_ascii("None");
            lemma_lit_ascii("()");
            lemma_lit_ascii("inf");
            lemma_lit_ascii("-inf");
            lemma_lit_ascii("NaN");
        }
        if self.consume_ident("true") {
            return Ok(leaf(Value::Bool(true)));
        }
        if self.consume_ident("false") {
            return Ok(leaf(Value::Bool(false)));
        }
        if self.check_ident("Some") {
            return self.parse_option(lim);
        }
        if self.consume_ident("None") {
            return Ok(leaf(Value::Option(None)));
        }
        if self.consume("()") {
            return Ok(leaf(Value::Unit));
        }
        if self.consume_ident("inf") {
            return Ok(
                leaf(Value::Number(
                    Number::Float(FloatLiteral { text: "inf".to_owned(), width: DesireFloat::F64 }),
                )),
            );
        }
        if self.consume_ident("-inf") {
            return Ok(
                leaf(Value::Number(
                    Number::Float(FloatLiteral { text: "-inf".to_owned(), width: DesireFloat::F64 }),
                )),
            );
        }
        if self.consume_ident("NaN") {
            return Ok(
                leaf(Value::Number(
                    Number::Float(FloatLiteral { text: "NaN".to_owned(), width: DesireFloat::F64 }),
                )),
            );
        }
        let mut copy = *self;
        proof {
            lemma_ident_scan_len(s);
        }
        if copy.identifier().is_ok() {
            *self = copy;
            let ghost a = *self;
            let ghost n = ident_scan(s).consumed();
            proof {
                lemma_ws_scan_len(a.spec_rest());
            }
            let ws = self.skip_ws();
            proof {
                Self::lemma_advance_trans(start, a, *self, n, ws_scan(a.spec_rest()).0);
            }
            ws?;
            let ghost b = *self;
            assert(b.spec_rest() == s.skip(n + ws_scan(s.skip(n)).0));
            let r = self.parse_any_struct(lim);
            proof {
                lemma_value_realizes_shift(
                    any_struct_scan(b.spec_rest(), lim, b.spec_exts()),
                    r,
                    *self,
                    b,
                    start,
                    n + ws_scan(s.skip(n)).0,
                );
            }
            return r;
        }
        self.parse_dispatch(lim)
    }

    /// Reads a value by its first byte; see [`dispatch_scan`].
    fn parse_dispatch(&mut self, lim: Option<usize>) -> (r: Result<Value, Error>)
        requires
            old(self).wf(),
        ensures
            final(self).wf(),
            value_realizes(dispatch_scan(old(self).spec_rest(), lim, old(self).spec_exts()), r, *final(self), *old(self)),
        decreases old(self).spec_rest().len(), 2int,
    {
        proof {
            Self::lemma_advance_zero(*self);
        }
        let ghost start = *self;
        let ghost s = self.spec_rest();
        let ghost ex = self.spec_exts();
        let c = self.peek_or_eof()?;
        if c == 40u8 {
            self.parse_any_struct(lim)
        } else if c == 91u8 {
            self.parse_container(lim, 93)
        } else if c == 123u8 {
            self.parse_container(lim, 125)
        } else if (48u8 <= c && c <= 57u8) || c == 43u8 || c == 45u8 {
            self.any_number()
        } else if c == 46u8 {
            match self.any_float(DesireFloat::F64) {
                Ok(f) => Ok(leaf(Value::Number(Number::Float(f)))),
                Err(e) => Err(e),
            }
        } else if c == 34u8 || c == 114u8 {
            match self.string() {
                Ok(ParsedStr::Allocated(st)) => Ok(leaf(Value::String(st))),
                Ok(ParsedStr::Slice(st)) => Ok(leaf(Value::String(st.to_owned()))),
                Err(e) => Err(e),
            }
        } else if c == 39u8 {
            match self.char() {
                Ok(ch) => Ok(leaf(Value::Char(ch))),
                Err(e) => Err(e),
            }
        } else {
            Err(Error::UnexpectedChar(c as char))
        }
    }

    /// Reads a number: a float where the bytes look like one, an integer
    /// in the smallest type that holds it otherwise, or where that fails, a
    /// float that reads at least as far. See [`number_scan`].
    pub fn any_number(&mut self) -> (r: Result<Value, Error>)
        requires
            old(self).wf(),
        ensures
            final(self).wf(),
            value_realizes(number_scan(old(self).spec_rest()), r, *final(self), *old(self)),
    {
        proof {
            reveal(number_scan);
        }
        if self.next_bytes_is_float() {
            return match self.any_float(DesireFloat::Any) {
                Ok(f) => Ok(leaf(Value::Number(Number::Float(f)))),
                Err(e) => Err(e),
            };
        }
        let backup = *self;
        match self.any_integer(DesireInteger::Any) {
            Ok(i) => Ok(leaf(Value::Number(Number::Integer(i)))),
            Err(integer_err) => {
                let integer_bytes = *self;
                *self = backup;
                match self.any_float(DesireFloat::Any) {
                    Ok(f) => if self.bytes().len() <= integer_bytes.bytes().len() {
                        Ok(leaf(Value::Number(Number::Float(f))))
                    } else {
                        *self = integer_bytes;
                        Err(integer_err)
                    },
                    Err(_) => {
                        *self = integer_bytes;
                        Err(integer_err)
                    },
                }
            },
        }
    }

    /// Reads `Some(...)`, or `Some` and a bare value with the
    /// `implicit_some` extension; see [`option_scan`].
    fn parse_option(&mut self, lim: Option<usize>) -> (r: Result<Value, Error>)
        requires
            old(self).wf(),
            spec_ident_follows(old(self).spec_rest(), lit("Some")),
        ensures
            final(self).wf(),
            value_realizes(
                option_scan(old(self).spec_rest(), lim, old(self).spec_exts()),
                r,
                *final(self),
                *old(self),
            ),
        decreases old(self).spec_rest().len(), 1int,
    {
        let ghost start = *self;
        let ghost s = self.spec_rest();
        proof {
            reveal_strlit("Some");
            lemma_lit_ascii("Some");
        }
        let _ = self.consume("Some");
        let ghost a = *self;
        assert(a.spec_rest() == s.skip(4));
        proof {
            lemma_ws_scan_len(a.spec_rest());
        }
        let ws = self.skip_ws();
        proof {
            Self::lemma_advance_trans(start, a, *self, 4, ws_scan(a.spec_rest()).0);
        }
        ws?;
        let ghost p = 4 + ws_scan(s.skip(4)).0;
        let ghost b = *self;
        assert(b.spec_rest() == s.skip(p));
        if self.eat_if(40u8) {
            let ghost c = *self;
            proof {
                Self::lemma_advance_trans(start, b, c, p, 1);
                assert(c.spec_rest() == s.skip(p + 1));
                lemma_ws_scan_len(c.spec_rest());
            }
            let ws2 = self.skip_ws();
            let ghost q = p + 1 + ws_scan(s.skip(p + 1)).0;
            proof {
                Self::lemma_advance_trans(start, c, *self, p + 1, ws_scan(c.spec_rest()).0);
            }
            ws2?;
            let ghost d = *self;
            assert(d.spec_rest() == s.skip(q));
            let l2 = go_deeper(lim)?;
            let v = self.parse_value(l2);
            let ghost vo = value_scan(d.spec_rest(), l2, d.spec_exts());
            proof {
                Self::lemma_advance_trans(start, d, *self, q, vo.consumed());
            }
            let v = v?;
            let ghost e = *self;
            assert(e.spec_rest() == s.skip(q + vo.consumed()));
            proof {
                lemma_comma_scan_len(e.spec_rest());
            }
            let cm = self.comma();
            proof {
                Self::lemma_advance_trans(start, e, *self, q + vo.consumed(), comma_scan(e.spec_rest()).consumed());
            }
            cm?;
            let ghost f = *self;
            if self.eat_if(41u8) {
                proof {
                    Self::lemma_advance_trans(start, f, *self, q + vo.consumed() + comma_scan(e.spec_rest()).consumed(), 1);
                }
                Ok(leaf(Value::Option(Some(Box::new(v)))))
            } else {
                Err(Error::ExpectedOptionEnd)
            }
        } else if self.exts().contains(Extensions::implicit_some()) {
            let l2 = go_deeper(lim)?;
            let r = self.parse_value(l2);
            proof {
                Self::lemma_advance_trans(start, b, *self, p, value_scan(b.spec_rest(), l2, b.spec_exts()).consumed());
            }
            match r {
                Ok(v) => Ok(leaf(Value::Option(Some(Box::new(v))))),
                Err(e) => Err(e),
            }
        } else {
            Err(Error::ExpectedOption)
        }
    }

    /// Reads a struct after its name, if any; see [`any_struct_scan`].
    #[verifier::rlimit(100)]
    fn parse_any_struct(&mut self, lim: Option<usize>) -> (r: Result<Value, Error>)
        requires
            old(self).wf(),
        ensures
            final(self).wf(),
            value_realizes(
                any_struct_scan(old(self).spec_rest(), lim, old(self).spec_exts()),
                r,
                *final(self),
                *old(self),
            ),
        decreases old(self).spec_rest().len(), 1int,
    {
        proof {
            lemma_struct_type_unit(self.spec_rest(), TupleMode::ImpreciseTupleOrNewtype);
        }
        let ghost start = *self;
        let st = self.check_struct_type(NewtypeMode::NoParensMeanUnit, TupleMode::ImpreciseTupleOrNewtype)?;
        let ghost mid = *self;
        assert(mid.spec_rest() =~= start.spec_rest());
        let r = match st {
            StructType::Unit => Ok(leaf(Value::Unit)),
            StructType::Named => self.parse_container(lim, 41),
            _ => self.parse_container(lim, 0),
        };
        proof {
            if !(st is Unit) {
                let term: u8 = if st is Named {
                    41
                } else {
                    0
                };
                Self::lemma_advance_trans(start, mid, *self, 0, container_scan(mid.spec_rest(), lim, mid.spec_exts(), term).consumed());
            }
        }
        r
    }

    /// Reads a container from its opening byte; see [`container_scan`].
    fn parse_container(&mut self, lim: Option<usize>, term: u8) -> (r: Result<Value, Error>)
        requires
            old(self).wf(),
        ensures
            final(self).wf(),
            value_realizes(
                container_scan(old(self).spec_rest(), lim, old(self).spec_exts(), term),
                r,
                *final(self),
                *old(self),
            ),
        decreases old(self).spec_rest().len(), 0int,
    {
        let ghost start = *self;
        let ghost s = self.spec_rest();
        proof {
            Self::lemma_advance_zero(start);
        }
        let _ = self.eat_byte()?;
        let ghost a = *self;
        assert(a.spec_rest() == s.skip(1));
        let l1 = go_deeper(lim)?;
        if term == 93u8 {
            let r = self.parse_list_body(l1, 93, Error::ExpectedArrayEnd);
            proof {
                lemma_value_realizes_shift(list_body_scan(a.spec_rest(), l1, a.spec_exts(), 93, Error::ExpectedArrayEnd), r, *self, a, start, 1);
            }
            r
        } else if term == 0u8 {
            let r = self.parse_list_body(l1, 41, Error::ExpectedStructLikeEnd);
            proof {
                lemma_value_realizes_shift(list_body_scan(a.spec_rest(), l1, a.spec_exts(), 41, Error::ExpectedStructLikeEnd), r, *self, a, start, 1);
            }
            r
        } else {
            let r = self.parse_mapping_body(l1, term != 125u8);
            proof {
                lemma_value_realizes_shift(mapping_body_scan(a.spec_rest(), l1, a.spec_exts(), term != 125u8), r, *self, a, start, 1);
            }
            r
        }
    }

    /// Reads the elements of a list or tuple after its opening byte, and
    /// the closing byte; see [`list_body_scan`].
    fn parse_list_body(&mut self, l1: Option<usize>, close: u8, missing: Error) -> (r: Result<Value, Error>)
        requires
            old(self).wf(),
        ensures
            final(self).wf(),
            value_realizes(list_body_scan(old(self).spec_rest(), l1, old(self).spec_exts(), close, missing), r, *final(self), *old(self)),
        decreases old(self).spec_rest().len(), 6int,
    {
        let ghost start = *self;
        let mut out: Vec<Value> = Vec::new();
        let r = self.parse_items(l1, close, true, &mut out);
        let ghost o = items_scan(start.spec_rest(), l1, start.spec_exts(), close, true);
        proof {
            assert(values_view(Seq::<Value>::empty()) =~= Seq::<ValueModel>::empty());
        }
        r?;
        let ghost b = *self;
        proof {
            lemma_ws_scan_len(b.spec_rest());
        }
        let ws = self.skip_ws();
        proof {
            Self::lemma_advance_trans(start, b, *self, o.consumed(), ws_scan(b.spec_rest()).0);
        }
        ws?;
        let ghost c = *self;
        assert(c.spec_rest() =~= start.spec_rest().skip(o.consumed() + ws_scan(b.spec_rest()).0));
        if self.eat_if(close) {
            proof {
                Self::lemma_advance_trans(start, c, *self, o.consumed() + ws_scan(b.spec_rest()).0, 1);
                assert(values_view(Seq::<Value>::empty()) + o->value =~= o->value);
            }
            Ok(leaf(Value::List(out)))
        } else {
            Err(missing)
        }
    }

    /// Reads the entries of a mapping, or the fields of a struct, after
    /// its opening byte, and the closing byte; see [`mapping_body_scan`].
    fn parse_mapping_body(&mut self, l1: Option<usize>, fields: bool) -> (r: Result<Value, Error>)
        requires
            old(self).wf(),
        ensures
            final(self).wf(),
            value_realizes(mapping_body_scan(old(self).spec_rest(), l1, old(self).spec_exts(), fields), r, *final(self), *old(self)),
        decreases old(self).spec_rest().len(), 8int,
    {
        let ghost start = *self;
        let close: u8 = if fields {
            41
        } else {
            125
        };
        let mut out: Vec<(Value, Value)> = Vec::new();
        let r = self.parse_entries(l1, fields, true, &mut out);
        let ghost o = entries_scan(start.spec_rest(), l1, start.spec_exts(), fields, true);
        proof {
            assert(entries_view(Seq::<(Value, Value)>::empty()) =~= Seq::<(ValueModel, ValueModel)>::empty());
        }
        r?;
        let ghost b = *self;
        proof {
            lemma_ws_scan_len(b.spec_rest());
        }
        let ws = self.skip_ws();
        proof {
            Self::lemma_advance_trans(start, b, *self, o.consumed(), ws_scan(b.spec_rest()).0);
        }
        ws?;
        let ghost c = *self;
        assert(c.spec_rest() =~= start.spec_rest().skip(o.consumed() + ws_scan(b.spec_rest()).0));
        if self.eat_if(close) {
            proof {
                Self::lemma_advance_trans(start, c, *self, o.consumed() + ws_scan(b.spec_rest()).0, 1);
                assert(entries_view(Seq::<(Value, Value)>::empty()) + o->value =~= o->value);
            }
            let m = last_wins_entries(out);
            Ok(leaf(Value::Mapping(m)))
        } else if fields {
            Err(Error::ExpectedStructLikeEnd)
        } else {
            Err(Error::ExpectedMapEnd)
        }
    }

    /// Reads the elements of a list or tuple up to its closing byte,
    /// appending them to `out`; see [`items_scan`].
    fn parse_items(&mut self, lim: Option<usize>, term: u8, had_comma: bool, out: &mut Vec<Value>) -> (r: Result<(), Error>)
        requires
            old(self).wf(),
        ensures
            final(self).wf(),
            match items_scan(old(self).spec_rest(), lim, old(self).spec_exts(), term, had_comma) {
                Outcome::Done { n, value } => r is Ok && values_view(final(out)@) == values_view(old(out)@) + value
                    && final(self).is_advance_of(*old(self), n),
                Outcome::Fail { n, err } => r matches Err(e) && err_matches(e, err)
                    && final(self).is_advance_of(*old(self), n),
            },
        decreases old(self).spec_rest().len(), if had_comma {
            5int
        } else {
            4int
        },
    {
        let ghost start = *self;
        let ghost s = self.spec_rest();
        proof {
            lemma_ws_scan_len(s);
        }
        self.skip_ws()?;
        let ghost a = *self;
        let ghost w = ws_scan(s).0;
        let c = self.peek_or_eof()?;
        if c == term {
            proof {
                assert(values_view(old(out)@) + Seq::<ValueModel>::empty() =~= values_view(old(out)@));
            }
            return Ok(());
        }
        if !had_comma {
            return Err(Error::ExpectedComma);
        }
        let l2 = go_deeper(lim)?;
        let v = self.parse_value(l2);
        let ghost vo = value_scan(a.spec_rest(), l2, a.spec_exts());
        proof {
            Self::lemma_advance_trans(start, a, *self, w, vo.consumed());
        }
        let v = match v {
            Ok(v) => v,
            Err(e) => {
                assert(vo is Fail);
                assert(ws_scan(s).1 is None);
                assert(a.spec_rest() == s.skip(ws_scan(s).0));
                assert(s.skip(ws_scan(s).0).len() > 0);
                assert(s.skip(ws_scan(s).0)[0] != term);
                assert(deeper(lim) == Some(l2));
                let ghost ex = start.spec_exts();
                let ghost t = s.skip(w);
                assert(t.len() == 0 ==> items_scan(s, lim, ex, term, had_comma) == Outcome::<Seq<ValueModel>>::Fail { n: w, err: ErrSpec::Plain(Error::Eof) });
                assert(t.len() > 0 && t[0] == term ==> items_scan(s, lim, ex, term, had_comma) == Outcome::<Seq<ValueModel>>::Done { n: w, value: Seq::empty() });
                assert(t.len() > 0 && t[0] != term && !had_comma ==> items_scan(s, lim, ex, term, had_comma) == Outcome::<Seq<ValueModel>>::Fail { n: w, err: ErrSpec::Plain(Error::ExpectedComma) });
                assert(t.len() > 0 && t[0] != term && had_comma && deeper(lim) is None ==> items_scan(s, lim, ex, term, had_comma) == Outcome::<Seq<ValueModel>>::Fail { n: w, err: ErrSpec::Plain(Error::ExceededRecursionLimit) });
                assert(ws_scan(s).1 is Some ==> items_scan(s, lim, start.spec_exts(), term, had_comma) == Outcome::<Seq<ValueModel>>::Fail { n: ws_scan(s).0, err: ErrSpec::Plain(ws_scan(s).1.unwrap()) });
                assert(value_scan(s.skip(ws_scan(s).0), l2, start.spec_exts()) == vo);
                assert(t.len() > 0 && t[0] != term && had_comma && deeper(lim) == Some(l2) && value_scan(t, l2, ex) is Fail ==> items_scan(s, lim, ex, term, had_comma) is Fail);
                assert(t.len() > 0 && t[0] != term && had_comma && deeper(lim) == Some(l2) && value_scan(t, l2, ex) is Fail);
                assert(items_scan(s, lim, start.spec_exts(), term, had_comma) == Outcome::<Seq<ValueModel>>::Fail { n: w + vo.consumed(), err: vo->err });
                return Err(e);
            },
        };
        let ghost before_push = out@;
        out.push(v);
        proof {
            assert(out@.drop_last() =~= before_push);
        }
        let ghost b = *self;
        proof {
            lemma_comma_scan_len(b.spec_rest());
        }
        let cm = self.comma();
        proof {
            Self::lemma_advance_trans(start, b, *self, w + vo.consumed(), comma_scan(b.spec_rest()).consumed());
        }
        let had = cm?;
        let ghost c2 = *self;
        assert(c2.spec_rest() =~= a.spec_rest().skip(vo.consumed() + comma_scan(b.spec_rest()).consumed()));
        let ghost mid_out = out@;
        let r = self.parse_items(lim, term, had, out);
        proof {
            let o = items_scan(c2.spec_rest(), lim, c2.spec_exts(), term, had);
            Self::lemma_advance_trans(start, c2, *self, w + vo.consumed() + comma_scan(b.spec_rest()).consumed(), o.consumed());
            if let Outcome::Done { value, .. } = o {
                assert(values_view(old(out)@) + (seq![vo->value] + value) =~= values_view(mid_out) + value);
            }
        }
        r
    }

    /// Reads the name of a struct field; see [`field_name_scan`].
    fn parse_field_name(&mut self) -> (r: Result<Value, Error>)
        requires
            old(self).wf(),
        ensures
            final(self).wf(),
            value_realizes(field_name_scan(old(self).spec_rest()), r, *final(self), *old(self)),
    {
        proof {
            lemma_ident_scan_len(self.spec_rest());
        }
        let id = self.identifier()?;
        proof {
            lemma_ascii_utf8(id@);
        }
        match str_from_utf8(id) {
            Ok(st) => Ok(leaf(Value::String(st.to_owned()))),
            Err(e) => {
                proof {
                    assert(false);
                }
                Err(Error::Utf8Error(e))
            },
        }
    }

    /// Reads a key, or a field name, and its value; see [`entry_scan`].
    #[verifier::rlimit(100)]
    fn parse_entry(&mut self, l2: Option<usize>, fields: bool) -> (r: Result<(Value, Value), Error>)
        requires
            old(self).wf(),
        ensures
            final(self).wf(),
            match entry_scan(old(self).spec_rest(), l2, old(self).spec_exts(), fields) {
                Outcome::Done { n, value } => r matches Ok(x) && (value_view(x.0), value_view(x.1)) == value
                    && final(self).is_advance_of(*old(self), n),
                Outcome::Fail { n, err } => r matches Err(e) && err_matches(e, err)
                    && final(self).is_advance_of(*old(self), n),
            },
        decreases old(self).spec_rest().len(), 5int,
    {
        let ghost start = *self;
        let ghost s = self.spec_rest();
        let ghost ko = if fields {
            field_name_scan(s)
        } else {
            value_scan(s, l2, start.spec_exts())
        };
        let kr = if fields {
            self.parse_field_name()
        } else {
            self.parse_value(l2)
        };
        assert(value_realizes(ko, kr, *self, start));
        let key = match kr {
            Ok(k) => k,
            Err(e) => {
                assert(ko is Fail);
                return Err(e);
            },
        };
        assert(ko is Done);
        assert(value_view(key) == ko->value);
        let ghost a = *self;
        let ghost n = ko.consumed();
        assert(a.spec_rest() == s.skip(n));
        proof {
            lemma_ws_scan_len(a.spec_rest());
        }
        let ws = self.skip_ws();
        proof {
            Self::lemma_advance_trans(start, a, *self, n, ws_scan(a.spec_rest()).0);
        }
        ws?;
        let ghost b = *self;
        if !self.eat_if(58u8) {
            return Err(Error::ExpectedMapColon);
        }
        let ghost c = *self;
        proof {
            Self::lemma_advance_trans(start, b, c, n + ws_scan(a.spec_rest()).0, 1);
            lemma_ws_scan_len(c.spec_rest());
        }
        let ws2 = self.skip_ws();
        let ghost q = n + ws_scan(a.spec_rest()).0 + 1 + ws_scan(c.spec_rest()).0;
        proof {
            Self::lemma_advance_trans(start, c, *self, n + ws_scan(a.spec_rest()).0 + 1, ws_scan(c.spec_rest()).0);
        }
        ws2?;
        let ghost d = *self;
        assert(d.spec_rest() == s.skip(q));
        let r = self.parse_value(l2);
        proof {
            Self::lemma_advance_trans(start, d, *self, q, value_scan(d.spec_rest(), l2, d.spec_exts()).consumed());
        }
        match r {
            Ok(v) => Ok((key, v)),
            Err(e) => Err(e),
        }
    }

    /// Reads the entries of a mapping, or the named fields of a struct, up
    /// to the closing byte, appending them to `out`; see [`entries_scan`].
    fn parse_entries(&mut self, lim: Option<usize>, fields: bool, had_comma: bool, out: &mut Vec<(Value, Value)>) -> (r: Result<(), Error>)
        requires
            old(self).wf(),
        ensures
            final(self).wf(),
            match entries_scan(old(self).spec_rest(), lim, old(self).spec_exts(), fields, had_comma) {
                Outcome::Done { n, value } => r is Ok && entries_view(final(out)@) == entries_view(old(out)@) + value
                    && final(self).is_advance_of(*old(self), n),
                Outcome::Fail { n, err } => r matches Err(e) && err_matches(e, err)
                    && final(self).is_advance_of(*old(self), n),
            },
        decreases old(self).spec_rest().len(), if had_comma {
            7int
        } else {
            6int
        },
    {
        let ghost start = *self;
        let ghost s = self.spec_rest();
        let term: u8 = if fields {
            41
        } else {
            125
        };
        proof {
            lemma_ws_scan_len(s);
        }
        self.skip_ws()?;
        let ghost a = *self;
        let ghost w = ws_scan(s).0;
        let c = self.peek_or_eof()?;
        if c == term {
            proof {
                assert(entries_view(old(out)@) + Seq::<(ValueModel, ValueModel)>::empty() =~= entries_view(old(out)@));
            }
            return Ok(());
        }
        if !had_comma {
            return Err(Error::ExpectedComma);
        }
        let l2 = go_deeper(lim)?;
        let v = self.parse_entry(l2, fields);
        let ghost vo = entry_scan(a.spec_rest(), l2, a.spec_exts(), fields);
        proof {
            Self::lemma_advance_trans(start, a, *self, w, vo.consumed());
        }
        let v = v?;
        let ghost before_push = out@;
        out.push(v);
        proof {
            assert(out@.drop_last() =~= before_push);
        }
        let ghost b = *self;
        proof {
            lemma_comma_scan_len(b.spec_rest());
        }
        let cm = self.comma();
        proof {
            Self::lemma_advance_trans(start, b, *self, w + vo.consumed(), comma_scan(b.spec_rest()).consumed());
        }
        let had = cm?;
        let ghost c2 = *self;
        assert(c2.spec_rest() =~= a.spec_rest().skip(vo.consumed() + comma_scan(b.spec_rest()).consumed()));
        let ghost mid_out = out@;
        let r = self.parse_entries(lim, fields, had, out);
        proof {
            let o = entries_scan(c2.spec_rest(), lim, c2.spec_exts(), fields, had);
            Self::lemma_advance_trans(start, c2, *self, w + vo.consumed() + comma_scan(b.spec_rest()).consumed(), o.consumed());
            if let Outcome::Done { value, .. } = o {
                assert(entries_view(old(out)@) + (seq![vo->value] + value) =~= entries_view(mid_out) + value);
            }
        }
        r
    }
}

/// Reading a whole document with the recursion limit `lim` and the
/// extensions `default_bits` enabled besides those it enables itself: its
/// extension attributes, a value, and nothing after it but whitespace and
/// comments.
pub open spec fn document_scan(b: Seq<u8>, lim: Option<usize>, default_bits: usize) -> Outcome<
    ValueModel,
> {
    match header_scan(b) {
        Outcome::Fail { n, err } => Outcome::Fail { n, err },
        Outcome::Done { n, value: bits } => {
            let rest = b.skip(n);
            match value_scan(rest, lim, Extensions { bits: bits | default_bits }) {
                Outcome::Fail { n: m, err } => Outcome::Fail { n: n + m, err },
                Outcome::Done { n: m, value } => {
                    let w = ws_scan(rest.skip(m));
                    if w.1 is Some {
                        Outcome::Fail { n: n + m + w.0, err: ErrSpec::Plain(w.1.unwrap()) }
                    } else if rest.skip(m).skip(w.0).len() > 0 {
                        Outcome::Fail {
                            n: n + m + w.0,
                            err: ErrSpec::Plain(Error::TrailingCharacters),
                        }
                    } else {
                        Outcome::Done { n: n + m + w.0, value }
                    }
                },
            }
        },
    }
}

/// Whether `r` is what reading the document `b` gives by `o`: the value,
/// or the error at the position where reading stopped.
pub open spec fn document_realizes(o: Outcome<ValueModel>, b: Seq<u8>, r: Result<Value, SpannedError>) -> bool {
    match o {
        Outcome::Done { value, .. } => r matches Ok(x) && value_view(x) == value,
        Outcome::Fail { n, err } => r matches Err(e) && err_matches(e.code, err) && e.position
            == pos_after(Position { line: 1, col: 1 }, b.take(n)),
    }
}

/// The text of `b` with each invalid UTF-8 sequence replaced by U+FFFD,
/// as the standard library's lossy conversion gives it.
pub uninterp spec fn utf8_lossy(b: Seq<u8>) -> Seq<char>;

/// `String::from_utf8_lossy`: its result depends on the bytes alone, and
/// per its documentation, valid UTF-8 comes back unchanged.
#[verifier::external_body]
fn string_from_utf8_lossy(b: &[u8]) -> (s: String)
    ensures
        s@ == utf8_lossy(b@),
        valid_utf8(b@) ==> s@ == decode_utf8(b@),
{
    String::from_utf8_lossy(b).into_owned()
}

/// What the standard base64 alphabet, with padding, decodes the text `s`
/// into: the bytes, or why `s` is not such base64.
pub uninterp spec fn base64_decoded(s: Seq<u8>) -> Result<Seq<u8>, Base64DecodeError>;

/// `Engine::decode` of base64's standard engine: its result, the decoded
/// bytes or the error, depends on the input alone. The outside error is
/// handed over arm by arm.
#[verifier::external_body]
fn base64_standard_decode(s: &str) -> (r: Result<Vec<u8>, Base64DecodeError>)
    ensures
        match base64_decoded(s.spec_bytes()) {
            Ok(b) => r matches Ok(v) && v@ == b,
            Err(e) => r == Err::<Vec<u8>, Base64DecodeError>(e),
        },
{
    match base64::Engine::decode(&base64::engine::general_purpose::STANDARD, s) {
        Ok(v) => Ok(v),
        Err(base64::DecodeError::InvalidByte(i, b)) => Err(Base64DecodeError::InvalidByte(i, b)),
        Err(base64::DecodeError::InvalidLength(n)) => Err(Base64DecodeError::InvalidLength(n)),
        Err(base64::DecodeError::InvalidLastSymbol(i, b)) => Err(Base64DecodeError::InvalidLastSymbol(i, b)),
        Err(base64::DecodeError::InvalidPadding) => Err(Base64DecodeError::InvalidPadding),
    }
}

/// Decodes the base64 text `s`, which is how RON writes byte strings.
pub fn decode_base64(s: &str) -> (r: Result<Vec<u8>, Error>)
    ensures
        match base64_decoded(s.spec_bytes()) {
            Ok(b) => r matches Ok(v) && v@ == b,
            Err(e) => r == Err::<Vec<u8>, Error>(Error::Base64Error(e)),
        },
{
    match base64_standard_decode(s) {
        Ok(v) => Ok(v),
        Err(e) => Err(Error::Base64Error(e)),
    }
}

/// The RON deserializer: a cursor over a document, the extensions it
/// enables, and the limit on how deeply values may nest.
pub struct Deserializer<'de> {
    bytes: Bytes<'de>,
    newtype_variant: bool,
    last_identifier: Option<&'de str>,
    recursion_limit: Option<usize>,
}

impl<'de> Deserializer<'de> {
    /// The deserializer's invariant: its cursor's.
    pub closed spec fn wf(&self) -> bool {
        self.bytes.wf()
    }

    /// The cursor.
    pub closed spec fn parser(&self) -> Bytes<'de> {
        self.bytes
    }

    /// How deeply values may still nest.
    pub closed spec fn limit(&self) -> Option<usize> {
        self.recursion_limit
    }

    /// A deserializer for the document `input`, read by the default
    /// options.
    pub fn from_str(input: &'de str) -> (r: Result<Self, SpannedError>)
        requires
            input.spec_bytes().len() + 2 <= usize::MAX,
        ensures
            Self::created(input.spec_bytes(), Options::spec_default(), r),
    {
        Self::from_bytes_with_options(input.as_bytes(), Options::build())
    }

    /// A deserializer for the document `input`, read by the default
    /// options.
    pub fn from_bytes(input: &'de [u8]) -> (r: Result<Self, SpannedError>)
        requires
            input@.len() + 2 <= usize::MAX,
        ensures
            Self::created(input@, Options::spec_default(), r),
    {
        Self::from_bytes_with_options(input, Options::build())
    }

    /// A deserializer for the document `input`, read by `options`.
    pub fn from_str_with_options(input: &'de str, options: Options) -> (r: Result<Self, SpannedError>)
        requires
            input.spec_bytes().len() + 2 <= usize::MAX,
        ensures
            Self::created(input.spec_bytes(), options, r),
    {
        Self::from_bytes_with_options(input.as_bytes(), options)
    }

    /// Whether `r` is the deserializer made for `input` by `options`: the
    /// extension attributes at the start of the document have been read,
    /// the default extensions of the options are enabled as well, and the
    /// options' recursion limit applies.
    pub open spec fn created(input: Seq<u8>, options: Options, r: Result<Self, SpannedError>) -> bool {
        match header_scan(input) {
            Outcome::Done { n, value } => {
                &&& r matches Ok(d)
                &&& r->Ok_0.wf()
                &&& r->Ok_0.parser().spec_rest() == input.skip(n)
                &&& r->Ok_0.parser().spec_cursor() == pos_after(Position { line: 1, col: 1 }, input.take(n))
                &&& r->Ok_0.parser().spec_exts().bits == value | options.default_extensions.bits
                &&& r->Ok_0.limit() == options.recursion_limit
            },
            Outcome::Fail { n, err } => {
                &&& r matches Err(e)
                &&& err_matches(r->Err_0.code, err)
                &&& r->Err_0.position == pos_after(Position { line: 1, col: 1 }, input.take(n))
            },
        }
    }

    /// A deserializer for the document `input`, read by `options`.
    pub fn from_bytes_with_options(input: &'de [u8], options: Options) -> (r: Result<Self, SpannedError>)
        requires
            input@.len() + 2 <= usize::MAX,
        ensures
            Self::created(input@, options, r),
    {
        let mut bytes = Bytes::new(input)?;
        bytes.enable(options.default_extensions);
        Ok(Deserializer { bytes, newtype_variant: false, last_identifier: None, recursion_limit: options.recursion_limit })
    }

    /// The text not read yet, with invalid UTF-8 replaced.
    pub fn remainder(&self) -> (s: String)
        ensures
            s@ == utf8_lossy(self.parser().spec_rest()),
            valid_utf8(self.parser().spec_rest()) ==> s@ == decode_utf8(self.parser().spec_rest()),
    {
        string_from_utf8_lossy(self.bytes.bytes())
    }

    /// The error `code` at the position reached.
    pub fn span_error(&self, code: Error) -> (e: SpannedError)
        ensures
            e.code == code,
            e.position == self.parser().spec_cursor(),
    {
        self.bytes.span_error(code)
    }

    /// Checks that nothing but whitespace and comments is left.
    pub fn end(&mut self) -> (r: Result<(), Error>)
        requires
            old(self).wf(),
        ensures
            final(self).wf(),
            final(self).limit() == old(self).limit(),
            final(self).parser().is_advance_of(old(self).parser(), ws_scan(old(self).parser().spec_rest()).0),
            match ws_scan(old(self).parser().spec_rest()).1 {
                Some(e) => r == Err::<(), Error>(e),
                None => if old(self).parser().spec_rest().skip(ws_scan(old(self).parser().spec_rest()).0).len() == 0 {
                    r is Ok
                } else {
                    r == Err::<(), Error>(Error::TrailingCharacters)
                },
            },
    {
        self.bytes.skip_ws()?;
        if self.bytes.bytes().len() == 0 {
            Ok(())
        } else {
            Err(Error::TrailingCharacters)
        }
    }

    /// Reads a byte string, written as a string of base64 text.
    pub fn deserialize_byte_buf(&mut self) -> (r: Result<Vec<u8>, Error>)
        requires
            old(self).wf(),
        ensures
            final(self).wf(),
            final(self).limit() == old(self).limit(),
            match string_scan(old(self).parser().spec_rest()) {
                Outcome::Done { n, value } => final(self).parser().is_advance_of(old(self).parser(), n)
                    && match base64_decoded(encode_utf8(value.1)) {
                    Ok(b) => r matches Ok(v) && v@ == b,
                    Err(e) => r == Err::<Vec<u8>, Error>(Error::Base64Error(e)),
                },
                Outcome::Fail { n, err } => r matches Err(e) && err_matches(e, err)
                    && final(self).parser().is_advance_of(old(self).parser(), n),
            },
    {
        let string = self.bytes.string()?;
        match string {
            ParsedStr::Allocated(s) => decode_base64(s.as_str()),
            ParsedStr::Slice(s) => decode_base64(s),
        }
    }

    /// Reads any value into a [`Value`]; see [`value_scan`].
    pub fn deserialize_value(&mut self) -> (r: Result<Value, Error>)
        requires
            old(self).wf(),
        ensures
            final(self).wf(),
            final(self).limit() == old(self).limit(),
            value_realizes(
                value_scan(old(self).parser().spec_rest(), old(self).limit(), old(self).parser().spec_exts()),
                r,
                final(self).parser(),
                old(self).parser(),
            ),
    {
        self.newtype_variant = false;
        self.bytes.parse_value(self.recursion_limit)
    }

    /// Reads whitespace, one value and whitespace, and hands back the text
    /// they took; see [`raw_value_scan`]. Text that is not UTF-8 is
    /// refused as [`Error::ExpectedRawValue`].
    pub fn deserialize_raw_value(&mut self) -> (r: Result<&'de str, Error>)
        requires
            old(self).wf(),
        ensures
            final(self).wf(),
            final(self).limit() == old(self).limit(),
            match raw_value_scan(old(self).parser().spec_rest(), old(self).limit(), old(self).parser().spec_exts()) {
                Outcome::Done { n, .. } => {
                    &&& final(self).parser().is_advance_of(old(self).parser(), n)
                    &&& valid_utf8(old(self).parser().spec_rest().take(n)) ==> (r matches Ok(t)
                        && t@ == decode_utf8(old(self).parser().spec_rest().take(n)))
                    &&& !valid_utf8(old(self).parser().spec_rest().take(n)) ==> r == Err::<&str, Error>(
                        Error::ExpectedRawValue,
                    )
                },
                Outcome::Fail { n, err } => {
                    &&& r matches Err(e) && err_matches(e, err)
                    &&& final(self).parser().is_advance_of(old(self).parser(), n)
                },
            },
    {
        let before: &'de [u8] = self.bytes.bytes();
        let ghost start = self.bytes;
        self.bytes.skip_ws()?;
        let ghost mid = self.bytes;
        self.newtype_variant = false;
        let parsed = self.bytes.parse_value(self.recursion_limit);
        proof {
            lemma_value_realizes_shift(
                value_scan(mid.spec_rest(), self.recursion_limit, mid.spec_exts()),
                parsed,
                self.bytes,
                mid,
                start,
                ws_scan(start.spec_rest()).0,
            );
        }
        if let Err(e) = parsed {
            return Err(e);
        }
        let ghost mid2 = self.bytes;
        let trailing = self.bytes.skip_ws();
        proof {
            Bytes::lemma_advance_trans(
                start,
                mid2,
                self.bytes,
                start.spec_rest().len() - mid2.spec_rest().len(),
                ws_scan(mid2.spec_rest()).0,
            );
        }
        if let Err(e) = trailing {
            return Err(e);
        }
        let after: &'de [u8] = self.bytes.bytes();
        let taken: usize = before.len() - after.len();
        match str_from_utf8(vstd::slice::slice_subrange(before, 0, taken)) {
            Ok(text) => Ok(text),
            Err(_) => Err(Error::ExpectedRawValue),
        }
    }
}

/// The kinds of errors that reading RON text into typed data reports.
#[derive(Clone, Debug, PartialEq)]
pub enum ParseError {
    Eof,
    ExpectedArray,
    ExpectedArrayEnd,
    ExpectedBoolean,
    ExpectedComma,
    ExpectedEnum,
    ExpectedChar,
    ExpectedFloat,
    ExpectedInteger,
    ExpectedOption,
    ExpectedOptionEnd,
    ExpectedMap,
    ExpectedMapColon,
    ExpectedMapEnd,
    ExpectedStruct,
    ExpectedStructEnd,
    ExpectedUnit,
    ExpectedStructName,
    ExpectedString,
    ExpectedIdentifier,
    InvalidEscape,
    Utf8Error(core::str::Utf8Error),
    TrailingCharacters,
}

/// The standard library's `Error::description` of a `Utf8Error`; nothing
/// is claimed of the text.
#[verifier::external_body]
#[allow(deprecated)]
fn utf8_error_description(e: &core::str::Utf8Error) -> (s: &str) {
    std::error::Error::description(e)
}

impl ParseError {
    /// The description of the error; that of a UTF-8 error is the standard
    /// library's.
    pub fn description(&self) -> (s: &str)
        ensures
            match self {
                ParseError::Eof => s@ == "Unexpected end of file"@,
                ParseError::ExpectedArray => s@ == "Expected array"@,
                ParseError::ExpectedArrayEnd => s@ == "Expected end of array"@,
                ParseError::ExpectedBoolean => s@ == "Expected boolean"@,
                ParseError::ExpectedComma => s@ == "Expected comma"@,
                ParseError::ExpectedEnum => s@ == "Expected enum"@,
                ParseError::ExpectedChar => s@ == "Expected char"@,
                ParseError::ExpectedFloat => s@ == "Expected float"@,
                ParseError::ExpectedInteger => s@ == "Expected integer"@,
                ParseError::ExpectedOption => s@ == "Expected option"@,
                ParseError::ExpectedOptionEnd => s@ == "Expected end of option"@,
                ParseError::ExpectedMap => s@ == "Expected map"@,
                ParseError::ExpectedMapColon => s@ == "Expected colon"@,
                ParseError::ExpectedMapEnd => s@ == "Expected end of map"@,
                ParseError::ExpectedStruct => s@ == "Expected struct"@,
                ParseError::ExpectedStructEnd => s@ == "Expected end of struct"@,
                ParseError::ExpectedUnit => s@ == "Expected unit"@,
                ParseError::ExpectedStructName => s@ == "Expected struct name"@,
                ParseError::ExpectedString => s@ == "Expected string"@,
                ParseError::ExpectedIdentifier => s@ == "Expected identifier"@,
                ParseError::InvalidEscape => s@ == "Invalid escape sequence"@,
                ParseError::Utf8Error(_) => true,
                ParseError::TrailingCharacters => s@ == "Non-whitespace trailing characters"@,
            },
    {
        match self {
            ParseError::Eof => "Unexpected end of file",
            ParseError::ExpectedArray => "Expected array",
            ParseError::ExpectedArrayEnd => "Expected end of array",
            ParseError::ExpectedBoolean => "Expected boolean",
            ParseError::ExpectedComma => "Expected comma",
            ParseError::ExpectedEnum => "Expected enum",
            ParseError::ExpectedChar => "Expected char",
            ParseError::ExpectedFloat => "Expected float",
            ParseError::ExpectedInteger => "Expected integer",
            ParseError::ExpectedOption => "Expected option",
            ParseError::ExpectedOptionEnd => "Expected end of option",
            ParseError::ExpectedMap => "Expected map",
            ParseError::ExpectedMapColon => "Expected colon",
            ParseError::ExpectedMapEnd => "Expected end of map",
            ParseError::ExpectedStruct => "Expected struct",
            ParseError::ExpectedStructEnd => "Expected end of struct",
            ParseError::ExpectedUnit => "Expected unit",
            ParseError::ExpectedStructName => "Expected struct name",
            ParseError::ExpectedString => "Expected string",
            ParseError::ExpectedIdentifier => "Expected identifier",
            ParseError::InvalidEscape => "Invalid escape sequence",
            ParseError::Utf8Error(e) => utf8_error_description(e),
            ParseError::TrailingCharacters => "Non-whitespace trailing characters",
        }
    }
}

/// Reads the document `s` into a [`Value`] by `options`: its extension
/// attributes, one value, and nothing after it but whitespace and
/// comments. See [`document_scan`].
pub fn from_bytes_with_options(s: &[u8], options: Options) -> (r: Result<Value, SpannedError>)
    requires
        s@.len() + 2 <= usize::MAX,
    ensures
        document_realizes(
            document_scan(s@, options.recursion_limit, options.default_extensions.bits),
            s@,
            r,
        ),
{
    proof {
        lemma_header_scan_len(s@);
    }
    let mut de = Deserializer::from_bytes_with_options(s, options)?;
    let ghost start = de.parser();
    let ghost n = header_scan(s@).consumed();
    let v = match de.deserialize_value() {
        Ok(v) => v,
        Err(e) => {
            let ghost m = value_scan(start.spec_rest(), options.recursion_limit, start.spec_exts()).consumed();
            proof {
                assert(s@.take(n + m) =~= s@.take(n) + start.spec_rest().take(m));
                lemma_pos_after_concat(Position { line: 1, col: 1 }, s@.take(n), start.spec_rest().take(m));
            }
            return Err(de.span_error(e));
        },
    };
    let ghost mid = de.parser();
    let ghost m = value_scan(start.spec_rest(), options.recursion_limit, start.spec_exts()).consumed();
    let r = de.end();
    proof {
        let w = ws_scan(mid.spec_rest()).0;
        Bytes::lemma_advance_trans(start, mid, de.parser(), m, w);
        assert(s@.take(n + m + w) =~= s@.take(n) + start.spec_rest().take(m + w));
        lemma_pos_after_concat(Position { line: 1, col: 1 }, s@.take(n), start.spec_rest().take(m + w));
        assert(mid.spec_rest() =~= start.spec_rest().skip(m));
    }
    match r {
        Ok(()) => Ok(v),
        Err(e) => Err(de.span_error(e)),
    }
}

/// Reads the document `s` into a [`Value`] by the default options.
pub fn from_str(s: &str) -> (r: Result<Value, SpannedError>)
    requires
        s.spec_bytes().len() + 2 <= usize::MAX,
    ensures
        document_realizes(
            document_scan(s.spec_bytes(), Some(crate::options::DEFAULT_RECURSION_LIMIT), 0),
            s.spec_bytes(),
            r,
        ),
{
    from_bytes_with_options(s.as_bytes(), Options::build())
}

/// Reads the document `s` into a [`Value`] by the default options.
pub fn from_bytes(s: &[u8]) -> (r: Result<Value, SpannedError>)
    requires
        s@.len() + 2 <= usize::MAX,
    ensures
        document_realizes(document_scan(s@, Some(crate::options::DEFAULT_RECURSION_LIMIT), 0), s@, r),
{
    from_bytes_with_options(s, Options::build())
}

// ---------------------------------------------------------------------------
// Reading typed values one step at a time
// ---------------------------------------------------------------------------

/// Reading the byte `c`, or failing with `missing` without reading.
pub open spec fn byte_scan(s: Seq<u8>, c: u8, missing: Error) -> Outcome<()> {
    if s.len() > 0 && s[0] == c {
        Outcome::Done { n: 1, value: () }
    } else {
        Outcome::Fail { n: 0, err: ErrSpec::Plain(missing) }
    }
}

/// Reading whitespace and comments.
pub open spec fn ws_outcome(s: Seq<u8>) -> Outcome<()> {
    match ws_scan(s).1 {
        Some(e) => Outcome::Fail { n: ws_scan(s).0, err: ErrSpec::Plain(e) },
        None => Outcome::Done { n: ws_scan(s).0, value: () },
    }
}

/// Reading whitespace and then the byte `c`, which must be there.
pub open spec fn ws_byte_scan(s: Seq<u8>, c: u8, missing: Error) -> Outcome<()> {
    close_scan(s, Outcome::Done { n: 0, value: () }, c, missing)
}

/// Reading a comma if there is one, with the whitespace around it, and then
/// the byte `c`, which must be there.
pub open spec fn comma_byte_scan(s: Seq<u8>, c: u8, missing: Error) -> Outcome<()> {
    match comma_scan(s) {
        Outcome::Fail { n, err } => Outcome::Fail { n, err },
        Outcome::Done { n, .. } => byte_scan(s.skip(n), c, missing).shift(n),
    }
}

/// Before an element of a sequence or an entry of a map, closed by `term`:
/// whitespace, and then whether an element follows. After an element that
/// no comma followed, only the closing byte may come.
pub open spec fn element_scan(s: Seq<u8>, term: u8, had_comma: bool) -> Outcome<bool> {
    let w = ws_scan(s);
    let t = s.skip(w.0);
    if w.1 is Some {
        Outcome::Fail { n: w.0, err: ErrSpec::Plain(w.1.unwrap()) }
    } else if t.len() == 0 {
        Outcome::Fail { n: w.0, err: ErrSpec::Plain(Error::Eof) }
    } else if had_comma {
        Outcome::Done { n: w.0, value: t[0] != term }
    } else if t[0] == term {
        Outcome::Done { n: w.0, value: false }
    } else {
        Outcome::Fail { n: w.0, err: ErrSpec::Plain(Error::ExpectedComma) }
    }
}

/// Between a key and its value: whitespace, `:`, whitespace.
pub open spec fn colon_scan(s: Seq<u8>) -> Outcome<()> {
    match ws_byte_scan(s, 58, Error::ExpectedMapColon) {
        Outcome::Fail { n, err } => Outcome::Fail { n, err },
        Outcome::Done { n, .. } => ws_outcome(s.skip(n)).shift(n),
    }
}

/// The error for a struct-like value whose `(` is missing.
pub open spec fn missing_paren(name: &'static str) -> Error {
    if name@.len() == 0 {
        Error::ExpectedStructLike
    } else {
        Error::ExpectedNamedStructLike(name)
    }
}

/// Opening a struct named `name`: its name if it is there (unless inside
/// an unwrapped newtype variant, `nv`), whitespace, and `(` (which an
/// unwrapped newtype variant has none of). The value tells whether the
/// struct was unwrapped.
pub open spec fn struct_open_scan(s: Seq<u8>, name: &'static str, nv: bool) -> Outcome<bool> {
    let a: Outcome<bool> = if nv {
        Outcome::Done { n: 0, value: false }
    } else {
        struct_name_scan(s, name)
    };
    match a {
        Outcome::Fail { n, err } => Outcome::Fail { n, err },
        Outcome::Done { n: n1, .. } => {
            let w = ws_scan(s.skip(n1));
            let t = s.skip(n1).skip(w.0);
            if w.1 is Some {
                Outcome::Fail { n: n1 + w.0, err: ErrSpec::Plain(w.1.unwrap()) }
            } else if nv {
                Outcome::Done { n: n1 + w.0, value: true }
            } else if t.len() > 0 && t[0] == 40 {
                Outcome::Done { n: n1 + w.0 + 1, value: false }
            } else {
                Outcome::Fail { n: n1 + w.0, err: ErrSpec::Plain(missing_paren(name)) }
            }
        },
    }
}

/// Opening a tuple: `(`, which an unwrapped newtype variant (`nv`) has
/// none of. The value tells whether the tuple was unwrapped.
pub open spec fn tuple_open_scan(s: Seq<u8>, nv: bool) -> Outcome<bool> {
    if nv {
        Outcome::Done { n: 0, value: true }
    } else {
        match byte_scan(s, 40, Error::ExpectedStructLike) {
            Outcome::Fail { n, err } => Outcome::Fail { n, err },
            Outcome::Done { n, .. } => Outcome::Done { n, value: false },
        }
    }
}

/// Closing a struct or tuple: whitespace, then `)` unless it was unwrapped.
pub open spec fn struct_close_scan(s: Seq<u8>, unwrapped: bool) -> Outcome<()> {
    if unwrapped {
        ws_outcome(s)
    } else {
        ws_byte_scan(s, 41, Error::ExpectedStructLikeEnd)
    }
}

/// How an option starts.
#[derive(Clone, Copy, Debug, PartialEq, Eq, Structural)]
pub enum OptionStart {
    /// `None`.
    Absent,
    /// `Some(`: the value follows, and then `)`.
    Present,
    /// No `Some(` but the `implicit_some` extension is on: the value follows
    /// as it is.
    Implicit,
}

/// Opening an option: `None`; or `Some`, whitespace, `(` and whitespace;
/// or, under `implicit_some`, nothing.
pub open spec fn option_open_scan(s: Seq<u8>, exts: Extensions) -> Outcome<OptionStart> {
    if starts_with(s, lit("None")) {
        Outcome::Done { n: lit("None").len() as int, value: OptionStart::Absent }
    } else {
        let k: int = if starts_with(s, lit("Some")) { lit("Some").len() as int } else { 0 };
        let w = ws_scan(s.skip(k));
        let t = s.skip(k + w.0);
        if k > 0 && w.1 is Some {
            Outcome::Fail { n: k + w.0, err: ErrSpec::Plain(w.1.unwrap()) }
        } else if k > 0 && t.len() > 0 && t[0] == 40 {
            match ws_outcome(t.skip(1)) {
                Outcome::Fail { n, err } => Outcome::Fail { n: k + w.0 + 1 + n, err },
                Outcome::Done { n, .. } => Outcome::Done {
                    n: k + w.0 + 1 + n,
                    value: OptionStart::Present,
                },
            }
        } else {
            let m: int = if k > 0 { k + w.0 } else { 0 };
            if exts.spec_contains(Extensions { bits: crate::extensions::IMPLICIT_SOME_BIT }) {
                Outcome::Done { n: m, value: OptionStart::Implicit }
            } else {
                Outcome::Fail { n: m, err: ErrSpec::Plain(Error::ExpectedOption) }
            }
        }
    }
}

/// Whether `o` names what `name` names, or nothing where `name` is `None`.
pub open spec fn names(o: Option<String>, name: Option<&str>) -> bool {
    match name {
        Some(n) => o matches Some(x) && x@ == n@,
        None => o is None,
    }
}

/// Whether `r` is the error `error` of a struct's contents with the
/// struct's `name` put in where the error names a field but not the
/// struct; every other error stays as it is.
pub open spec fn struct_error_named(error: Error, name: Option<&str>, r: Error) -> bool {
    match error {
        Error::NoSuchStructField { expected, found, outer: None } => r matches Error::NoSuchStructField {
            expected: e2,
            found: f2,
            outer: o2,
        } && e2 == expected && f2 == found && names(o2, name),
        Error::MissingStructField { field, outer: None } => r matches Error::MissingStructField {
            field: f2,
            outer: o2,
        } && f2 == field && names(o2, name),
        Error::DuplicateStructField { field, outer: None } => r matches Error::DuplicateStructField {
            field: f2,
            outer: o2,
        } && f2 == field && names(o2, name),
        _ => r == error,
    }
}

/// Whether `r` is the error `error` of an enum with the enum's `name` put
/// in where the error names a variant but not the enum (and the name is
/// not empty); every other error stays as it is.
pub open spec fn enum_error_named(error: Error, name: &str, r: Error) -> bool {
    match error {
        Error::NoSuchEnumVariant { expected, found, outer: None } => if name@.len() > 0 {
            r matches Error::NoSuchEnumVariant { expected: e2, found: f2, outer: o2 } && e2
                == expected && f2 == found && names(o2, Some(name))
        } else {
            r == error
        },
        _ => r == error,
    }
}

fn owned_name(name: Option<&str>) -> (o: Option<String>)
    ensures
        names(o, name),
{
    match name {
        Some(n) => Some(n.to_string()),
        None => None,
    }
}

/// Puts the struct's `name` into an error of its contents that names a
/// field but not the struct.
pub fn struct_error_name(error: Error, name: Option<&str>) -> (r: Error)
    ensures
        struct_error_named(error, name, r),
{
    match error {
        Error::NoSuchStructField { expected, found, outer: None } => Error::NoSuchStructField {
            expected,
            found,
            outer: owned_name(name),
        },
        Error::MissingStructField { field, outer: None } => Error::MissingStructField {
            field,
            outer: owned_name(name),
        },
        Error::DuplicateStructField { field, outer: None } => Error::DuplicateStructField {
            field,
            outer: owned_name(name),
        },
        e => e,
    }
}

/// Puts the enum's `name`, when it has one, into an error that names a
/// variant but not the enum.
pub fn enum_error_name(error: Error, name: &str) -> (r: Error)
    ensures
        enum_error_named(error, name, r),
{
    match error {
        Error::NoSuchEnumVariant { expected, found, outer: None } => {
            if name.unicode_len() > 0 {
                Error::NoSuchEnumVariant { expected, found, outer: Some(name.to_string()) }
            } else {
                Error::NoSuchEnumVariant { expected, found, outer: None }
            }
        },
        e => e,
    }
}

impl<'de> Deserializer<'de> {
    /// Whether the next value is the content of a newtype variant that the
    /// `unwrap_variant_newtypes` extension lets stand without its
    /// parentheses.
    pub closed spec fn in_newtype_variant(&self) -> bool {
        self.newtype_variant
    }

    /// The identifier read last, if any.
    pub closed spec fn last_ident(&self) -> Option<&'de str> {
        self.last_identifier
    }

    /// Goes one level deeper: fails with `ExceededRecursionLimit` where the
    /// limit is used up.
    pub fn guard_enter(&mut self) -> (r: Result<(), Error>)
        requires
            old(self).wf(),
        ensures
            final(self).wf(),
            final(self).parser() == old(self).parser(),
            final(self).in_newtype_variant() == old(self).in_newtype_variant(),
            match deeper(old(self).limit()) {
                Some(l) => r is Ok && final(self).limit() == l,
                None => r == Err::<(), Error>(Error::ExceededRecursionLimit) && final(self).limit()
                    == old(self).limit(),
            },
    {
        match self.recursion_limit {
            Some(limit) => {
                if limit == 0 {
                    return Err(Error::ExceededRecursionLimit);
                }
                self.recursion_limit = Some(limit - 1);
                Ok(())
            },
            None => Ok(()),
        }
    }

    /// Comes back up a level.
    pub fn guard_leave(&mut self)
        requires
            old(self).wf(),
        ensures
            final(self).wf(),
            final(self).parser() == old(self).parser(),
            final(self).in_newtype_variant() == old(self).in_newtype_variant(),
            final(self).limit() == match old(self).limit() {
                Some(l) => Some(if l == usize::MAX { l } else { (l + 1) as usize }),
                None => None,
            },
    {
        if let Some(limit) = self.recursion_limit {
            self.recursion_limit = Some(limit.saturating_add(1));
        }
    }

    /// Opens a sequence: `[`.
    pub fn seq_open(&mut self) -> (r: Result<(), Error>)
        requires
            old(self).wf(),
        ensures
            final(self).wf(),
            final(self).limit() == old(self).limit(),
            !final(self).in_newtype_variant(),
            realizes(
                byte_scan(old(self).parser().spec_rest(), 91, Error::ExpectedArray),
                r,
                |u: ()| u,
                final(self).parser(),
                old(self).parser(),
            ),
    {
        self.newtype_variant = false;
        self.open_byte(91u8, Error::ExpectedArray)
    }

    fn open_byte(&mut self, c: u8, missing: Error) -> (r: Result<(), Error>)
        requires
            old(self).wf(),
        ensures
            final(self).wf(),
            final(self).limit() == old(self).limit(),
            final(self).in_newtype_variant() == old(self).in_newtype_variant(),
            realizes(byte_scan(old(self).parser().spec_rest(), c, missing), r, |u: ()| u, final(self).parser(), old(self).parser()),
    {
        proof {
            Bytes::lemma_advance_zero(self.bytes);
        }
        if self.bytes.eat_if(c) {
            Ok(())
        } else {
            Err(missing)
        }
    }

    fn close_byte(&mut self, c: u8, missing: Error) -> (r: Result<(), Error>)
        requires
            old(self).wf(),
        ensures
            final(self).wf(),
            final(self).limit() == old(self).limit(),
            final(self).in_newtype_variant() == old(self).in_newtype_variant(),
            realizes(ws_byte_scan(old(self).parser().spec_rest(), c, missing), r, |u: ()| u, final(self).parser(), old(self).parser()),
    {
        let ghost start = self.bytes;
        proof {
            assert(start.spec_rest().skip(0) =~= start.spec_rest());
        }
        self.bytes.skip_ws()?;
        let ghost mid = self.bytes;
        let found = self.bytes.eat_if(c);
        proof {
            lemma_ws_scan_len(start.spec_rest());
            if found {
                Bytes::lemma_advance_trans(start, mid, self.bytes, ws_scan(start.spec_rest()).0, 1);
            }
        }
        if found {
            Ok(())
        } else {
            Err(missing)
        }
    }

    /// Closes a sequence: whitespace, then `]`.
    pub fn seq_close(&mut self) -> (r: Result<(), Error>)
        requires
            old(self).wf(),
        ensures
            final(self).wf(),
            final(self).limit() == old(self).limit(),
            final(self).in_newtype_variant() == old(self).in_newtype_variant(),
            realizes(
                ws_byte_scan(old(self).parser().spec_rest(), 93, Error::ExpectedArrayEnd),
                r,
                |u: ()| u,
                final(self).parser(),
                old(self).parser(),
            ),
    {
        self.close_byte(93u8, Error::ExpectedArrayEnd)
    }

    /// Opens a map: `{`.
    pub fn map_open(&mut self) -> (r: Result<(), Error>)
        requires
            old(self).wf(),
        ensures
            final(self).wf(),
            final(self).limit() == old(self).limit(),
            !final(self).in_newtype_variant(),
            realizes(
                byte_scan(old(self).parser().spec_rest(), 123, Error::ExpectedMap),
                r,
                |u: ()| u,
                final(self).parser(),
                old(self).parser(),
            ),
    {
        self.newtype_variant = false;
        self.open_byte(123u8, Error::ExpectedMap)
    }

    /// Closes a map: whitespace, then `}`.
    pub fn map_close(&mut self) -> (r: Result<(), Error>)
        requires
            old(self).wf(),
        ensures
            final(self).wf(),
            final(self).limit() == old(self).limit(),
            final(self).in_newtype_variant() == old(self).in_newtype_variant(),
            realizes(
                ws_byte_scan(old(self).parser().spec_rest(), 125, Error::ExpectedMapEnd),
                r,
                |u: ()| u,
                final(self).parser(),
                old(self).parser(),
            ),
    {
        self.close_byte(125u8, Error::ExpectedMapEnd)
    }

    /// Reads a comma if there is one, with the whitespace around it; tells
    /// whether there was one.
    pub fn comma(&mut self) -> (r: Result<bool, Error>)
        requires
            old(self).wf(),
        ensures
            final(self).wf(),
            final(self).limit() == old(self).limit(),
            final(self).in_newtype_variant() == old(self).in_newtype_variant(),
            realizes(comma_scan(old(self).parser().spec_rest()), r, |b: bool| b, final(self).parser(), old(self).parser()),
    {
        self.bytes.comma()
    }

    /// Reads whitespace and comments.
    pub fn skip_ws(&mut self) -> (r: Result<(), Error>)
        requires
            old(self).wf(),
        ensures
            final(self).wf(),
            final(self).limit() == old(self).limit(),
            final(self).in_newtype_variant() == old(self).in_newtype_variant(),
            realizes(ws_outcome(old(self).parser().spec_rest()), r, |u: ()| u, final(self).parser(), old(self).parser()),
    {
        self.bytes.skip_ws()
    }

    /// Before an element or entry of a container closed by `terminator`:
    /// whether one follows; after an element with no comma, only the
    /// closing byte may come.
    pub fn has_element(&mut self, terminator: u8, had_comma: bool) -> (r: Result<bool, Error>)
        requires
            old(self).wf(),
        ensures
            final(self).wf(),
            final(self).limit() == old(self).limit(),
            final(self).in_newtype_variant() == old(self).in_newtype_variant(),
            realizes(
                element_scan(old(self).parser().spec_rest(), terminator, had_comma),
                r,
                |b: bool| b,
                final(self).parser(),
                old(self).parser(),
            ),
    {
        self.bytes.skip_ws()?;
        let next = self.bytes.peek_or_eof()?;
        let more = next != terminator;
        if had_comma {
            Ok(more)
        } else if !more {
            Ok(false)
        } else {
            Err(Error::ExpectedComma)
        }
    }

    /// Between a key and its value: whitespace, `:`, whitespace.
    pub fn map_value_open(&mut self) -> (r: Result<(), Error>)
        requires
            old(self).wf(),
        ensures
            final(self).wf(),
            final(self).limit() == old(self).limit(),
            final(self).in_newtype_variant() == old(self).in_newtype_variant(),
            realizes(colon_scan(old(self).parser().spec_rest()), r, |u: ()| u, final(self).parser(), old(self).parser()),
    {
        let ghost start = self.bytes;
        self.close_byte(58u8, Error::ExpectedMapColon)?;
        let ghost mid = self.bytes;
        let r = self.bytes.skip_ws();
        proof {
            let n = ws_byte_scan(start.spec_rest(), 58, Error::ExpectedMapColon).consumed();
            lemma_ws_scan_len(mid.spec_rest());
            Bytes::lemma_advance_trans(start, mid, self.bytes, n, ws_scan(mid.spec_rest()).0);
            assert(mid.spec_rest() == start.spec_rest().skip(n));
        }
        r
    }
}

impl<'de> Deserializer<'de> {
    /// Opens a tuple: `(`, unless it is an unwrapped newtype variant's
    /// content; tells whether it was unwrapped.
    pub fn tuple_open(&mut self) -> (r: Result<bool, Error>)
        requires
            old(self).wf(),
        ensures
            final(self).wf(),
            final(self).limit() == old(self).limit(),
            r is Ok ==> !final(self).in_newtype_variant(),
            r is Err ==> final(self).in_newtype_variant() == old(self).in_newtype_variant(),
            realizes(
                tuple_open_scan(old(self).parser().spec_rest(), old(self).in_newtype_variant()),
                r,
                |b: bool| b,
                final(self).parser(),
                old(self).parser(),
            ),
    {
        proof {
            Bytes::lemma_advance_zero(self.bytes);
        }
        if self.newtype_variant {
            self.newtype_variant = false;
            return Ok(true);
        }
        if self.bytes.eat_if(40u8) {
            Ok(false)
        } else {
            Err(Error::ExpectedStructLike)
        }
    }

    /// Closes a struct or tuple: whitespace, then `)` unless it was
    /// unwrapped.
    pub fn struct_close(&mut self, unwrapped: bool) -> (r: Result<(), Error>)
        requires
            old(self).wf(),
        ensures
            final(self).wf(),
            final(self).limit() == old(self).limit(),
            final(self).in_newtype_variant() == old(self).in_newtype_variant(),
            realizes(
                struct_close_scan(old(self).parser().spec_rest(), unwrapped),
                r,
                |u: ()| u,
                final(self).parser(),
                old(self).parser(),
            ),
    {
        if unwrapped {
            self.bytes.skip_ws()
        } else {
            self.close_byte(41u8, Error::ExpectedStructLikeEnd)
        }
    }

    /// Opens a struct named `name`: its name if it is there (unless an
    /// unwrapped newtype variant's content), whitespace, and `(`; tells
    /// whether it was unwrapped.
    pub fn struct_open(&mut self, name: &'static str) -> (r: Result<bool, Error>)
        requires
            old(self).wf(),
        ensures
            final(self).wf(),
            final(self).limit() == old(self).limit(),
            r is Ok ==> !final(self).in_newtype_variant(),
            r is Err ==> final(self).in_newtype_variant() == old(self).in_newtype_variant(),
            realizes(
                struct_open_scan(old(self).parser().spec_rest(), name, old(self).in_newtype_variant()),
                r,
                |b: bool| b,
                final(self).parser(),
                old(self).parser(),
            ),
    {
        let ghost start = self.bytes;
        let ghost s = start.spec_rest();
        proof {
            Bytes::lemma_advance_zero(start);
            assert(s.skip(0) =~= s);
        }
        if !self.newtype_variant {
            self.bytes.consume_struct_name(name)?;
        }
        let ghost n1: int = if self.newtype_variant { 0 } else { struct_name_scan(s, name).consumed() };
        let ghost mid = self.bytes;
        proof {
            assert(mid.is_advance_of(start, n1));
            lemma_ws_scan_len(mid.spec_rest());
        }
        let w = self.bytes.skip_ws();
        proof {
            Bytes::lemma_advance_trans(start, mid, self.bytes, n1, ws_scan(mid.spec_rest()).0);
            assert(mid.spec_rest() == s.skip(n1));
        }
        w?;
        let ghost after = self.bytes;
        if self.newtype_variant {
            self.newtype_variant = false;
            return Ok(true);
        }
        if self.bytes.eat_if(40u8) {
            proof {
                Bytes::lemma_advance_trans(start, after, self.bytes, n1 + ws_scan(mid.spec_rest()).0, 1);
                assert(after.spec_rest() == s.skip(n1).skip(ws_scan(s.skip(n1)).0));
            }
            Ok(false)
        } else {
            proof {
                assert(after.spec_rest() == s.skip(n1).skip(ws_scan(s.skip(n1)).0));
            }
            if name.unicode_len() == 0 {
                Err(Error::ExpectedStructLike)
            } else {
                Err(Error::ExpectedNamedStructLike(name))
            }
        }
    }

    /// Opens a tuple struct named `name`: its name if it is there (unless an
    /// unwrapped newtype variant's content) and the tuple's `(`; a missing
    /// `(` names the struct. Tells whether it was unwrapped.
    pub fn tuple_struct_open(&mut self, name: &'static str) -> (r: Result<bool, Error>)
        requires
            old(self).wf(),
        ensures
            final(self).wf(),
            final(self).limit() == old(self).limit(),
            r is Ok ==> !final(self).in_newtype_variant(),
            r is Err ==> final(self).in_newtype_variant() == old(self).in_newtype_variant(),
            ({
                let s = old(self).parser().spec_rest();
                let nv = old(self).in_newtype_variant();
                let a = if nv {
                    Outcome::Done { n: 0, value: false }
                } else {
                    struct_name_scan(s, name)
                };
                match a {
                    Outcome::Fail { n, err } => r matches Err(e) && err_matches(e, err)
                        && final(self).parser().is_advance_of(old(self).parser(), n),
                    Outcome::Done { n: n1, .. } => match tuple_open_scan(s.skip(n1), nv) {
                        Outcome::Done { n, value } => r == Ok::<bool, Error>(value)
                            && final(self).parser().is_advance_of(old(self).parser(), n1 + n),
                        Outcome::Fail { n, .. } => r == Err::<bool, Error>(missing_paren(name))
                            && final(self).parser().is_advance_of(old(self).parser(), n1 + n),
                    },
                }
            }),
    {
        let ghost start = self.bytes;
        let ghost s = start.spec_rest();
        proof {
            Bytes::lemma_advance_zero(start);
            assert(s.skip(0) =~= s);
        }
        if !self.newtype_variant {
            self.bytes.consume_struct_name(name)?;
        }
        let ghost n1: int = if self.newtype_variant { 0 } else { struct_name_scan(s, name).consumed() };
        let ghost mid = self.bytes;
        let r = self.tuple_open();
        proof {
            assert(mid.spec_rest() == s.skip(n1));
            Bytes::lemma_advance_trans(
                start,
                mid,
                self.bytes,
                n1,
                tuple_open_scan(mid.spec_rest(), old(self).in_newtype_variant()).consumed(),
            );
        }
        match r {
            Ok(b) => Ok(b),
            Err(_) => {
                if name.unicode_len() == 0 {
                    Err(Error::ExpectedStructLike)
                } else {
                    Err(Error::ExpectedNamedStructLike(name))
                }
            },
        }
    }

    /// Reads a unit `()`, or nothing as an unwrapped newtype variant's
    /// content.
    pub fn deserialize_unit(&mut self) -> (r: Result<(), Error>)
        requires
            old(self).wf(),
        ensures
            final(self).wf(),
            final(self).limit() == old(self).limit(),
            r is Ok ==> !final(self).in_newtype_variant(),
            r is Err ==> final(self).in_newtype_variant() == old(self).in_newtype_variant(),
            old(self).in_newtype_variant() ==> r is Ok && final(self).parser() == old(self).parser(),
            !old(self).in_newtype_variant() ==> if starts_with(old(self).parser().spec_rest(), lit("()")) {
                r is Ok && final(self).parser().is_advance_of(old(self).parser(), lit("()").len() as int)
            } else {
                r == Err::<(), Error>(Error::ExpectedUnit) && final(self).parser() == old(self).parser()
            },
    {
        if self.newtype_variant || self.bytes.consume("()") {
            self.newtype_variant = false;
            Ok(())
        } else {
            Err(Error::ExpectedUnit)
        }
    }

    /// Reads a unit struct named `name`: its name, or else a unit `()`; or
    /// nothing as an unwrapped newtype variant's content.
    pub fn deserialize_unit_struct(&mut self, name: &'static str) -> (r: Result<(), Error>)
        requires
            old(self).wf(),
        ensures
            final(self).wf(),
            final(self).limit() == old(self).limit(),
            r is Ok ==> !final(self).in_newtype_variant(),
            old(self).in_newtype_variant() ==> r is Ok && final(self).parser() == old(self).parser(),
            !old(self).in_newtype_variant() ==> match struct_name_scan(
                old(self).parser().spec_rest(),
                name,
            ) {
                Outcome::Fail { n, err } => r matches Err(e) && err_matches(e, err)
                    && final(self).parser().is_advance_of(old(self).parser(), n),
                Outcome::Done { n, value: true } => r is Ok && final(self).parser().is_advance_of(
                    old(self).parser(),
                    n,
                ),
                Outcome::Done { n, value: false } => if starts_with(
                    old(self).parser().spec_rest().skip(n),
                    lit("()"),
                ) {
                    r is Ok && final(self).parser().is_advance_of(
                        old(self).parser(),
                        n + lit("()").len(),
                    )
                } else {
                    r == Err::<(), Error>(Error::ExpectedUnit) && final(self).parser().is_advance_of(
                        old(self).parser(),
                        n,
                    )
                },
            },
    {
        if self.newtype_variant {
            self.newtype_variant = false;
            return Ok(());
        }
        let ghost start = self.bytes;
        if self.bytes.consume_struct_name(name)? {
            return Ok(());
        }
        let ghost mid = self.bytes;
        let r = self.deserialize_unit();
        proof {
            let n = struct_name_scan(start.spec_rest(), name).consumed();
            if r is Ok {
                Bytes::lemma_advance_trans(start, mid, self.bytes, n, lit("()").len() as int);
            }
        }
        r
    }
}

impl<'de> Deserializer<'de> {
    /// Opens an option: `None`; `Some(`; or, under `implicit_some`,
    /// nothing; see [`option_open_scan`].
    pub fn option_open(&mut self) -> (r: Result<OptionStart, Error>)
        requires
            old(self).wf(),
        ensures
            final(self).wf(),
            final(self).limit() == old(self).limit(),
            final(self).in_newtype_variant() == old(self).in_newtype_variant(),
            realizes(
                option_open_scan(old(self).parser().spec_rest(), old(self).parser().spec_exts()),
                r,
                |o: OptionStart| o,
                final(self).parser(),
                old(self).parser(),
            ),
    {
        let ghost start = self.bytes;
        let ghost s = start.spec_rest();
        proof {
            Bytes::lemma_advance_zero(start);
            reveal_strlit("Some");
            lemma_lit_ascii("Some");
        }
        if self.bytes.consume("None") {
            return Ok(OptionStart::Absent);
        }
        let some = self.bytes.consume("Some");
        let ghost k: int = if some { lit("Some").len() as int } else { 0 };
        let ghost mid = self.bytes;
        if some {
            proof {
                lemma_ws_scan_len(mid.spec_rest());
                assert(mid.spec_rest() == s.skip(k));
            }
            let w = self.bytes.skip_ws();
            proof {
                Bytes::lemma_advance_trans(start, mid, self.bytes, k, ws_scan(s.skip(k)).0);
            }
            w?;
            let ghost after = self.bytes;
            proof {
                assert(after.spec_rest() == s.skip(k + ws_scan(s.skip(k)).0));
            }
            if self.bytes.eat_if(40u8) {
                let ghost paren = self.bytes;
                proof {
                    Bytes::lemma_advance_trans(start, after, paren, k + ws_scan(s.skip(k)).0, 1);
                    lemma_ws_scan_len(paren.spec_rest());
                    assert(paren.spec_rest() == s.skip(k + ws_scan(s.skip(k)).0).skip(1));
                }
                let w2 = self.bytes.skip_ws();
                proof {
                    Bytes::lemma_advance_trans(
                        start,
                        paren,
                        self.bytes,
                        k + ws_scan(s.skip(k)).0 + 1,
                        ws_scan(paren.spec_rest()).0,
                    );
                }
                w2?;
                return Ok(OptionStart::Present);
            }
        }
        if self.bytes.exts().contains(crate::extensions::Extensions::implicit_some()) {
            Ok(OptionStart::Implicit)
        } else {
            Err(Error::ExpectedOption)
        }
    }

    /// Closes `Some(..)`: a comma if there is one, with the whitespace
    /// around it, then `)`.
    pub fn option_close(&mut self) -> (r: Result<(), Error>)
        requires
            old(self).wf(),
        ensures
            final(self).wf(),
            final(self).limit() == old(self).limit(),
            final(self).in_newtype_variant() == old(self).in_newtype_variant(),
            realizes(
                comma_byte_scan(old(self).parser().spec_rest(), 41, Error::ExpectedOptionEnd),
                r,
                |u: ()| u,
                final(self).parser(),
                old(self).parser(),
            ),
    {
        self.comma_close(Error::ExpectedOptionEnd)
    }

    fn comma_close(&mut self, missing: Error) -> (r: Result<(), Error>)
        requires
            old(self).wf(),
        ensures
            final(self).wf(),
            final(self).limit() == old(self).limit(),
            final(self).in_newtype_variant() == old(self).in_newtype_variant(),
            realizes(
                comma_byte_scan(old(self).parser().spec_rest(), 41, missing),
                r,
                |u: ()| u,
                final(self).parser(),
                old(self).parser(),
            ),
    {
        let ghost start = self.bytes;
        self.bytes.comma()?;
        let ghost mid = self.bytes;
        proof {
            lemma_comma_scan_len(start.spec_rest());
            Bytes::lemma_advance_zero(mid);
        }
        let found = self.bytes.eat_if(41u8);
        proof {
            let n = comma_scan(start.spec_rest()).consumed();
            assert(mid.spec_rest() == start.spec_rest().skip(n));
            if found {
                Bytes::lemma_advance_trans(start, mid, self.bytes, n, 1);
            }
        }
        if found {
            Ok(())
        } else {
            Err(missing)
        }
    }

    /// Opens a newtype struct named `name`. Under `unwrap_newtypes`, or as
    /// an unwrapped newtype variant's content, nothing is read and the
    /// answer is `false`. Otherwise its name if it is there, whitespace,
    /// `(` and whitespace, and the answer is `true`: it is to be closed.
    pub fn newtype_struct_open(&mut self, name: &'static str) -> (r: Result<bool, Error>)
        requires
            old(self).wf(),
        ensures
            final(self).wf(),
            final(self).limit() == old(self).limit(),
            r is Ok ==> !final(self).in_newtype_variant() || r == Ok::<bool, Error>(true),
            ({
                let s = old(self).parser().spec_rest();
                if old(self).parser().spec_exts().spec_contains(
                    Extensions { bits: crate::extensions::UNWRAP_NEWTYPES_BIT },
                ) || old(self).in_newtype_variant() {
                    r == Ok::<bool, Error>(false) && final(self).parser() == old(self).parser()
                        && !final(self).in_newtype_variant()
                } else {
                    match struct_open_scan(s, name, false) {
                        Outcome::Fail { n, err } => r matches Err(e) && err_matches(e, err)
                            && final(self).parser().is_advance_of(old(self).parser(), n),
                        Outcome::Done { n, .. } => match ws_outcome(s.skip(n)) {
                            Outcome::Fail { n: m, err } => r matches Err(e) && err_matches(e, err)
                                && final(self).parser().is_advance_of(old(self).parser(), n + m),
                            Outcome::Done { n: m, .. } => r == Ok::<bool, Error>(true)
                                && final(self).parser().is_advance_of(old(self).parser(), n + m),
                        },
                    }
                }
            }),
    {
        if self.bytes.exts().contains(crate::extensions::Extensions::unwrap_newtypes())
            || self.newtype_variant {
            self.newtype_variant = false;
            return Ok(false);
        }
        let ghost start = self.bytes;
        self.struct_open(name)?;
        let ghost mid = self.bytes;
        proof {
            lemma_ws_scan_len(mid.spec_rest());
        }
        let w = self.bytes.skip_ws();
        proof {
            let n = struct_open_scan(start.spec_rest(), name, false).consumed();
            assert(mid.spec_rest() == start.spec_rest().skip(n));
            Bytes::lemma_advance_trans(start, mid, self.bytes, n, ws_scan(mid.spec_rest()).0);
        }
        w?;
        Ok(true)
    }

    /// Closes a newtype struct or a newtype variant: a comma if there is
    /// one, with the whitespace around it, then `)`.
    pub fn newtype_close(&mut self) -> (r: Result<(), Error>)
        requires
            old(self).wf(),
        ensures
            final(self).wf(),
            final(self).limit() == old(self).limit(),
            !final(self).in_newtype_variant(),
            realizes(
                comma_byte_scan(old(self).parser().spec_rest(), 41, Error::ExpectedStructLikeEnd),
                r,
                |u: ()| u,
                final(self).parser(),
                old(self).parser(),
            ),
    {
        self.newtype_variant = false;
        self.comma_close(Error::ExpectedStructLikeEnd)
    }

    /// Opens a newtype variant: whitespace, `(`, whitespace; under
    /// `unwrap_variant_newtypes` its content may then stand without its own
    /// parentheses.
    pub fn newtype_variant_open(&mut self) -> (r: Result<(), Error>)
        requires
            old(self).wf(),
        ensures
            final(self).wf(),
            final(self).limit() == old(self).limit(),
            r is Ok ==> final(self).in_newtype_variant() == old(self).parser().spec_exts().spec_contains(
                Extensions { bits: crate::extensions::UNWRAP_VARIANT_NEWTYPES_BIT },
            ),
            r is Err ==> final(self).in_newtype_variant() == old(self).in_newtype_variant(),
            ({
                let s = old(self).parser().spec_rest();
                match ws_byte_scan(s, 40, Error::ExpectedStructLike) {
                    Outcome::Fail { n, err } => r matches Err(e) && err_matches(e, err)
                        && final(self).parser().is_advance_of(old(self).parser(), n),
                    Outcome::Done { n, .. } => match ws_outcome(s.skip(n)) {
                        Outcome::Fail { n: m, err } => r matches Err(e) && err_matches(e, err)
                            && final(self).parser().is_advance_of(old(self).parser(), n + m),
                        Outcome::Done { n: m, .. } => r is Ok && final(self).parser().is_advance_of(
                            old(self).parser(),
                            n + m,
                        ),
                    },
                }
            }),
    {
        let ghost start = self.bytes;
        self.close_byte(40u8, Error::ExpectedStructLike)?;
        let ghost mid = self.bytes;
        proof {
            lemma_ws_scan_len(mid.spec_rest());
        }
        let w = self.bytes.skip_ws();
        proof {
            let n = ws_byte_scan(start.spec_rest(), 40, Error::ExpectedStructLike).consumed();
            assert(mid.spec_rest() == start.spec_rest().skip(n));
            Bytes::lemma_advance_trans(start, mid, self.bytes, n, ws_scan(mid.spec_rest()).0);
        }
        w?;
        self.newtype_variant = self.bytes.exts().contains(
            crate::extensions::Extensions::unwrap_variant_newtypes(),
        );
        Ok(())
    }

    /// Reads an identifier and remembers it as the last one read.
    pub fn deserialize_identifier(&mut self) -> (r: Result<&'de str, Error>)
        requires
            old(self).wf(),
        ensures
            final(self).wf(),
            final(self).limit() == old(self).limit(),
            final(self).in_newtype_variant() == old(self).in_newtype_variant(),
            match ident_scan(old(self).parser().spec_rest()) {
                Outcome::Done { n, value } => final(self).parser().is_advance_of(old(self).parser(), n)
                    && if valid_utf8(value) {
                    r matches Ok(x) && x@ == decode_utf8(value) && final(self).last_ident()
                        == Some(x)
                } else {
                    r matches Err(Error::Utf8Error(_))
                },
                Outcome::Fail { n, err } => r matches Err(e) && err_matches(e, err)
                    && final(self).parser().is_advance_of(old(self).parser(), n),
            },
    {
        let ident = self.bytes.identifier()?;
        match str_from_utf8(ident) {
            Ok(s) => {
                self.last_identifier = Some(s);
                Ok(s)
            },
            Err(e) => Err(Error::Utf8Error(e)),
        }
    }
}

impl<'de> Deserializer<'de> {
    /// Reads `true` or `false`.
    pub fn deserialize_bool(&mut self) -> (r: Result<bool, Error>)
        requires
            old(self).wf(),
        ensures
            final(self).wf(),
            final(self).limit() == old(self).limit(),
            final(self).in_newtype_variant() == old(self).in_newtype_variant(),
            realizes(bool_scan(old(self).parser().spec_rest()), r, |b: bool| b, final(self).parser(), old(self).parser()),
    {
        self.bytes.bool()
    }

    /// Reads a character literal.
    pub fn deserialize_char(&mut self) -> (r: Result<char, Error>)
        requires
            old(self).wf(),
        ensures
            final(self).wf(),
            final(self).limit() == old(self).limit(),
            final(self).in_newtype_variant() == old(self).in_newtype_variant(),
            realizes(char_scan(old(self).parser().spec_rest()), r, |c: char| c, final(self).parser(), old(self).parser()),
    {
        self.bytes.char()
    }

    /// Reads a string literal, quoted or raw.
    pub fn deserialize_str(&mut self) -> (r: Result<ParsedStr<'de>, Error>)
        requires
            old(self).wf(),
        ensures
            final(self).wf(),
            final(self).limit() == old(self).limit(),
            final(self).in_newtype_variant() == old(self).in_newtype_variant(),
            realizes(
                string_scan(old(self).parser().spec_rest()),
                r,
                |p: ParsedStr<'de>| parsed_str_view(p),
                final(self).parser(),
                old(self).parser(),
            ),
    {
        self.bytes.string()
    }

    /// Reads an integer into the type `desire`, unless its suffix names
    /// another.
    pub fn deserialize_integer(&mut self, desire: DesireInteger) -> (r: Result<ParsedInteger, Error>)
        requires
            old(self).wf(),
        ensures
            final(self).wf(),
            final(self).limit() == old(self).limit(),
            final(self).in_newtype_variant() == old(self).in_newtype_variant(),
            realizes(
                any_integer_scan(old(self).parser().spec_rest(), desire),
                r,
                |p: ParsedInteger| p,
                final(self).parser(),
                old(self).parser(),
            ),
    {
        self.bytes.any_integer(desire)
    }

    /// Reads a float literal: its text and its float type.
    pub fn deserialize_float(&mut self, desire: DesireFloat) -> (r: Result<FloatLiteral, Error>)
        requires
            old(self).wf(),
        ensures
            final(self).wf(),
            final(self).limit() == old(self).limit(),
            final(self).in_newtype_variant() == old(self).in_newtype_variant(),
            realizes(
                float_scan(old(self).parser().spec_rest(), desire),
                r,
                |x: FloatLiteral| float_literal_view(x),
                final(self).parser(),
                old(self).parser(),
            ),
    {
        self.bytes.any_float(desire)
    }
}

impl<'de> Deserializer<'de> {
    /// The identifier read last, if any.
    pub fn last_identifier(&self) -> (r: Option<&'de str>)
        ensures
            r == self.last_ident(),
    {
        self.last_identifier
    }

    /// Before an enum: its content is never an unwrapped newtype variant's.
    pub fn enum_open(&mut self)
        requires
            old(self).wf(),
        ensures
            final(self).wf(),
            final(self).limit() == old(self).limit(),
            final(self).parser() == old(self).parser(),
            !final(self).in_newtype_variant(),
    {
        self.newtype_variant = false;
    }

    /// Opens the body of a struct whose name has been read: `(`, unless it
    /// is an unwrapped newtype variant's content; tells whether it was
    /// unwrapped.
    pub fn struct_body_open(&mut self, name: &'static str) -> (r: Result<bool, Error>)
        requires
            old(self).wf(),
        ensures
            final(self).wf(),
            final(self).limit() == old(self).limit(),
            r is Ok ==> !final(self).in_newtype_variant(),
            r is Err ==> final(self).in_newtype_variant() == old(self).in_newtype_variant(),
            old(self).in_newtype_variant() ==> r == Ok::<bool, Error>(true) && final(self).parser()
                == old(self).parser(),
            !old(self).in_newtype_variant() ==> realizes(
                match byte_scan(old(self).parser().spec_rest(), 40, missing_paren(name)) {
                    Outcome::Done { n, .. } => Outcome::Done { n, value: false },
                    Outcome::Fail { n, err } => Outcome::Fail { n, err },
                },
                r,
                |b: bool| b,
                final(self).parser(),
                old(self).parser(),
            ),
    {
        proof {
            Bytes::lemma_advance_zero(self.bytes);
        }
        if self.newtype_variant {
            self.newtype_variant = false;
            return Ok(true);
        }
        if self.bytes.eat_if(40u8) {
            Ok(false)
        } else if name.unicode_len() == 0 {
            Err(Error::ExpectedStructLike)
        } else {
            Err(Error::ExpectedNamedStructLike(name))
        }
    }
}

/// A comma after the last element is allowed and changes nothing: where
/// the closing byte `term` comes next, no element follows, whether or not
/// the element before was followed by a comma.
pub proof fn lemma_trailing_comma_optional(term: u8, rest: Seq<u8>, had_comma: bool)
    requires
        !(term == 9 || term == 10 || term == 13 || term == 32 || term == 47),
    ensures
        element_scan(seq![term] + rest, term, had_comma) == (Outcome::Done { n: 0, value: false }),
{
    reveal(ws_scan);
    let s = seq![term] + rest;
    assert(span_len(s, CharClass::Whitespace) == 0);
    assert(s.skip(0) =~= s);
}

} // verus!
