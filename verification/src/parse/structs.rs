//! Telling structs apart by their shape, and reading their names.

use vstd::prelude::*;
use vstd::utf8::*;

use crate::error::Error;
use crate::parse::string::{lemma_string_scan_len, string_scan};
use crate::parse::{
    char_scan, ident_scan, lemma_char_scan_len, lemma_ident_scan_len, lemma_ws_scan_len, lit,
    realizes, spec_ident_follows, ws_scan, Bytes, ErrSpec, Outcome,
};
use crate::util::{str_eq, str_from_utf8};

verus! {

/// The shape of a struct as seen at its start.
#[derive(Clone, Copy, Debug, PartialEq, Eq, Structural)]
pub enum StructType {
    NewtypeOrTuple,
    Tuple,
    Named,
    Unit,
}

/// How a struct is expected to start.
#[derive(Clone, Copy, Debug, PartialEq, Eq, Structural)]
pub enum NewtypeMode {
    /// A struct without an opening parenthesis is a unit struct.
    NoParensMeanUnit,
    /// The opening parenthesis has been read already, inside a newtype.
    InsideNewtype,
}

/// How hard to look to tell tuple structs from newtypes.
#[derive(Clone, Copy, Debug, PartialEq, Eq, Structural)]
pub enum TupleMode {
    /// Look at one identifier only.
    ImpreciseTupleOrNewtype,
    /// Look over the whole first value, for a comma after it.
    DifferentiateNewtype,
}

/// Whether `b` opens a bracket.
pub open spec fn is_open_bracket(b: u8) -> bool {
    b == 40 || b == 91 || b == 123
}

/// Whether `b` closes a bracket.
pub open spec fn is_close_bracket(b: u8) -> bool {
    b == 41 || b == 93 || b == 125
}

/// Skipping over input inside `depth` open brackets, passing over whole
/// char and string literals, until the brackets close or a comma at the
/// outermost level: the value tells whether it was a comma.
pub open spec fn bracket_scan(s: Seq<u8>, depth: nat) -> Outcome<bool>
    decreases s.len(),
{
    let w = ws_scan(s);
    if w.1 is Some {
        Outcome::Fail { n: w.0, err: ErrSpec::Plain(w.1.unwrap()) }
    } else {
        let t = s.skip(w.0);
        let k1 = if char_scan(t) is Done {
            char_scan(t).consumed()
        } else {
            0
        };
        let t2 = t.skip(k1);
        let k2 = if string_scan(t2) is Done {
            string_scan(t2).consumed()
        } else {
            0
        };
        let t3 = t2.skip(k2);
        let m = w.0 + k1 + k2;
        if t3.len() == 0 {
            Outcome::Fail { n: m, err: ErrSpec::Plain(Error::Eof) }
        } else {
            proof {
                lemma_ws_scan_len(s);
                lemma_char_scan_len(t);
                lemma_string_scan_len(t2);
            }
            let c = t3[0];
            if is_open_bracket(c) {
                bracket_scan(t3.skip(1), depth + 1).shift(m + 1)
            } else if is_close_bracket(c) && depth <= 1 {
                Outcome::Done { n: m + 1, value: false }
            } else if is_close_bracket(c) {
                bracket_scan(t3.skip(1), (depth - 1) as nat).shift(m + 1)
            } else if c == 44 && depth == 1 {
                Outcome::Done { n: m + 1, value: true }
            } else {
                bracket_scan(t3.skip(1), depth).shift(m + 1)
            }
        }
    }
}

/// Working out the shape of a struct; see [`Bytes::check_struct_type`].
pub open spec fn struct_type_inner_scan(s: Seq<u8>, newtype: NewtypeMode, tuple: TupleMode) -> Outcome<
    StructType,
> {
    if newtype is NoParensMeanUnit && !(s.len() > 0 && s[0] == 40) {
        Outcome::Done { n: 0, value: StructType::Unit }
    } else {
        let p0: int = if newtype is NoParensMeanUnit {
            1
        } else {
            0
        };
        let w = ws_scan(s.skip(p0));
        if w.1 is Some {
            Outcome::Fail { n: p0 + w.0, err: ErrSpec::Plain(w.1.unwrap()) }
        } else {
            let p1 = p0 + w.0;
            let after_ident: Option<int> = match ident_scan(s.skip(p1)) {
                Outcome::Done { n, .. } => Some(n),
                Outcome::Fail { .. } => None,
            };
            match after_ident {
                Some(n) => {
                    let w2 = ws_scan(s.skip(p1 + n));
                    let p2 = p1 + n + w2.0;
                    if w2.1 is Some {
                        Outcome::Fail { n: p2, err: ErrSpec::Plain(w2.1.unwrap()) }
                    } else if s.len() > p2 && s[p2] == 58 {
                        Outcome::Done { n: p2, value: StructType::Named }
                    } else if s.len() > p2 && s[p2] == 44 {
                        Outcome::Done { n: p2, value: StructType::Tuple }
                    } else if s.len() > p2 && s[p2] == 41 {
                        Outcome::Done { n: p2, value: StructType::NewtypeOrTuple }
                    } else {
                        struct_type_rest_scan(s.skip(p2), tuple).shift(p2)
                    }
                },
                None => struct_type_rest_scan(s.skip(p1), tuple).shift(p1),
            }
        }
    }
}

/// Working out the shape of a struct once a first identifier did not
/// settle it.
pub open spec fn struct_type_rest_scan(s: Seq<u8>, tuple: TupleMode) -> Outcome<StructType> {
    if tuple is ImpreciseTupleOrNewtype {
        Outcome::Done { n: 0, value: StructType::NewtypeOrTuple }
    } else {
        match bracket_scan(s, 1) {
            Outcome::Done { n, value } => Outcome::Done {
                n,
                value: if value {
                    StructType::Tuple
                } else {
                    StructType::NewtypeOrTuple
                },
            },
            Outcome::Fail { n, err } => Outcome::Fail { n, err },
        }
    }
}

/// Working out the shape of a struct without reading anything: an error
/// is reported where it occurred.
#[verifier::opaque]
pub open spec fn struct_type_scan(s: Seq<u8>, newtype: NewtypeMode, tuple: TupleMode) -> Outcome<
    StructType,
> {
    match struct_type_inner_scan(s, newtype, tuple) {
        Outcome::Done { value, .. } => Outcome::Done { n: 0, value },
        Outcome::Fail { n, err } => Outcome::Fail { n, err },
    }
}

/// Working out the shape of a struct reads nothing when it succeeds, and
/// where no parenthesis opens a struct, it is a unit struct.
pub proof fn lemma_struct_type_unit(s: Seq<u8>, tuple: TupleMode)
    ensures
        struct_type_scan(s, NewtypeMode::NoParensMeanUnit, tuple) is Done ==> struct_type_scan(
            s,
            NewtypeMode::NoParensMeanUnit,
            tuple,
        ).consumed() == 0,
        struct_type_scan(s, NewtypeMode::NoParensMeanUnit, tuple) matches Outcome::Done { value, .. }
            && !(value is Unit) ==> s.len() > 0 && s[0] == 40,
{
    reveal(struct_type_scan);
}

/// Reading the name `ident` of a struct, if a name is there: nothing is
/// read when no identifier starts here, another name or no identifier at
/// all is refused.
pub open spec fn struct_name_scan(s: Seq<u8>, ident: &'static str) -> Outcome<bool> {
    if spec_ident_follows(s, lit("")) {
        Outcome::Done { n: 0, value: false }
    } else {
        match ident_scan(s) {
            Outcome::Done { n, value } => if !valid_utf8(value) {
                Outcome::Fail { n, err: ErrSpec::Utf8 }
            } else if decode_utf8(value) != ident@ {
                Outcome::Fail { n, err: ErrSpec::DifferentStructName(ident, decode_utf8(value)) }
            } else {
                Outcome::Done { n, value: true }
            },
            Outcome::Fail { n, err } => if err matches ErrSpec::SuggestRawIdentifier(c) && c
                == ident@ {
                Outcome::Fail { n, err }
            } else {
                Outcome::Fail { n, err: ErrSpec::Plain(Error::ExpectedNamedStructLike(ident)) }
            },
        }
    }
}

impl<'a> Bytes<'a> {
    /// Skips over input inside `depth` open brackets; see
    /// [`bracket_scan`].
    fn skip_brackets(&mut self, depth: usize) -> (r: Result<bool, Error>)
        requires
            old(self).wf(),
            depth >= 1,
            depth + old(self).spec_rest().len() < usize::MAX,
        ensures
            final(self).wf(),
            realizes(
                bracket_scan(old(self).spec_rest(), depth as nat),
                r,
                |b: bool| b,
                *final(self),
                *old(self),
            ),
        decreases old(self).spec_rest().len(),
    {
        let ghost start = *self;
        let ghost s = self.spec_rest();
        proof {
            lemma_ws_scan_len(s);
        }
        self.skip_ws()?;
        let ghost a = *self;
        let ghost w = ws_scan(s).0;
        proof {
            lemma_char_scan_len(a.spec_rest());
            Self::lemma_advance_zero(a);
        }
        let mut copy = *self;
        if copy.char().is_ok() {
            *self = copy;
        }
        let ghost b = *self;
        let ghost k1 = if char_scan(a.spec_rest()) is Done {
            char_scan(a.spec_rest()).consumed()
        } else {
            0
        };
        proof {
            Self::lemma_advance_trans(start, a, b, w, k1);
            lemma_string_scan_len(b.spec_rest());
            Self::lemma_advance_zero(b);
        }
        let mut copy2 = *self;
        if copy2.string().is_ok() {
            *self = copy2;
        }
        let ghost c = *self;
        let ghost k2 = if string_scan(b.spec_rest()) is Done {
            string_scan(b.spec_rest()).consumed()
        } else {
            0
        };
        proof {
            Self::lemma_advance_trans(start, b, c, w + k1, k2);
        }
        let ch = self.eat_byte()?;
        let ghost d = *self;
        proof {
            Self::lemma_advance_trans(start, c, d, w + k1 + k2, 1);
            assert(d.spec_rest() == c.spec_rest().skip(1));
        }
        if ch == 40u8 || ch == 91u8 || ch == 123u8 {
            let r = self.skip_brackets(depth + 1);
            proof {
                Self::lemma_realizes_shift(
                    bracket_scan(d.spec_rest(), (depth + 1) as nat),
                    r,
                    |b: bool| b,
                    *self,
                    d,
                    start,
                    w + k1 + k2 + 1,
                );
            }
            r
        } else if ch == 41u8 || ch == 93u8 || ch == 125u8 {
            if depth <= 1 {
                Ok(false)
            } else {
                let r = self.skip_brackets(depth - 1);
                proof {
                    Self::lemma_realizes_shift(
                        bracket_scan(d.spec_rest(), (depth - 1) as nat),
                        r,
                        |b: bool| b,
                        *self,
                        d,
                        start,
                        w + k1 + k2 + 1,
                    );
                }
                r
            }
        } else if ch == 44u8 && depth == 1 {
            Ok(true)
        } else {
            let r = self.skip_brackets(depth);
            proof {
                Self::lemma_realizes_shift(
                    bracket_scan(d.spec_rest(), depth as nat),
                    r,
                    |b: bool| b,
                    *self,
                    d,
                    start,
                    w + k1 + k2 + 1,
                );
            }
            r
        }
    }

    /// Works out the shape of a struct once a first identifier did not
    /// settle it; see [`struct_type_rest_scan`].
    fn struct_type_rest(&mut self, tuple: TupleMode) -> (r: Result<StructType, Error>)
        requires
            old(self).wf(),
        ensures
            final(self).wf(),
            realizes(
                struct_type_rest_scan(old(self).spec_rest(), tuple),
                r,
                |t: StructType| t,
                *final(self),
                *old(self),
            ),
    {
        proof {
            Self::lemma_advance_zero(*self);
            self.lemma_wf_len();
        }
        match tuple {
            TupleMode::ImpreciseTupleOrNewtype => Ok(StructType::NewtypeOrTuple),
            TupleMode::DifferentiateNewtype => {
                let comma = self.skip_brackets(1)?;
                if comma {
                    Ok(StructType::Tuple)
                } else {
                    Ok(StructType::NewtypeOrTuple)
                }
            },
        }
    }

    /// Works out the shape of a struct, reading as it goes; see
    /// [`struct_type_inner_scan`].
    #[verifier::rlimit(30)]
    fn struct_type_inner(&mut self, newtype: NewtypeMode, tuple: TupleMode) -> (r: Result<
        StructType,
        Error,
    >)
        requires
            old(self).wf(),
        ensures
            final(self).wf(),
            realizes(
                struct_type_inner_scan(old(self).spec_rest(), newtype, tuple),
                r,
                |t: StructType| t,
                *final(self),
                *old(self),
            ),
    {
        let ghost start = *self;
        let ghost s = self.spec_rest();
        proof {
            Self::lemma_advance_zero(start);
        }
        let opened = match newtype {
            NewtypeMode::NoParensMeanUnit => {
                if !self.eat_if(40u8) {
                    return Ok(StructType::Unit);
                }
                true
            },
            NewtypeMode::InsideNewtype => false,
        };
        let ghost p0: int = if opened {
            1
        } else {
            0
        };
        let ghost a = *self;
        assert(a.spec_rest() == s.skip(p0));
        proof {
            lemma_ws_scan_len(a.spec_rest());
        }
        let ws = self.skip_ws();
        proof {
            Self::lemma_advance_trans(start, a, *self, p0, ws_scan(a.spec_rest()).0);
        }
        ws?;
        let ghost b = *self;
        let ghost p1 = p0 + ws_scan(a.spec_rest()).0;
        assert(b.spec_rest() == s.skip(p1));
        let mut copy = *self;
        proof {
            lemma_ident_scan_len(b.spec_rest());
        }
        if copy.identifier().is_ok() {
            *self = copy;
            let ghost c = *self;
            let ghost n = ident_scan(b.spec_rest()).consumed();
            proof {
                Self::lemma_advance_trans(start, b, c, p1, n);
                lemma_ws_scan_len(c.spec_rest());
            }
            let ws2 = self.skip_ws();
            let ghost p2 = p1 + n + ws_scan(c.spec_rest()).0;
            proof {
                Self::lemma_advance_trans(start, c, *self, p1 + n, ws_scan(c.spec_rest()).0);
            }
            ws2?;
            let ghost d = *self;
            assert(d.spec_rest() == s.skip(p2));
            match self.peek() {
                Some(58u8) => {
                    return Ok(StructType::Named);
                },
                Some(44u8) => {
                    return Ok(StructType::Tuple);
                },
                Some(41u8) => {
                    return Ok(StructType::NewtypeOrTuple);
                },
                _ => {},
            }
            let r = self.struct_type_rest(tuple);
            proof {
                Self::lemma_realizes_shift(
                    struct_type_rest_scan(d.spec_rest(), tuple),
                    r,
                    |t: StructType| t,
                    *self,
                    d,
                    start,
                    p2,
                );
            }
            r
        } else {
            let r = self.struct_type_rest(tuple);
            proof {
                Self::lemma_realizes_shift(
                    struct_type_rest_scan(b.spec_rest(), tuple),
                    r,
                    |t: StructType| t,
                    *self,
                    b,
                    start,
                    p1,
                );
            }
            r
        }
    }

    /// Works out which kind of struct starts here: a unit struct (only
    /// when `newtype` says that a struct without parentheses is one), a
    /// struct with named fields, a tuple struct, or one that may be a
    /// newtype or a tuple struct. Nothing is read, except that on an error
    /// the cursor moves to where the error was found. See
    /// [`struct_type_scan`].
    pub fn check_struct_type(&mut self, newtype: NewtypeMode, tuple: TupleMode) -> (r: Result<
        StructType,
        Error,
    >)
        requires
            old(self).wf(),
        ensures
            final(self).wf(),
            realizes(
                struct_type_scan(old(self).spec_rest(), newtype, tuple),
                r,
                |t: StructType| t,
                *final(self),
                *old(self),
            ),
    {
        proof {
            reveal(struct_type_scan);
        }
        let mut bytes = *self;
        let result = bytes.struct_type_inner(newtype, tuple);
        if result.is_err() {
            *self = bytes;
        }
        proof {
            Self::lemma_advance_zero(*old(self));
        }
        result
    }

    /// Reads the name of a struct, which must be `ident`, if a name is
    /// there; tells whether there was one. See [`struct_name_scan`].
    pub fn consume_struct_name(&mut self, ident: &'static str) -> (r: Result<bool, Error>)
        requires
            old(self).wf(),
        ensures
            final(self).wf(),
            realizes(struct_name_scan(old(self).spec_rest(), ident), r, |b: bool| b, *final(self), *old(self)),
    {
        let ghost start = *self;
        proof {
            reveal(crate::parse::ident_scan);
            Self::lemma_advance_zero(start);
            lemma_ident_scan_len(start.spec_rest());
        }
        if self.check_ident("") {
            return Ok(false);
        }
        let found = match self.identifier() {
            Ok(maybe_ident) => match str_from_utf8(maybe_ident) {
                Ok(f) => f,
                Err(e) => {
                    return Err(Error::Utf8Error(e));
                },
            },
            Err(Error::SuggestRawIdentifier(found)) => {
                if str_eq(found.as_str(), ident) {
                    return Err(Error::SuggestRawIdentifier(found));
                }
                return Err(Error::ExpectedNamedStructLike(ident));
            },
            Err(_) => {
                return Err(Error::ExpectedNamedStructLike(ident));
            },
        };
        if !str_eq(found, ident) {
            return Err(Error::ExpectedDifferentStructName { expected: ident, found: found.to_owned() });
        }
        Ok(true)
    }
}

} // verus!
