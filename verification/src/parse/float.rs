//! Float literals. The lexer reads their text and checks its syntax; the
//! text is turned into a binary float by the caller, outside this crate's
//! verified part.

use vstd::prelude::*;
use vstd::string::StringSliceAdditionalSpecFns;

use crate::error::Error;
use crate::parse::{
    lemma_span_len, lit, realizes, span_len, spec_ident_follows, spec_is_ident_other_char,
    starts_with, Bytes, CharClass, ErrSpec, Outcome,
};
use crate::util::{all_ascii, ascii_chars, ascii_string, lemma_ascii_encode, lemma_lit_ascii};
use vstd::utf8::*;

verus! {

/// The float type a caller asks for, or that a suffix names; `Any`
/// prefers `f32` where it holds the value exactly.
#[derive(Clone, Copy, Debug, PartialEq, Eq, Structural)]
pub enum DesireFloat {
    Any,
    F32,
    F64,
}

/// A float literal as read: its text, without underscores (or `inf`,
/// `-inf`, `NaN` or `-NaN` for the special values), and the float type to
/// read it into.
#[derive(Clone, Debug)]
pub struct FloatLiteral {
    pub text: String,
    pub width: DesireFloat,
}

/// Whether `c` is an ASCII decimal digit.
pub open spec fn is_digit(c: u8) -> bool {
    48 <= c <= 57
}

/// The number of decimal digits at the start of `s`.
pub open spec fn digit_run(s: Seq<u8>) -> nat
    decreases s.len(),
{
    if s.len() > 0 && is_digit(s[0]) {
        1 + digit_run(s.drop_first())
    } else {
        0
    }
}

/// `s` without a leading `+` or `-`.
pub open spec fn unsigned_part(s: Seq<u8>) -> Seq<u8> {
    if s.len() > 0 && (s[0] == 43 || s[0] == 45) {
        s.skip(1)
    } else {
        s
    }
}

/// Whether `s` is an exponent: `e` or `E`, an optional sign, and digits.
pub open spec fn exponent_syntax(s: Seq<u8>) -> bool {
    s.len() > 0 && (s[0] == 101 || s[0] == 69) && {
        let d = unsigned_part(s.skip(1));
        digit_run(d) > 0 && digit_run(d) == d.len()
    }
}

/// The syntax of a decimal float as the standard library documents it for
/// parsing `f64` from a string: an optional sign, digits with an optional
/// `.` and optional fraction digits (at least one digit in all), and an
/// optional exponent.
pub open spec fn float_syntax(s: Seq<u8>) -> bool {
    let u = unsigned_part(s);
    let d1 = digit_run(u) as int;
    let r = u.skip(d1);
    if r.len() > 0 && r[0] == 46 {
        let d2 = digit_run(r.skip(1)) as int;
        let r2 = r.skip(1 + d2);
        (d1 > 0 || d2 > 0) && (r2.len() == 0 || exponent_syntax(r2))
    } else {
        d1 > 0 && (r.len() == 0 || exponent_syntax(r))
    }
}

/// Removing the underscores from the float bytes `b[i..]`, `allow` telling
/// whether an underscore may come next: only after a digit or an exponent
/// mark, until the next `.`. An error gives the index of an underscore that
/// may not stand there.
pub open spec fn float_clean(b: Seq<u8>, i: int, allow: bool) -> Result<Seq<u8>, int>
    decreases b.len() - i,
{
    if i < 0 || i >= b.len() {
        Ok(Seq::empty())
    } else if b[i] == 95 {
        if allow {
            float_clean(b, i + 1, allow)
        } else {
            Err(i)
        }
    } else {
        let allow2 = if is_digit(b[i]) || b[i] == 101 || b[i] == 69 {
            true
        } else if b[i] == 46 {
            false
        } else {
            allow
        };
        match float_clean(b, i + 1, allow2) {
            Ok(rest) => Ok(seq![b[i]] + rest),
            Err(k) => Err(k),
        }
    }
}

/// Removing underscores from float bytes leaves ASCII bytes.
pub proof fn lemma_float_clean_ascii(b: Seq<u8>, i: int, allow: bool)
    requires
        forall|j: int| 0 <= j < b.len() ==> #[trigger] b[j] < 128,
    ensures
        float_clean(b, i, allow) matches Ok(t) ==> all_ascii(t),
    decreases b.len() - i,
{
    if 0 <= i < b.len() {
        let allow2 = if is_digit(b[i]) || b[i] == 101 || b[i] == 69 {
            true
        } else if b[i] == 46 {
            false
        } else {
            allow
        };
        lemma_float_clean_ascii(b, i + 1, allow);
        lemma_float_clean_ascii(b, i + 1, allow2);
        if let Ok(rest) = float_clean(b, i + 1, allow2) {
            assert forall|j: int| 0 <= j < (seq![b[i]] + rest).len() implies #[trigger] (seq![b[i]]
                + rest)[j] < 128 by {
                if j > 0 {
                    assert((seq![b[i]] + rest)[j] == rest[j - 1]);
                }
            }
        }
    }
}

/// An underscore that may not stand where it does lies within the bytes.
pub proof fn lemma_float_clean_err(b: Seq<u8>, i: int, allow: bool)
    ensures
        float_clean(b, i, allow) matches Err(k) ==> i <= k < b.len(),
    decreases b.len() - i,
{
    if 0 <= i < b.len() {
        lemma_float_clean_err(b, i + 1, allow);
        lemma_float_clean_err(b, i + 1, true);
        lemma_float_clean_err(b, i + 1, false);
    }
}

/// The special float literals in the order they are tried, each with the
/// text that stands for its value.
pub open spec fn special_floats() -> Seq<(Seq<u8>, Seq<u8>)> {
    seq![
        (lit("inf"), lit("inf")),
        (lit("+inf"), lit("inf")),
        (lit("-inf"), lit("-inf")),
        (lit("NaN"), lit("NaN")),
        (lit("+NaN"), lit("NaN")),
        (lit("-NaN"), lit("-NaN")),
    ]
}

/// Whether `s` starts with `word` and then `suffix`, not followed by a
/// byte that could continue an identifier.
pub open spec fn suffixed_word(s: Seq<u8>, word: Seq<u8>, suffix: Seq<u8>) -> bool {
    spec_ident_follows(s, word + suffix)
}

/// Scanning the special float literals from the `k`-th on: each may be
/// followed by `_f32` or `_f64`, which names the float type.
pub open spec fn special_float_scan(s: Seq<u8>, desire: DesireFloat, k: int) -> Option<
    Outcome<(Seq<u8>, DesireFloat)>,
>
    decreases 6 - k,
{
    if k < 0 || k >= 6 {
        None
    } else {
        let (word, text) = special_floats()[k];
        if spec_ident_follows(s, word) {
            Some(
                Outcome::Done {
                    n: word.len() as int,
                    value: (text, if desire is F64 {
                        DesireFloat::F64
                    } else {
                        DesireFloat::F32
                    }),
                },
            )
        } else if suffixed_word(s, word, lit("_f32")) {
            Some(Outcome::Done { n: word.len() + 4int, value: (text, DesireFloat::F32) })
        } else if suffixed_word(s, word, lit("_f64")) {
            Some(Outcome::Done { n: word.len() + 4int, value: (text, DesireFloat::F64) })
        } else {
            special_float_scan(s, desire, k + 1)
        }
    }
}

/// Scanning a float literal: a special value, or the longest run of float
/// bytes, which must not start with an underscore, may hold underscores
/// only after digits, and must have float syntax once they are removed;
/// then an optional `f32` or `f64` suffix, which takes precedence over
/// `desire`. The value is the text and the float type.
#[verifier::opaque]
pub open spec fn float_scan(s: Seq<u8>, desire: DesireFloat) -> Outcome<(Seq<u8>, DesireFloat)> {
    match special_float_scan(s, desire, 0) {
        Some(o) => o,
        None => {
            let num = span_len(s, CharClass::Float) as int;
            if num == 0 {
                Outcome::Fail { n: 0, err: ErrSpec::Plain(Error::ExpectedFloat) }
            } else if s[0] == 95 {
                Outcome::Fail { n: 0, err: ErrSpec::Plain(Error::UnderscoreAtBeginning) }
            } else {
                match float_clean(s.take(num), 0, false) {
                    Err(i) => Outcome::Fail { n: i, err: ErrSpec::Plain(Error::FloatUnderscore) },
                    Ok(text) => if !float_syntax(text) {
                        Outcome::Fail { n: 0, err: ErrSpec::Plain(Error::ExpectedFloat) }
                    } else if spec_ident_follows(s.skip(num), lit("f32")) {
                        Outcome::Done { n: num + 3, value: (text, DesireFloat::F32) }
                    } else if spec_ident_follows(s.skip(num), lit("f64")) {
                        Outcome::Done { n: num + 3, value: (text, DesireFloat::F64) }
                    } else {
                        Outcome::Done { n: num, value: (text, desire) }
                    },
                }
            }
        },
    }
}

/// The text and the float type of a float literal.
pub open spec fn float_literal_view(f: FloatLiteral) -> (Seq<u8>, DesireFloat) {
    (encode_utf8(f.text@), f.width)
}

/// The number of decimal digits in `t` from `start` on.
fn digit_run_from(t: &[u8], start: usize) -> (n: usize)
    requires
        start <= t@.len(),
    ensures
        n == digit_run(t@.skip(start as int)),
        start + n <= t@.len(),
{
    let mut i = start;
    while i < t.len() && 48u8 <= t[i] && t[i] <= 57u8
        invariant
            start <= i <= t@.len(),
            digit_run(t@.skip(start as int)) == (i - start) + digit_run(t@.skip(i as int)),
        decreases t@.len() - i,
    {
        assert(t@.skip(i as int).drop_first() =~= t@.skip(i + 1));
        i = i + 1;
    }
    i - start
}

/// Whether `t[start..]` is an exponent; see [`exponent_syntax`].
fn is_exponent(t: &[u8], start: usize) -> (b: bool)
    requires
        start <= t@.len(),
    ensures
        b == exponent_syntax(t@.skip(start as int)),
{
    let s = Ghost(t@.skip(start as int));
    if start < t.len() && (t[start] == 101u8 || t[start] == 69u8) {
        let mut d = start + 1;
        if d < t.len() && (t[d] == 43u8 || t[d] == 45u8) {
            d = d + 1;
        }
        assert(unsigned_part(s@.skip(1)) =~= t@.skip(d as int));
        let n = digit_run_from(t, d);
        n > 0 && d + n == t.len()
    } else {
        false
    }
}

/// Whether `t` has the syntax of a decimal float; see [`float_syntax`].
pub fn is_float_syntax(t: &[u8]) -> (b: bool)
    ensures
        b == float_syntax(t@),
{
    let start: usize = if t.len() > 0 && (t[0] == 43u8 || t[0] == 45u8) {
        1
    } else {
        0
    };
    assert(unsigned_part(t@) =~= t@.skip(start as int));
    let d1 = digit_run_from(t, start);
    let r = start + d1;
    assert(unsigned_part(t@).skip(d1 as int) =~= t@.skip(r as int));
    if r < t.len() && t[r] == 46u8 {
        let d2 = digit_run_from(t, r + 1);
        assert(t@.skip(r as int).skip(1) =~= t@.skip(r + 1));
        assert(t@.skip(r as int).skip(1 + d2) =~= t@.skip(r + 1 + d2));
        (d1 > 0 || d2 > 0) && (r + 1 + d2 == t.len() || is_exponent(t, r + 1 + d2))
    } else {
        d1 > 0 && (r == t.len() || is_exponent(t, r))
    }
}

/// Removes the underscores from the float bytes `b`; see [`float_clean`].
fn clean_float_bytes(b: &[u8]) -> (r: Result<Vec<u8>, usize>)
    ensures
        match float_clean(b@, 0, false) {
            Ok(text) => r matches Ok(v) && v@ == text,
            Err(i) => r == Err::<Vec<u8>, usize>(i as usize),
        },
{
    let mut out: Vec<u8> = Vec::new();
    let mut allow = false;
    let mut i: usize = 0;
    while i < b.len()
        invariant
            i <= b@.len(),
            float_clean(b@, 0, false) == match float_clean(b@, i as int, allow) {
                Ok(rest) => Ok(out@ + rest),
                Err(k) => Err::<Seq<u8>, int>(k),
            },
        decreases b@.len() - i,
    {
        let c = b[i];
        if c == 95u8 {
            if !allow {
                return Err(i);
            }
        } else {
            if 48u8 <= c && c <= 57u8 || c == 101u8 || c == 69u8 {
                allow = true;
            } else if c == 46u8 {
                allow = false;
            }
            proof {
                match float_clean(b@, i + 1, allow) {
                    Ok(rest) => {
                        assert(out@ + (seq![c] + rest) =~= out@.push(c) + rest);
                    },
                    Err(_) => {},
                }
            }
            out.push(c);
        }
        i = i + 1;
    }
    proof {
        assert(out@ + Seq::<u8>::empty() =~= out@);
    }
    Ok(out)
}

impl<'a> Bytes<'a> {
    /// Reads the special float literal `word`, possibly with a `_f32` or
    /// `_f64` suffix, standing for the value written `text`.
    fn special_float(&mut self, word: &str, text: &str, desire: DesireFloat) -> (r: Option<
        FloatLiteral,
    >)
        requires
            old(self).wf(),
            is_ascii_chars(word@),
            is_ascii_chars(text@),
        ensures
            final(self).wf(),
            ({
                let s = old(self).spec_rest();
                let w = lit(word);
                let t = lit(text);
                if spec_ident_follows(s, w) {
                    r matches Some(f) && float_literal_view(f) == (t, if desire is F64 {
                        DesireFloat::F64
                    } else {
                        DesireFloat::F32
                    }) && final(self).is_advance_of(*old(self), w.len() as int)
                } else if suffixed_word(s, w, lit("_f32")) {
                    r matches Some(f) && float_literal_view(f) == (t, DesireFloat::F32)
                        && final(self).is_advance_of(*old(self), w.len() + 4int)
                } else if suffixed_word(s, w, lit("_f64")) {
                    r matches Some(f) && float_literal_view(f) == (t, DesireFloat::F64)
                        && final(self).is_advance_of(*old(self), w.len() + 4int)
                } else {
                    r is None && *final(self) == *old(self)
                }
            }),
    {
        let ghost start = *self;
        let ghost s = self.spec_rest();
        proof {
            reveal_strlit("_f32");
            reveal_strlit("_f64");
            lemma_lit_ascii("_f32");
            lemma_lit_ascii("_f64");
            lemma_lit_ascii(word);
        }
        if self.consume_ident(word) {
            let width = match desire {
                DesireFloat::F64 => DesireFloat::F64,
                _ => DesireFloat::F32,
            };
            return Some(FloatLiteral { text: text.to_owned(), width });
        }
        let mut rest = *self;
        if rest.consume(word) {
            let ghost mid = rest;
            assert(mid.spec_rest() == s.skip(lit(word).len() as int));
            let mut r32 = rest;
            if r32.consume("_f32") && !r32.check_ident_other_char(0) {
                proof {
                    Self::lemma_advance_trans(start, mid, r32, lit(word).len() as int, 4);
                    assert(s.take(lit(word).len() + 4int) =~= lit(word) + lit("_f32"));
                }
                *self = r32;
                return Some(FloatLiteral { text: text.to_owned(), width: DesireFloat::F32 });
            }
            let mut r64 = rest;
            if r64.consume("_f64") && !r64.check_ident_other_char(0) {
                proof {
                    Self::lemma_advance_trans(start, mid, r64, lit(word).len() as int, 4);
                    assert(s.take(lit(word).len() + 4int) =~= lit(word) + lit("_f64"));
                }
                *self = r64;
                return Some(FloatLiteral { text: text.to_owned(), width: DesireFloat::F64 });
            }
            proof {
                if suffixed_word(s, lit(word), lit("_f32")) {
                    assert(s.take(lit(word).len() + 4int).skip(lit(word).len() as int) =~= lit("_f32"));
                    assert(mid.spec_rest().take(4) =~= lit("_f32"));
                }
                if suffixed_word(s, lit(word), lit("_f64")) {
                    assert(s.take(lit(word).len() + 4int).skip(lit(word).len() as int) =~= lit("_f64"));
                    assert(mid.spec_rest().take(4) =~= lit("_f64"));
                }
            }
        } else {
            proof {
                if suffixed_word(s, lit(word), lit("_f32")) {
                    assert(s.take(lit(word).len() + 4int).take(lit(word).len() as int) =~= lit(word));
                    assert(s.take(lit(word).len() as int) =~= lit(word));
                }
                if suffixed_word(s, lit(word), lit("_f64")) {
                    assert(s.take(lit(word).len() + 4int).take(lit(word).len() as int) =~= lit(word));
                    assert(s.take(lit(word).len() as int) =~= lit(word));
                }
            }
        }
        None
    }

    /// Reads the special float literals from the `k`-th on; see
    /// [`special_float_scan`].
    fn special_floats_from(&mut self, desire: DesireFloat, k: usize) -> (r: Option<FloatLiteral>)
        requires
            old(self).wf(),
            k <= 6,
        ensures
            final(self).wf(),
            match special_float_scan(old(self).spec_rest(), desire, k as int) {
                Some(o) => r matches Some(f) && realizes(
                    o,
                    Ok::<FloatLiteral, Error>(f),
                    |x: FloatLiteral| float_literal_view(x),
                    *final(self),
                    *old(self),
                ),
                None => r is None && *final(self) == *old(self),
            },
        decreases 6 - k,
    {
        proof {
            reveal_strlit("inf");
            reveal_strlit("+inf");
            reveal_strlit("-inf");
            reveal_strlit("NaN");
            reveal_strlit("+NaN");
            reveal_strlit("-NaN");
        }
        let (word, text) = if k == 0 {
            ("inf", "inf")
        } else if k == 1 {
            ("+inf", "inf")
        } else if k == 2 {
            ("-inf", "-inf")
        } else if k == 3 {
            ("NaN", "NaN")
        } else if k == 4 {
            ("+NaN", "NaN")
        } else if k == 5 {
            ("-NaN", "-NaN")
        } else {
            return None;
        };
        assert(special_floats()[k as int] == (lit(word), lit(text)));
        match self.special_float(word, text, desire) {
            Some(f) => Some(f),
            None => self.special_floats_from(desire, k + 1),
        }
    }

    /// Reads a float literal: its text and its float type; see
    /// [`float_scan`]. Turning the text into a binary float is left to the
    /// caller.
    pub fn any_float(&mut self, desire: DesireFloat) -> (r: Result<FloatLiteral, Error>)
        requires
            old(self).wf(),
        ensures
            final(self).wf(),
            realizes(
                float_scan(old(self).spec_rest(), desire),
                r,
                |x: FloatLiteral| float_literal_view(x),
                *final(self),
                *old(self),
            ),
    {
        proof {
            reveal(float_scan);
        }
        let ghost start = *self;
        let ghost s = self.spec_rest();
        proof {
            Self::lemma_advance_zero(start);
        }
        if let Some(f) = self.special_floats_from(desire, 0) {
            return Ok(f);
        }
        let num = self.next_bytes_contained_in(CharClass::Float);
        if num == 0 {
            return Err(Error::ExpectedFloat);
        }
        if self.peek_or_eof()? == 95u8 {
            return Err(Error::UnderscoreAtBeginning);
        }
        proof {
            lemma_span_len(s, CharClass::Float);
        }
        let bytes = self.bytes();
        let digits = vstd::slice::slice_subrange(bytes, 0, num);
        let text = match clean_float_bytes(digits) {
            Ok(t) => t,
            Err(i) => {
                proof {
                    lemma_float_clean_err(digits@, 0, false);
                }
                let _ = self.advance(i);
                return Err(Error::FloatUnderscore);
            },
        };
        if !is_float_syntax(text.as_slice()) {
            return Err(Error::ExpectedFloat);
        }
        let _ = self.advance(num);
        let ghost after = *self;
        assert(after.spec_rest() == s.skip(num as int));
        let width = if self.consume_ident("f32") {
            DesireFloat::F32
        } else if self.consume_ident("f64") {
            DesireFloat::F64
        } else {
            desire
        };
        proof {
            reveal_strlit("f32");
            reveal_strlit("f64");
            lemma_lit_ascii("f32");
            lemma_lit_ascii("f64");
            Self::lemma_advance_zero(after);
            if spec_ident_follows(s.skip(num as int), lit("f32")) || spec_ident_follows(
                s.skip(num as int),
                lit("f64"),
            ) {
                Self::lemma_advance_trans(start, after, *self, num as int, 3);
            }
            lemma_float_clean_ascii(digits@, 0, false);
            lemma_ascii_encode(text@);
        }
        Ok(FloatLiteral { text: ascii_string(text.as_slice()), width })
    }
}

} // verus!
