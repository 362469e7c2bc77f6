//! Integer literals: the fixed-width integer types the lexer reads into,
//! and the scanners for decimal, hexadecimal, octal and binary integers
//! with an optional sign and type suffix.

use vstd::prelude::*;
use vstd::string::StringSliceAdditionalSpecFns;

use crate::error::Error;
use crate::util::{
    all_ascii, ascii_chars, ascii_string, lemma_decimal_digits, lemma_lit_ascii, push_decimal,
    push_signed_decimal, signed_decimal,
};
use crate::parse::{
    hex_val, ident_scan, lemma_span_len, lemma_span_len_skip, lit, non_hex_error, realizes,
    span_len, spec_ident_follows, Bytes, CharClass, ErrSpec, Outcome,
};

verus! {

/// The value a `u8` stands for once cast into an integer type whose largest
/// value is `hi`: casting wraps a byte above `hi` round by 256.
pub open spec fn cast_u8(x: u8, hi: int) -> int {
    if x <= hi {
        x as int
    } else {
        x - 256
    }
}

/// An integer type into which the lexer can accumulate digits, with
/// arithmetic that reports overflow instead of wrapping.
pub trait Num: Sized {
    /// The integer that a value stands for.
    spec fn num_value(&self) -> int;

    /// The smallest value of the type.
    spec fn min_value() -> int;

    /// The largest value of the type.
    spec fn max_value() -> int;

    /// Every type holds at least the numbers of an `i8` or a `u8` that are
    /// not negative, and holds its own values only.
    proof fn lemma_range(&self)
        ensures
            Self::min_value() <= 0,
            Self::max_value() >= 127,
            Self::min_value() <= self.num_value() <= Self::max_value(),
    ;

    /// `x` cast into the type.
    fn from_u8(x: u8) -> (r: Self)
        ensures
            r.num_value() == cast_u8(x, Self::max_value()),
    ;

    /// Multiplies by `x`; returns `true` on overflow, leaving the value as
    /// it was.
    fn checked_mul_ext(&mut self, x: u8) -> (overflow: bool)
        ensures
            ({
                let p = old(self).num_value() * cast_u8(x, Self::max_value());
                &&& overflow == !(Self::min_value() <= p <= Self::max_value())
                &&& !overflow ==> final(self).num_value() == p
                &&& overflow ==> final(self).num_value() == old(self).num_value()
            }),
    ;

    /// Adds `x`; returns `true` on overflow, leaving the value as it was.
    fn checked_add_ext(&mut self, x: u8) -> (overflow: bool)
        ensures
            ({
                let p = old(self).num_value() + cast_u8(x, Self::max_value());
                &&& overflow == !(Self::min_value() <= p <= Self::max_value())
                &&& !overflow ==> final(self).num_value() == p
                &&& overflow ==> final(self).num_value() == old(self).num_value()
            }),
    ;

    /// Subtracts `x`; returns `true` on overflow, leaving the value as it
    /// was.
    fn checked_sub_ext(&mut self, x: u8) -> (overflow: bool)
        ensures
            ({
                let p = old(self).num_value() - cast_u8(x, Self::max_value());
                &&& overflow == !(Self::min_value() <= p <= Self::max_value())
                &&& !overflow ==> final(self).num_value() == p
                &&& overflow ==> final(self).num_value() == old(self).num_value()
            }),
    ;
}

impl Num for i8 {
    open spec fn num_value(&self) -> int {
        *self as int
    }

    open spec fn min_value() -> int {
        i8::MIN as int
    }

    open spec fn max_value() -> int {
        i8::MAX as int
    }

    proof fn lemma_range(&self) {
    }

    fn from_u8(x: u8) -> (r: Self) {
        let r = x as i8;
        assert(x > 127u8 ==> r as int == x as int - 256) by (bit_vector)
            requires
                r == x as i8,
        ;
        assert(x <= 127u8 ==> r as int == x as int) by (bit_vector)
            requires
                r == x as i8,
        ;
        r
    }

    fn checked_mul_ext(&mut self, x: u8) -> (overflow: bool) {
        match self.checked_mul(Self::from_u8(x)) {
            Some(n) => {
                *self = n;
                false
            },
            None => true,
        }
    }

    fn checked_add_ext(&mut self, x: u8) -> (overflow: bool) {
        match self.checked_add(Self::from_u8(x)) {
            Some(n) => {
                *self = n;
                false
            },
            None => true,
        }
    }

    fn checked_sub_ext(&mut self, x: u8) -> (overflow: bool) {
        match self.checked_sub(Self::from_u8(x)) {
            Some(n) => {
                *self = n;
                false
            },
            None => true,
        }
    }
}

impl Num for i16 {
    open spec fn num_value(&self) -> int {
        *self as int
    }

    open spec fn min_value() -> int {
        i16::MIN as int
    }

    open spec fn max_value() -> int {
        i16::MAX as int
    }

    proof fn lemma_range(&self) {
    }

    fn from_u8(x: u8) -> (r: Self) {
        x as i16
    }

    fn checked_mul_ext(&mut self, x: u8) -> (overflow: bool) {
        match self.checked_mul(Self::from_u8(x)) {
            Some(n) => {
                *self = n;
                false
            },
            None => true,
        }
    }

    fn checked_add_ext(&mut self, x: u8) -> (overflow: bool) {
        match self.checked_add(Self::from_u8(x)) {
            Some(n) => {
                *self = n;
                false
            },
            None => true,
        }
    }

    fn checked_sub_ext(&mut self, x: u8) -> (overflow: bool) {
        match self.checked_sub(Self::from_u8(x)) {
            Some(n) => {
                *self = n;
                false
            },
            None => true,
        }
    }
}

impl Num for i32 {
    open spec fn num_value(&self) -> int {
        *self as int
    }

    open spec fn min_value() -> int {
        i32::MIN as int
    }

    open spec fn max_value() -> int {
        i32::MAX as int
    }

    proof fn lemma_range(&self) {
    }

    fn from_u8(x: u8) -> (r: Self) {
        x as i32
    }

    fn checked_mul_ext(&mut self, x: u8) -> (overflow: bool) {
        match self.checked_mul(Self::from_u8(x)) {
            Some(n) => {
                *self = n;
                false
            },
            None => true,
        }
    }

    fn checked_add_ext(&mut self, x: u8) -> (overflow: bool) {
        match self.checked_add(Self::from_u8(x)) {
            Some(n) => {
                *self = n;
                false
            },
            None => true,
        }
    }

    fn checked_sub_ext(&mut self, x: u8) -> (overflow: bool) {
        match self.checked_sub(Self::from_u8(x)) {
            Some(n) => {
                *self = n;
                false
            },
            None => true,
        }
    }
}

impl Num for i64 {
    open spec fn num_value(&self) -> int {
        *self as int
    }

    open spec fn min_value() -> int {
        i64::MIN as int
    }

    open spec fn max_value() -> int {
        i64::MAX as int
    }

    proof fn lemma_range(&self) {
    }

    fn from_u8(x: u8) -> (r: Self) {
        x as i64
    }

    fn checked_mul_ext(&mut self, x: u8) -> (overflow: bool) {
        match self.checked_mul(Self::from_u8(x)) {
            Some(n) => {
                *self = n;
                false
            },
            None => true,
        }
    }

    fn checked_add_ext(&mut self, x: u8) -> (overflow: bool) {
        match self.checked_add(Self::from_u8(x)) {
            Some(n) => {
                *self = n;
                false
            },
            None => true,
        }
    }

    fn checked_sub_ext(&mut self, x: u8) -> (overflow: bool) {
        match self.checked_sub(Self::from_u8(x)) {
            Some(n) => {
                *self = n;
                false
            },
            None => true,
        }
    }
}

impl Num for u8 {
    open spec fn num_value(&self) -> int {
        *self as int
    }

    open spec fn min_value() -> int {
        u8::MIN as int
    }

    open spec fn max_value() -> int {
        u8::MAX as int
    }

    proof fn lemma_range(&self) {
    }

    fn from_u8(x: u8) -> (r: Self) {
        x as u8
    }

    fn checked_mul_ext(&mut self, x: u8) -> (overflow: bool) {
        match self.checked_mul(Self::from_u8(x)) {
            Some(n) => {
                *self = n;
                false
            },
            None => true,
        }
    }

    fn checked_add_ext(&mut self, x: u8) -> (overflow: bool) {
        match self.checked_add(Self::from_u8(x)) {
            Some(n) => {
                *self = n;
                false
            },
            None => true,
        }
    }

    fn checked_sub_ext(&mut self, x: u8) -> (overflow: bool) {
        match self.checked_sub(Self::from_u8(x)) {
            Some(n) => {
                *self = n;
                false
            },
            None => true,
        }
    }
}

impl Num for u16 {
    open spec fn num_value(&self) -> int {
        *self as int
    }

    open spec fn min_value() -> int {
        u16::MIN as int
    }

    open spec fn max_value() -> int {
        u16::MAX as int
    }

    proof fn lemma_range(&self) {
    }

    fn from_u8(x: u8) -> (r: Self) {
        x as u16
    }

    fn checked_mul_ext(&mut self, x: u8) -> (overflow: bool) {
        match self.checked_mul(Self::from_u8(x)) {
            Some(n) => {
                *self = n;
                false
            },
            None => true,
        }
    }

    fn checked_add_ext(&mut self, x: u8) -> (overflow: bool) {
        match self.checked_add(Self::from_u8(x)) {
            Some(n) => {
                *self = n;
                false
            },
            None => true,
        }
    }

    fn checked_sub_ext(&mut self, x: u8) -> (overflow: bool) {
        match self.checked_sub(Self::from_u8(x)) {
            Some(n) => {
                *self = n;
                false
            },
            None => true,
        }
    }
}

impl Num for u32 {
    open spec fn num_value(&self) -> int {
        *self as int
    }

    open spec fn min_value() -> int {
        u32::MIN as int
    }

    open spec fn max_value() -> int {
        u32::MAX as int
    }

    proof fn lemma_range(&self) {
    }

    fn from_u8(x: u8) -> (r: Self) {
        x as u32
    }

    fn checked_mul_ext(&mut self, x: u8) -> (overflow: bool) {
        match self.checked_mul(Self::from_u8(x)) {
            Some(n) => {
                *self = n;
                false
            },
            None => true,
        }
    }

    fn checked_add_ext(&mut self, x: u8) -> (overflow: bool) {
        match self.checked_add(Self::from_u8(x)) {
            Some(n) => {
                *self = n;
                false
            },
            None => true,
        }
    }

    fn checked_sub_ext(&mut self, x: u8) -> (overflow: bool) {
        match self.checked_sub(Self::from_u8(x)) {
            Some(n) => {
                *self = n;
                false
            },
            None => true,
        }
    }
}

impl Num for u64 {
    open spec fn num_value(&self) -> int {
        *self as int
    }

    open spec fn min_value() -> int {
        u64::MIN as int
    }

    open spec fn max_value() -> int {
        u64::MAX as int
    }

    proof fn lemma_range(&self) {
    }

    fn from_u8(x: u8) -> (r: Self) {
        x as u64
    }

    fn checked_mul_ext(&mut self, x: u8) -> (overflow: bool) {
        match self.checked_mul(Self::from_u8(x)) {
            Some(n) => {
                *self = n;
                false
            },
            None => true,
        }
    }

    fn checked_add_ext(&mut self, x: u8) -> (overflow: bool) {
        match self.checked_add(Self::from_u8(x)) {
            Some(n) => {
                *self = n;
                false
            },
            None => true,
        }
    }

    fn checked_sub_ext(&mut self, x: u8) -> (overflow: bool) {
        match self.checked_sub(Self::from_u8(x)) {
            Some(n) => {
                *self = n;
                false
            },
            None => true,
        }
    }
}

/// The integer type a caller asks for; `Any` asks for the smallest type
/// that holds the value read, signed if it is negative and unsigned if not.
#[derive(Clone, Copy, Debug, PartialEq, Eq, Structural)]
pub enum DesireInteger {
    Any,
    I8,
    I16,
    I32,
    I64,
    U8,
    U16,
    U32,
    U64,
}

/// An integer read from the input, in the type it was read as.
#[derive(Clone, Copy, Debug, PartialEq, Eq, Structural)]
pub enum ParsedInteger {
    I8(i8),
    I16(i16),
    I32(i32),
    I64(i64),
    U8(u8),
    U16(u16),
    U32(u32),
    U64(u64),
}

/// The wording that names the type of a parsed integer in a message.
pub open spec fn found_kind_text(p: ParsedInteger) -> Seq<u8> {
    match p {
        ParsedInteger::I8(_) => "the specifically 8-bit signed integer `".spec_bytes(),
        ParsedInteger::I16(_) => "the specifically 16-bit signed integer `".spec_bytes(),
        ParsedInteger::I32(_) => "the specifically 32-bit signed integer `".spec_bytes(),
        ParsedInteger::I64(_) => "the specifically 64-bit signed integer `".spec_bytes(),
        ParsedInteger::U8(_) => "the specifically 8-bit unsigned integer `".spec_bytes(),
        ParsedInteger::U16(_) => "the specifically 16-bit unsigned integer `".spec_bytes(),
        ParsedInteger::U32(_) => "the specifically 32-bit unsigned integer `".spec_bytes(),
        ParsedInteger::U64(_) => "the specifically 64-bit unsigned integer `".spec_bytes(),
    }
}

/// The message that describes a parsed integer found where another value
/// was expected: its type, and its value in decimal between backquotes.
pub open spec fn found_message(p: ParsedInteger) -> Seq<u8> {
    found_kind_text(p) + signed_decimal(parsed_value(p)) + "`".spec_bytes()
}

impl ParsedInteger {
    /// Describes the integer, for an error that reports it found where
    /// another value was expected; see [`found_message`].
    pub fn into_error_found_message(self) -> (m: String)
        ensures
            m@ == ascii_chars(found_message(self)),
    {
        let mut out: Vec<u8> = Vec::new();
        let prefix: &str = match self {
            ParsedInteger::I8(_) => "the specifically 8-bit signed integer `",
            ParsedInteger::I16(_) => "the specifically 16-bit signed integer `",
            ParsedInteger::I32(_) => "the specifically 32-bit signed integer `",
            ParsedInteger::I64(_) => "the specifically 64-bit signed integer `",
            ParsedInteger::U8(_) => "the specifically 8-bit unsigned integer `",
            ParsedInteger::U16(_) => "the specifically 16-bit unsigned integer `",
            ParsedInteger::U32(_) => "the specifically 32-bit unsigned integer `",
            ParsedInteger::U64(_) => "the specifically 64-bit unsigned integer `",
        };
        proof {
            reveal_strlit("the specifically 8-bit signed integer `");
            reveal_strlit("the specifically 16-bit signed integer `");
            reveal_strlit("the specifically 32-bit signed integer `");
            reveal_strlit("the specifically 64-bit signed integer `");
            reveal_strlit("the specifically 8-bit unsigned integer `");
            reveal_strlit("the specifically 16-bit unsigned integer `");
            reveal_strlit("the specifically 32-bit unsigned integer `");
            reveal_strlit("the specifically 64-bit unsigned integer `");
            reveal_strlit("`");
            lemma_lit_ascii(prefix);
            lemma_lit_ascii("`");
        }
        out.extend_from_slice(prefix.as_bytes());
        match self {
            ParsedInteger::I8(v) => push_signed_decimal(&mut out, v as i64),
            ParsedInteger::I16(v) => push_signed_decimal(&mut out, v as i64),
            ParsedInteger::I32(v) => push_signed_decimal(&mut out, v as i64),
            ParsedInteger::I64(v) => push_signed_decimal(&mut out, v),
            ParsedInteger::U8(v) => push_decimal(&mut out, v as u64),
            ParsedInteger::U16(v) => push_decimal(&mut out, v as u64),
            ParsedInteger::U32(v) => push_decimal(&mut out, v as u64),
            ParsedInteger::U64(v) => push_decimal(&mut out, v),
        }
        out.extend_from_slice("`".as_bytes());
        proof {
            let d = parsed_value(self);
            if d >= 0 {
                lemma_decimal_digits(d as nat);
            } else {
                lemma_decimal_digits((-d) as nat);
            }
            assert(out@ =~= found_message(self));
            assert(all_ascii(out@));
        }
        ascii_string(out.as_slice())
    }
}

/// The smallest value of the integer type `k`.
pub open spec fn kind_min(k: DesireInteger) -> int {
    match k {
        DesireInteger::I8 => i8::MIN as int,
        DesireInteger::I16 => i16::MIN as int,
        DesireInteger::I32 => i32::MIN as int,
        DesireInteger::I64 => i64::MIN as int,
        _ => 0,
    }
}

/// The largest value of the integer type `k`.
pub open spec fn kind_max(k: DesireInteger) -> int {
    match k {
        DesireInteger::I8 => i8::MAX as int,
        DesireInteger::I16 => i16::MAX as int,
        DesireInteger::I32 => i32::MAX as int,
        DesireInteger::I64 => i64::MAX as int,
        DesireInteger::U8 => u8::MAX as int,
        DesireInteger::U16 => u16::MAX as int,
        DesireInteger::U32 => u32::MAX as int,
        _ => u64::MAX as int,
    }
}

/// The value `v` held in the integer type `k`.
pub open spec fn parsed_as(k: DesireInteger, v: int) -> ParsedInteger {
    match k {
        DesireInteger::I8 => ParsedInteger::I8(v as i8),
        DesireInteger::I16 => ParsedInteger::I16(v as i16),
        DesireInteger::I32 => ParsedInteger::I32(v as i32),
        DesireInteger::I64 => ParsedInteger::I64(v as i64),
        DesireInteger::U8 => ParsedInteger::U8(v as u8),
        DesireInteger::U16 => ParsedInteger::U16(v as u16),
        DesireInteger::U32 => ParsedInteger::U32(v as u32),
        _ => ParsedInteger::U64(v as u64),
    }
}

/// The integer that a parsed integer stands for.
pub open spec fn parsed_value(p: ParsedInteger) -> int {
    match p {
        ParsedInteger::I8(v) => v as int,
        ParsedInteger::I16(v) => v as int,
        ParsedInteger::I32(v) => v as int,
        ParsedInteger::I64(v) => v as int,
        ParsedInteger::U8(v) => v as int,
        ParsedInteger::U16(v) => v as int,
        ParsedInteger::U32(v) => v as int,
        ParsedInteger::U64(v) => v as int,
    }
}

/// `v` in the smallest signed type that holds it (at most `i64`).
pub open spec fn smallest_signed(v: int) -> ParsedInteger {
    if i8::MIN <= v <= i8::MAX {
        ParsedInteger::I8(v as i8)
    } else if i16::MIN <= v <= i16::MAX {
        ParsedInteger::I16(v as i16)
    } else if i32::MIN <= v <= i32::MAX {
        ParsedInteger::I32(v as i32)
    } else {
        ParsedInteger::I64(v as i64)
    }
}

/// `v` in the smallest unsigned type that holds it (at most `u64`).
pub open spec fn smallest_unsigned(v: int) -> ParsedInteger {
    if v <= u8::MAX {
        ParsedInteger::U8(v as u8)
    } else if v <= u16::MAX {
        ParsedInteger::U16(v as u16)
    } else if v <= u32::MAX {
        ParsedInteger::U32(v as u32)
    } else {
        ParsedInteger::U64(v as u64)
    }
}

/// The base of an integer literal: `0x` marks hexadecimal, `0b` binary and
/// `0o` octal; every other literal is decimal.
pub open spec fn int_base(s: Seq<u8>) -> u8 {
    if s.len() > 1 && s[0] == 48 {
        if s[1] == 120 {
            16
        } else if s[1] == 98 {
            2
        } else if s[1] == 111 {
            8
        } else {
            10
        }
    } else {
        10
    }
}

/// Accumulating the digits `b[i..]` in `base` onto `acc`, within the range
/// `lo..=hi`, subtracting each digit when `neg` and adding it otherwise;
/// underscores are passed over. An error comes with the number of bytes
/// of `b` read before it is reported.
pub open spec fn digits_scan(
    b: Seq<u8>,
    i: int,
    acc: int,
    base: u8,
    neg: bool,
    lo: int,
    hi: int,
) -> Result<int, (int, Error)>
    decreases b.len() - i,
{
    if i < 0 || i >= b.len() {
        Ok(acc)
    } else if b[i] == 95 {
        digits_scan(b, i + 1, acc, base, neg, lo, hi)
    } else if !(lo <= acc * base <= hi) {
        Err((b.len() as int, Error::IntegerOutOfBounds))
    } else {
        match hex_val(b[i]) {
            None => Err((0, non_hex_error())),
            Some(d) => if d >= base {
                Err((i, Error::InvalidIntegerDigit { digit: b[i] as char, base }))
            } else {
                let next = if neg {
                    acc * base - d
                } else {
                    acc * base + d
                };
                if !(lo <= next <= hi) {
                    Err((b.len() as int, Error::IntegerOutOfBounds))
                } else {
                    digits_scan(b, i + 1, next, base, neg, lo, hi)
                }
            },
        }
    }
}

/// Scanning an unsigned integer literal into the range `lo..=hi`: a base
/// prefix, then the longest run of hex digits and underscores, which must
/// not start with an underscore. With `neg` the digits count downwards
/// from zero.
pub open spec fn integer_scan(s: Seq<u8>, neg: bool, lo: int, hi: int) -> Outcome<int> {
    let base = int_base(s);
    let p: int = if base != 10 {
        2
    } else {
        0
    };
    let t = s.skip(p);
    let num = span_len(t, CharClass::Int) as int;
    if num == 0 {
        Outcome::Fail { n: p, err: ErrSpec::Plain(Error::ExpectedInteger) }
    } else if t[0] == 95 {
        Outcome::Fail { n: p, err: ErrSpec::Plain(Error::UnderscoreAtBeginning) }
    } else {
        match digits_scan(t.take(num), 0, 0, base, neg, lo, hi) {
            Ok(v) => Outcome::Done { n: p + num, value: v },
            Err((k, e)) => Outcome::Fail { n: p + k, err: ErrSpec::Plain(e) },
        }
    }
}

/// Scanning an integer literal into the type `desire`; for `Any`, into
/// `i64` when `neg` and `u64` otherwise, and then into the smallest type
/// that holds the value.
pub open spec fn desired_scan(t: Seq<u8>, neg: bool, desire: DesireInteger) -> Outcome<
    ParsedInteger,
> {
    if desire is Any {
        if neg {
            match integer_scan(t, true, i64::MIN as int, i64::MAX as int) {
                Outcome::Done { n, value } => Outcome::Done { n, value: smallest_signed(value) },
                Outcome::Fail { n, err } => Outcome::Fail { n, err },
            }
        } else {
            match integer_scan(t, false, 0, u64::MAX as int) {
                Outcome::Done { n, value } => Outcome::Done { n, value: smallest_unsigned(value) },
                Outcome::Fail { n, err } => Outcome::Fail { n, err },
            }
        }
    } else {
        match integer_scan(t, neg, kind_min(desire), kind_max(desire)) {
            Outcome::Done { n, value } => Outcome::Done { n, value: parsed_as(desire, value) },
            Outcome::Fail { n, err } => Outcome::Fail { n, err },
        }
    }
}

/// The integer type named by a suffix at the start of `r` (`i8` to `u64`,
/// not followed by an identifier byte), or `Any` if there is none.
pub open spec fn suffix_kind(r: Seq<u8>) -> DesireInteger {
    if spec_ident_follows(r, lit("i8")) {
        DesireInteger::I8
    } else if spec_ident_follows(r, lit("i16")) {
        DesireInteger::I16
    } else if spec_ident_follows(r, lit("i32")) {
        DesireInteger::I32
    } else if spec_ident_follows(r, lit("i64")) {
        DesireInteger::I64
    } else if spec_ident_follows(r, lit("u8")) {
        DesireInteger::U8
    } else if spec_ident_follows(r, lit("u16")) {
        DesireInteger::U16
    } else if spec_ident_follows(r, lit("u32")) {
        DesireInteger::U32
    } else if spec_ident_follows(r, lit("u64")) {
        DesireInteger::U64
    } else {
        DesireInteger::Any
    }
}

/// The type suffix after the `num` digit bytes at the start of `t`.
pub open spec fn suffix_after(t: Seq<u8>, num: int) -> DesireInteger {
    if 0 <= num < t.len() && (t[num] == 105 || t[num] == 117) {
        suffix_kind(t.skip(num))
    } else {
        DesireInteger::Any
    }
}

/// Whether the suffix is read after an integer literal that ended so:
/// it is, unless the literal started with an underscore or held a digit
/// too large for its base.
pub open spec fn reads_suffix(o: Outcome<ParsedInteger>) -> bool {
    match o {
        Outcome::Done { .. } => true,
        Outcome::Fail { err, .. } => !(err == ErrSpec::Plain(Error::UnderscoreAtBeginning) || (
        err matches ErrSpec::Plain(e) && e is InvalidIntegerDigit)),
    }
}

/// Scanning an integer literal into the type `k` that its suffix names,
/// and then the suffix, unless the literal was malformed.
pub open spec fn suffixed_scan(t: Seq<u8>, neg: bool, k: DesireInteger) -> Outcome<ParsedInteger> {
    let o = desired_scan(t, neg, k);
    if reads_suffix(o) {
        o.shift(ident_scan(t.skip(o.consumed())).consumed())
    } else {
        o
    }
}

/// Scanning a signed integer literal: an optional `+` or `-`, the literal,
/// and an optional type suffix, which takes precedence over `desire`.
#[verifier::opaque]
pub open spec fn any_integer_scan(s: Seq<u8>, desire: DesireInteger) -> Outcome<ParsedInteger> {
    if s.len() == 0 {
        Outcome::Fail { n: 0, err: ErrSpec::Plain(Error::Eof) }
    } else {
        let sg: int = if s[0] == 43 || s[0] == 45 {
            1
        } else {
            0
        };
        let neg = s[0] == 45;
        let t = s.skip(sg);
        let k = suffix_after(t, span_len(t, CharClass::Int) as int);
        if !(k is Any) {
            suffixed_scan(t, neg, k).shift(sg)
        } else {
            desired_scan(t, neg, desire).shift(sg)
        }
    }
}

impl<'a> Bytes<'a> {
    /// Accumulates the digits `b`, which the input starts with, into a `T`;
    /// see [`digits_scan`].
    fn calc_num<T: Num>(&mut self, b: &[u8], base: u8, neg: bool) -> (r: Result<T, Error>)
        requires
            old(self).wf(),
            b@.len() <= old(self).spec_rest().len(),
            b@ == old(self).spec_rest().take(b@.len() as int),
            base <= 16,
        ensures
            final(self).wf(),
            match digits_scan(b@, 0, 0, base, neg, T::min_value(), T::max_value()) {
                Ok(v) => r matches Ok(x) && x.num_value() == v && final(self).is_advance_of(
                    *old(self),
                    b@.len() as int,
                ),
                Err((k, e)) => r == Err::<T, Error>(e) && final(self).is_advance_of(*old(self), k),
            },
    {
        let ghost start = *self;
        let ghost lo = T::min_value();
        let ghost hi = T::max_value();
        let mut acc = T::from_u8(0);
        proof {
            acc.lemma_range();
            Self::lemma_advance_zero(start);
        }
        let mut i: usize = 0;
        while i < b.len()
            invariant
                *self == start,
                self.wf(),
                start == *old(self),
                b@.len() <= start.spec_rest().len(),
                b@ == start.spec_rest().take(b@.len() as int),
                base <= 16,
                i <= b@.len(),
                lo == T::min_value(),
                hi == T::max_value(),
                digits_scan(b@, 0, 0, base, neg, lo, hi) == digits_scan(
                    b@,
                    i as int,
                    acc.num_value(),
                    base,
                    neg,
                    lo,
                    hi,
                ),
            decreases b@.len() - i,
        {
            proof {
                acc.lemma_range();
            }
            let byte = b[i];
            if byte == 95u8 {
                i = i + 1;
            } else {
                let ghost before = acc.num_value();
                if acc.checked_mul_ext(base) {
                    let _ = self.advance(b.len());
                    return Err(Error::IntegerOutOfBounds);
                }
                let digit = match self.decode_hex(byte) {
                    Ok(d) => d,
                    Err(e) => {
                        proof {
                            Self::lemma_advance_zero(start);
                        }
                        return Err(e);
                    },
                };
                if digit >= base {
                    let _ = self.advance(i);
                    return Err(Error::InvalidIntegerDigit { digit: byte as char, base });
                }
                let overflow = if neg {
                    acc.checked_sub_ext(digit)
                } else {
                    acc.checked_add_ext(digit)
                };
                if overflow {
                    let _ = self.advance(b.len());
                    return Err(Error::IntegerOutOfBounds);
                }
                i = i + 1;
            }
        }
        let _ = self.advance(b.len());
        Ok(acc)
    }

    /// Reads an integer literal into a `T`; a `sign` that is not positive
    /// makes it negative. See [`integer_scan`].
    pub fn parse_integer<T: Num>(&mut self, sign: i8) -> (r: Result<T, Error>)
        requires
            old(self).wf(),
        ensures
            final(self).wf(),
            realizes(
                integer_scan(old(self).spec_rest(), sign <= 0, T::min_value(), T::max_value()),
                r,
                |x: T| x.num_value(),
                *final(self),
                *old(self),
            ),
    {
        let ghost start = *self;
        let ghost s = self.spec_rest();
        let bytes = self.bytes();
        let base: u8 = if bytes.len() > 1 && bytes[0] == 48u8 {
            if bytes[1] == 120u8 {
                16
            } else if bytes[1] == 98u8 {
                2
            } else if bytes[1] == 111u8 {
                8
            } else {
                10
            }
        } else {
            10
        };
        proof {
            Self::lemma_advance_zero(start);
        }
        if base != 10 {
            let _ = self.advance(2);
        }
        let ghost p: int = if base != 10 {
            2
        } else {
            0
        };
        let ghost mid = *self;
        assert(mid.spec_rest() == s.skip(p));
        let num_bytes = self.next_bytes_contained_in(CharClass::Int);
        if num_bytes == 0 {
            return Err(Error::ExpectedInteger);
        }
        let rest = self.bytes();
        if rest[0] == 95u8 {
            return Err(Error::UnderscoreAtBeginning);
        }
        proof {
            lemma_span_len(mid.spec_rest(), CharClass::Int);
        }
        let digits = vstd::slice::slice_subrange(rest, 0, num_bytes);
        let r = self.calc_num(digits, base, sign <= 0);
        proof {
            let o = digits_scan(digits@, 0, 0, base, sign <= 0, T::min_value(), T::max_value());
            match o {
                Ok(v) => {
                    Self::lemma_advance_trans(start, mid, *self, p, num_bytes as int);
                },
                Err((k, e)) => {
                    Self::lemma_advance_trans(start, mid, *self, p, k);
                },
            }
        }
        r
    }

    /// Reads an integer literal into the type `desire`; see
    /// [`desired_scan`].
    fn parse_desired(&mut self, sign: i8, desire: DesireInteger) -> (r: Result<
        ParsedInteger,
        Error,
    >)
        requires
            old(self).wf(),
        ensures
            final(self).wf(),
            realizes(
                desired_scan(old(self).spec_rest(), sign <= 0, desire),
                r,
                |p: ParsedInteger| p,
                *final(self),
                *old(self),
            ),
    {
        match desire {
            DesireInteger::I8 => match self.parse_integer::<i8>(sign) {
                Ok(v) => Ok(ParsedInteger::I8(v)),
                Err(e) => Err(e),
            },
            DesireInteger::I16 => match self.parse_integer::<i16>(sign) {
                Ok(v) => Ok(ParsedInteger::I16(v)),
                Err(e) => Err(e),
            },
            DesireInteger::I32 => match self.parse_integer::<i32>(sign) {
                Ok(v) => Ok(ParsedInteger::I32(v)),
                Err(e) => Err(e),
            },
            DesireInteger::I64 => match self.parse_integer::<i64>(sign) {
                Ok(v) => Ok(ParsedInteger::I64(v)),
                Err(e) => Err(e),
            },
            DesireInteger::U8 => match self.parse_integer::<u8>(sign) {
                Ok(v) => Ok(ParsedInteger::U8(v)),
                Err(e) => Err(e),
            },
            DesireInteger::U16 => match self.parse_integer::<u16>(sign) {
                Ok(v) => Ok(ParsedInteger::U16(v)),
                Err(e) => Err(e),
            },
            DesireInteger::U32 => match self.parse_integer::<u32>(sign) {
                Ok(v) => Ok(ParsedInteger::U32(v)),
                Err(e) => Err(e),
            },
            DesireInteger::U64 => match self.parse_integer::<u64>(sign) {
                Ok(v) => Ok(ParsedInteger::U64(v)),
                Err(e) => Err(e),
            },
            DesireInteger::Any => if sign <= 0 {
                let signed = self.parse_integer::<i64>(-1)?;
                if -128 <= signed && signed <= 127 {
                    Ok(ParsedInteger::I8(signed as i8))
                } else if -32768 <= signed && signed <= 32767 {
                    Ok(ParsedInteger::I16(signed as i16))
                } else if -2147483648 <= signed && signed <= 2147483647 {
                    Ok(ParsedInteger::I32(signed as i32))
                } else {
                    Ok(ParsedInteger::I64(signed))
                }
            } else {
                let unsigned = self.parse_integer::<u64>(1)?;
                if unsigned <= 255 {
                    Ok(ParsedInteger::U8(unsigned as u8))
                } else if unsigned <= 65535 {
                    Ok(ParsedInteger::U16(unsigned as u16))
                } else if unsigned <= 4294967295 {
                    Ok(ParsedInteger::U32(unsigned as u32))
                } else {
                    Ok(ParsedInteger::U64(unsigned))
                }
            },
        }
    }

    /// The integer type suffix after the next `num` bytes, if any; see
    /// [`suffix_after`].
    fn integer_suffix(&self, num: usize) -> (k: DesireInteger)
        requires
            self.wf(),
        ensures
            k == suffix_after(self.spec_rest(), num as int),
    {
        let bytes = self.bytes();
        if num < bytes.len() && (bytes[num] == 105u8 || bytes[num] == 117u8) {
            let mut rest = *self;
            let _ = rest.advance(num);
            if rest.check_ident("i8") {
                DesireInteger::I8
            } else if rest.check_ident("i16") {
                DesireInteger::I16
            } else if rest.check_ident("i32") {
                DesireInteger::I32
            } else if rest.check_ident("i64") {
                DesireInteger::I64
            } else if rest.check_ident("u8") {
                DesireInteger::U8
            } else if rest.check_ident("u16") {
                DesireInteger::U16
            } else if rest.check_ident("u32") {
                DesireInteger::U32
            } else if rest.check_ident("u64") {
                DesireInteger::U64
            } else {
                DesireInteger::Any
            }
        } else {
            DesireInteger::Any
        }
    }

    /// Reads a signed integer literal with an optional type suffix, into
    /// the type that the suffix names, or else into the type `desire`; see
    /// [`any_integer_scan`].
    pub fn any_integer(&mut self, desire: DesireInteger) -> (r: Result<ParsedInteger, Error>)
        requires
            old(self).wf(),
        ensures
            final(self).wf(),
            realizes(
                any_integer_scan(old(self).spec_rest(), desire),
                r,
                |p: ParsedInteger| p,
                *final(self),
                *old(self),
            ),
    {
        proof {
            reveal(any_integer_scan);
        }
        let ghost start = *self;
        let ghost s = self.spec_rest();
        proof {
            Self::lemma_advance_zero(start);
        }
        let first = self.peek_or_eof()?;
        let is_negative = if first == 43u8 {
            let _ = self.advance_single();
            false
        } else if first == 45u8 {
            let _ = self.advance_single();
            true
        } else {
            false
        };
        let sign: i8 = if is_negative {
            -1
        } else {
            1
        };
        let ghost sg: int = if first == 43u8 || first == 45u8 {
            1
        } else {
            0
        };
        let ghost after_sign = *self;
        assert(after_sign.spec_rest() == s.skip(sg));
        let num_bytes = self.next_bytes_contained_in(CharClass::Int);
        let kind = self.integer_suffix(num_bytes);
        match kind {
            DesireInteger::Any => {
                let r = self.parse_desired(sign, desire);
                proof {
                    Self::lemma_realizes_shift(
                        desired_scan(after_sign.spec_rest(), sign <= 0, desire),
                        r,
                        |p: ParsedInteger| p,
                        *self,
                        after_sign,
                        start,
                        sg,
                    );
                }
                r
            },
            _ => {
                let r = self.parse_suffixed(sign, kind);
                proof {
                    Self::lemma_realizes_shift(
                        suffixed_scan(after_sign.spec_rest(), sign <= 0, kind),
                        r,
                        |p: ParsedInteger| p,
                        *self,
                        after_sign,
                        start,
                        sg,
                    );
                }
                r
            },
        }
    }

    /// Reads an integer literal into the type `kind` that its suffix names,
    /// and the suffix after it; see [`suffixed_scan`].
    fn parse_suffixed(&mut self, sign: i8, kind: DesireInteger) -> (r: Result<ParsedInteger, Error>)
        requires
            old(self).wf(),
        ensures
            final(self).wf(),
            realizes(
                suffixed_scan(old(self).spec_rest(), sign <= 0, kind),
                r,
                |p: ParsedInteger| p,
                *final(self),
                *old(self),
            ),
    {
        let ghost start = *self;
        let r = self.parse_desired(sign, kind);
        let ghost o = desired_scan(start.spec_rest(), sign <= 0, kind);
        let ghost after_int = *self;
        let keep = match &r {
            Err(Error::UnderscoreAtBeginning) => false,
            Err(Error::InvalidIntegerDigit { .. }) => false,
            _ => true,
        };
        if keep {
            let _ = self.identifier();
            proof {
                Self::lemma_advance_trans(
                    start,
                    after_int,
                    *self,
                    o.consumed(),
                    ident_scan(after_int.spec_rest()).consumed(),
                );
            }
        }
        r
    }
}

} // verus!
