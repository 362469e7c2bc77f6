//! String literals: quoted strings with escape sequences, and raw strings
//! fenced by `r`, hashes and quotes.

use vstd::prelude::*;
use vstd::utf8::*;

use crate::error::Error;
use crate::parse::{
    err_matches, escape_scan, lemma_span_len, realizes, span_len, unicode_digits_scan, Bytes,
    CharClass, ErrSpec, Outcome,
};
use crate::util::str_from_utf8;

verus! {

/// A string read from the input: borrowed from it where the text needed no
/// change, or built anew where escapes had to be decoded.
#[derive(Clone, Debug)]
pub enum ParsedStr<'a> {
    Allocated(String),
    Slice(&'a str),
}

/// Whether the string was built anew, and its characters.
pub open spec fn parsed_str_view(p: ParsedStr) -> (bool, Seq<char>) {
    match p {
        ParsedStr::Allocated(s) => (true, s@),
        ParsedStr::Slice(s) => (false, s@),
    }
}

/// The digits of a `\u{...}` escape are read within the input.
pub proof fn lemma_unicode_digits_scan_len(s: Seq<u8>, acc: u32, k: nat)
    ensures
        0 <= unicode_digits_scan(s, acc, k).consumed() <= s.len(),
    decreases 6 - k,
{
    if k < 6 && s.len() > 0 && s[0] != 125 {
        if let Some(d) = crate::parse::hex_val(s[0]) {
            lemma_unicode_digits_scan_len(s.skip(1), (acc * 16 + d) as u32, k + 1);
        }
    }
}

/// An escape sequence is read within the input, and one that is decoded
/// reads at least one byte.
pub proof fn lemma_escape_scan_len(s: Seq<u8>)
    ensures
        0 <= escape_scan(s).consumed() <= s.len(),
        escape_scan(s) is Done ==> escape_scan(s).consumed() >= 1,
{
    if s.len() > 1 && s[0] == 117 && s[1] == 123 {
        lemma_unicode_digits_scan_len(s.skip(1).skip(1), 0, 0);
    }
}

/// Scanning the rest of a quoted string after a backslash, the bytes `acc`
/// of its text gathered so far: the escape, then text up to the next
/// backslash or the closing quote. The value is all the bytes of the text.
pub open spec fn escaped_rest_scan(s: Seq<u8>, acc: Seq<u8>) -> Outcome<Seq<u8>>
    decreases s.len(),
{
    match escape_scan(s) {
        Outcome::Fail { n, err } => Outcome::Fail { n, err },
        Outcome::Done { n: k, value: c } => {
            let t = s.skip(k);
            let acc2 = acc + encode_scalar(c as u32);
            let i = span_len(t, CharClass::NotQuoteOrBackslash) as int;
            if i == t.len() {
                Outcome::Fail { n: k, err: ErrSpec::Plain(Error::ExpectedStringEnd) }
            } else if t[i] == 34 {
                Outcome::Done { n: k + i + 1, value: acc2 + t.take(i) }
            } else {
                proof {
                    lemma_escape_scan_len(s);
                    lemma_span_len(t, CharClass::NotQuoteOrBackslash);
                }
                escaped_rest_scan(t.skip(i + 1), acc2 + t.take(i)).shift(k + i + 1)
            }
        },
    }
}

/// Scanning a quoted string after its opening quote. Text without escapes
/// is borrowed; text with escapes is built anew and must then be valid
/// UTF-8 as a whole.
pub open spec fn escaped_string_scan(s: Seq<u8>) -> Outcome<(bool, Seq<char>)> {
    let i = span_len(s, CharClass::NotQuoteOrBackslash) as int;
    if i == s.len() {
        Outcome::Fail { n: 0, err: ErrSpec::Plain(Error::ExpectedStringEnd) }
    } else if s[i] == 34 {
        if valid_utf8(s.take(i)) {
            Outcome::Done { n: i + 1, value: (false, decode_utf8(s.take(i))) }
        } else {
            Outcome::Fail { n: 0, err: ErrSpec::Utf8 }
        }
    } else {
        match escaped_rest_scan(s.skip(i + 1), s.take(i)) {
            Outcome::Fail { n, err } => Outcome::Fail { n: n + i + 1, err },
            Outcome::Done { n, value } => if valid_utf8(value) {
                Outcome::Done { n: n + i + 1, value: (true, decode_utf8(value)) }
            } else {
                Outcome::Fail { n: n + i + 1, err: ErrSpec::Utf8 }
            },
        }
    }
}

/// Whether the closing fence of a raw string with `h` hashes, a quote and
/// then `h` hashes, stands at `j` in `u`.
pub open spec fn raw_close_at(u: Seq<u8>, j: int, h: int) -> bool {
    &&& 0 <= j
    &&& j + h + 1 <= u.len()
    &&& u[j] == 34
    &&& forall|k: int| 1 <= k <= h ==> #[trigger] u[j + k] == 35
}

/// The first place at or after `j` where the closing fence of a raw string
/// with `h` hashes stands in `u`.
pub open spec fn raw_close_from(u: Seq<u8>, h: int, j: int) -> Option<int>
    decreases u.len() - j,
{
    if j < 0 || h < 0 || j + h + 1 > u.len() {
        None
    } else if raw_close_at(u, j, h) {
        Some(j)
    } else {
        raw_close_from(u, h, j + 1)
    }
}

/// A fence that the search finds is one, and lies at or after where the
/// search started.
pub proof fn lemma_raw_close_from(u: Seq<u8>, h: int, j: int)
    ensures
        raw_close_from(u, h, j) matches Some(k) ==> j <= k && raw_close_at(u, k, h),
    decreases u.len() - j,
{
    if !(j < 0 || h < 0 || j + h + 1 > u.len()) && !raw_close_at(u, j, h) {
        lemma_raw_close_from(u, h, j + 1);
    }
}

/// Scanning a raw string after its `r`: hashes, a quote, the text, and a
/// quote followed by as many hashes. The text is borrowed.
pub open spec fn raw_string_scan(s: Seq<u8>) -> Outcome<(bool, Seq<char>)> {
    let h = span_len(s, CharClass::Hash) as int;
    let t = s.skip(h);
    if !(t.len() > 0 && t[0] == 34) {
        Outcome::Fail { n: h, err: ErrSpec::Plain(Error::ExpectedString) }
    } else {
        let u = t.skip(1);
        match raw_close_from(u, h, 0) {
            None => Outcome::Fail { n: h + 1, err: ErrSpec::Plain(Error::ExpectedStringEnd) },
            Some(j) => if valid_utf8(u.take(j)) {
                Outcome::Done { n: h + 1 + j + h + 1, value: (false, decode_utf8(u.take(j))) }
            } else {
                Outcome::Fail { n: h + 1, err: ErrSpec::Utf8 }
            },
        }
    }
}

/// The rest of a quoted string is read within the input.
pub proof fn lemma_escaped_rest_scan_len(s: Seq<u8>, acc: Seq<u8>)
    ensures
        0 <= escaped_rest_scan(s, acc).consumed() <= s.len(),
    decreases s.len(),
{
    lemma_escape_scan_len(s);
    if let Outcome::Done { n: k, value: c } = escape_scan(s) {
        let t = s.skip(k);
        lemma_span_len(t, CharClass::NotQuoteOrBackslash);
        let i = span_len(t, CharClass::NotQuoteOrBackslash) as int;
        if i < t.len() && t[i] != 34 {
            lemma_escaped_rest_scan_len(t.skip(i + 1), acc + encode_scalar(c as u32) + t.take(i));
        }
    }
}

/// Scanning a string literal: a quoted string or a raw string.
#[verifier::opaque]
pub open spec fn string_scan(s: Seq<u8>) -> Outcome<(bool, Seq<char>)> {
    if s.len() > 0 && s[0] == 34 {
        escaped_string_scan(s.skip(1)).shift(1)
    } else if s.len() > 0 && s[0] == 114 {
        raw_string_scan(s.skip(1)).shift(1)
    } else {
        Outcome::Fail { n: 0, err: ErrSpec::Plain(Error::ExpectedString) }
    }
}

/// A string literal is read within the input.
pub proof fn lemma_string_scan_len(s: Seq<u8>)
    ensures
        0 <= string_scan(s).consumed() <= s.len(),
{
    reveal(string_scan);
    if s.len() > 0 && s[0] == 34 {
        let t = s.skip(1);
        lemma_span_len(t, CharClass::NotQuoteOrBackslash);
        let i = span_len(t, CharClass::NotQuoteOrBackslash) as int;
        if i < t.len() && t[i] != 34 {
            lemma_escaped_rest_scan_len(t.skip(i + 1), t.take(i));
        }
    } else if s.len() > 0 && s[0] == 114 {
        let t = s.skip(1);
        lemma_span_len(t, CharClass::Hash);
        let h = span_len(t, CharClass::Hash) as int;
        let u = t.skip(h);
        if u.len() > 0 && u[0] == 34 {
            lemma_raw_close_from(u.skip(1), h, 0);
        }
    }
}

/// Appends the UTF-8 encoding of `c` to `out`.
pub fn push_utf8(out: &mut Vec<u8>, c: char)
    ensures
        final(out)@ == old(out)@ + encode_scalar(c as u32),
{
    let v = c as u32;
    proof {
        char_is_scalar(c);
    }
    if v <= 0x7F {
        out.push((v & 0x7F) as u8);
    } else if v <= 0x7FF {
        out.push(0xC0u8 | ((v >> 6) & 0x1F) as u8);
        out.push(0x80u8 | (v & 0x3F) as u8);
    } else if v <= 0xFFFF {
        out.push(0xE0u8 | ((v >> 12) & 0x0F) as u8);
        out.push(0x80u8 | ((v >> 6) & 0x3F) as u8);
        out.push(0x80u8 | (v & 0x3F) as u8);
    } else {
        out.push(0xF0u8 | ((v >> 18) & 0x7) as u8);
        out.push(0x80u8 | ((v >> 12) & 0x3F) as u8);
        out.push(0x80u8 | ((v >> 6) & 0x3F) as u8);
        out.push(0x80u8 | (v & 0x3F) as u8);
    }
    proof {
        assert(out@ =~= old(out)@ + encode_scalar(c as u32));
    }
}

/// Whether the closing fence of a raw string with `h` hashes stands at `j`
/// in `u`; see [`raw_close_at`].
fn raw_close_here(u: &[u8], j: usize, h: usize) -> (b: bool)
    requires
        j + h + 1 <= u@.len(),
    ensures
        b == raw_close_at(u@, j as int, h as int),
{
    if u[j] != 34u8 {
        return false;
    }
    let mut k: usize = 1;
    while k <= h
        invariant
            j + h + 1 <= u@.len(),
            1 <= k <= h + 1,
            j + h < u.len(),
            u@[j as int] == 34,
            forall|m: int| 1 <= m < k ==> #[trigger] u@[j + m] == 35,
        decreases h + 1 - k,
    {
        if u[j + k] != 35u8 {
            return false;
        }
        k = k + 1;
    }
    true
}

/// The first place where the closing fence of a raw string with `h`
/// hashes stands in `u`; see [`raw_close_from`].
fn raw_close(u: &[u8], h: usize) -> (r: Option<usize>)
    ensures
        match raw_close_from(u@, h as int, 0) {
            Some(j) => r == Some(j as usize),
            None => r is None,
        },
{
    let mut j: usize = 0;
    while h < u.len() && j < u.len() - h
        invariant
            raw_close_from(u@, h as int, 0) == raw_close_from(u@, h as int, j as int),
        decreases u@.len() - j,
    {
        if raw_close_here(u, j, h) {
            return Some(j);
        }
        j = j + 1;
    }
    None
}

impl<'a> Bytes<'a> {
    /// Reads the rest of a quoted string after a backslash, appending the
    /// bytes of its text to `acc`; see [`escaped_rest_scan`].
    fn escaped_rest(&mut self, acc: &mut Vec<u8>) -> (r: Result<(), Error>)
        requires
            old(self).wf(),
        ensures
            final(self).wf(),
            match escaped_rest_scan(old(self).spec_rest(), old(acc)@) {
                Outcome::Done { n, value } => r is Ok && final(acc)@ == value
                    && final(self).is_advance_of(*old(self), n),
                Outcome::Fail { n, err } => r matches Err(e) && err_matches(e, err)
                    && final(self).is_advance_of(*old(self), n),
            },
        decreases old(self).spec_rest().len(),
    {
        let ghost start = *self;
        let ghost s = self.spec_rest();
        proof {
            lemma_escape_scan_len(s);
        }
        let c = self.parse_escape()?;
        push_utf8(acc, c);
        let ghost mid = *self;
        let ghost k = escape_scan(s).consumed();
        let i = self.next_bytes_contained_in(CharClass::NotQuoteOrBackslash);
        let bytes = self.bytes();
        proof {
            lemma_span_len(bytes@, CharClass::NotQuoteOrBackslash);
            assert(bytes@ == s.skip(k));
        }
        if i == bytes.len() {
            return Err(Error::ExpectedStringEnd);
        }
        acc.extend_from_slice(vstd::slice::slice_subrange(bytes, 0, i));
        let end = bytes[i] == 34u8;
        let _ = self.advance(i + 1);
        proof {
            Self::lemma_advance_trans(start, mid, *self, k, i + 1);
        }
        if end {
            Ok(())
        } else {
            let ghost before = *self;
            let ghost acc_before = acc@;
            assert(acc_before == old(acc)@ + encode_scalar(c as u32) + bytes@.take(i as int));
            assert(before.spec_rest() == bytes@.skip(i + 1));
            let r = self.escaped_rest(acc);
            proof {
                Self::lemma_advance_trans(
                    start,
                    before,
                    *self,
                    k + i + 1,
                    escaped_rest_scan(before.spec_rest(), acc_before).consumed(),
                );
            }
            r
        }
    }

    /// Reads a quoted string after its opening quote; see
    /// [`escaped_string_scan`].
    fn escaped_string(&mut self) -> (r: Result<ParsedStr<'a>, Error>)
        requires
            old(self).wf(),
        ensures
            final(self).wf(),
            realizes(
                escaped_string_scan(old(self).spec_rest()),
                r,
                |p: ParsedStr<'a>| parsed_str_view(p),
                *final(self),
                *old(self),
            ),
    {
        let ghost start = *self;
        proof {
            Self::lemma_advance_zero(start);
        }
        let bytes = self.bytes();
        let i = self.next_bytes_contained_in(CharClass::NotQuoteOrBackslash);
        proof {
            lemma_span_len(bytes@, CharClass::NotQuoteOrBackslash);
        }
        if i == bytes.len() {
            return Err(Error::ExpectedStringEnd);
        }
        let text = vstd::slice::slice_subrange(bytes, 0, i);
        if bytes[i] == 34u8 {
            match str_from_utf8(text) {
                Ok(s) => {
                    let _ = self.advance(i + 1);
                    Ok(ParsedStr::Slice(s))
                },
                Err(e) => Err(Error::Utf8Error(e)),
            }
        } else {
            let mut acc: Vec<u8> = Vec::new();
            acc.extend_from_slice(text);
            let _ = self.advance(i + 1);
            let ghost mid = *self;
            assert(acc@ == text@);
            assert(mid.spec_rest() == bytes@.skip(i + 1));
            assert(text@ == bytes@.take(i as int));
            let r = self.escaped_rest(&mut acc);
            proof {
                Self::lemma_advance_trans(start, mid, *self, i + 1, escaped_rest_scan(
                    mid.spec_rest(),
                    text@,
                ).consumed());
            }
            r?;
            match str_from_utf8(acc.as_slice()) {
                Ok(s) => Ok(ParsedStr::Allocated(s.to_owned())),
                Err(e) => Err(Error::Utf8Error(e)),
            }
        }
    }

    /// Reads a raw string after its `r`; see [`raw_string_scan`].
    fn raw_string(&mut self) -> (r: Result<ParsedStr<'a>, Error>)
        requires
            old(self).wf(),
        ensures
            final(self).wf(),
            realizes(
                raw_string_scan(old(self).spec_rest()),
                r,
                |p: ParsedStr<'a>| parsed_str_view(p),
                *final(self),
                *old(self),
            ),
    {
        let ghost start = *self;
        let ghost s = self.spec_rest();
        let h = self.next_bytes_contained_in(CharClass::Hash);
        proof {
            lemma_span_len(s, CharClass::Hash);
        }
        let _ = self.advance(h);
        let ghost hashed = *self;
        if !self.eat_if(34u8) {
            return Err(Error::ExpectedString);
        }
        proof {
            Self::lemma_advance_trans(start, hashed, *self, h as int, 1);
            assert(self.spec_rest() == s.skip(h as int).skip(1));
        }
        let ghost open = *self;
        let u = self.bytes();
        let j = match raw_close(u, h) {
            Some(j) => j,
            None => {
                return Err(Error::ExpectedStringEnd);
            },
        };
        proof {
            lemma_raw_close_from(u@, h as int, 0);
        }
        let text = vstd::slice::slice_subrange(u, 0, j);
        assert(text@ == u@.take(j as int));
        let st = match str_from_utf8(text) {
            Ok(st) => st,
            Err(e) => {
                return Err(Error::Utf8Error(e));
            },
        };
        let _ = self.advance(j + h + 1);
        proof {
            Self::lemma_advance_trans(start, open, *self, h + 1, j + h + 1);
        }
        Ok(ParsedStr::Slice(st))
    }

    /// Reads a string literal, quoted or raw; see [`string_scan`].
    pub fn string(&mut self) -> (r: Result<ParsedStr<'a>, Error>)
        requires
            old(self).wf(),
        ensures
            final(self).wf(),
            realizes(
                string_scan(old(self).spec_rest()),
                r,
                |p: ParsedStr<'a>| parsed_str_view(p),
                *final(self),
                *old(self),
            ),
    {
        proof {
            reveal(string_scan);
        }
        let ghost start = *self;
        let ghost s = self.spec_rest();
        if self.eat_if(34u8) {
            let ghost mid = *self;
            assert(mid.spec_rest() == s.skip(1));
            let r = self.escaped_string();
            proof {
                Self::lemma_realizes_shift(
                    escaped_string_scan(mid.spec_rest()),
                    r,
                    |p: ParsedStr<'a>| parsed_str_view(p),
                    *self,
                    mid,
                    start,
                    1,
                );
            }
            r
        } else if self.eat_if(114u8) {
            let ghost mid = *self;
            assert(mid.spec_rest() == s.skip(1));
            let r = self.raw_string();
            proof {
                Self::lemma_realizes_shift(
                    raw_string_scan(mid.spec_rest()),
                    r,
                    |p: ParsedStr<'a>| parsed_str_view(p),
                    *self,
                    mid,
                    start,
                    1,
                );
            }
            r
        } else {
            proof {
                Self::lemma_advance_zero(start);
            }
            Err(Error::ExpectedString)
        }
    }
}

} // verus!
