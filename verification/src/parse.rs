//! The byte-level RON lexer: character classes, the cursor over the input,
//! and the scanners for every RON token.

use vstd::prelude::*;
use vstd::string::StringSliceAdditionalSpecFns;
use vstd::utf8::*;

use crate::error::{pos_after, step_pos, Error, Position, SpannedError};
use crate::extensions::Extensions;
use crate::util::{ascii_chars, lemma_ascii_utf8, lemma_lit_ascii, str_from_utf8};

pub mod integer;
pub mod string;
pub mod structs;
pub mod float;

pub use self::integer::{DesireInteger, Num, ParsedInteger};
pub use self::string::ParsedStr;
pub use self::structs::{NewtypeMode, StructType, TupleMode};
pub use self::float::{DesireFloat, FloatLiteral};

verus! {

// ---------------------------------------------------------------------------
// Character classes
// ---------------------------------------------------------------------------

pub open spec fn spec_is_digit(c: u8) -> bool {
    48 <= c <= 57
}

/// `[0-9A-Fa-f_]`
pub open spec fn spec_is_int_char(c: u8) -> bool {
    spec_is_digit(c) || (65 <= c <= 70) || (97 <= c <= 102) || c == 95
}

/// `[0-9.Ee+-_]`
pub open spec fn spec_is_float_char(c: u8) -> bool {
    spec_is_digit(c) || c == 46 || c == 69 || c == 101 || c == 43 || c == 45 || c == 95
}

/// `[A-Za-z_]`
pub open spec fn spec_is_ident_first_char(c: u8) -> bool {
    (65 <= c <= 90) || (97 <= c <= 122) || c == 95
}

/// `[A-Za-z_0-9]`
pub open spec fn spec_is_ident_other_char(c: u8) -> bool {
    spec_is_ident_first_char(c) || spec_is_digit(c)
}

/// `[A-Za-z_0-9.+-]`
pub open spec fn spec_is_ident_raw_char(c: u8) -> bool {
    spec_is_ident_other_char(c) || c == 46 || c == 43 || c == 45
}

/// `[\t\n\r ]`
pub open spec fn spec_is_whitespace_char(c: u8) -> bool {
    c == 9 || c == 10 || c == 13 || c == 32
}

pub fn is_int_char(c: u8) -> (b: bool)
    ensures
        b == spec_is_int_char(c),
{
    (48u8 <= c && c <= 57u8) || (65u8 <= c && c <= 70u8) || (97u8 <= c && c <= 102u8) || c == 95u8
}

pub fn is_float_char(c: u8) -> (b: bool)
    ensures
        b == spec_is_float_char(c),
{
    (48u8 <= c && c <= 57u8) || c == 46u8 || c == 69u8 || c == 101u8 || c == 43u8 || c == 45u8
        || c == 95u8
}

pub fn is_ident_first_char(c: u8) -> (b: bool)
    ensures
        b == spec_is_ident_first_char(c),
{
    (65u8 <= c && c <= 90u8) || (97u8 <= c && c <= 122u8) || c == 95u8
}

pub fn is_ident_other_char(c: u8) -> (b: bool)
    ensures
        b == spec_is_ident_other_char(c),
{
    is_ident_first_char(c) || (48u8 <= c && c <= 57u8)
}

pub fn is_ident_raw_char(c: u8) -> (b: bool)
    ensures
        b == spec_is_ident_raw_char(c),
{
    is_ident_other_char(c) || c == 46u8 || c == 43u8 || c == 45u8
}

pub fn is_whitespace_char(c: u8) -> (b: bool)
    ensures
        b == spec_is_whitespace_char(c),
{
    c == 9u8 || c == 10u8 || c == 13u8 || c == 32u8
}

/// The classes of bytes over which the lexer scans ahead.
#[derive(Clone, Copy, Debug, PartialEq, Eq, Structural)]
pub enum CharClass {
    Int,
    Float,
    IdentFirst,
    IdentOther,
    IdentRaw,
    Whitespace,
    /// Any byte but `/` and `*`.
    NotSlashOrStar,
    /// Any byte but `\n`.
    NotNewline,
    /// The byte `#`.
    Hash,
    /// Any byte but `"` and `\\`.
    NotQuoteOrBackslash,
    /// Any byte but `'`.
    NotApostrophe,
}

pub open spec fn in_class(class: CharClass, c: u8) -> bool {
    match class {
        CharClass::Int => spec_is_int_char(c),
        CharClass::Float => spec_is_float_char(c),
        CharClass::IdentFirst => spec_is_ident_first_char(c),
        CharClass::IdentOther => spec_is_ident_other_char(c),
        CharClass::IdentRaw => spec_is_ident_raw_char(c),
        CharClass::Whitespace => spec_is_whitespace_char(c),
        CharClass::NotSlashOrStar => c != 47 && c != 42,
        CharClass::NotNewline => c != 10,
        CharClass::Hash => c == 35,
        CharClass::NotQuoteOrBackslash => c != 34 && c != 92,
        CharClass::NotApostrophe => c != 39,
    }
}

pub fn is_in_class(class: CharClass, c: u8) -> (b: bool)
    ensures
        b == in_class(class, c),
{
    match class {
        CharClass::Int => is_int_char(c),
        CharClass::Float => is_float_char(c),
        CharClass::IdentFirst => is_ident_first_char(c),
        CharClass::IdentOther => is_ident_other_char(c),
        CharClass::IdentRaw => is_ident_raw_char(c),
        CharClass::Whitespace => is_whitespace_char(c),
        CharClass::NotSlashOrStar => c != 47u8 && c != 42u8,
        CharClass::NotNewline => c != 10u8,
        CharClass::Hash => c == 35u8,
        CharClass::NotQuoteOrBackslash => c != 34u8 && c != 92u8,
        CharClass::NotApostrophe => c != 39u8,
    }
}

/// The length of the longest prefix of `s` whose bytes all lie in `class`.
pub open spec fn span_len(s: Seq<u8>, class: CharClass) -> nat
    decreases s.len(),
{
    if s.len() > 0 && in_class(class, s[0]) {
        1 + span_len(s.drop_first(), class)
    } else {
        0
    }
}

/// Every byte before `span_len` is in the class, and the byte at it is not.
pub proof fn lemma_span_len(s: Seq<u8>, class: CharClass)
    ensures
        span_len(s, class) <= s.len(),
        forall|i: int| 0 <= i < span_len(s, class) ==> in_class(class, #[trigger] s[i]),
        span_len(s, class) < s.len() ==> !in_class(class, s[span_len(s, class) as int]),
    decreases s.len(),
{
    if s.len() > 0 && in_class(class, s[0]) {
        lemma_span_len(s.drop_first(), class);
        assert forall|i: int| 0 <= i < span_len(s, class) implies in_class(class, #[trigger] s[i]) by {
            if i > 0 {
                assert(s[i] == s.drop_first()[i - 1]);
            }
        }
    }
}

pub proof fn lemma_span_len_skip(s: Seq<u8>, class: CharClass, i: int)
    requires
        0 <= i < s.len(),
        in_class(class, s[i]),
    ensures
        span_len(s.skip(i), class) == 1 + span_len(s.skip(i + 1), class),
{
    assert(s.skip(i).drop_first() =~= s.skip(i + 1));
}

/// Whether `s` begins with `prefix`.
pub open spec fn starts_with(s: Seq<u8>, prefix: Seq<u8>) -> bool {
    prefix.len() <= s.len() && s.take(prefix.len() as int) == prefix
}

/// Whether `s` starts with the identifier `ident`, not followed by a byte
/// that could continue an identifier.
pub open spec fn spec_ident_follows(s: Seq<u8>, ident: Seq<u8>) -> bool {
    starts_with(s, ident) && !(ident.len() < s.len() && spec_is_ident_other_char(s[ident.len() as int]))
}

/// The UTF-8 bytes of a string.
pub open spec fn lit(s: &str) -> Seq<u8> {
    s.spec_bytes()
}

// ---------------------------------------------------------------------------
// Scan outcomes
// ---------------------------------------------------------------------------

/// An error as a scanner's specification names it: most errors exactly,
/// those that carry a `String` by the characters of that string.
pub ghost enum ErrSpec {
    Plain(Error),
    SuggestRawIdentifier(Seq<char>),
    NoSuchExtension(Seq<char>),
    DifferentStructName(&'static str, Seq<char>),
    /// Some `Utf8Error`.
    Utf8,
}

/// Whether the error `e` is the one that `spec` names.
pub open spec fn err_matches(e: Error, spec: ErrSpec) -> bool {
    match spec {
        ErrSpec::Plain(x) => e == x,
        ErrSpec::SuggestRawIdentifier(c) => e matches Error::SuggestRawIdentifier(x) && x@ == c,
        ErrSpec::NoSuchExtension(c) => e matches Error::NoSuchExtension(x) && x@ == c,
        ErrSpec::DifferentStructName(name, c) => e matches Error::ExpectedDifferentStructName {
            expected,
            found,
        } && expected == name && found@ == c,
        ErrSpec::Utf8 => e is Utf8Error,
    }
}

/// What a scanner does to the input: it reads `n` bytes, and then yields a
/// value or fails with an error.
pub ghost enum Outcome<V> {
    Done { n: int, value: V },
    Fail { n: int, err: ErrSpec },
}

impl<V> Outcome<V> {
    /// The number of bytes read.
    pub open spec fn consumed(self) -> int {
        match self {
            Outcome::Done { n, .. } => n,
            Outcome::Fail { n, .. } => n,
        }
    }

    /// The same outcome after `k` more bytes read before it.
    pub open spec fn shift(self, k: int) -> Outcome<V> {
        match self {
            Outcome::Done { n, value } => Outcome::Done { n: n + k, value },
            Outcome::Fail { n, err } => Outcome::Fail { n: n + k, err },
        }
    }
}

// ---------------------------------------------------------------------------
// Whitespace and comments
// ---------------------------------------------------------------------------

/// Scanning the inside of a block comment nested `level` deep (its opening
/// `/*` already read): the number of bytes read, and the error if the
/// comment is not closed.
pub open spec fn block_comment_scan(s: Seq<u8>, level: nat) -> (int, Option<Error>)
    decreases s.len(),
{
    if level == 0 {
        (0, None)
    } else if s.len() == 0 {
        (0, Some(Error::UnclosedBlockComment))
    } else {
        let k = span_len(s, CharClass::NotSlashOrStar);
        let t = s.skip(k as int);
        proof {
            lemma_span_len(s, CharClass::NotSlashOrStar);
        }
        if t.len() >= 2 && t[0] == 47 && t[1] == 42 {
            let r = block_comment_scan(t.skip(2), level + 1);
            (k + 2 + r.0, r.1)
        } else if t.len() >= 2 && t[0] == 42 && t[1] == 47 {
            let r = block_comment_scan(t.skip(2), (level - 1) as nat);
            (k + 2 + r.0, r.1)
        } else if t.len() == 0 {
            (k as int, Some(Error::UnclosedBlockComment))
        } else {
            let r = block_comment_scan(t.skip(1), level);
            (k + 1 + r.0, r.1)
        }
    }
}

/// Scanning one comment, if the input starts with one: the number of bytes
/// read, the error met, and whether a comment was there.
pub open spec fn comment_scan(s: Seq<u8>) -> (int, Option<Error>, bool) {
    if s.len() == 0 || s[0] != 47 {
        (0, None, false)
    } else if s.len() == 1 {
        (1, Some(Error::Eof), true)
    } else if s[1] == 47 {
        (2 + span_len(s.skip(2), CharClass::NotNewline) as int, None, true)
    } else if s[1] == 42 {
        let r = block_comment_scan(s.skip(2), 1);
        (2 + r.0, r.1, true)
    } else {
        (2, Some(Error::UnexpectedChar(s[1] as char)), true)
    }
}

pub proof fn lemma_block_comment_scan_len(s: Seq<u8>, level: nat)
    ensures
        0 <= block_comment_scan(s, level).0 <= s.len(),
    decreases s.len(),
{
    if level != 0 && s.len() != 0 {
        let k = span_len(s, CharClass::NotSlashOrStar);
        lemma_span_len(s, CharClass::NotSlashOrStar);
        let t = s.skip(k as int);
        if t.len() >= 2 && t[0] == 47 && t[1] == 42 {
            lemma_block_comment_scan_len(t.skip(2), level + 1);
        } else if t.len() >= 2 && t[0] == 42 && t[1] == 47 {
            lemma_block_comment_scan_len(t.skip(2), (level - 1) as nat);
        } else if t.len() != 0 {
            lemma_block_comment_scan_len(t.skip(1), level);
        }
    }
}

pub proof fn lemma_comment_scan_len(s: Seq<u8>)
    ensures
        0 <= comment_scan(s).0 <= s.len(),
        comment_scan(s).2 ==> comment_scan(s).0 >= 1,
        comment_scan(s).2 && comment_scan(s).1 is None ==> comment_scan(s).0 >= 2,
{
    if s.len() >= 2 && s[0] == 47 {
        lemma_span_len(s.skip(2), CharClass::NotNewline);
        lemma_block_comment_scan_len(s.skip(2), 1);
    }
}

/// Scanning whitespace and comments: the number of bytes read, and the
/// error that stopped the scan if a comment was malformed.
#[verifier::opaque]
pub open spec fn ws_scan(s: Seq<u8>) -> (int, Option<Error>)
    decreases s.len(),
{
    let k = span_len(s, CharClass::Whitespace);
    proof {
        lemma_span_len(s, CharClass::Whitespace);
    }
    let t = s.skip(k as int);
    let c = comment_scan(t);
    proof {
        lemma_comment_scan_len(t);
    }
    if c.1 is Some {
        (k + c.0, c.1)
    } else if !c.2 {
        (k as int, None)
    } else {
        let r = ws_scan(t.skip(c.0));
        (k + c.0 + r.0, r.1)
    }
}

pub proof fn lemma_ws_scan_len(s: Seq<u8>)
    ensures
        0 <= ws_scan(s).0 <= s.len(),
    decreases s.len(),
{
    reveal(ws_scan);
    let k = span_len(s, CharClass::Whitespace);
    lemma_span_len(s, CharClass::Whitespace);
    let t = s.skip(k as int);
    let c = comment_scan(t);
    lemma_comment_scan_len(t);
    if c.1 is None && c.2 {
        lemma_ws_scan_len(t.skip(c.0));
    }
}

/// A run of bytes all in `class` spans the whole of itself.
proof fn lemma_span_all(s: Seq<u8>, class: CharClass)
    requires
        forall|i: int| 0 <= i < s.len() ==> in_class(class, #[trigger] s[i]),
    ensures
        span_len(s, class) == s.len(),
    decreases s.len(),
{
    if s.len() > 0 {
        assert forall|i: int| 0 <= i < s.drop_first().len() implies in_class(class, #[trigger] s.drop_first()[i]) by {
            assert(s.drop_first()[i] == s[i + 1]);
        }
        lemma_span_all(s.drop_first(), class);
    }
}

/// How what is left after a document's value ends it (see
/// `Deserializer::end`): text that is nothing but whitespace is read to its
/// end with no error; text that starts with a byte that is neither
/// whitespace nor the start of a comment is not read at all, so it is
/// trailing; and a block comment that is opened and never closed is an
/// unclosed block comment.
pub proof fn lemma_ws_scan_cases(s: Seq<u8>, t: Seq<u8>)
    ensures
        (forall|i: int| 0 <= i < s.len() ==> spec_is_whitespace_char(#[trigger] s[i])) ==> ws_scan(s) == (
        s.len() as int, None::<Error>),
        s.len() > 0 && !spec_is_whitespace_char(s[0]) && s[0] != 47 ==> ws_scan(s) == (0int, None::<Error>),
        (forall|i: int| 0 <= i < t.len() ==> #[trigger] t[i] != 47 && t[i] != 42) ==> ws_scan(
            seq![47u8, 42u8] + t,
        ) == ((t.len() + 2) as int, Some(Error::UnclosedBlockComment)),
{
    reveal(ws_scan);
    if forall|i: int| 0 <= i < s.len() ==> spec_is_whitespace_char(#[trigger] s[i]) {
        lemma_span_all(s, CharClass::Whitespace);
        assert(s.skip(s.len() as int) =~= Seq::<u8>::empty());
    }
    if s.len() > 0 && !spec_is_whitespace_char(s[0]) && s[0] != 47 {
        assert(s.skip(0) =~= s);
    }
    if forall|i: int| 0 <= i < t.len() ==> #[trigger] t[i] != 47 && t[i] != 42 {
        let u = seq![47u8, 42u8] + t;
        assert(u.skip(0) =~= u);
        assert(u.skip(2) =~= t);
        lemma_span_all(t, CharClass::NotSlashOrStar);
        assert(t.skip(t.len() as int) =~= Seq::<u8>::empty());
        assert(block_comment_scan(t, 1) == (t.len() as int, Some(Error::UnclosedBlockComment)));
    }
}

// ---------------------------------------------------------------------------
// Identifiers
// ---------------------------------------------------------------------------

/// Scanning an identifier: a plain one (`[A-Za-z_][A-Za-z_0-9]*`) or a raw
/// one (`r#` and then `[A-Za-z_0-9.+-]+`). A plain identifier that runs on
/// into raw-only characters is refused with a suggestion to write it raw.
#[verifier::opaque]
pub open spec fn ident_scan(s: Seq<u8>) -> Outcome<Seq<u8>> {
    if s.len() == 0 {
        Outcome::Fail { n: 0, err: ErrSpec::Plain(Error::Eof) }
    } else if !spec_is_ident_first_char(s[0]) {
        let raw = span_len(s, CharClass::IdentRaw);
        if spec_is_ident_raw_char(s[0]) && valid_utf8(s.take(raw as int)) {
            Outcome::Fail {
                n: 0,
                err: ErrSpec::SuggestRawIdentifier(decode_utf8(s.take(raw as int))),
            }
        } else {
            Outcome::Fail { n: 0, err: ErrSpec::Plain(Error::ExpectedIdentifier) }
        }
    } else if s[0] == 114 && s.len() > 1 && s[1] == 34 {
        Outcome::Fail { n: 0, err: ErrSpec::Plain(Error::ExpectedIdentifier) }
    } else if s[0] == 114 && s.len() > 1 && s[1] == 35 {
        if !(s.len() > 2 && spec_is_ident_raw_char(s[2])) {
            Outcome::Fail { n: 0, err: ErrSpec::Plain(Error::ExpectedIdentifier) }
        } else {
            let k = span_len(s.skip(2), CharClass::IdentRaw);
            Outcome::Done { n: 2 + k as int, value: s.skip(2).take(k as int) }
        }
    } else {
        let std = span_len(s, CharClass::IdentOther);
        let raw = span_len(s, CharClass::IdentRaw);
        if raw > std && valid_utf8(s.take(raw as int)) {
            Outcome::Fail {
                n: 0,
                err: ErrSpec::SuggestRawIdentifier(decode_utf8(s.take(raw as int))),
            }
        } else {
            Outcome::Done { n: std as int, value: s.take(std as int) }
        }
    }
}

/// Whether the result `r` of a scanner, which left the cursor at `now`
/// having started at `before`, is what the outcome `o` says; `view` gives
/// a result value's model.
pub open spec fn realizes<V, T>(
    o: Outcome<V>,
    r: Result<T, Error>,
    view: spec_fn(T) -> V,
    now: Bytes,
    before: Bytes,
) -> bool {
    match o {
        Outcome::Done { n, value } => r matches Ok(x) && view(x) == value && now.is_advance_of(
            before,
            n,
        ),
        Outcome::Fail { n, err } => r matches Err(e) && err_matches(e, err) && now.is_advance_of(
            before,
            n,
        ),
    }
}


// ---------------------------------------------------------------------------
// Commas and the extension header
// ---------------------------------------------------------------------------

/// Scanning whitespace, a comma if there is one, and whitespace after it;
/// the value tells whether there was a comma.
#[verifier::opaque]
pub open spec fn comma_scan(s: Seq<u8>) -> Outcome<bool> {
    let w = ws_scan(s);
    let t = s.skip(w.0);
    if w.1 is Some {
        Outcome::Fail { n: w.0, err: ErrSpec::Plain(w.1.unwrap()) }
    } else if t.len() > 0 && t[0] == 44 {
        let w2 = ws_scan(t.skip(1));
        match w2.1 {
            Some(e) => Outcome::Fail { n: w.0 + 1 + w2.0, err: ErrSpec::Plain(e) },
            None => Outcome::Done { n: w.0 + 1 + w2.0, value: true },
        }
    } else {
        Outcome::Done { n: w.0, value: false }
    }
}

/// The UTF-8 bytes of each string of a list.
pub open spec fn lits(all: Seq<&str>) -> Seq<Seq<u8>> {
    all.map_values(|x: &str| lit(x))
}

/// Scanning each of `l` in turn, each followed by whitespace: a string that
/// is not there is passed over and makes the value false.
pub open spec fn consume_all_scan(s: Seq<u8>, l: Seq<Seq<u8>>, acc: bool) -> Outcome<bool>
    decreases l.len(),
{
    if l.len() == 0 {
        Outcome::Done { n: 0, value: acc }
    } else if starts_with(s, l[0]) {
        let t = s.skip(l[0].len() as int);
        let w = ws_scan(t);
        match w.1 {
            Some(e) => Outcome::Fail { n: l[0].len() + w.0, err: ErrSpec::Plain(e) },
            None => consume_all_scan(t.skip(w.0), l.drop_first(), acc).shift(l[0].len() + w.0),
        }
    } else {
        consume_all_scan(s, l.drop_first(), false)
    }
}

/// Whitespace and a comma are read within the input, and a comma that is
/// found is read.
pub proof fn lemma_comma_scan_len(s: Seq<u8>)
    ensures
        0 <= comma_scan(s).consumed() <= s.len(),
        (comma_scan(s) matches Outcome::Done { n, value } && value) ==> comma_scan(s).consumed() >= 1,
{
    reveal(comma_scan);
    lemma_ws_scan_len(s);
    let w = ws_scan(s);
    let t = s.skip(w.0);
    if t.len() > 0 {
        lemma_ws_scan_len(t.skip(1));
    }
}

/// An identifier is read within the input, is not empty, and is ASCII.
pub proof fn lemma_ident_scan_len(s: Seq<u8>)
    ensures
        0 <= ident_scan(s).consumed() <= s.len(),
        ident_scan(s) is Done ==> ident_scan(s).consumed() >= 1,
        ident_scan(s) matches Outcome::Done { value, .. } ==> forall|i: int|
            0 <= i < value.len() ==> #[trigger] value[i] < 128,
{
    reveal(ident_scan);
    lemma_span_len(s, CharClass::IdentOther);
    lemma_span_len(s, CharClass::IdentRaw);
    if s.len() > 2 {
        lemma_span_len(s.skip(2), CharClass::IdentRaw);
    }
}

/// The opening of an extension attribute: `#`, `!`, `[`, `enable`, `(`.
pub open spec fn attr_open_lits() -> Seq<Seq<u8>> {
    seq![lit("#"), lit("!"), lit("["), lit("enable"), lit("(")]
}

/// The closing of an extension attribute: `)`, `]`.
pub open spec fn attr_close_lits() -> Seq<Seq<u8>> {
    seq![lit(")"), lit("]")]
}

/// Scanning the comma-separated extension names inside `#![enable(...)]`;
/// the value is the union of their bits with `acc`.
pub open spec fn ext_list_scan(s: Seq<u8>, acc: usize) -> Outcome<usize>
    decreases s.len(),
{
    match ident_scan(s) {
        Outcome::Fail { n, err } => Outcome::Fail { n, err },
        Outcome::Done { n, value } => match Extensions::spec_from_ident(value) {
            None => Outcome::Fail { n, err: ErrSpec::NoSuchExtension(ascii_chars(value)) },
            Some(e) => {
                let acc2 = acc | e.bits;
                let t = s.skip(n);
                match comma_scan(t) {
                    Outcome::Fail { n: m, err } => Outcome::Fail { n: n + m, err },
                    Outcome::Done { n: m, value: comma } => {
                        proof {
                            lemma_ident_scan_len(s);
                            lemma_comma_scan_len(t);
                        }
                        let u = t.skip(m);
                        let other = u.len() > 0 && spec_is_ident_other_char(u[0]);
                        if !comma && other {
                            Outcome::Fail { n: n + m, err: ErrSpec::Plain(Error::ExpectedComma) }
                        } else if !comma || !other {
                            Outcome::Done { n: n + m, value: acc2 }
                        } else {
                            ext_list_scan(u, acc2).shift(n + m)
                        }
                    },
                }
            },
        },
    }
}

/// Scanning one `#![enable(...)]` attribute if the input starts with `#`;
/// the value is the bits of the extensions it enables (none when there is
/// no attribute).
pub open spec fn ext_attr_scan(s: Seq<u8>) -> Outcome<usize> {
    if s.len() == 0 || s[0] != 35 {
        Outcome::Done { n: 0, value: 0 }
    } else {
        match consume_all_scan(s, attr_open_lits(), true) {
            Outcome::Fail { n, err } => Outcome::Fail { n, err },
            Outcome::Done { n, value: false } => Outcome::Fail {
                n,
                err: ErrSpec::Plain(Error::ExpectedAttribute),
            },
            Outcome::Done { n, value: true } => {
                let t = s.skip(n);
                let w = ws_scan(t);
                if w.1 is Some {
                    Outcome::Fail { n: n + w.0, err: ErrSpec::Plain(w.1.unwrap()) }
                } else {
                    match ext_list_scan(t.skip(w.0), 0) {
                        Outcome::Fail { n: m, err } => Outcome::Fail { n: n + w.0 + m, err },
                        Outcome::Done { n: m, value: bits } => {
                            let u = t.skip(w.0).skip(m);
                            let w2 = ws_scan(u);
                            let k = n + w.0 + m + w2.0;
                            if w2.1 is Some {
                                Outcome::Fail { n: k, err: ErrSpec::Plain(w2.1.unwrap()) }
                            } else {
                                match consume_all_scan(u.skip(w2.0), attr_close_lits(), true) {
                                    Outcome::Fail { n: j, err } => Outcome::Fail { n: k + j, err },
                                    Outcome::Done { n: j, value: true } => Outcome::Done {
                                        n: k + j,
                                        value: bits,
                                    },
                                    Outcome::Done { n: j, value: false } => Outcome::Fail {
                                        n: k + j,
                                        err: ErrSpec::Plain(Error::ExpectedAttributeEnd),
                                    },
                                }
                            }
                        },
                    }
                }
            },
        }
    }
}

/// Scanning the attributes of a document's header, each followed by
/// whitespace; the value is the union of their bits with `acc`.
pub open spec fn attrs_scan(s: Seq<u8>, acc: usize) -> Outcome<usize>
    decreases s.len(),
{
    match ext_attr_scan(s) {
        Outcome::Fail { n, err } => Outcome::Fail { n, err },
        Outcome::Done { n, value: bits } => {
            if bits == 0 || n <= 0 || n > s.len() {
                Outcome::Done { n, value: acc }
            } else {
                let u = s.skip(n);
                let w = ws_scan(u);
                proof {
                    lemma_ws_scan_len(u);
                }
                match w.1 {
                    Some(e) => Outcome::Fail { n: n + w.0, err: ErrSpec::Plain(e) },
                    None => attrs_scan(u.skip(w.0), acc | bits).shift(n + w.0),
                }
            }
        },
    }
}

/// The extension attributes are read within the input.
pub proof fn lemma_attrs_scan_len(s: Seq<u8>, acc: usize)
    ensures
        0 <= attrs_scan(s, acc).consumed() <= s.len(),
    decreases s.len(),
{
    reveal_strlit("#");
    lemma_lit_ascii("#");
    assert(attr_open_lits()[0] == seq![35u8]);
    lemma_ext_attr_scan_len(s);
    if let Outcome::Done { n, value: bits } = ext_attr_scan(s) {
        if !(bits == 0 || n <= 0 || n > s.len()) {
            let u = s.skip(n);
            lemma_ws_scan_len(u);
            let w = ws_scan(u);
            if w.1 is None {
                lemma_attrs_scan_len(u.skip(w.0), acc | bits);
            }
        }
    }
}

/// The start of a document is read within the input.
pub proof fn lemma_header_scan_len(s: Seq<u8>)
    ensures
        0 <= header_scan(s).consumed() <= s.len(),
{
    lemma_ws_scan_len(s);
    let w = ws_scan(s);
    if w.1 is None {
        lemma_attrs_scan_len(s.skip(w.0), 0);
    }
}

/// Scanning the start of a document: whitespace, then the extension
/// attributes; the value is the bits of all extensions enabled.
pub open spec fn header_scan(s: Seq<u8>) -> Outcome<usize> {
    let w = ws_scan(s);
    match w.1 {
        Some(e) => Outcome::Fail { n: w.0, err: ErrSpec::Plain(e) },
        None => attrs_scan(s.skip(w.0), 0).shift(w.0),
    }
}

pub proof fn lemma_consume_all_scan_len(s: Seq<u8>, l: Seq<Seq<u8>>, acc: bool)
    ensures
        0 <= consume_all_scan(s, l, acc).consumed() <= s.len(),
        l.len() > 0 && l[0].len() > 0 && starts_with(s, l[0]) ==> consume_all_scan(
            s,
            l,
            acc,
        ).consumed() >= l[0].len(),
    decreases l.len(),
{
    if l.len() > 0 {
        if starts_with(s, l[0]) {
            let t = s.skip(l[0].len() as int);
            lemma_ws_scan_len(t);
            let w = ws_scan(t);
            if w.1 is None {
                lemma_consume_all_scan_len(t.skip(w.0), l.drop_first(), acc);
            }
        } else {
            lemma_consume_all_scan_len(s, l.drop_first(), false);
        }
    }
}

/// An attribute that enables something has read at least its `#`.
pub proof fn lemma_ext_attr_scan_len(s: Seq<u8>)
    requires
        attr_open_lits()[0] == seq![35u8],
    ensures
        0 <= ext_attr_scan(s).consumed() <= s.len(),
        ext_attr_scan(s) is Done && ext_attr_scan(s)->Done_value != 0 ==> ext_attr_scan(s).consumed()
            >= 1,
{
    if s.len() > 0 && s[0] == 35 {
        assert(s.take(1) =~= seq![35u8]);
        assert(starts_with(s, attr_open_lits()[0]));
        lemma_consume_all_scan_len(s, attr_open_lits(), true);
        let c = consume_all_scan(s, attr_open_lits(), true);
        if let Outcome::Done { n, value: true } = c {
            let t = s.skip(n);
            lemma_ws_scan_len(t);
            let w = ws_scan(t);
            if w.1 is None {
                lemma_ext_list_scan_len(t.skip(w.0), 0);
                let l = ext_list_scan(t.skip(w.0), 0);
                if let Outcome::Done { n: m, .. } = l {
                    let u = t.skip(w.0).skip(m);
                    lemma_ws_scan_len(u);
                    let w2 = ws_scan(u);
                    if w2.1 is None {
                        lemma_consume_all_scan_len(u.skip(w2.0), attr_close_lits(), true);
                    }
                }
            }
        }
    }
}

pub proof fn lemma_ext_list_scan_len(s: Seq<u8>, acc: usize)
    ensures
        0 <= ext_list_scan(s, acc).consumed() <= s.len(),
    decreases s.len(),
{
    lemma_ident_scan_len(s);
    if let Outcome::Done { n, value } = ident_scan(s) {
        if let Some(e) = Extensions::spec_from_ident(value) {
            let t = s.skip(n);
            lemma_comma_scan_len(t);
            if let Outcome::Done { n: m, value: comma } = comma_scan(t) {
                let u = t.skip(m);
                let other = u.len() > 0 && spec_is_ident_other_char(u[0]);
                if comma && other {
                    lemma_ext_list_scan_len(u, acc | e.bits);
                }
            }
        }
    }
}

/// Whether `r` is what starting to read `bytes` gives: the cursor after
/// the header, or the header's error at the position reached.
pub open spec fn new_realizes(bytes: Seq<u8>, r: Result<Bytes, SpannedError>) -> bool {
    match header_scan(bytes) {
        Outcome::Done { n, value } => {
            &&& r matches Ok(b)
            &&& r->Ok_0.wf()
            &&& r->Ok_0.spec_rest() == bytes.skip(n)
            &&& r->Ok_0.spec_cursor() == pos_after(Position { line: 1, col: 1 }, bytes.take(n))
            &&& r->Ok_0.spec_exts().bits == value
        },
        Outcome::Fail { n, err } => {
            &&& r matches Err(e)
            &&& err_matches(r->Err_0.code, err)
            &&& r->Err_0.position == pos_after(Position { line: 1, col: 1 }, bytes.take(n))
        },
    }
}


// ---------------------------------------------------------------------------
// Booleans, escapes and characters
// ---------------------------------------------------------------------------

/// Scanning `true` or `false`.
pub open spec fn bool_scan(s: Seq<u8>) -> Outcome<bool> {
    if starts_with(s, lit("true")) {
        Outcome::Done { n: lit("true").len() as int, value: true }
    } else if starts_with(s, lit("false")) {
        Outcome::Done { n: lit("false").len() as int, value: false }
    } else {
        Outcome::Fail { n: 0, err: ErrSpec::Plain(Error::ExpectedBoolean) }
    }
}

/// The value of a hexadecimal digit.
pub open spec fn hex_val(c: u8) -> Option<u8> {
    if 48 <= c <= 57 {
        Some((c - 48) as u8)
    } else if 97 <= c <= 102 {
        Some((10 + c - 97) as u8)
    } else if 65 <= c <= 70 {
        Some((10 + c - 65) as u8)
    } else {
        None
    }
}

pub open spec fn non_hex_error() -> Error {
    Error::InvalidEscape("Non-hex digit found")
}

/// Scanning the two hex digits of a `\xHH` escape.
pub open spec fn ascii_escape_scan(s: Seq<u8>) -> Outcome<u8> {
    if s.len() == 0 {
        Outcome::Fail { n: 0, err: ErrSpec::Plain(Error::Eof) }
    } else {
        match hex_val(s[0]) {
            None => Outcome::Fail { n: 1, err: ErrSpec::Plain(non_hex_error()) },
            Some(d1) => if s.len() == 1 {
                Outcome::Fail { n: 1, err: ErrSpec::Plain(Error::Eof) }
            } else {
                match hex_val(s[1]) {
                    None => Outcome::Fail { n: 2, err: ErrSpec::Plain(non_hex_error()) },
                    Some(d2) => Outcome::Done { n: 2, value: (d1 * 16 + d2) as u8 },
                }
            },
        }
    }
}

/// `16` to the power `k`.
pub open spec fn pow16(k: nat) -> nat
    decreases k,
{
    if k == 0 {
        1
    } else {
        16 * pow16((k - 1) as nat)
    }
}

/// Scanning the hex digits of a `\u{...}` escape, `k` of them read so far
/// into `acc`: at most six, up to the closing `}`, which is not read.
pub open spec fn unicode_digits_scan(s: Seq<u8>, acc: u32, k: nat) -> Outcome<(u32, nat)>
    decreases 6 - k,
{
    if k >= 6 {
        Outcome::Done { n: 0, value: (acc, k) }
    } else if s.len() == 0 {
        Outcome::Fail { n: 0, err: ErrSpec::Plain(Error::Eof) }
    } else if s[0] == 125 {
        Outcome::Done { n: 0, value: (acc, k) }
    } else {
        match hex_val(s[0]) {
            None => Outcome::Fail { n: 1, err: ErrSpec::Plain(non_hex_error()) },
            Some(d) => unicode_digits_scan(s.skip(1), (acc * 16 + d) as u32, k + 1).shift(1),
        }
    }
}

/// Scanning an escape sequence after its backslash.
pub open spec fn escape_scan(s: Seq<u8>) -> Outcome<char> {
    if s.len() == 0 {
        Outcome::Fail { n: 0, err: ErrSpec::Plain(Error::Eof) }
    } else {
        let b = s[0];
        let t = s.skip(1);
        if b == 39 {
            Outcome::Done { n: 1, value: '\'' }
        } else if b == 34 {
            Outcome::Done { n: 1, value: '"' }
        } else if b == 92 {
            Outcome::Done { n: 1, value: '\\' }
        } else if b == 110 {
            Outcome::Done { n: 1, value: '\n' }
        } else if b == 114 {
            Outcome::Done { n: 1, value: '\r' }
        } else if b == 116 {
            Outcome::Done { n: 1, value: '\t' }
        } else if b == 48 {
            Outcome::Done { n: 1, value: '\0' }
        } else if b == 120 {
            match ascii_escape_scan(t) {
                Outcome::Fail { n, err } => Outcome::Fail { n: n + 1, err },
                Outcome::Done { n, value } => Outcome::Done { n: n + 1, value: value as char },
            }
        } else if b == 117 {
            if t.len() == 0 {
                Outcome::Fail { n: 1, err: ErrSpec::Plain(Error::Eof) }
            } else if t[0] != 123 {
                Outcome::Fail {
                    n: 2,
                    err: ErrSpec::Plain(Error::InvalidEscape("Missing { in Unicode escape")),
                }
            } else {
                match unicode_digits_scan(t.skip(1), 0, 0) {
                    Outcome::Fail { n, err } => Outcome::Fail { n: n + 2, err },
                    Outcome::Done { n, value: (v, k) } => {
                        let u = t.skip(1 + n);
                        if k == 0 {
                            Outcome::Fail {
                                n: n + 2,
                                err: ErrSpec::Plain(
                                    Error::InvalidEscape(
                                        "Expected 1-6 digits, got 0 digits in Unicode escape",
                                    ),
                                ),
                            }
                        } else if u.len() == 0 {
                            Outcome::Fail { n: n + 2, err: ErrSpec::Plain(Error::Eof) }
                        } else if u[0] != 125 {
                            Outcome::Fail {
                                n: n + 3,
                                err: ErrSpec::Plain(
                                    Error::InvalidEscape("No } at the end of Unicode escape"),
                                ),
                            }
                        } else if !is_scalar(v) {
                            Outcome::Fail {
                                n: n + 3,
                                err: ErrSpec::Plain(Error::InvalidEscape("Not a valid char")),
                            }
                        } else {
                            Outcome::Done { n: n + 3, value: v as char }
                        }
                    },
                }
            }
        } else {
            Outcome::Fail {
                n: 1,
                err: ErrSpec::Plain(Error::InvalidEscape("Unknown escape character")),
            }
        }
    }
}

/// The closing `'` of a char literal after `k` bytes read.
pub open spec fn char_close(u: Seq<u8>, k: int, c: char) -> Outcome<char> {
    if u.len() > 0 && u[0] == 39 {
        Outcome::Done { n: k + 1, value: c }
    } else {
        Outcome::Fail { n: k, err: ErrSpec::Plain(Error::ExpectedChar) }
    }
}

/// Scanning a char literal: `'`, an escape, a bare `'` (so that `'''` is
/// the char `'`) or the UTF-8 bytes of exactly one character (the closing
/// `'` is looked for within the next five bytes), and `'`.
#[verifier::opaque]
pub open spec fn char_scan(s: Seq<u8>) -> Outcome<char> {
    if !(s.len() > 0 && s[0] == 39) {
        Outcome::Fail { n: 0, err: ErrSpec::Plain(Error::ExpectedChar) }
    } else {
        let t = s.skip(1);
        if t.len() == 0 {
            Outcome::Fail { n: 1, err: ErrSpec::Plain(Error::Eof) }
        } else if t[0] == 92 {
            match escape_scan(t.skip(1)) {
                Outcome::Fail { n, err } => Outcome::Fail { n: n + 2, err },
                Outcome::Done { n, value } => char_close(t.skip(1 + n), n + 2, value),
            }
        } else if t[0] == 39 && t.len() > 1 && t[1] == 39 {
            char_close(t.skip(1), 2, '\'')
        } else {
            let max = if t.len() < 5 {
                t.len() as int
            } else {
                5
            };
            let p = span_len(t.take(max), CharClass::NotApostrophe) as int;
            if p == max {
                Outcome::Fail { n: 1, err: ErrSpec::Plain(Error::ExpectedChar) }
            } else if !valid_utf8(t.take(p)) {
                Outcome::Fail { n: 1, err: ErrSpec::Utf8 }
            } else if decode_utf8(t.take(p)).len() != 1 {
                Outcome::Fail { n: 1, err: ErrSpec::Plain(Error::ExpectedChar) }
            } else {
                char_close(t.skip(p), 1 + p, decode_utf8(t.take(p))[0])
            }
        }
    }
}

/// A char literal is read within the input.
pub proof fn lemma_char_scan_len(s: Seq<u8>)
    ensures
        0 <= char_scan(s).consumed() <= s.len(),
{
    reveal(char_scan);
    if s.len() > 1 && s[0] == 39 {
        let t = s.skip(1);
        if t[0] == 92 {
            crate::parse::string::lemma_escape_scan_len(t.skip(1));
        } else {
            let max = if t.len() < 5 {
                t.len() as int
            } else {
                5
            };
            lemma_span_len(t.take(max), CharClass::NotApostrophe);
        }
    }
}

/// `char::from_u32`: per its documentation, a char exactly for the Unicode
/// scalar values, and that char.
#[verifier::external_body]
pub(crate) fn char_from_u32(v: u32) -> (r: Option<char>)
    ensures
        r is Some <==> is_scalar(v),
        r matches Some(c) ==> c == v as char,
{
    core::char::from_u32(v)
}


// ---------------------------------------------------------------------------
// Positions
// ---------------------------------------------------------------------------

/// Reading bytes moves line and column on by at most one step per byte.
pub proof fn lemma_pos_after_bound(p: Position, s: Seq<u8>)
    requires
        1 <= p.line,
        1 <= p.col,
        p.line + p.col + s.len() <= usize::MAX,
    ensures
        1 <= pos_after(p, s).line,
        1 <= pos_after(p, s).col,
        pos_after(p, s).line + pos_after(p, s).col <= p.line + p.col + s.len(),
    decreases s.len(),
{
    if s.len() > 0 {
        lemma_pos_after_bound(p, s.drop_last());
    }
}

/// Reading `a` and then `b` reaches the position that reading `a + b` does.
pub proof fn lemma_pos_after_concat(p: Position, a: Seq<u8>, b: Seq<u8>)
    ensures
        pos_after(p, a + b) == pos_after(pos_after(p, a), b),
    decreases b.len(),
{
    if b.len() == 0 {
        assert(a + b =~= a);
    } else {
        lemma_pos_after_concat(p, a, b.drop_last());
        assert((a + b).drop_last() =~= a + b.drop_last());
        assert((a + b).last() == b.last());
    }
}

// ---------------------------------------------------------------------------
// The cursor
// ---------------------------------------------------------------------------

/// A cursor over the bytes of a RON document: the bytes still to read, the
/// position reached so far, and the extensions that the document enabled.
#[derive(Clone, Copy, Debug)]
pub struct Bytes<'a> {
    /// Bits set according to the [`Extensions`] flags.
    exts: Extensions,
    bytes: &'a [u8],
    cursor: Position,
}

impl<'a> Bytes<'a> {
    /// The cursor's own invariant: line and column are at least 1 and
    /// cannot overflow however much of the input is still read.
    pub closed spec fn wf(&self) -> bool {
        &&& 1 <= self.cursor.line
        &&& 1 <= self.cursor.col
        &&& self.cursor.line + self.cursor.col + self.bytes@.len() <= usize::MAX
    }

    /// The bytes still to read.
    pub closed spec fn spec_rest(&self) -> Seq<u8> {
        self.bytes@
    }

    /// The position of the next byte to read.
    pub closed spec fn spec_cursor(&self) -> Position {
        self.cursor
    }

    /// The extensions enabled so far.
    pub closed spec fn spec_exts(&self) -> Extensions {
        self.exts
    }

    /// `self` is `old` after reading its next `n` bytes.
    pub open spec fn is_advance_of(&self, old: Bytes<'a>, n: int) -> bool {
        &&& 0 <= n <= old.spec_rest().len()
        &&& self.spec_rest() == old.spec_rest().skip(n)
        &&& self.spec_cursor() == pos_after(old.spec_cursor(), old.spec_rest().take(n))
        &&& self.spec_exts() == old.spec_exts()
    }

    /// Reading `n` bytes and then `m` more reads `n + m` bytes.
    pub proof fn lemma_advance_trans(a: Bytes<'a>, b: Bytes<'a>, c: Bytes<'a>, n: int, m: int)
        requires
            b.is_advance_of(a, n),
            c.is_advance_of(b, m),
        ensures
            c.is_advance_of(a, n + m),
    {
        let s = a.spec_rest();
        assert(s.skip(n).skip(m) =~= s.skip(n + m));
        assert(s.take(n + m) =~= s.take(n) + s.skip(n).take(m));
        lemma_pos_after_concat(a.spec_cursor(), s.take(n), s.skip(n).take(m));
    }

    /// The input left to read, and the position reached, leave room in a
    /// `usize` for a count of the bytes still to read plus two.
    pub proof fn lemma_wf_len(&self)
        requires
            self.wf(),
        ensures
            self.spec_rest().len() + 2 <= usize::MAX,
    {
    }

    /// A scan that starts `k` bytes on, after `mid` was reached from
    /// `start`, is the same scan shifted by `k` as seen from `start`.
    pub proof fn lemma_realizes_shift<V, T>(
        o: Outcome<V>,
        r: Result<T, Error>,
        view: spec_fn(T) -> V,
        now: Bytes<'a>,
        mid: Bytes<'a>,
        start: Bytes<'a>,
        k: int,
    )
        requires
            realizes(o, r, view, now, mid),
            mid.is_advance_of(start, k),
        ensures
            realizes(o.shift(k), r, view, now, start),
    {
        Self::lemma_advance_trans(start, mid, now, k, o.consumed());
    }

    /// Reading nothing leaves the cursor as it is.
    pub proof fn lemma_advance_zero(a: Bytes<'a>)
        ensures
            a.is_advance_of(a, 0),
    {
        assert(a.spec_rest().skip(0) =~= a.spec_rest());
        assert(a.spec_rest().take(0) =~= Seq::<u8>::empty());
    }

    /// The extensions enabled so far.
    pub fn exts(&self) -> (e: Extensions)
        ensures
            e == self.spec_exts(),
    {
        self.exts
    }

    /// Enables the extensions `more` besides those already enabled.
    pub fn enable(&mut self, more: Extensions)
        requires
            old(self).wf(),
        ensures
            final(self).wf(),
            final(self).spec_rest() == old(self).spec_rest(),
            final(self).spec_cursor() == old(self).spec_cursor(),
            final(self).spec_exts().bits == old(self).spec_exts().bits | more.bits,
    {
        self.exts = self.exts.union(more);
    }

    /// The error `code`, at the position reached.
    pub fn span_error(&self, code: Error) -> (e: SpannedError)
        ensures
            e.code == code,
            e.position == self.spec_cursor(),
    {
        SpannedError { code, position: self.cursor }
    }

    /// The bytes still to read.
    pub fn bytes(&self) -> (b: &'a [u8])
        ensures
            b@ == self.spec_rest(),
    {
        self.bytes
    }

    /// The position of the next byte to read.
    pub fn cursor(&self) -> (p: Position)
        ensures
            p == self.spec_cursor(),
    {
        self.cursor
    }

    /// The next byte, if any.
    pub fn peek(&self) -> (r: Option<u8>)
        ensures
            self.spec_rest().len() == 0 ==> r is None,
            self.spec_rest().len() > 0 ==> r == Some(self.spec_rest()[0]),
    {
        if self.bytes.len() > 0 {
            Some(self.bytes[0])
        } else {
            None
        }
    }

    /// The next byte, or `Eof` at the end of the input.
    pub fn peek_or_eof(&self) -> (r: Result<u8, Error>)
        ensures
            self.spec_rest().len() == 0 ==> r matches Err(Error::Eof),
            self.spec_rest().len() > 0 ==> r == Ok::<u8, Error>(self.spec_rest()[0]),
    {
        if self.bytes.len() > 0 {
            Ok(self.bytes[0])
        } else {
            Err(Error::Eof)
        }
    }

    /// Reads one byte, keeping track of line and column.
    pub fn advance_single(&mut self) -> (r: Result<(), Error>)
        requires
            old(self).wf(),
        ensures
            final(self).wf(),
            old(self).spec_rest().len() == 0 ==> (r matches Err(Error::Eof)) && *final(self) == *old(self),
            old(self).spec_rest().len() > 0 ==> r is Ok && final(self).is_advance_of(*old(self), 1),
    {
        let b = self.peek_or_eof()?;
        if b == 10u8 {
            self.cursor.line = self.cursor.line + 1;
            self.cursor.col = 1;
        } else {
            self.cursor.col = self.cursor.col + 1;
        }
        let (_, tail) = self.bytes.split_at(1);
        self.bytes = tail;
        proof {
            let s = old(self).spec_rest();
            assert(s.take(1).drop_last() =~= Seq::<u8>::empty());
            assert(s.take(1).last() == b);
            assert(pos_after(old(self).cursor, s.take(1)) == step_pos(
                pos_after(old(self).cursor, s.take(1).drop_last()),
                b,
            ));
            assert(s.skip(1) =~= s.subrange(1, s.len() as int));
        }
        Ok(())
    }

    /// Reads and returns the next byte.
    pub fn eat_byte(&mut self) -> (r: Result<u8, Error>)
        requires
            old(self).wf(),
        ensures
            final(self).wf(),
            old(self).spec_rest().len() == 0 ==> (r matches Err(Error::Eof)) && *final(self) == *old(self),
            old(self).spec_rest().len() > 0 ==> r == Ok::<u8, Error>(old(self).spec_rest()[0])
                && final(self).is_advance_of(*old(self), 1),
    {
        let peek = self.peek_or_eof()?;
        let _ = self.advance_single();
        Ok(peek)
    }

    /// Reads the next byte and fails with `error` unless it is `byte`.
    pub fn expect_byte(&mut self, byte: u8, error: Error) -> (r: Result<(), Error>)
        requires
            old(self).wf(),
        ensures
            final(self).wf(),
            old(self).spec_rest().len() == 0 ==> (r matches Err(Error::Eof)) && *final(self) == *old(self),
            old(self).spec_rest().len() > 0 ==> final(self).is_advance_of(*old(self), 1) && (if old(
                self,
            ).spec_rest()[0] == byte {
                r is Ok
            } else {
                r == Err::<(), Error>(error)
            }),
    {
        let b = self.eat_byte()?;
        if b == byte {
            Ok(())
        } else {
            Err(error)
        }
    }

    /// Reads the next byte if it is `byte`.
    pub fn eat_if(&mut self, byte: u8) -> (b: bool)
        requires
            old(self).wf(),
        ensures
            final(self).wf(),
            b == (old(self).spec_rest().len() > 0 && old(self).spec_rest()[0] == byte),
            b ==> final(self).is_advance_of(*old(self), 1),
            !b ==> *final(self) == *old(self),
    {
        if self.peek() == Some(byte) {
            let _ = self.advance_single();
            true
        } else {
            false
        }
    }

    /// Whether the next bytes are `a` and then `b`.
    pub fn next_pair_is(&self, a: u8, b: u8) -> (r: bool)
        ensures
            r == (self.spec_rest().len() >= 2 && self.spec_rest()[0] == a && self.spec_rest()[1] == b),
    {
        self.bytes.len() >= 2 && self.bytes[0] == a && self.bytes[1] == b
    }

    /// Whether the input continues with the bytes of `s`.
    pub fn test_for(&self, s: &str) -> (b: bool)
        ensures
            b == starts_with(self.spec_rest(), lit(s)),
    {
        let sb = s.as_bytes();
        if sb.len() > self.bytes.len() {
            return false;
        }
        let mut i: usize = 0;
        while i < sb.len()
            invariant
                sb@ == lit(s),
                sb@.len() <= self.bytes@.len(),
                i <= sb@.len(),
                forall|j: int| 0 <= j < i ==> self.bytes@[j] == sb@[j],
            decreases sb@.len() - i,
        {
            if sb[i] != self.bytes[i] {
                proof {
                    assert(self.bytes@.take(sb@.len() as int)[i as int] != sb@[i as int]);
                }
                return false;
            }
            i = i + 1;
        }
        proof {
            assert(self.bytes@.take(sb@.len() as int) =~= sb@);
        }
        true
    }

    /// Reads the bytes of `s` if the input continues with them.
    pub fn consume(&mut self, s: &str) -> (b: bool)
        requires
            old(self).wf(),
        ensures
            final(self).wf(),
            b == starts_with(old(self).spec_rest(), lit(s)),
            b ==> final(self).is_advance_of(*old(self), lit(s).len() as int),
            !b ==> *final(self) == *old(self),
    {
        if self.test_for(s) {
            let _ = self.advance(s.len());
            true
        } else {
            false
        }
    }

    /// Whether the byte `index` bytes ahead can continue an identifier.
    pub fn check_ident_other_char(&self, index: usize) -> (b: bool)
        ensures
            b == (index < self.spec_rest().len() && spec_is_ident_other_char(
                self.spec_rest()[index as int],
            )),
    {
        if index < self.bytes.len() {
            is_ident_other_char(self.bytes[index])
        } else {
            false
        }
    }

    /// Whether the input continues with the identifier `ident`, not followed
    /// by a byte that could continue it.
    pub fn check_ident(&self, ident: &str) -> (b: bool)
        ensures
            b == spec_ident_follows(self.spec_rest(), lit(ident)),
    {
        if self.test_for(ident) {
            let n = ident.len();
            let m = self.bytes.len();
            assert(lit(ident).len() <= m);
            assert(n == lit(ident).len());
            !self.check_ident_other_char(n)
        } else {
            false
        }
    }

    /// Reads the identifier `ident` if [`Self::check_ident`] finds it.
    pub fn consume_ident(&mut self, ident: &str) -> (b: bool)
        requires
            old(self).wf(),
        ensures
            final(self).wf(),
            b == spec_ident_follows(old(self).spec_rest(), lit(ident)),
            b ==> final(self).is_advance_of(*old(self), lit(ident).len() as int),
            !b ==> *final(self) == *old(self),
    {
        if self.check_ident(ident) {
            let _ = self.advance(ident.len());
            true
        } else {
            false
        }
    }

    /// The number of next bytes that lie in `class`.
    pub fn next_bytes_contained_in(&self, class: CharClass) -> (n: usize)
        ensures
            n == span_len(self.spec_rest(), class),
    {
        let mut i: usize = 0;
        assert(self.bytes@.skip(0) =~= self.bytes@);
        while i < self.bytes.len() && is_in_class(class, self.bytes[i])
            invariant
                i <= self.bytes@.len(),
                span_len(self.bytes@, class) == i + span_len(self.bytes@.skip(i as int), class),
            decreases self.bytes@.len() - i,
        {
            proof {
                lemma_span_len_skip(self.bytes@, class, i as int);
            }
            i = i + 1;
        }
        i
    }

    /// Whether a float rather than an integer starts here: after an
    /// optional sign, the run of float bytes is longer than the run of
    /// integer bytes.
    pub fn next_bytes_is_float(&self) -> (b: bool)
        requires
            self.wf(),
        ensures
            b == (self.spec_rest().len() > 0 && ({
                let skip: int = if self.spec_rest()[0] == 43 || self.spec_rest()[0] == 45 {
                    1
                } else {
                    0
                };
                span_len(self.spec_rest().skip(skip), CharClass::Float) > span_len(
                    self.spec_rest().skip(skip),
                    CharClass::Int,
                )
            })),
    {
        match self.peek() {
            Some(byte) => {
                let mut rest = *self;
                if byte == 43u8 || byte == 45u8 {
                    let _ = rest.advance(1);
                } else {
                    assert(self.spec_rest().skip(0) =~= self.spec_rest());
                }
                let flen = rest.next_bytes_contained_in(CharClass::Float);
                let ilen = rest.next_bytes_contained_in(CharClass::Int);
                flen > ilen
            },
            None => false,
        }
    }

    /// Reads a comment if the input starts with one; see [`comment_scan`].
    pub fn skip_comment(&mut self) -> (r: Result<bool, Error>)
        requires
            old(self).wf(),
        ensures
            final(self).wf(),
            final(self).is_advance_of(*old(self), comment_scan(old(self).spec_rest()).0),
            match comment_scan(old(self).spec_rest()).1 {
                Some(e) => r == Err::<bool, Error>(e),
                None => r == Ok::<bool, Error>(comment_scan(old(self).spec_rest()).2),
            },
    {
        let ghost s0 = self.spec_rest();
        let ghost start = *self;
        if !self.eat_if(47u8) {
            proof {
                Self::lemma_advance_zero(start);
            }
            return Ok(false);
        }
        let ghost after_slash = *self;
        let b = match self.eat_byte() {
            Ok(b) => b,
            Err(e) => {
                return Err(e);
            },
        };
        proof {
            Self::lemma_advance_trans(start, after_slash, *self, 1, 1);
            assert(s0.skip(2) =~= self.spec_rest());
        }
        if b == 47u8 {
            let n = self.next_bytes_contained_in(CharClass::NotNewline);
            let ghost before = *self;
            let _ = self.advance(n);
            proof {
                lemma_span_len(before.spec_rest(), CharClass::NotNewline);
                Self::lemma_advance_trans(start, before, *self, 2, n as int);
            }
            Ok(true)
        } else if b == 42u8 {
            let ghost after_open = *self;
            let mut level: usize = 1;
            proof {
                Self::lemma_advance_zero(after_open);
                lemma_block_comment_scan_len(s0.skip(2), 1);
            }
            while level > 0
                invariant
                    self.wf(),
                    after_open.wf(),
                    start.wf(),
                    start == *old(self),
                    after_open.is_advance_of(start, 2),
                    after_open.spec_rest() == s0.skip(2),
                    s0 == start.spec_rest(),
                    s0.len() >= 2 && s0[0] == 47 && s0[1] == 42,
                    start.spec_rest().len() + 2 <= usize::MAX,
                    level <= 1 + after_open.spec_rest().len() - self.spec_rest().len(),
                    self.spec_rest().len() <= after_open.spec_rest().len(),
                    self.is_advance_of(
                        after_open,
                        after_open.spec_rest().len() - self.spec_rest().len(),
                    ),
                    block_comment_scan(s0.skip(2), 1).1 == block_comment_scan(
                        self.spec_rest(),
                        level as nat,
                    ).1,
                    block_comment_scan(s0.skip(2), 1).0 == (after_open.spec_rest().len()
                        - self.spec_rest().len()) + block_comment_scan(
                        self.spec_rest(),
                        level as nat,
                    ).0,
                decreases self.spec_rest().len(),
            {
                let ghost cur = *self;
                let ghost used = after_open.spec_rest().len() - self.spec_rest().len();
                let n = self.next_bytes_contained_in(CharClass::NotSlashOrStar);
                if self.bytes.len() == 0 {
                    proof {
                        Self::lemma_advance_trans(start, after_open, *self, 2, used);
                    }
                    return Err(Error::UnclosedBlockComment);
                }
                proof {
                    lemma_span_len(cur.spec_rest(), CharClass::NotSlashOrStar);
                }
                let _ = self.advance(n);
                let ghost mid = *self;
                proof {
                    Self::lemma_advance_trans(after_open, cur, mid, used, n as int);
                    assert(mid.spec_rest() == cur.spec_rest().skip(n as int));
                }
                if self.next_pair_is(47u8, 42u8) {
                    let _ = self.advance(2);
                    proof {
                        Self::lemma_advance_trans(after_open, mid, *self, used + n, 2);
                    }
                    level = level + 1;
                } else if self.next_pair_is(42u8, 47u8) {
                    let _ = self.advance(2);
                    proof {
                        Self::lemma_advance_trans(after_open, mid, *self, used + n, 2);
                    }
                    level = level - 1;
                } else {
                    match self.eat_byte() {
                        Ok(_) => {},
                        Err(_) => {
                            proof {
                                Self::lemma_advance_trans(start, after_open, *self, 2, used + n);
                            }
                            return Err(Error::UnclosedBlockComment);
                        },
                    }
                    proof {
                        Self::lemma_advance_trans(after_open, mid, *self, used + n, 1);
                    }
                }
            }
            proof {
                Self::lemma_advance_trans(
                    start,
                    after_open,
                    *self,
                    2,
                    after_open.spec_rest().len() - self.spec_rest().len(),
                );
            }
            Ok(true)
        } else {
            Err(Error::UnexpectedChar(b as char))
        }
    }

    /// Reads whitespace and comments; see [`ws_scan`].
    pub fn skip_ws(&mut self) -> (r: Result<(), Error>)
        requires
            old(self).wf(),
        ensures
            final(self).wf(),
            final(self).is_advance_of(*old(self), ws_scan(old(self).spec_rest()).0),
            match ws_scan(old(self).spec_rest()).1 {
                Some(e) => r == Err::<(), Error>(e),
                None => r is Ok,
            },
        decreases old(self).spec_rest().len(),
    {
        proof {
            reveal(ws_scan);
        }
        let ghost start = *self;
        let n = self.next_bytes_contained_in(CharClass::Whitespace);
        let _ = self.advance(n);
        proof {
            lemma_span_len(start.spec_rest(), CharClass::Whitespace);
        }
        let ghost mid = *self;
        let found = match self.skip_comment() {
            Ok(f) => f,
            Err(e) => {
                proof {
                    Self::lemma_advance_trans(start, mid, *self, n as int, comment_scan(mid.spec_rest()).0);
                }
                return Err(e);
            },
        };
        proof {
            lemma_comment_scan_len(mid.spec_rest());
            Self::lemma_advance_trans(start, mid, *self, n as int, comment_scan(mid.spec_rest()).0);
        }
        if !found {
            return Ok(());
        }
        let ghost after = *self;
        let r = self.skip_ws();
        proof {
            Self::lemma_advance_trans(
                start,
                after,
                *self,
                n + comment_scan(mid.spec_rest()).0,
                ws_scan(after.spec_rest()).0,
            );
        }
        r
    }

    /// Reads whitespace, a comma if there is one, and whitespace after it;
    /// tells whether there was a comma. See [`comma_scan`].
    pub fn comma(&mut self) -> (r: Result<bool, Error>)
        requires
            old(self).wf(),
        ensures
            final(self).wf(),
            realizes(comma_scan(old(self).spec_rest()), r, |b: bool| b, *final(self), *old(self)),
    {
        proof {
            reveal(comma_scan);
        }
        let ghost start = *self;
        proof {
            lemma_ws_scan_len(start.spec_rest());
        }
        self.skip_ws()?;
        let ghost mid = *self;
        if self.eat_if(44u8) {
            let ghost after = *self;
            proof {
                Self::lemma_advance_trans(start, mid, after, ws_scan(start.spec_rest()).0, 1);
                assert(after.spec_rest() == start.spec_rest().skip(ws_scan(start.spec_rest()).0).skip(1));
            }
            let r = self.skip_ws();
            proof {
                Self::lemma_advance_trans(
                    start,
                    after,
                    *self,
                    ws_scan(start.spec_rest()).0 + 1,
                    ws_scan(after.spec_rest()).0,
                );
            }
            r?;
            Ok(true)
        } else {
            Ok(false)
        }
    }

    /// Reads an identifier; see [`ident_scan`].
    pub fn identifier(&mut self) -> (r: Result<&'a [u8], Error>)
        requires
            old(self).wf(),
        ensures
            final(self).wf(),
            realizes(ident_scan(old(self).spec_rest()), r, |x: &'a [u8]| x@, *final(self), *old(self)),
    {
        proof {
            reveal(ident_scan);
        }
        let ghost start = *self;
        let ghost s = self.spec_rest();
        proof {
            Self::lemma_advance_zero(start);
            lemma_span_len(s, CharClass::IdentRaw);
            lemma_span_len(s, CharClass::IdentOther);
        }
        let next = self.peek_or_eof()?;
        if !is_ident_first_char(next) {
            if is_ident_raw_char(next) {
                let n = self.next_bytes_contained_in(CharClass::IdentRaw);
                let ident_bytes = vstd::slice::slice_subrange(self.bytes, 0, n);
                assert(ident_bytes@ == s.take(n as int));
                if let Ok(ident) = str_from_utf8(ident_bytes) {
                    return Err(Error::SuggestRawIdentifier(ident.to_owned()));
                }
            }
            return Err(Error::ExpectedIdentifier);
        }
        let length = if next == 114u8 {
            if self.bytes.len() > 1 && self.bytes[1] == 34u8 {
                return Err(Error::ExpectedIdentifier);
            } else if self.bytes.len() > 1 && self.bytes[1] == 35u8 {
                let after_next = if self.bytes.len() > 2 {
                    self.bytes[2]
                } else {
                    0u8
                };
                if !is_ident_raw_char(after_next) {
                    return Err(Error::ExpectedIdentifier);
                }
                let _ = self.advance(2);
                assert(self.spec_rest() == s.skip(2));
                self.next_bytes_contained_in(CharClass::IdentRaw)
            } else {
                let std_ident_length = self.next_bytes_contained_in(CharClass::IdentOther);
                let raw_ident_length = self.next_bytes_contained_in(CharClass::IdentRaw);
                if raw_ident_length > std_ident_length {
                    let raw_bytes = vstd::slice::slice_subrange(self.bytes, 0, raw_ident_length);
                    assert(raw_bytes@ == s.take(raw_ident_length as int));
                    if let Ok(ident) = str_from_utf8(raw_bytes) {
                        return Err(Error::SuggestRawIdentifier(ident.to_owned()));
                    }
                }
                std_ident_length
            }
        } else {
            let std_ident_length = self.next_bytes_contained_in(CharClass::IdentOther);
            let raw_ident_length = self.next_bytes_contained_in(CharClass::IdentRaw);
            if raw_ident_length > std_ident_length {
                let raw_bytes = vstd::slice::slice_subrange(self.bytes, 0, raw_ident_length);
                assert(raw_bytes@ == s.take(raw_ident_length as int));
                if let Ok(ident) = str_from_utf8(raw_bytes) {
                    return Err(Error::SuggestRawIdentifier(ident.to_owned()));
                }
            }
            std_ident_length
        };
        let ghost mid = *self;
        proof {
            lemma_span_len(mid.spec_rest(), CharClass::IdentRaw);
            lemma_span_len(mid.spec_rest(), CharClass::IdentOther);
        }
        let ident = vstd::slice::slice_subrange(self.bytes, 0, length);
        let _ = self.advance(length);
        proof {
            Self::lemma_advance_trans(start, mid, *self, s.len() - mid.spec_rest().len(), length as int);
            assert(ident@ == mid.spec_rest().take(length as int));
        }
        Ok(ident)
    }

    /// Reads each of `all` in turn, each followed by whitespace, passing
    /// over those that are not there; see [`consume_all_scan`].
    pub fn consume_all(&mut self, all: &[&str]) -> (r: Result<bool, Error>)
        requires
            old(self).wf(),
        ensures
            final(self).wf(),
            realizes(
                consume_all_scan(old(self).spec_rest(), lits(all@), true),
                r,
                |b: bool| b,
                *final(self),
                *old(self),
            ),
    {
        let ghost start = *self;
        let ghost l = lits(all@);
        let mut acc = true;
        let mut i: usize = 0;
        proof {
            Self::lemma_advance_zero(start);
            assert(l.skip(0) =~= l);
        }
        while i < all.len()
            invariant
                self.wf(),
                start == *old(self),
                l == lits(all@),
                i <= all@.len(),
                l.len() == all@.len(),
                self.is_advance_of(start, start.spec_rest().len() - self.spec_rest().len()),
                consume_all_scan(start.spec_rest(), l, true) == consume_all_scan(
                    self.spec_rest(),
                    l.skip(i as int),
                    acc,
                ).shift(start.spec_rest().len() - self.spec_rest().len()),
            decreases all@.len() - i,
        {
            let ghost before = *self;
            let ghost used = start.spec_rest().len() - self.spec_rest().len();
            proof {
                assert(l.skip(i as int)[0] == lit(all@[i as int]));
                assert(l.skip(i as int).drop_first() =~= l.skip(i + 1));
            }
            if self.consume(all[i]) {
                let ghost mid = *self;
                proof {
                    Self::lemma_advance_trans(start, before, mid, used, lit(all@[i as int]).len() as int);
                    lemma_ws_scan_len(mid.spec_rest());
                }
                match self.skip_ws() {
                    Ok(()) => {},
                    Err(e) => {
                        proof {
                            Self::lemma_advance_trans(
                                start,
                                mid,
                                *self,
                                used + lit(all@[i as int]).len(),
                                ws_scan(mid.spec_rest()).0,
                            );
                        }
                        return Err(e);
                    },
                }
                proof {
                    Self::lemma_advance_trans(
                        start,
                        mid,
                        *self,
                        used + lit(all@[i as int]).len(),
                        ws_scan(mid.spec_rest()).0,
                    );
                }
            } else {
                acc = false;
            }
            i = i + 1;
        }
        Ok(acc)
    }

    /// Reads the comma-separated extension names inside `#![enable(...)]`;
    /// returns their union with `acc`. See [`ext_list_scan`].
    pub fn ext_list(&mut self, acc: Extensions) -> (r: Result<Extensions, Error>)
        requires
            old(self).wf(),
        ensures
            final(self).wf(),
            realizes(
                ext_list_scan(old(self).spec_rest(), acc.bits),
                r,
                |e: Extensions| e.bits,
                *final(self),
                *old(self),
            ),
        decreases old(self).spec_rest().len(),
    {
        let ghost start = *self;
        proof {
            lemma_ident_scan_len(start.spec_rest());
        }
        let ident = self.identifier()?;
        let ghost after_ident = *self;
        let ghost m = ident_scan(start.spec_rest()).consumed();
        proof {
            lemma_ascii_utf8(ident@);
            decode_utf8_encode_utf8(ident@);
        }
        let ident_str = match str_from_utf8(ident) {
            Ok(x) => x,
            Err(_) => {
                proof {
                    assert(false);
                }
                return Err(Error::ExpectedIdentifier);
            },
        };
        proof {
            assert(ident_str.spec_bytes() == ident@);
        }
        let extension = match Extensions::from_ident(ident_str) {
            Some(e) => e,
            None => {
                proof {
                    assert(ident_str@ == ascii_chars(ident@));
                }
                return Err(Error::NoSuchExtension(ident_str.to_owned()));
            },
        };
        let acc2 = acc.union(extension);
        proof {
            lemma_comma_scan_len(after_ident.spec_rest());
        }
        let comma = match self.comma() {
            Ok(c) => c,
            Err(e) => {
                proof {
                    Self::lemma_advance_trans(start, after_ident, *self, m, comma_scan(after_ident.spec_rest()).consumed());
                }
                return Err(e);
            },
        };
        let ghost k = comma_scan(after_ident.spec_rest()).consumed();
        let ghost mid = *self;
        proof {
            Self::lemma_advance_trans(start, after_ident, mid, m, k);
            assert(mid.spec_rest() == start.spec_rest().skip(m).skip(k));
        }
        let other = self.check_ident_other_char(0);
        if !comma && other {
            return Err(Error::ExpectedComma);
        }
        if !comma || !other {
            return Ok(acc2);
        }
        let r = self.ext_list(acc2);
        proof {
            Self::lemma_advance_trans(start, mid, *self, m + k, ext_list_scan(mid.spec_rest(), acc2.bits).consumed());
        }
        r
    }

    /// Reads one `#![enable(...)]` attribute if the input starts with `#`;
    /// returns the extensions it enables. See [`ext_attr_scan`].
    pub fn extensions(&mut self) -> (r: Result<Extensions, Error>)
        requires
            old(self).wf(),
        ensures
            final(self).wf(),
            realizes(
                ext_attr_scan(old(self).spec_rest()),
                r,
                |e: Extensions| e.bits,
                *final(self),
                *old(self),
            ),
    {
        let ghost start = *self;
        let ghost s = self.spec_rest();
        if self.peek() != Some(35u8) {
            proof {
                Self::lemma_advance_zero(start);
            }
            return Ok(Extensions::empty());
        }
        let opening: [&str; 5] = ["#", "!", "[", "enable", "("];
        proof {
            assert(lits(opening@) =~= attr_open_lits());
        }
        let opened = self.consume_all(&opening)?;
        if !opened {
            return Err(Error::ExpectedAttribute);
        }
        let ghost after_open = *self;
        let ghost n = s.len() - after_open.spec_rest().len();
        proof {
            lemma_ws_scan_len(after_open.spec_rest());
        }
        match self.skip_ws() {
            Ok(()) => {},
            Err(e) => {
                proof {
                    Self::lemma_advance_trans(start, after_open, *self, n, ws_scan(after_open.spec_rest()).0);
                }
                return Err(e);
            },
        }
        let ghost list_start = *self;
        proof {
            Self::lemma_advance_trans(start, after_open, list_start, n, ws_scan(after_open.spec_rest()).0);
            Self::lemma_advance_zero(list_start);
        }
        let extensions = match self.ext_list(Extensions::empty()) {
            Ok(e) => e,
            Err(e) => {
                proof {
                    Self::lemma_advance_trans(start, list_start, *self, s.len() - list_start.spec_rest().len(), ext_list_scan(list_start.spec_rest(), 0).consumed());
                }
                return Err(e);
            },
        };
        let ghost list_end = *self;
        let ghost m = list_start.spec_rest().len() - list_end.spec_rest().len();
        proof {
            Self::lemma_advance_trans(start, list_start, list_end, s.len() - list_start.spec_rest().len(), m);
            lemma_ws_scan_len(list_end.spec_rest());
        }
        match self.skip_ws() {
            Ok(()) => {},
            Err(e) => {
                proof {
                    Self::lemma_advance_trans(start, list_end, *self, s.len() - list_end.spec_rest().len(), ws_scan(list_end.spec_rest()).0);
                }
                return Err(e);
            },
        }
        let ghost close_start = *self;
        proof {
            Self::lemma_advance_trans(start, list_end, close_start, s.len() - list_end.spec_rest().len(), ws_scan(list_end.spec_rest()).0);
        }
        let closing: [&str; 2] = [")", "]"];
        proof {
            assert(lits(closing@) =~= attr_close_lits());
        }
        let closed = match self.consume_all(&closing) {
            Ok(c) => c,
            Err(e) => {
                proof {
                    Self::lemma_advance_trans(start, close_start, *self, s.len() - close_start.spec_rest().len(), consume_all_scan(close_start.spec_rest(), attr_close_lits(), true).consumed());
                }
                return Err(e);
            },
        };
        proof {
            Self::lemma_advance_trans(start, close_start, *self, s.len() - close_start.spec_rest().len(), consume_all_scan(close_start.spec_rest(), attr_close_lits(), true).consumed());
        }
        if closed {
            Ok(extensions)
        } else {
            Err(Error::ExpectedAttributeEnd)
        }
    }

    /// Starts reading `bytes`: reads leading whitespace and the extension
    /// attributes of the header, and enables those extensions. See
    /// [`header_scan`]; errors carry the position reached.
    #[verifier::rlimit(30)]
    pub fn new(bytes: &'a [u8]) -> (r: Result<Bytes<'a>, SpannedError>)
        requires
            bytes@.len() + 2 <= usize::MAX,
        ensures
            new_realizes(bytes@, r),
    {
        let mut b = Bytes { exts: Extensions::empty(), bytes, cursor: Position { line: 1, col: 1 } };
        let ghost start = b;
        proof {
            lemma_ws_scan_len(bytes@);
        }
        match b.skip_ws() {
            Ok(()) => {},
            Err(e) => {
                return Err(b.span_error(e));
            },
        }
        let ghost attrs_start = b;
        let ghost w0 = ws_scan(bytes@).0;
        let mut exts = Extensions::empty();
        proof {
            Self::lemma_advance_zero(attrs_start);
        }
        loop
            invariant_except_break
                b.wf(),
                start.wf(),
                start.spec_rest() == bytes@,
                start.spec_cursor() == (Position { line: 1, col: 1 }),
                start.spec_exts().bits == 0,
                attrs_start.is_advance_of(start, w0),
                w0 == ws_scan(bytes@).0,
                ws_scan(bytes@).1 is None,
                b.is_advance_of(attrs_start, attrs_start.spec_rest().len() - b.spec_rest().len()),
                attrs_scan(attrs_start.spec_rest(), 0) == attrs_scan(
                    b.spec_rest(),
                    exts.bits,
                ).shift(attrs_start.spec_rest().len() - b.spec_rest().len()),
            ensures
                b.wf(),
                start.spec_rest() == bytes@,
                start.spec_cursor() == (Position { line: 1, col: 1 }),
                attrs_start.is_advance_of(start, w0),
                w0 == ws_scan(bytes@).0,
                ws_scan(bytes@).1 is None,
                b.is_advance_of(attrs_start, attrs_start.spec_rest().len() - b.spec_rest().len()),
                attrs_scan(attrs_start.spec_rest(), 0) == (Outcome::<usize>::Done {
                    n: attrs_start.spec_rest().len() - b.spec_rest().len(),
                    value: exts.bits,
                }),
            decreases b.spec_rest().len(),
        {
            let ghost before = b;
            let ghost used = attrs_start.spec_rest().len() - b.spec_rest().len();
            let attribute = match b.extensions() {
                Ok(a) => a,
                Err(e) => {
                    proof {
                        Self::lemma_advance_trans(attrs_start, before, b, used, ext_attr_scan(before.spec_rest()).consumed());
                        Self::lemma_advance_trans(start, attrs_start, b, w0, used + ext_attr_scan(before.spec_rest()).consumed());
                    }
                    return Err(b.span_error(e));
                },
            };
            let ghost n = ext_attr_scan(before.spec_rest()).consumed();
            proof {
                Self::lemma_advance_trans(attrs_start, before, b, used, n);
            }
            if attribute.is_empty() {
                break;
            }
            proof {
                reveal_strlit("#");
                lemma_lit_ascii("#");
                assert(attr_open_lits()[0] == seq![35u8]);
                lemma_ext_attr_scan_len(before.spec_rest());
                assert(n > 0);
            }
            let ghost mid = b;
            exts = exts.union(attribute);
            proof {
                lemma_ws_scan_len(mid.spec_rest());
            }
            match b.skip_ws() {
                Ok(()) => {},
                Err(e) => {
                    proof {
                        Self::lemma_advance_trans(attrs_start, mid, b, used + n, ws_scan(mid.spec_rest()).0);
                        Self::lemma_advance_trans(start, attrs_start, b, w0, used + n + ws_scan(mid.spec_rest()).0);
                    }
                    return Err(b.span_error(e));
                },
            }
            proof {
                Self::lemma_advance_trans(attrs_start, mid, b, used + n, ws_scan(mid.spec_rest()).0);
            }
        }
        proof {
            Self::lemma_advance_trans(start, attrs_start, b, w0, attrs_start.spec_rest().len() - b.spec_rest().len());
        }
        b.exts = exts;
        Ok(b)
    }

    /// Reads `true` or `false`; see [`bool_scan`].
    pub fn bool(&mut self) -> (r: Result<bool, Error>)
        requires
            old(self).wf(),
        ensures
            final(self).wf(),
            realizes(bool_scan(old(self).spec_rest()), r, |b: bool| b, *final(self), *old(self)),
    {
        let ghost start = *self;
        proof {
            Self::lemma_advance_zero(start);
        }
        if self.consume("true") {
            Ok(true)
        } else if self.consume("false") {
            Ok(false)
        } else {
            Err(Error::ExpectedBoolean)
        }
    }

    /// The value of the hexadecimal digit `c`.
    pub fn decode_hex(&self, c: u8) -> (r: Result<u8, Error>)
        ensures
            match hex_val(c) {
                Some(d) => r == Ok::<u8, Error>(d),
                None => r == Err::<u8, Error>(non_hex_error()),
            },
    {
        if 48u8 <= c && c <= 57u8 {
            Ok(c - 48u8)
        } else if 97u8 <= c && c <= 102u8 {
            Ok(10 + c - 97u8)
        } else if 65u8 <= c && c <= 70u8 {
            Ok(10 + c - 65u8)
        } else {
            Err(Error::InvalidEscape("Non-hex digit found"))
        }
    }

    /// Reads the two hex digits of a `\xHH` escape; see [`ascii_escape_scan`].
    pub fn decode_ascii_escape(&mut self) -> (r: Result<u8, Error>)
        requires
            old(self).wf(),
        ensures
            final(self).wf(),
            realizes(ascii_escape_scan(old(self).spec_rest()), r, |b: u8| b, *final(self), *old(self)),
    {
        let ghost start = *self;
        proof {
            Self::lemma_advance_zero(start);
        }
        let b1 = self.eat_byte()?;
        let ghost mid = *self;
        let d1 = self.decode_hex(b1)?;
        let b2 = match self.eat_byte() {
            Ok(b) => b,
            Err(e) => {
                return Err(e);
            },
        };
        proof {
            Self::lemma_advance_trans(start, mid, *self, 1, 1);
            assert(mid.spec_rest()[0] == start.spec_rest()[1]);
        }
        let d2 = self.decode_hex(b2)?;
        let n: u8 = (d1 << 4u8) | d2;
        assert(n == d1 * 16 + d2) by (bit_vector)
            requires
                d1 < 16,
                d2 < 16,
                n == (d1 << 4u8) | d2,
        ;
        Ok(n)
    }

    /// Reads the hex digits of a `\u{...}` escape, `k` of them read so far
    /// into `acc`; see [`unicode_digits_scan`].
    pub fn unicode_digits(&mut self, acc: u32, k: usize) -> (r: Result<(u32, usize), Error>)
        requires
            old(self).wf(),
            k <= 6,
            acc < pow16(k as nat),
        ensures
            final(self).wf(),
            realizes(
                unicode_digits_scan(old(self).spec_rest(), acc, k as nat),
                r,
                |x: (u32, usize)| (x.0, x.1 as nat),
                *final(self),
                *old(self),
            ),
            r matches Ok(x) ==> x.1 <= 6,
        decreases 6 - k,
    {
        let ghost start = *self;
        proof {
            Self::lemma_advance_zero(start);
        }
        if k >= 6 {
            return Ok((acc, k));
        }
        let byte = self.peek_or_eof()?;
        if byte == 125u8 {
            return Ok((acc, k));
        }
        let _ = self.advance_single();
        let ghost mid = *self;
        let d = self.decode_hex(byte)?;
        proof {
            reveal_with_fuel(pow16, 7);
            assert(acc * 16 + d < pow16((k + 1) as nat)) by (nonlinear_arith)
                requires
                    acc < pow16(k as nat),
                    d < 16,
                    pow16((k + 1) as nat) == 16 * pow16(k as nat),
            ;
            assert(pow16(6) == 16777216);
            assert(pow16((k + 1) as nat) <= pow16(6)) by {
                if k == 0 {} else if k == 1 {} else if k == 2 {} else if k == 3 {} else if k == 4 {} else {}
            }
        }
        let next = acc * 16 + d as u32;
        let r = self.unicode_digits(next, k + 1);
        proof {
            Self::lemma_advance_trans(start, mid, *self, 1, unicode_digits_scan(mid.spec_rest(), next, (k + 1) as nat).consumed());
        }
        r
    }

    /// Reads an escape sequence after its backslash; see [`escape_scan`].
    pub fn parse_escape(&mut self) -> (r: Result<char, Error>)
        requires
            old(self).wf(),
        ensures
            final(self).wf(),
            realizes(escape_scan(old(self).spec_rest()), r, |c: char| c, *final(self), *old(self)),
    {
        let ghost start = *self;
        proof {
            Self::lemma_advance_zero(start);
        }
        let b = self.eat_byte()?;
        let ghost mid = *self;
        proof {
            assert(mid.spec_rest() == start.spec_rest().skip(1));
        }
        let c = if b == 39u8 {
            '\''
        } else if b == 34u8 {
            '"'
        } else if b == 92u8 {
            '\\'
        } else if b == 110u8 {
            '\n'
        } else if b == 114u8 {
            '\r'
        } else if b == 116u8 {
            '\t'
        } else if b == 48u8 {
            '\0'
        } else if b == 120u8 {
            let r = self.decode_ascii_escape();
            proof {
                Self::lemma_advance_trans(start, mid, *self, 1, ascii_escape_scan(mid.spec_rest()).consumed());
            }
            let v = r?;
            v as char
        } else if b == 117u8 {
            let r = self.expect_byte(123u8, Error::InvalidEscape("Missing { in Unicode escape"));
            proof {
                if mid.spec_rest().len() > 0 {
                    Self::lemma_advance_trans(start, mid, *self, 1, 1);
                }
            }
            r?;
            let ghost brace = *self;
            proof {
                reveal_with_fuel(pow16, 1);
                assert(brace.spec_rest() == start.spec_rest().skip(1).skip(1));
            }
            let digits = self.unicode_digits(0, 0);
            proof {
                Self::lemma_advance_trans(start, brace, *self, 2, unicode_digits_scan(brace.spec_rest(), 0, 0).consumed());
            }
            let (bytes, num_digits) = digits?;
            if num_digits == 0 {
                return Err(Error::InvalidEscape("Expected 1-6 digits, got 0 digits in Unicode escape"));
            }
            let ghost before_close = *self;
            let r = self.expect_byte(125u8, Error::InvalidEscape("No } at the end of Unicode escape"));
            proof {
                if before_close.spec_rest().len() > 0 {
                    Self::lemma_advance_trans(start, before_close, *self, start.spec_rest().len() - before_close.spec_rest().len(), 1);
                }
                assert(before_close.spec_rest() == start.spec_rest().skip(1).skip(1 + unicode_digits_scan(brace.spec_rest(), 0, 0).consumed()));
            }
            r?;
            match char_from_u32(bytes) {
                Some(c) => c,
                None => {
                    return Err(Error::InvalidEscape("Not a valid char"));
                },
            }
        } else {
            return Err(Error::InvalidEscape("Unknown escape character"));
        };
        Ok(c)
    }

    /// Reads a char literal; see [`char_scan`].
    pub fn char(&mut self) -> (r: Result<char, Error>)
        requires
            old(self).wf(),
        ensures
            final(self).wf(),
            realizes(char_scan(old(self).spec_rest()), r, |c: char| c, *final(self), *old(self)),
    {
        proof {
            reveal(char_scan);
        }
        let ghost start = *self;
        let ghost s = self.spec_rest();
        proof {
            Self::lemma_advance_zero(start);
        }
        if !self.eat_if(39u8) {
            return Err(Error::ExpectedChar);
        }
        let ghost open = *self;
        let c = self.peek_or_eof()?;
        let ghost k: int;
        let c = if c == 92u8 {
            let _ = self.advance(1);
            let ghost esc = *self;
            proof {
                Self::lemma_advance_trans(start, open, esc, 1, 1);
                assert(esc.spec_rest() == s.skip(1).skip(1));
            }
            let r = self.parse_escape();
            proof {
                Self::lemma_advance_trans(start, esc, *self, 2, escape_scan(esc.spec_rest()).consumed());
                k = 2 + escape_scan(esc.spec_rest()).consumed();
            }
            r?
        } else if c == 39u8 && self.bytes.len() > 1 && self.bytes[1] == 39u8 {
            let _ = self.advance(1);
            proof {
                Self::lemma_advance_trans(start, open, *self, 1, 1);
                k = 2;
                assert(self.spec_rest() == s.skip(1).skip(1));
            }
            '\''
        } else {
            let max = if self.bytes.len() < 5 {
                self.bytes.len()
            } else {
                5
            };
            let window = vstd::slice::slice_subrange(self.bytes, 0, max);
            let mut pos: usize = 0;
            proof {
                assert(window@.skip(0) =~= window@);
            }
            while pos < max && window[pos] != 39u8
                invariant
                    window@.len() == max,
                    pos <= max,
                    span_len(window@, CharClass::NotApostrophe) == pos + span_len(
                        window@.skip(pos as int),
                        CharClass::NotApostrophe,
                    ),
                decreases max - pos,
            {
                proof {
                    lemma_span_len_skip(window@, CharClass::NotApostrophe, pos as int);
                }
                pos = pos + 1;
            }
            proof {
                assert(window@ == s.skip(1).take(max as int));
            }
            if pos == max {
                return Err(Error::ExpectedChar);
            }
            let text = vstd::slice::slice_subrange(self.bytes, 0, pos);
            proof {
                assert(text@ == s.skip(1).take(pos as int));
            }
            let st = match str_from_utf8(text) {
                Ok(x) => x,
                Err(e) => {
                    return Err(Error::Utf8Error(e));
                },
            };
            let count = st.unicode_len();
            if count != 1 {
                return Err(Error::ExpectedChar);
            }
            let first = st.get_char(0);
            let _ = self.advance(pos);
            proof {
                Self::lemma_advance_trans(start, open, *self, 1, pos as int);
                k = 1 + pos;
                assert(self.spec_rest() == s.skip(1).skip(pos as int));
            }
            first
        };
        let ghost before_close = *self;
        proof {
            assert(before_close.spec_rest() =~= s.skip(k));
        }
        if !self.eat_if(39u8) {
            return Err(Error::ExpectedChar);
        }
        proof {
            Self::lemma_advance_trans(start, before_close, *self, k, 1);
        }
        Ok(c)
    }

    /// Reads `n` bytes; fails with `Eof`, having read all there is, when
    /// fewer than `n` are left.
    pub fn advance(&mut self, n: usize) -> (r: Result<(), Error>)
        requires
            old(self).wf(),
        ensures
            final(self).wf(),
            n <= old(self).spec_rest().len() ==> r is Ok && final(self).is_advance_of(*old(self), n as int),
            n > old(self).spec_rest().len() ==> (r matches Err(Error::Eof))
                && final(self).is_advance_of(*old(self), old(self).spec_rest().len() as int),
    {
        let ghost start = *self;
        proof {
            Self::lemma_advance_zero(start);
        }
        let mut i: usize = 0;
        while i < n
            invariant
                self.wf(),
                start.wf(),
                start == *old(self),
                i <= n,
                i <= start.spec_rest().len(),
                self.is_advance_of(start, i as int),
            decreases n - i,
        {
            let ghost before = *self;
            let r = self.advance_single();
            if r.is_err() {
                assert(i as int == start.spec_rest().len());
                return r;
            }
            proof {
                Self::lemma_advance_trans(start, before, *self, i as int, 1);
            }
            i = i + 1;
        }
        Ok(())
    }
}

} // verus!
