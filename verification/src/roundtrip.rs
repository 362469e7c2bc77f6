//! What the writers write, the reader reads back.

use vstd::prelude::*;

use crate::parse::integer::{
    ParsedInteger, any_integer_scan, digits_scan, integer_scan, parsed_value, smallest_signed, smallest_unsigned,
};
use crate::parse::{in_class, span_len, spec_is_ident_other_char, CharClass, DesireInteger, ErrSpec, Outcome};
use crate::parse::string::{escaped_string_scan, string_scan};
use vstd::utf8::*;
use crate::util::{all_ascii, ascii_chars, decimal, lemma_ascii_encode, lemma_decimal_digits, lemma_lit_ascii, signed_decimal};
use crate::de::{
    entries_scan, entry_scan, as_list, close_scan, container_scan, deeper, dispatch_scan, document_scan, items_scan,
    list_body_scan, next_is_float, number_scan, value_scan,
};
use crate::parse::{comma_scan, spec_is_float_char};
use crate::parse::integer::any_integer_scan as integer_literal_scan;
use crate::extensions::Extensions;
use crate::parse::{attrs_scan, ext_attr_scan, header_scan, ident_scan, lit, starts_with, spec_ident_follows, ws_scan};
use crate::value::{key_index, last_wins, map_insert, ValueModel};

verus! {

/// The number that the decimal digits `s` spell.
pub open spec fn digits_val(s: Seq<u8>) -> int
    decreases s.len(),
{
    if s.len() == 0 {
        0
    } else {
        digits_val(s.drop_last()) * 10 + (s.last() - 48)
    }
}

/// Whether every byte of `s` is a decimal digit.
pub open spec fn all_digits(s: Seq<u8>) -> bool {
    forall|i: int| 0 <= i < s.len() ==> 48 <= #[trigger] s[i] <= 57
}

/// Whether `rest` may follow a number without being read into it: it is
/// empty, or starts with a byte that cannot continue a number or an
/// identifier.
pub open spec fn ends_number(rest: Seq<u8>) -> bool {
    rest.len() == 0 || !spec_is_ident_other_char(rest[0])
}

proof fn lemma_decimal_val(n: nat)
    ensures
        digits_val(decimal(n)) == n,
    decreases n,
{
    if n >= 10 {
        lemma_decimal_val(n / 10);
        assert(decimal(n).drop_last() =~= decimal(n / 10));
        assert((n / 10) * 10 + n % 10 == n) by (nonlinear_arith);
        assert(decimal(n).last() == (48 + n % 10) as u8);
        assert(decimal(n).last() - 48 == n % 10);
        assert(digits_val(decimal(n)) == digits_val(decimal(n / 10)) * 10 + (decimal(n).last() - 48));
    } else {
        assert(decimal(n).drop_last() =~= Seq::<u8>::empty());
        assert(decimal(n).last() - 48 == n);
        assert(digits_val(decimal(n)) == digits_val(Seq::<u8>::empty()) * 10 + (decimal(n).last() - 48));
    }
}

proof fn lemma_digits_prefix(b: Seq<u8>, k: int)
    requires
        0 <= k < b.len(),
    ensures
        digits_val(b.take(k + 1)) == digits_val(b.take(k)) * 10 + (b[k] - 48),
{
    assert(b.take(k + 1).drop_last() =~= b.take(k));
}

proof fn lemma_digits_grow(b: Seq<u8>, k: int)
    requires
        0 <= k <= b.len(),
        all_digits(b),
    ensures
        0 <= digits_val(b.take(k)) <= digits_val(b),
        k < b.len() ==> digits_val(b.take(k)) * 10 <= digits_val(b),
    decreases b.len() - k,
{
    if k < b.len() {
        lemma_digits_prefix(b, k);
        lemma_digits_grow(b, k + 1);
    } else {
        assert(b.take(k) =~= b);
        lemma_digits_nonneg(b);
    }
}

pub(crate) proof fn lemma_digits_nonneg(b: Seq<u8>)
    requires
        all_digits(b),
    ensures
        digits_val(b) >= 0,
    decreases b.len(),
{
    if b.len() > 0 {
        lemma_digits_nonneg(b.drop_last());
    }
}

proof fn lemma_digits_scan(b: Seq<u8>, k: int, neg: bool, lo: int, hi: int)
    requires
        0 <= k <= b.len(),
        all_digits(b),
        lo <= 0 <= hi,
        neg ==> -digits_val(b) >= lo,
        !neg ==> digits_val(b) <= hi,
    ensures
        digits_scan(
            b,
            k,
            if neg { -digits_val(b.take(k)) } else { digits_val(b.take(k)) },
            10,
            neg,
            lo,
            hi,
        ) == Ok::<int, (int, crate::error::Error)>(if neg { -digits_val(b) } else { digits_val(b) }),
    decreases b.len() - k,
{
    lemma_digits_grow(b, k);
    if k < b.len() {
        lemma_digits_prefix(b, k);
        lemma_digits_grow(b, k + 1);
        lemma_digits_scan(b, k + 1, neg, lo, hi);
    } else {
        assert(b.take(k) =~= b);
    }
}

pub(crate) proof fn lemma_span_prefix(d: Seq<u8>, rest: Seq<u8>, class: CharClass)
    requires
        forall|i: int| 0 <= i < d.len() ==> in_class(class, #[trigger] d[i]),
        rest.len() == 0 || !in_class(class, rest[0]),
    ensures
        span_len(d + rest, class) == d.len(),
    decreases d.len(),
{
    if d.len() > 0 {
        assert((d + rest).drop_first() =~= d.drop_first() + rest);
        assert forall|i: int| 0 <= i < d.drop_first().len() implies in_class(class, #[trigger] d.drop_first()[i]) by {
            assert(d.drop_first()[i] == d[i + 1]);
        }
        lemma_span_prefix(d.drop_first(), rest, class);
    } else {
        assert(d + rest =~= rest);
    }
}

proof fn lemma_span_digits(d: Seq<u8>, rest: Seq<u8>)
    requires
        all_digits(d),
        ends_number(rest),
    ensures
        span_len(d + rest, CharClass::Int) == d.len(),
{
    lemma_span_prefix(d, rest, CharClass::Int);
}

proof fn lemma_decimal_all_digits(n: nat)
    ensures
        all_digits(decimal(n)),
        decimal(n).len() >= 1,
        (decimal(n).len() > 1) == (n >= 10),
        n >= 10 ==> decimal(n)[0] != 48,
    decreases n,
{
    lemma_decimal_digits(n);
    if n >= 10 {
        lemma_decimal_all_digits(n / 10);
        assert(decimal(n)[0] == decimal(n / 10)[0]);
    }
}

/// The decimal digits of `n` scan back to `n`, with or without the minus
/// sign counted, whenever `n` lies within the range scanned into and what
/// follows cannot continue the number.
pub proof fn lemma_decimal_scans_back(n: nat, rest: Seq<u8>, neg: bool, lo: int, hi: int)
    requires
        ends_number(rest),
        lo <= 0 <= hi,
        neg ==> -n >= lo,
        !neg ==> n <= hi,
    ensures
        integer_scan(decimal(n) + rest, neg, lo, hi) == (Outcome::Done {
            n: decimal(n).len() as int,
            value: if neg { -n } else { n as int },
        }),
{
    let d = decimal(n);
    let s = d + rest;
    lemma_decimal_all_digits(n);
    lemma_decimal_val(n);
    lemma_span_digits(d, rest);
    if d.len() == 1 && rest.len() > 0 {
        assert(s[1] == rest[0]);
    }
    assert(s.skip(0) =~= s);
    assert(s.take(d.len() as int) =~= d);
    assert(d.take(0) =~= Seq::<u8>::empty());
    lemma_digits_scan(d, 0, neg, lo, hi);
}

/// An integer written in decimal, with a `-` in front when negative, reads
/// back as the same integer, in the smallest type that holds it, whenever
/// what follows cannot continue the number.
pub proof fn lemma_integer_roundtrip(v: i64, rest: Seq<u8>)
    requires
        ends_number(rest),
    ensures
        any_integer_scan(signed_decimal(v as int) + rest, DesireInteger::Any) == (Outcome::Done {
            n: signed_decimal(v as int).len() as int,
            value: if v < 0 { smallest_signed(v as int) } else { smallest_unsigned(v as int) },
        }),
        parsed_value(if v < 0 { smallest_signed(v as int) } else { smallest_unsigned(v as int) })
            == v,
{
    reveal(any_integer_scan);
    let s = signed_decimal(v as int) + rest;
    if v < 0 {
        let m = (-v) as nat;
        let t = decimal(m) + rest;
        assert(s =~= seq![45u8] + t);
        assert(s.skip(1) =~= t);
        lemma_decimal_all_digits(m);
        lemma_span_digits(decimal(m), rest);
        lemma_decimal_scans_back(m, rest, true, i64::MIN as int, i64::MAX as int);
    } else {
        let m = v as nat;
        lemma_decimal_all_digits(m);
        lemma_span_digits(decimal(m), rest);
        assert(s.skip(0) =~= s);
        lemma_decimal_scans_back(m, rest, false, 0, u64::MAX as int);
    }
}

/// An unsigned integer written in decimal reads back as the same integer,
/// in the smallest type that holds it, whenever what follows cannot
/// continue the number.
pub proof fn lemma_unsigned_roundtrip(v: u64, rest: Seq<u8>)
    requires
        ends_number(rest),
    ensures
        any_integer_scan(decimal(v as nat) + rest, DesireInteger::Any) == (Outcome::Done {
            n: decimal(v as nat).len() as int,
            value: smallest_unsigned(v as int),
        }),
        parsed_value(smallest_unsigned(v as int)) == v,
{
    reveal(any_integer_scan);
    let s = decimal(v as nat) + rest;
    lemma_decimal_all_digits(v as nat);
    lemma_span_digits(decimal(v as nat), rest);
    assert(s.skip(0) =~= s);
    lemma_decimal_scans_back(v as nat, rest, false, 0, u64::MAX as int);
}

/// Whether `s` holds neither a double quote nor a backslash, the two
/// characters that a quoted string cannot hold unescaped.
pub open spec fn plain_text(s: Seq<char>) -> bool {
    !s.contains('"') && !s.contains('\\')
}

proof fn lemma_scalar_plain(c: u32)
    requires
        is_scalar(c),
        c != 34,
        c != 92,
    ensures
        forall|i: int| 0 <= i < encode_scalar(c).len() ==> #[trigger] encode_scalar(c)[i] != 34
            && encode_scalar(c)[i] != 92,
{
    if has_width_1_encoding(c) {
        assert((c & 0x7F) as u8 == c as u8 && (c as u8 != 34u8) && (c as u8 != 92u8)) by (bit_vector)
            requires
                c <= 0x7F,
                c != 34,
                c != 92,
        ;
    } else {
        let b1 = leading_byte_width_2(c);
        let b2 = leading_byte_width_3(c);
        let b3 = leading_byte_width_4(c);
        let k1 = last_continuation_byte(c);
        let k2 = second_last_continuation_byte(c);
        let k3 = third_last_continuation_byte(c);
        assert(b1 >= 0x80 && b2 >= 0x80 && b3 >= 0x80 && k1 >= 0x80 && k2 >= 0x80 && k3 >= 0x80)
            by (bit_vector)
            requires
                b1 == 0xC0 | ((c >> 6) & 0x1F) as u8,
                b2 == 0xE0 | ((c >> 12) & 0x0F) as u8,
                b3 == 0xF0 | ((c >> 18) & 0x7) as u8,
                k1 == 0x80 | (c & 0x3F) as u8,
                k2 == 0x80 | ((c >> 6) & 0x3F) as u8,
                k3 == 0x80 | ((c >> 12) & 0x3F) as u8,
        ;
        assert forall|i: int| 0 <= i < encode_scalar(c).len() implies #[trigger] encode_scalar(c)[i]
            >= 0x80 by {
            if has_width_2_encoding(c) {
                assert(encode_scalar(c) == seq![b1, k1]);
            } else if has_width_3_encoding(c) {
                assert(encode_scalar(c) == seq![b2, k2, k1]);
            } else {
                assert(encode_scalar(c) == seq![b3, k3, k2, k1]);
            }
        }
    }
}

pub(crate) proof fn lemma_encode_plain(s: Seq<char>)
    requires
        plain_text(s),
    ensures
        forall|i: int| 0 <= i < encode_utf8(s).len() ==> in_class(
            CharClass::NotQuoteOrBackslash,
            #[trigger] encode_utf8(s)[i],
        ),
    decreases s.len(),
{
    if s.len() > 0 {
        let c = s[0];
        assert(s.contains(c));
        assert(c != '"' && c != '\\');
        char_is_scalar(c);
        if (c as u32) == 34 {
            char_u32_cast(c, 34);
            assert((34u32 as char) == '"');
        }
        if (c as u32) == 92 {
            char_u32_cast(c, 92);
            assert((92u32 as char) == '\\');
        }
        lemma_scalar_plain(c as u32);
        assert(plain_text(s.drop_first())) by {
            if s.drop_first().contains('"') {
                let j = choose|j: int| 0 <= j < s.drop_first().len() && s.drop_first()[j] == '"';
                assert(s[j + 1] == '"');
            }
            if s.drop_first().contains('\\') {
                let j = choose|j: int| 0 <= j < s.drop_first().len() && s.drop_first()[j] == '\\';
                assert(s[j + 1] == '\\');
            }
        }
        lemma_encode_plain(s.drop_first());
        let e1 = encode_scalar(c as u32);
        let e2 = encode_utf8(s.drop_first());
        assert(encode_utf8(s) == e1 + e2);
        assert forall|i: int| 0 <= i < encode_utf8(s).len() implies in_class(
            CharClass::NotQuoteOrBackslash,
            #[trigger] encode_utf8(s)[i],
        ) by {
            if i < e1.len() {
                assert(encode_utf8(s)[i] == e1[i]);
            } else {
                assert(encode_utf8(s)[i] == e2[i - e1.len()]);
            }
        }
    }
}

/// Text written between double quotes, as the serializer and the encoder
/// write strings, reads back as the same text whenever it holds neither a
/// double quote nor a backslash.
pub proof fn lemma_string_roundtrip(s: Seq<char>, rest: Seq<u8>)
    requires
        plain_text(s),
    ensures
        string_scan(seq![34u8] + encode_utf8(s) + seq![34u8] + rest) == (Outcome::Done {
            n: encode_utf8(s).len() + 2int,
            value: (false, s),
        }),
{
    reveal(string_scan);
    let e = encode_utf8(s);
    let whole = seq![34u8] + e + seq![34u8] + rest;
    let inner = e + (seq![34u8] + rest);
    assert(whole.skip(1) =~= inner);
    lemma_encode_plain(s);
    lemma_span_prefix(e, seq![34u8] + rest, CharClass::NotQuoteOrBackslash);
    assert(inner.take(e.len() as int) =~= e);
    assert(inner[e.len() as int] == 34u8);
    encode_utf8_valid_utf8(s);
    encode_utf8_decode_utf8(s);
}

/// Whether no whitespace and no comment starts `s`.
pub open spec fn no_space_first(s: Seq<u8>) -> bool {
    s.len() == 0 || (!(s[0] == 9 || s[0] == 10 || s[0] == 13 || s[0] == 32) && s[0] != 47)
}

proof fn lemma_ws_none(s: Seq<u8>)
    requires
        no_space_first(s),
    ensures
        ws_scan(s) == (0int, None::<crate::error::Error>),
{
    reveal(ws_scan);
    assert(span_len(s, CharClass::Whitespace) == 0);
    assert(s.skip(0) =~= s);
}

proof fn lemma_header_none(b: Seq<u8>)
    requires
        b.len() > 0,
        no_space_first(b),
        b[0] != 35,
    ensures
        header_scan(b) == (Outcome::Done { n: 0, value: 0usize }),
{
    lemma_ws_none(b);
    assert(b.skip(0) =~= b);
    assert(ext_attr_scan(b) == (Outcome::Done { n: 0, value: 0usize }));
}

/// A value that no keyword, identifier or whitespace starts is read by the
/// byte it starts with.
proof fn lemma_value_dispatch(b: Seq<u8>, lim: Option<usize>, exts: Extensions)
    requires
        b.len() > 0,
        (48 <= b[0] <= 57) || b[0] == 34 || b[0] == 91 || b[0] == 123 || (b[0] == 45 && b.len() > 1
            && 48 <= b[1] <= 57),
    ensures
        value_scan(b, lim, exts) == dispatch_scan(b, lim, exts),
{
    reveal(ident_scan);
    reveal_strlit("true");
    reveal_strlit("false");
    reveal_strlit("Some");
    reveal_strlit("None");
    reveal_strlit("()");
    reveal_strlit("inf");
    reveal_strlit("-inf");
    reveal_strlit("NaN");
    lemma_lit_ascii("true");
    lemma_lit_ascii("false");
    lemma_lit_ascii("Some");
    lemma_lit_ascii("None");
    lemma_lit_ascii("()");
    lemma_lit_ascii("inf");
    lemma_lit_ascii("-inf");
    lemma_lit_ascii("NaN");
    assert(lit("true")[0] == 116);
    assert(lit("false")[0] == 102);
    assert(lit("Some")[0] == 83);
    assert(lit("None")[0] == 78);
    assert(lit("()")[0] == 40);
    assert(lit("inf")[0] == 105);
    assert(lit("-inf")[0] == 45 && lit("-inf")[1] == 105);
    assert(lit("NaN")[0] == 78);
    if starts_with(b, lit("true")) {
        assert(b[0] == b.take(4)[0]);
    }
    if starts_with(b, lit("false")) {
        assert(b[0] == b.take(5)[0]);
    }
    if starts_with(b, lit("Some")) {
        assert(b[0] == b.take(4)[0]);
    }
    if starts_with(b, lit("None")) {
        assert(b[0] == b.take(4)[0]);
    }
    if starts_with(b, lit("()")) {
        assert(b[0] == b.take(2)[0]);
    }
    if starts_with(b, lit("inf")) {
        assert(b[0] == b.take(3)[0]);
    }
    if starts_with(b, lit("-inf")) {
        assert(b[0] == b.take(4)[0]);
        assert(b[1] == b.take(4)[1]);
    }
    if starts_with(b, lit("NaN")) {
        assert(b[0] == b.take(3)[0]);
    }
    assert(!spec_ident_follows(b, lit("true")));
    assert(!spec_ident_follows(b, lit("false")));
    assert(!spec_ident_follows(b, lit("Some")));
    assert(!spec_ident_follows(b, lit("None")));
    assert(!starts_with(b, lit("()")));
    assert(!spec_ident_follows(b, lit("inf")));
    assert(!spec_ident_follows(b, lit("-inf")));
    assert(!spec_ident_follows(b, lit("NaN")));
    assert(!(ident_scan(b) is Done));
}

/// A document holding nothing but an integer written in decimal, with a
/// `-` in front when negative, reads as that integer, in the smallest type
/// that holds it.
#[verifier::rlimit(30)]
pub proof fn lemma_document_integer(v: i64, lim: Option<usize>, default_bits: usize)
    ensures
        document_scan(signed_decimal(v as int), lim, default_bits) == (Outcome::Done {
            n: signed_decimal(v as int).len() as int,
            value: ValueModel::Integer(
                if v < 0 { smallest_signed(v as int) } else { smallest_unsigned(v as int) },
            ),
        }),
{
    let b = signed_decimal(v as int);
    let m: nat = if v < 0 { (-v) as nat } else { v as nat };
    let d = decimal(m);
    lemma_decimal_all_digits(m);
    assert(b + Seq::<u8>::empty() =~= b);
    lemma_integer_roundtrip(v, Seq::empty());
    if v < 0 {
        assert(b =~= seq![45u8] + d);
        assert(b[1] == d[0]);
    } else {
        assert(b == d);
    }
    if b.len() == 1 {
        assert(v >= 0);
    }
    lemma_header_none(b);
    assert(b.skip(0) =~= b);
    let exts = Extensions { bits: 0usize | default_bits };
    if b.len() > 1 {
        lemma_value_dispatch(b, lim, exts);
    } else {
        reveal(ident_scan);
        reveal_strlit("()");
        lemma_lit_ascii("()");
        reveal_strlit("inf");
        lemma_lit_ascii("inf");
        reveal_strlit("NaN");
        lemma_lit_ascii("NaN");
        reveal_strlit("true");
        lemma_lit_ascii("true");
        reveal_strlit("false");
        lemma_lit_ascii("false");
        reveal_strlit("Some");
        lemma_lit_ascii("Some");
        reveal_strlit("None");
        lemma_lit_ascii("None");
        reveal_strlit("-inf");
        lemma_lit_ascii("-inf");
    }
    reveal(number_scan);
    let sg: int = if v < 0 { 1 } else { 0 };
    assert(b.skip(sg) =~= d);
    lemma_span_prefix(d, Seq::empty(), CharClass::Int);
    assert(forall|i: int| 0 <= i < d.len() ==> in_class(CharClass::Float, #[trigger] d[i]));
    lemma_span_prefix(d, Seq::empty(), CharClass::Float);
    assert(d + Seq::<u8>::empty() =~= d);
    assert(!next_is_float(b));
    assert(dispatch_scan(b, lim, exts) == number_scan(b));
    assert(b.skip(b.len() as int) =~= Seq::<u8>::empty());
    lemma_ws_none(Seq::<u8>::empty());
    assert(Seq::<u8>::empty().skip(0) =~= Seq::<u8>::empty());
}

/// A document holding nothing but text between double quotes reads as that
/// text, whenever it holds neither a double quote nor a backslash.
pub proof fn lemma_document_string(s: Seq<char>, lim: Option<usize>, default_bits: usize)
    requires
        plain_text(s),
    ensures
        document_scan(seq![34u8] + encode_utf8(s) + seq![34u8], lim, default_bits) == (
        Outcome::Done { n: encode_utf8(s).len() + 2int, value: ValueModel::String(s) }),
{
    let b = seq![34u8] + encode_utf8(s) + seq![34u8];
    assert(b + Seq::<u8>::empty() =~= b);
    lemma_string_roundtrip(s, Seq::empty());
    lemma_header_none(b);
    assert(b.skip(0) =~= b);
    let exts = Extensions { bits: 0usize | default_bits };
    lemma_value_dispatch(b, lim, exts);
    assert(b.skip(b.len() as int) =~= Seq::<u8>::empty());
    lemma_ws_none(Seq::<u8>::empty());
    assert(Seq::<u8>::empty().skip(0) =~= Seq::<u8>::empty());
}

pub(crate) proof fn lemma_encode_concat(a: Seq<char>, b: Seq<char>)
    ensures
        encode_utf8(a + b) == encode_utf8(a) + encode_utf8(b),
    decreases a.len(),
{
    if a.len() == 0 {
        assert(a + b =~= b);
    } else {
        assert((a + b).drop_first() =~= a.drop_first() + b);
        lemma_encode_concat(a.drop_first(), b);
    }
}

/// The characters that the serializer (`serialize_i64` and the other
/// integer writers) and the encoder (`emit_i64` and the others) write for
/// an integer make, in UTF-8, a document that reads as that integer.
pub proof fn lemma_written_integer_reads_back(v: i64, lim: Option<usize>, default_bits: usize)
    ensures
        document_scan(encode_utf8(ascii_chars(signed_decimal(v as int))), lim, default_bits) == (
        Outcome::Done {
            n: signed_decimal(v as int).len() as int,
            value: ValueModel::Integer(
                if v < 0 { smallest_signed(v as int) } else { smallest_unsigned(v as int) },
            ),
        }),
{
    let b = signed_decimal(v as int);
    let m: nat = if v < 0 { (-v) as nat } else { v as nat };
    lemma_decimal_all_digits(m);
    assert(all_ascii(b)) by {
        assert forall|i: int| 0 <= i < b.len() implies #[trigger] b[i] < 128 by {
            if v < 0 && i > 0 {
                assert(b[i] == decimal(m)[i - 1]);
            }
        }
    }
    lemma_ascii_encode(b);
    lemma_document_integer(v, lim, default_bits);
}

/// The characters that the serializer (`serialize_str`) and the encoder
/// (`emit_str`) write for a string make, in UTF-8, a document that reads
/// as that string, whenever it holds neither a double quote nor a
/// backslash.
pub proof fn lemma_written_string_reads_back(s: Seq<char>, lim: Option<usize>, default_bits: usize)
    requires
        plain_text(s),
    ensures
        document_scan(encode_utf8(seq!['"'] + s + seq!['"']), lim, default_bits) == (Outcome::Done {
            n: encode_utf8(s).len() + 2int,
            value: ValueModel::String(s),
        }),
{
    lemma_encode_concat(seq!['"'] + s, seq!['"']);
    lemma_encode_concat(seq!['"'], s);
    char_is_scalar('"');
    assert(encode_utf8(seq!['"']) =~= seq![34u8]) by {
        let q = seq!['"'];
        assert(q.drop_first() =~= Seq::<char>::empty());
        assert(q[0] == '"');
        assert(('"' as u32) == 34);
        assert((34u32 & 0x7F) as u8 == 34u8) by (bit_vector);
        assert(has_width_1_encoding(34u32));
        assert(encode_scalar(34u32) == seq![leading_byte_width_1(34u32)]);
        assert(encode_utf8(Seq::<char>::empty()) =~= Seq::<u8>::empty());
        assert(encode_utf8(q) == encode_scalar(q[0] as u32) + encode_utf8(q.drop_first()));
    }
    lemma_document_string(s, lim, default_bits);
}

/// What the serializer and the encoder write for a boolean (`true` or
/// `false`), for `None` and for the unit `()` makes, in UTF-8, a document
/// that reads as that value.
pub proof fn lemma_written_keywords_read_back(v: bool, lim: Option<usize>, default_bits: usize)
    ensures
        document_scan(encode_utf8(if v { "true"@ } else { "false"@ }), lim, default_bits) == (
        Outcome::Done { n: if v { 4int } else { 5int }, value: ValueModel::Bool(v) }),
        document_scan(encode_utf8("None"@), lim, default_bits) == (Outcome::Done {
            n: 4int,
            value: ValueModel::Option(None),
        }),
        document_scan(encode_utf8("()"@), lim, default_bits) == (Outcome::Done {
            n: 2int,
            value: ValueModel::Unit,
        }),
{
    reveal_strlit("true");
    reveal_strlit("false");
    reveal_strlit("Some");
    reveal_strlit("None");
    reveal_strlit("()");
    lemma_lit_ascii("true");
    lemma_lit_ascii("false");
    lemma_lit_ascii("Some");
    lemma_lit_ascii("None");
    lemma_lit_ascii("()");
    let exts = Extensions { bits: 0usize | default_bits };
    let empty = Seq::<u8>::empty();
    lemma_ws_none(empty);
    assert(empty.skip(0) =~= empty);
    let t = lit("true");
    let f = lit("false");
    let n = lit("None");
    let u = lit("()");
    lemma_header_none(t);
    lemma_header_none(f);
    lemma_header_none(n);
    lemma_header_none(u);
    assert(t.skip(0) =~= t && f.skip(0) =~= f && n.skip(0) =~= n && u.skip(0) =~= u);
    assert(t.take(4) =~= t && f.take(5) =~= f && n.take(4) =~= n && u.take(2) =~= u);
    assert(t.skip(4) =~= empty && f.skip(5) =~= empty && n.skip(4) =~= empty && u.skip(2) =~= empty);
    assert(spec_ident_follows(t, lit("true")));
    assert(spec_ident_follows(f, lit("false")));
    assert(!starts_with(f, lit("true")));
    assert(!starts_with(n, lit("true")) && !starts_with(n, lit("false")) && !starts_with(n, lit("Some")));
    assert(spec_ident_follows(n, lit("None")));
    assert(!starts_with(u, lit("true")) && !starts_with(u, lit("false")) && !starts_with(u, lit("Some"))
        && !starts_with(u, lit("None")));
    assert(starts_with(u, lit("()")));
}

proof fn lemma_ws_space(b: Seq<u8>)
    ensures
        ws_scan(seq![32u8] + b) == (ws_scan(b).0 + 1, ws_scan(b).1),
{
    reveal(ws_scan);
    let s = seq![32u8] + b;
    assert(s.drop_first() =~= b);
    assert(span_len(s, CharClass::Whitespace) == 1 + span_len(b, CharClass::Whitespace));
    let k = span_len(b, CharClass::Whitespace) as int;
    crate::parse::lemma_span_len(b, CharClass::Whitespace);
    assert(s.skip(k + 1) =~= b.skip(k));
}

/// A space before a document changes nothing but the positions at which
/// reading stops: the same value is read, or the same error reported one
/// byte further on.
pub proof fn lemma_leading_space(b: Seq<u8>, lim: Option<usize>, default_bits: usize)
    ensures
        document_scan(seq![32u8] + b, lim, default_bits) == document_scan(b, lim, default_bits).shift(1),
{
    let s = seq![32u8] + b;
    lemma_ws_space(b);
    crate::parse::lemma_ws_scan_len(b);
    let w = ws_scan(b).0;
    assert(s.skip(w + 1) =~= b.skip(w));
    assert(header_scan(s) == header_scan(b).shift(1));
    crate::parse::lemma_header_scan_len(b);
    match header_scan(b) {
        Outcome::Done { n, .. } => {
            assert(s.skip(n + 1) =~= b.skip(n));
        },
        Outcome::Fail { .. } => {},
    }
}

/// The model of an integer as the reader reads it when no suffix names its
/// type: in the smallest type that holds it, signed when it is negative.
pub open spec fn integer_model(v: i64) -> ValueModel {
    ValueModel::Integer(if v < 0 { smallest_signed(v as int) } else { smallest_unsigned(v as int) })
}

/// The text that the serializer writes for the items of a sequence of
/// integers: each in decimal, followed by a comma.
pub open spec fn integer_items_text(vs: Seq<i64>) -> Seq<u8>
    decreases vs.len(),
{
    if vs.len() == 0 {
        Seq::empty()
    } else {
        signed_decimal(vs[0] as int) + seq![44u8] + integer_items_text(vs.drop_first())
    }
}

/// Whether `rest` may follow a number and is not part of a float either.
pub open spec fn ends_plain_number(rest: Seq<u8>) -> bool {
    rest.len() > 0 && !spec_is_ident_other_char(rest[0]) && !spec_is_float_char(rest[0]) && rest[0]
        != 46
}

proof fn lemma_decimal_shape(v: i64)
    ensures
        signed_decimal(v as int).len() >= 1,
        v < 0 ==> signed_decimal(v as int).len() >= 2 && signed_decimal(v as int)[0] == 45 && 48
            <= signed_decimal(v as int)[1] <= 57,
        v >= 0 ==> 48 <= signed_decimal(v as int)[0] <= 57,
{
    let m: nat = if v < 0 { (-v) as nat } else { v as nat };
    lemma_decimal_all_digits(m);
    if v < 0 {
        assert(signed_decimal(v as int)[1] == decimal(m)[0]);
    }
}

/// An integer written in decimal and followed by something that ends it
/// reads as a value: that integer.
proof fn lemma_value_integer(v: i64, rest: Seq<u8>, lim: Option<usize>, exts: Extensions)
    requires
        ends_plain_number(rest),
    ensures
        value_scan(signed_decimal(v as int) + rest, lim, exts) == (Outcome::Done {
            n: signed_decimal(v as int).len() as int,
            value: integer_model(v),
        }),
{
    let b = signed_decimal(v as int) + rest;
    let m: nat = if v < 0 { (-v) as nat } else { v as nat };
    let d = decimal(m);
    lemma_decimal_all_digits(m);
    lemma_decimal_shape(v);
    lemma_integer_roundtrip(v, rest);
    assert(b[0] == signed_decimal(v as int)[0]);
    if v < 0 {
        assert(b[1] == signed_decimal(v as int)[1]);
    }
    lemma_value_dispatch(b, lim, exts);
    reveal(number_scan);
    let sg: int = if v < 0 { 1 } else { 0 };
    if v < 0 {
        assert(signed_decimal(v as int) =~= seq![45u8] + d);
    }
    assert(b.skip(sg) =~= d + rest);
    lemma_span_prefix(d, rest, CharClass::Int);
    assert(forall|i: int| 0 <= i < d.len() ==> in_class(CharClass::Float, #[trigger] d[i]));
    lemma_span_prefix(d, rest, CharClass::Float);
    assert(!next_is_float(b));
}

proof fn lemma_ws_at_number(v: i64, rest: Seq<u8>)
    ensures
        ws_scan(signed_decimal(v as int) + rest) == (0int, None::<crate::error::Error>),
{
    lemma_decimal_shape(v);
    let b = signed_decimal(v as int) + rest;
    assert(b[0] == signed_decimal(v as int)[0]);
    lemma_ws_none(b);
}

/// The items of a sequence of integers, as the serializer writes them, read
/// back as those integers, up to the closing `]`.
#[verifier::rlimit(40)]
proof fn lemma_integer_items(vs: Seq<i64>, rest: Seq<u8>, lim: Option<usize>, exts: Extensions)
    requires
        deeper(lim) is Some,
    ensures
        items_scan(integer_items_text(vs) + seq![93u8] + rest, lim, exts, 93, true) == (
        Outcome::Done {
            n: integer_items_text(vs).len() as int,
            value: vs.map_values(|v: i64| integer_model(v)),
        }),
    decreases vs.len(),
{
    let s = integer_items_text(vs) + seq![93u8] + rest;
    if vs.len() == 0 {
        assert(s =~= seq![93u8] + rest);
        lemma_ws_none(s);
        assert(s.skip(0) =~= s);
        assert(vs.map_values(|v: i64| integer_model(v)) =~= Seq::<ValueModel>::empty());
    } else {
        let v = vs[0];
        let tail = vs.drop_first();
        let after = seq![44u8] + integer_items_text(tail) + seq![93u8] + rest;
        let dv = signed_decimal(v as int);
        assert(s =~= dv + after);
        lemma_ws_at_number(v, after);
        assert(s.skip(0) =~= s);
        lemma_decimal_shape(v);
        assert(s[0] == dv[0]);
        let l2 = deeper(lim).unwrap();
        lemma_value_integer(v, after, l2, exts);
        assert(s.skip(dv.len() as int) =~= after);
        // the comma after the item
        reveal(comma_scan);
        lemma_ws_none(after);
        assert(after.skip(0) =~= after);
        let next = integer_items_text(tail) + seq![93u8] + rest;
        assert(after.skip(1) =~= next);
        if tail.len() > 0 {
            lemma_decimal_shape(tail[0]);
            assert(next =~= signed_decimal(tail[0] as int) + (seq![44u8] + integer_items_text(
                tail.drop_first(),
            ) + seq![93u8] + rest));
            lemma_ws_at_number(
                tail[0],
                seq![44u8] + integer_items_text(tail.drop_first()) + seq![93u8] + rest,
            );
        } else {
            assert(next =~= seq![93u8] + rest);
            lemma_ws_none(next);
        }
        assert(s.skip(dv.len() + 1int) =~= next);
        lemma_integer_items(tail, rest, lim, exts);
        assert(vs.map_values(|v: i64| integer_model(v)) =~= seq![integer_model(v)]
            + tail.map_values(|v: i64| integer_model(v)));
    }
}

/// What the serializer writes for a sequence of integers (`[`, each in
/// decimal followed by a comma, `]`) reads back, as a whole document, as
/// the list of those integers, wherever the recursion limit lets a list of
/// values be read.
pub proof fn lemma_integer_list_roundtrip(vs: Seq<i64>, lim: Option<usize>, default_bits: usize)
    requires
        deeper(lim) matches Some(l1) && deeper(l1) is Some,
    ensures
        document_scan(seq![91u8] + integer_items_text(vs) + seq![93u8], lim, default_bits) == (
        Outcome::Done {
            n: integer_items_text(vs).len() + 2int,
            value: ValueModel::List(vs.map_values(|v: i64| integer_model(v))),
        }),
{
    let items = integer_items_text(vs);
    let b = seq![91u8] + items + seq![93u8];
    let exts = Extensions { bits: 0usize | default_bits };
    let l1 = deeper(lim).unwrap();
    lemma_header_none(b);
    assert(b.skip(0) =~= b);
    if items.len() == 0 {
        assert(b.len() == 2);
    }
    lemma_value_dispatch(b, lim, exts);
    let body = items + seq![93u8];
    assert(b.skip(1) =~= body);
    assert(body =~= items + seq![93u8] + Seq::<u8>::empty());
    lemma_integer_items(vs, Seq::empty(), l1, exts);
    let n = items.len() as int;
    assert(body.skip(n) =~= seq![93u8]);
    lemma_ws_none(seq![93u8]);
    assert(b.skip(b.len() as int) =~= Seq::<u8>::empty());
    lemma_ws_none(Seq::<u8>::empty());
    assert(Seq::<u8>::empty().skip(0) =~= Seq::<u8>::empty());
}


// ---------------------------------------------------------------------------
// Whole values
// ---------------------------------------------------------------------------

/// The characters that the serializer writes for a value, call by call: a
/// boolean, `()`, `None`, `Some(` .. `)`, an integer in decimal, a string
/// between double quotes, a character as a one-character string, a list as
/// `[`, each element followed by `,`, and `]`, and a mapping as `{`, each
/// key, `:` and its value, and `}`. A float is written by the text of the
/// number it holds, which is left to the caller; here it stands for the text
/// it was read from.
pub open spec fn value_text(v: ValueModel) -> Seq<char>
    decreases v,
{
    match v {
        ValueModel::Bool(b) => if b {
            "true"@
        } else {
            "false"@
        },
        ValueModel::Unit => seq!['(', ')'],
        ValueModel::Option(o) => match o {
            None => "None"@,
            Some(b) => "Some("@ + value_text(*b) + seq![')'],
        },
        ValueModel::Integer(p) => ascii_chars(signed_decimal(parsed_value(p))),
        ValueModel::String(t) => seq!['"'] + t + seq!['"'],
        ValueModel::Char(c) => seq!['"', c, '"'],
        ValueModel::Float(t, _) => decode_utf8(t),
        ValueModel::List(items) => seq!['['] + items_text(items) + seq![']'],
        ValueModel::Mapping(entries) => seq!['{'] + entries_text(entries) + seq!['}'],
    }
}

/// The elements of a list as the serializer writes them: each followed by
/// `,`.
pub open spec fn items_text(items: Seq<ValueModel>) -> Seq<char>
    decreases items,
{
    if items.len() == 0 {
        Seq::empty()
    } else {
        value_text(items[0]) + seq![','] + items_text(items.drop_first())
    }
}

/// The entries of a mapping as the serializer writes them: each key, `:`
/// and its value, with nothing between one entry and the next.
pub open spec fn entries_text(entries: Seq<(ValueModel, ValueModel)>) -> Seq<char>
    decreases entries,
{
    if entries.len() == 0 {
        Seq::empty()
    } else {
        value_text(entries[0].0) + seq![':'] + value_text(entries[0].1) + entries_text(
            entries.drop_first(),
        )
    }
}

/// Whether an integer is in the form in which the reader reads it back: in
/// the smallest type that holds it, signed exactly when it is negative.
pub open spec fn canonical_integer(p: ParsedInteger) -> bool {
    if parsed_value(p) < 0 {
        smallest_signed(parsed_value(p)) == p
    } else {
        smallest_unsigned(parsed_value(p)) == p
    }
}

/// Whether a value reads back as the value that was written: no float and
/// no character (a character is written as a string), strings with neither
/// a double quote nor a backslash (they are written unescaped), integers in
/// the form in which they are read, and mappings of at most one entry (the
/// entries of a mapping are written with nothing between them).
pub open spec fn writable(v: ValueModel) -> bool
    decreases v,
{
    match v {
        ValueModel::Bool(_) => true,
        ValueModel::Unit => true,
        ValueModel::Option(o) => match o {
            None => true,
            Some(b) => writable(*b),
        },
        ValueModel::Integer(p) => canonical_integer(p),
        ValueModel::String(t) => plain_text(t),
        ValueModel::Char(_) => false,
        ValueModel::Float(_, _) => false,
        ValueModel::List(items) => forall|i: int| 0 <= i < items.len() ==> writable(#[trigger] items[i]),
        ValueModel::Mapping(entries) => entries.len() <= 1 && forall|i: int|
            0 <= i < entries.len() ==> writable(#[trigger] entries[i].0) && writable(entries[i].1),
    }
}

/// Whether reading the value `v` stays within the recursion limit `lim`:
/// `Some(..)` goes one level down, a list or a mapping one level for itself
/// and one more for its elements.
pub open spec fn fits(v: ValueModel, lim: Option<usize>) -> bool
    decreases v,
{
    match v {
        ValueModel::Option(o) => match o {
            None => true,
            Some(b) => match deeper(lim) {
                None => false,
                Some(l2) => fits(*b, l2),
            },
        },
        ValueModel::List(items) => match deeper(lim) {
            None => false,
            Some(l1) => items.len() == 0 || match deeper(l1) {
                None => false,
                Some(l2) => forall|i: int| 0 <= i < items.len() ==> fits(#[trigger] items[i], l2),
            },
        },
        ValueModel::Mapping(entries) => match deeper(lim) {
            None => false,
            Some(l1) => entries.len() == 0 || match deeper(l1) {
                None => false,
                Some(l2) => forall|i: int|
                    0 <= i < entries.len() ==> fits(#[trigger] entries[i].0, l2) && fits(entries[i].1, l2),
            },
        },
        _ => true,
    }
}


/// The UTF-8 bytes of [`value_text`].
spec fn value_bytes(v: ValueModel) -> Seq<u8>
    decreases v,
{
    match v {
        ValueModel::Bool(b) => if b {
            seq![116u8, 114, 117, 101]
        } else {
            seq![102u8, 97, 108, 115, 101]
        },
        ValueModel::Unit => seq![40u8, 41],
        ValueModel::Option(o) => match o {
            None => seq![78u8, 111, 110, 101],
            Some(b) => seq![83u8, 111, 109, 101, 40] + value_bytes(*b) + seq![41u8],
        },
        ValueModel::Integer(p) => signed_decimal(parsed_value(p)),
        ValueModel::String(t) => seq![34u8] + encode_utf8(t) + seq![34u8],
        ValueModel::Char(c) => seq![34u8] + encode_utf8(seq![c]) + seq![34u8],
        ValueModel::Float(t, _) => encode_utf8(decode_utf8(t)),
        ValueModel::List(items) => seq![91u8] + items_bytes(items) + seq![93u8],
        ValueModel::Mapping(entries) => seq![123u8] + entries_bytes(entries) + seq![125u8],
    }
}

spec fn items_bytes(items: Seq<ValueModel>) -> Seq<u8>
    decreases items,
{
    if items.len() == 0 {
        Seq::empty()
    } else {
        value_bytes(items[0]) + seq![44u8] + items_bytes(items.drop_first())
    }
}

spec fn entries_bytes(entries: Seq<(ValueModel, ValueModel)>) -> Seq<u8>
    decreases entries,
{
    if entries.len() == 0 {
        Seq::empty()
    } else {
        value_bytes(entries[0].0) + seq![58u8] + value_bytes(entries[0].1) + entries_bytes(
            entries.drop_first(),
        )
    }
}

proof fn lemma_encode_ascii(cs: Seq<char>, bs: Seq<u8>)
    requires
        all_ascii(bs),
        cs == ascii_chars(bs),
    ensures
        encode_utf8(cs) == bs,
{
    lemma_ascii_encode(bs);
}

proof fn lemma_encode3(a: Seq<char>, b: Seq<char>, c: Seq<char>)
    ensures
        encode_utf8(a + b + c) == encode_utf8(a) + encode_utf8(b) + encode_utf8(c),
{
    lemma_encode_concat(a + b, c);
    lemma_encode_concat(a, b);
}

proof fn lemma_encode_one(c: char, b: u8)
    requires
        b < 128,
        c == b as char,
    ensures
        encode_utf8(seq![c]) == seq![b],
{
    assert(seq![c] =~= ascii_chars(seq![b]));
    lemma_encode_ascii(seq![c], seq![b]);
}

proof fn lemma_value_bytes(v: ValueModel)
    ensures
        encode_utf8(value_text(v)) == value_bytes(v),
    decreases v,
{
    match v {
        ValueModel::Bool(b) => {
            reveal_strlit("true");
            reveal_strlit("false");
            if b {
                assert("true"@ =~= ascii_chars(seq![116u8, 114, 117, 101]));
                lemma_encode_ascii("true"@, seq![116u8, 114, 117, 101]);
            } else {
                assert("false"@ =~= ascii_chars(seq![102u8, 97, 108, 115, 101]));
                lemma_encode_ascii("false"@, seq![102u8, 97, 108, 115, 101]);
            }
        },
        ValueModel::Unit => {
            assert(seq!['(', ')'] =~= ascii_chars(seq![40u8, 41]));
            lemma_encode_ascii(seq!['(', ')'], seq![40u8, 41]);
        },
        ValueModel::Option(o) => match o {
            None => {
                reveal_strlit("None");
                assert("None"@ =~= ascii_chars(seq![78u8, 111, 110, 101]));
                lemma_encode_ascii("None"@, seq![78u8, 111, 110, 101]);
            },
            Some(b) => {
                reveal_strlit("Some(");
                assert("Some("@ =~= ascii_chars(seq![83u8, 111, 109, 101, 40]));
                lemma_encode_ascii("Some("@, seq![83u8, 111, 109, 101, 40]);
                lemma_value_bytes(*b);
                lemma_encode3("Some("@, value_text(*b), seq![')']);
                lemma_encode_one(')', 41u8);
            },
        },
        ValueModel::Integer(p) => {
            let x = parsed_value(p);
            let m: nat = if x < 0 { (-x) as nat } else { x as nat };
            lemma_decimal_all_digits(m);
            assert(all_ascii(signed_decimal(x))) by {
                assert forall|i: int| 0 <= i < signed_decimal(x).len() implies #[trigger] signed_decimal(x)[i] < 128 by {
                    if x < 0 && i > 0 {
                        assert(signed_decimal(x)[i] == decimal(m)[i - 1]);
                    }
                }
            }
            lemma_ascii_encode(signed_decimal(x));
        },
        ValueModel::String(t) => {
            lemma_encode3(seq!['"'], t, seq!['"']);
            lemma_encode_one('"', 34u8);
        },
        ValueModel::Char(c) => {
            assert(seq!['"', c, '"'] =~= seq!['"'] + seq![c] + seq!['"']);
            lemma_encode3(seq!['"'], seq![c], seq!['"']);
            lemma_encode_one('"', 34u8);
        },
        ValueModel::Float(t, _) => {},
        ValueModel::List(items) => {
            lemma_items_bytes(items);
            lemma_encode3(seq!['['], items_text(items), seq![']']);
            lemma_encode_one('[', 91u8);
            lemma_encode_one(']', 93u8);
        },
        ValueModel::Mapping(entries) => {
            lemma_entries_bytes(entries);
            lemma_encode3(seq!['{'], entries_text(entries), seq!['}']);
            lemma_encode_one('{', 123u8);
            lemma_encode_one('}', 125u8);
        },
    }
}

proof fn lemma_items_bytes(items: Seq<ValueModel>)
    ensures
        encode_utf8(items_text(items)) == items_bytes(items),
    decreases items,
{
    if items.len() > 0 {
        lemma_value_bytes(items[0]);
        lemma_items_bytes(items.drop_first());
        lemma_encode3(value_text(items[0]), seq![','], items_text(items.drop_first()));
        lemma_encode_one(',', 44u8);
    }
}

proof fn lemma_entries_bytes(entries: Seq<(ValueModel, ValueModel)>)
    ensures
        encode_utf8(entries_text(entries)) == entries_bytes(entries),
    decreases entries,
{
    if entries.len() > 0 {
        lemma_value_bytes(entries[0].0);
        lemma_value_bytes(entries[0].1);
        lemma_entries_bytes(entries.drop_first());
        lemma_encode3(value_text(entries[0].0), seq![':'], value_text(entries[0].1));
        lemma_encode_concat(
            value_text(entries[0].0) + seq![':'] + value_text(entries[0].1),
            entries_text(entries.drop_first()),
        );
        lemma_encode_one(':', 58u8);
    }
}


/// Whether `rest` may follow a written value: it is empty, or starts with
/// a byte that the writer puts after a value (`,` `)` `:` `]` `}`).
pub open spec fn ends_value(rest: Seq<u8>) -> bool {
    rest.len() == 0 || rest[0] == 44 || rest[0] == 41 || rest[0] == 58 || rest[0] == 93 || rest[0]
        == 125
}

/// How written text starts: with a keyword, `(`, a digit, `-` and a
/// digit, `"`, `[` or `{`.
spec fn starts_value(b: Seq<u8>) -> bool {
    b.len() > 0 && (b[0] == 116 || b[0] == 102 || b[0] == 40 || b[0] == 78 || b[0] == 83 || b[0]
        == 34 || b[0] == 91 || b[0] == 123 || (48 <= b[0] <= 57) || (b[0] == 45 && b.len() > 1 && 48
        <= b[1] <= 57))
}

proof fn lemma_first_byte(v: ValueModel)
    requires
        writable(v),
    ensures
        starts_value(value_bytes(v)),
{
    match v {
        ValueModel::Integer(p) => {
            let x = parsed_value(p);
            let m: nat = if x < 0 { (-x) as nat } else { x as nat };
            lemma_decimal_all_digits(m);
            if x < 0 {
                assert(signed_decimal(x)[1] == decimal(m)[0]);
            }
        },
        _ => {},
    }
}

proof fn lemma_starts_then(b: Seq<u8>, rest: Seq<u8>)
    requires
        starts_value(b),
    ensures
        starts_value(b + rest),
        no_space_first(b + rest),
        (b + rest)[0] == b[0],
        (b + rest)[0] != 93 && (b + rest)[0] != 125 && (b + rest)[0] != 41 && (b + rest)[0] != 35,
{
    if b[0] == 45 {
        assert((b + rest)[1] == b[1]);
    }
}

/// The bytes of the keywords that a value can start with.
proof fn lemma_keyword_bytes()
    ensures
        lit("true") == seq![116u8, 114, 117, 101],
        lit("false") == seq![102u8, 97, 108, 115, 101],
        lit("Some") == seq![83u8, 111, 109, 101],
        lit("None") == seq![78u8, 111, 110, 101],
        lit("()") == seq![40u8, 41],
        lit("inf") == seq![105u8, 110, 102],
        lit("-inf") == seq![45u8, 105, 110, 102],
        lit("NaN") == seq![78u8, 97, 78],
{
    reveal_strlit("true");
    reveal_strlit("false");
    reveal_strlit("Some");
    reveal_strlit("None");
    reveal_strlit("()");
    reveal_strlit("inf");
    reveal_strlit("-inf");
    reveal_strlit("NaN");
    lemma_lit_ascii("true");
    lemma_lit_ascii("false");
    lemma_lit_ascii("Some");
    lemma_lit_ascii("None");
    lemma_lit_ascii("()");
    lemma_lit_ascii("inf");
    lemma_lit_ascii("-inf");
    lemma_lit_ascii("NaN");
    assert(lit("true") =~= seq![116u8, 114, 117, 101]);
    assert(lit("false") =~= seq![102u8, 97, 108, 115, 101]);
    assert(lit("Some") =~= seq![83u8, 111, 109, 101]);
    assert(lit("None") =~= seq![78u8, 111, 110, 101]);
    assert(lit("()") =~= seq![40u8, 41]);
    assert(lit("inf") =~= seq![105u8, 110, 102]);
    assert(lit("-inf") =~= seq![45u8, 105, 110, 102]);
    assert(lit("NaN") =~= seq![78u8, 97, 78]);
}

/// A written keyword value (`true`, `false`, `None`, `()`) reads back.
proof fn lemma_keyword_reads(v: ValueModel, rest: Seq<u8>, lim: Option<usize>, exts: Extensions)
    requires
        v is Bool || v is Unit || v == ValueModel::Option(None),
        ends_value(rest),
    ensures
        value_scan(value_bytes(v) + rest, lim, exts) == (Outcome::Done {
            n: value_bytes(v).len() as int,
            value: v,
        }),
{
    lemma_keyword_bytes();
    let b = value_bytes(v);
    let s = b + rest;
    let k = b.len() as int;
    assert(s.take(k) =~= b);
    assert(s.skip(k) =~= rest);
    if rest.len() > 0 {
        assert(s[k] == rest[0]);
    }
    assert(s[0] == b[0]);
    assert(s.len() >= k);
    if k >= 2 {
        assert(s[1] == b[1]);
    }
    if k >= 4 {
        assert(s.take(4) =~= b.take(4));
    }
    if s.len() >= 4 {
        assert(s.take(4)[0] == s[0]);
    }
    if s.len() >= 5 {
        assert(s.take(5)[0] == s[0]);
    }
    if s.len() >= 3 {
        assert(s.take(3)[0] == s[0]);
        assert(s.take(3)[1] == s[1]);
    }
    if s.len() >= 2 {
        assert(s.take(2)[0] == s[0]);
    }
}

/// A written value reads back as the value that was written, and reading
/// stops where its text ends.
proof fn lemma_value_reads(v: ValueModel, rest: Seq<u8>, lim: Option<usize>, exts: Extensions)
    requires
        writable(v),
        fits(v, lim),
        ends_value(rest),
    ensures
        value_scan(value_bytes(v) + rest, lim, exts) == (Outcome::Done {
            n: value_bytes(v).len() as int,
            value: v,
        }),
    decreases v, 1int,
{
    lemma_first_byte(v);
    let b = value_bytes(v);
    let s = b + rest;
    lemma_starts_then(b, rest);
    match v {
        ValueModel::Bool(_) => lemma_keyword_reads(v, rest, lim, exts),
        ValueModel::Unit => lemma_keyword_reads(v, rest, lim, exts),
        ValueModel::Option(o) => match o {
            None => lemma_keyword_reads(v, rest, lim, exts),
            Some(inner) => lemma_option_reads(v, rest, lim, exts),
        },
        ValueModel::Integer(p) => lemma_integer_reads(p, rest, lim, exts),
        ValueModel::String(t) => {
            lemma_value_dispatch(s, lim, exts);
            assert(s =~= seq![34u8] + encode_utf8(t) + seq![34u8] + rest);
            lemma_string_roundtrip(t, rest);
        },
        ValueModel::List(items) => lemma_list_reads(v, rest, lim, exts),
        ValueModel::Mapping(entries) => lemma_mapping_reads(v, rest, lim, exts),
        _ => {},
    }
}

proof fn lemma_integer_reads(p: ParsedInteger, rest: Seq<u8>, lim: Option<usize>, exts: Extensions)
    requires
        canonical_integer(p),
        ends_value(rest),
    ensures
        value_scan(signed_decimal(parsed_value(p)) + rest, lim, exts) == (Outcome::Done {
            n: signed_decimal(parsed_value(p)).len() as int,
            value: ValueModel::Integer(p),
        }),
{
    let x = parsed_value(p);
    let b = signed_decimal(x);
    let s = b + rest;
    let m: nat = if x < 0 { (-x) as nat } else { x as nat };
    let d = decimal(m);
    lemma_decimal_all_digits(m);
    assert(s[0] == b[0]);
    if x < 0 {
        assert(b[1] == d[0]);
        assert(s[1] == b[1]);
        lemma_integer_roundtrip(x as i64, rest);
    } else {
        lemma_unsigned_roundtrip(x as u64, rest);
    }
    lemma_value_dispatch(s, lim, exts);
    reveal(number_scan);
    let sg: int = if x < 0 { 1 } else { 0 };
    if x < 0 {
        assert(b =~= seq![45u8] + d);
    }
    assert(s.skip(sg) =~= d + rest);
    lemma_span_prefix(d, rest, CharClass::Int);
    assert(forall|i: int| 0 <= i < d.len() ==> in_class(CharClass::Float, #[trigger] d[i]));
    lemma_span_prefix(d, rest, CharClass::Float);
    assert(!next_is_float(s));
}

proof fn lemma_option_reads(v: ValueModel, rest: Seq<u8>, lim: Option<usize>, exts: Extensions)
    requires
        v matches ValueModel::Option(Some(_)),
        writable(v),
        fits(v, lim),
        ends_value(rest),
    ensures
        value_scan(value_bytes(v) + rest, lim, exts) == (Outcome::Done {
            n: value_bytes(v).len() as int,
            value: v,
        }),
    decreases v, 0int,
{
    let inner = *v->Option_0.unwrap();
    let l2 = deeper(lim).unwrap();
    let ib = value_bytes(inner);
    let s = value_bytes(v) + rest;
    lemma_keyword_bytes();
    lemma_first_byte(inner);
    let after = seq![41u8] + rest;
    lemma_starts_then(ib, after);
    assert(s =~= seq![83u8, 111, 109, 101, 40] + (ib + after));
    assert(s.take(4) =~= lit("Some"));
    assert(s[4] == 40);
    assert(s.take(4)[0] == s[0]);
    assert(s.take(5)[0] == s[0]);
    assert(s.skip(4) =~= seq![40u8] + (ib + after));
    lemma_ws_none(s.skip(4));
    assert(s.skip(4).skip(0) =~= s.skip(4));
    assert(s.skip(5) =~= ib + after);
    lemma_ws_none(s.skip(5));
    assert(s.skip(5).skip(0) =~= s.skip(5));
    lemma_value_reads(inner, after, l2, exts);
    let n = ib.len() as int;
    let t = s.skip(5 + n);
    assert(t =~= after);
    reveal(comma_scan);
    lemma_ws_none(t);
    assert(t.skip(0) =~= t);
    assert(Box::new(inner) == v->Option_0.unwrap());
}

/// The written elements of a list, up to its closing `]`, read back.
#[verifier::rlimit(40)]
proof fn lemma_items_read(items: Seq<ValueModel>, rest: Seq<u8>, l1: Option<usize>, exts: Extensions)
    requires
        forall|i: int| 0 <= i < items.len() ==> writable(#[trigger] items[i]),
        items.len() > 0 ==> (deeper(l1) matches Some(l2) && forall|i: int|
            0 <= i < items.len() ==> fits(#[trigger] items[i], l2)),
    ensures
        items_scan(items_bytes(items) + seq![93u8] + rest, l1, exts, 93, true) == (Outcome::Done {
            n: items_bytes(items).len() as int,
            value: items,
        }),
    decreases items, 0int,
{
    let s = items_bytes(items) + seq![93u8] + rest;
    if items.len() == 0 {
        assert(s =~= seq![93u8] + rest);
        lemma_ws_none(s);
        assert(s.skip(0) =~= s);
        assert(items =~= Seq::<ValueModel>::empty());
    } else {
        let v = items[0];
        let tail = items.drop_first();
        let l2 = deeper(l1).unwrap();
        let vb = value_bytes(v);
        let after = seq![44u8] + items_bytes(tail) + seq![93u8] + rest;
        assert(s =~= vb + after);
        lemma_first_byte(v);
        lemma_starts_then(vb, after);
        lemma_ws_none(s);
        assert(s.skip(0) =~= s);
        lemma_value_reads(v, after, l2, exts);
        assert(s.skip(vb.len() as int) =~= after);
        reveal(comma_scan);
        lemma_ws_none(after);
        assert(after.skip(0) =~= after);
        let next = items_bytes(tail) + seq![93u8] + rest;
        assert(after.skip(1) =~= next);
        if tail.len() > 0 {
            lemma_first_byte(tail[0]);
            let tb = value_bytes(tail[0]);
            let tafter = seq![44u8] + items_bytes(tail.drop_first()) + seq![93u8] + rest;
            assert(next =~= tb + tafter);
            lemma_starts_then(tb, tafter);
            lemma_ws_none(next);
        } else {
            assert(next =~= seq![93u8] + rest);
            lemma_ws_none(next);
        }
        assert(next.skip(0) =~= next);
        assert(s.skip(vb.len() + 1int) =~= next);
        assert forall|i: int| 0 <= i < tail.len() implies writable(#[trigger] tail[i]) by {
            assert(tail[i] == items[i + 1]);
        }
        if tail.len() > 0 {
            assert forall|i: int| 0 <= i < tail.len() implies fits(#[trigger] tail[i], l2) by {
                assert(tail[i] == items[i + 1]);
            }
        }
        lemma_items_read(tail, rest, l1, exts);
        assert(items =~= seq![v] + tail);
    }
}

proof fn lemma_list_reads(v: ValueModel, rest: Seq<u8>, lim: Option<usize>, exts: Extensions)
    requires
        v is List,
        writable(v),
        fits(v, lim),
        ends_value(rest),
    ensures
        value_scan(value_bytes(v) + rest, lim, exts) == (Outcome::Done {
            n: value_bytes(v).len() as int,
            value: v,
        }),
    decreases v, 0int,
{
    let items = v->List_0;
    let l1 = deeper(lim).unwrap();
    let ib = items_bytes(items);
    let s = value_bytes(v) + rest;
    assert(s =~= seq![91u8] + ib + seq![93u8] + rest);
    lemma_value_dispatch(s, lim, exts);
    let s1 = ib + seq![93u8] + rest;
    assert(s.skip(1) =~= s1);
    lemma_items_read(items, rest, l1, exts);
    let n = ib.len() as int;
    assert(s1.skip(n) =~= seq![93u8] + rest);
    lemma_ws_none(seq![93u8] + rest);
    assert(s1[n] == 93);
}

/// One written entry of a mapping, followed by the closing `}`, reads back.
#[verifier::rlimit(60)]
proof fn lemma_entry_read(
    entries: Seq<(ValueModel, ValueModel)>,
    rest: Seq<u8>,
    l2: Option<usize>,
    exts: Extensions,
)
    requires
        entries.len() == 1,
        writable(entries[0].0),
        writable(entries[0].1),
        fits(entries[0].0, l2),
        fits(entries[0].1, l2),
        ends_value(rest),
    ensures
        ({
            let kb = value_bytes(entries[0].0);
            let xb = value_bytes(entries[0].1);
            entry_scan(kb + seq![58u8] + xb + seq![125u8] + rest, l2, exts, false) == (Outcome::Done {
                n: kb.len() + 1int + xb.len(),
                value: entries[0],
            })
        }),
    decreases entries, 0int,
{
    let k = entries[0].0;
    let x = entries[0].1;
    let kb = value_bytes(k);
    let xb = value_bytes(x);
    let close = seq![125u8] + rest;
    let s1 = kb + seq![58u8] + xb + seq![125u8] + rest;
    let kafter = seq![58u8] + xb + close;
    assert(s1 =~= kb + kafter);
    lemma_first_byte(k);
    lemma_first_byte(x);
    lemma_starts_then(kb, kafter);
    lemma_starts_then(xb, close);
    lemma_value_reads(k, kafter, l2, exts);
    assert(value_scan(s1, l2, exts) == (Outcome::Done { n: kb.len() as int, value: k }));
    let p = kb.len() as int;
    assert(s1.skip(p) =~= kafter);
    lemma_ws_none(kafter);
    assert(s1[p] == 58);
    let q: int = p + 1;
    assert(s1.skip(q) =~= xb + close);
    lemma_ws_none(xb + close);
    lemma_value_reads(x, close, l2, exts);
    assert(value_scan(s1.skip(q), l2, exts) == (Outcome::Done { n: xb.len() as int, value: x }));
    assert(entries[0] == (k, x));
}

/// The written entries of a mapping of at most one entry, up to its
/// closing `}`, read back.
#[verifier::rlimit(60)]
proof fn lemma_entries_read(
    entries: Seq<(ValueModel, ValueModel)>,
    rest: Seq<u8>,
    l1: Option<usize>,
    exts: Extensions,
)
    requires
        entries.len() <= 1,
        forall|i: int| 0 <= i < entries.len() ==> writable(#[trigger] entries[i].0) && writable(entries[i].1),
        entries.len() > 0 ==> (deeper(l1) matches Some(l2) && forall|i: int|
            0 <= i < entries.len() ==> fits(#[trigger] entries[i].0, l2) && fits(entries[i].1, l2)),
        ends_value(rest),
    ensures
        entries_scan(entries_bytes(entries) + seq![125u8] + rest, l1, exts, false, true) == (
        Outcome::Done { n: entries_bytes(entries).len() as int, value: entries }),
    decreases entries, 1int,
{
    let eb = entries_bytes(entries);
    let close = seq![125u8] + rest;
    let s1 = eb + seq![125u8] + rest;
    lemma_ws_none(close);
    assert(close.skip(0) =~= close);
    if entries.len() == 0 {
        assert(s1 =~= close);
        assert(entries =~= Seq::<(ValueModel, ValueModel)>::empty());
        assert(entries_scan(s1, l1, exts, false, true) == (Outcome::Done { n: 0, value: entries }));
    } else {
        let l2 = deeper(l1).unwrap();
        let k = entries[0].0;
        let x = entries[0].1;
        let kb = value_bytes(k);
        let xb = value_bytes(x);
        assert(entries.drop_first() =~= Seq::<(ValueModel, ValueModel)>::empty());
        assert(entries_bytes(entries.drop_first()) =~= Seq::<u8>::empty());
        assert(eb =~= kb + seq![58u8] + xb);
        assert(s1 =~= kb + seq![58u8] + xb + seq![125u8] + rest);
        lemma_first_byte(k);
        lemma_starts_then(kb, seq![58u8] + xb + close);
        assert(s1 =~= kb + (seq![58u8] + xb + close));
        lemma_ws_none(s1);
        assert(s1.skip(0) =~= s1);
        lemma_entry_read(entries, rest, l2, exts);
        assert(entry_scan(s1, l2, exts, false) == (Outcome::Done { n: kb.len() + 1int + xb.len(), value: entries[0] }));
        let n: int = kb.len() + 1int + xb.len();
        assert(s1.skip(n) =~= close);
        assert(close.skip(0) =~= close);
        reveal(comma_scan);
        assert(comma_scan(close) == (Outcome::Done { n: 0, value: false }));
        assert(s1.skip(n + 0) =~= close);
        assert(entries_scan(close, l1, exts, false, false) == (Outcome::Done {
            n: 0,
            value: Seq::<(ValueModel, ValueModel)>::empty(),
        }));
        assert(s1[0] == kb[0]);
        assert(entries =~= seq![entries[0]] + Seq::<(ValueModel, ValueModel)>::empty());
        assert(entries_scan(s1, l1, exts, false, true) == (Outcome::Done { n: n, value: entries }));
    }
}

proof fn lemma_mapping_reads(v: ValueModel, rest: Seq<u8>, lim: Option<usize>, exts: Extensions)
    requires
        v is Mapping,
        writable(v),
        fits(v, lim),
        ends_value(rest),
    ensures
        value_scan(value_bytes(v) + rest, lim, exts) == (Outcome::Done {
            n: value_bytes(v).len() as int,
            value: v,
        }),
    decreases v, 0int,
{
    let entries = v->Mapping_0;
    let l1 = deeper(lim).unwrap();
    let eb = entries_bytes(entries);
    let s = value_bytes(v) + rest;
    assert(s =~= seq![123u8] + eb + seq![125u8] + rest);
    lemma_value_dispatch(s, lim, exts);
    let s1 = eb + seq![125u8] + rest;
    assert(s.skip(1) =~= s1);
    lemma_entries_read(entries, rest, l1, exts);
    if entries.len() == 1 {
        assert(entries.drop_last() =~= Seq::<(ValueModel, ValueModel)>::empty());
        let e = Seq::<(ValueModel, ValueModel)>::empty();
        assert(last_wins(entries.drop_last()) == e);
        assert(key_index(e, entries[0].0) is None);
        assert(map_insert(e, entries[0].0, entries[0].1) == e.push((entries[0].0, entries[0].1)));
        assert(entries.last() == entries[0]);
        assert(last_wins(entries) == map_insert(e, entries[0].0, entries[0].1));
        assert(last_wins(entries) =~= entries);
    } else {
        assert(last_wins(entries) =~= entries);
    }
    let close = seq![125u8] + rest;
    lemma_ws_none(close);
    let n = eb.len() as int;
    assert(s1.skip(n) =~= close);
    assert(s1[n] == 125);
}

/// What the serializer writes for a value ([`value_text`]) makes, in UTF-8,
/// a document that reads back as that value, whenever the value is one
/// that the writer writes faithfully ([`writable`]) and nests no deeper
/// than the recursion limit lets it be read ([`fits`]).
pub proof fn lemma_written_value_reads_back(v: ValueModel, lim: Option<usize>, default_bits: usize)
    requires
        writable(v),
        fits(v, lim),
    ensures
        document_scan(encode_utf8(value_text(v)), lim, default_bits) == (Outcome::Done {
            n: encode_utf8(value_text(v)).len() as int,
            value: v,
        }),
{
    lemma_value_bytes(v);
    let b = value_bytes(v);
    let empty = Seq::<u8>::empty();
    lemma_first_byte(v);
    lemma_starts_then(b, empty);
    assert(b + empty =~= b);
    lemma_header_none(b);
    assert(b.skip(0) =~= b);
    let exts = Extensions { bits: 0usize | default_bits };
    lemma_value_reads(v, empty, lim, exts);
    assert(b.skip(b.len() as int) =~= empty);
    lemma_ws_none(empty);
    assert(empty.skip(0) =~= empty);
}


proof fn lemma_digits_overflow(b: Seq<u8>, k: int, neg: bool, lo: int, hi: int)
    requires
        0 <= k <= b.len(),
        all_digits(b),
        lo <= 0 <= hi,
        neg ==> -digits_val(b.take(k)) >= lo,
        !neg ==> digits_val(b.take(k)) <= hi,
        neg ==> -digits_val(b) < lo,
        !neg ==> digits_val(b) > hi,
    ensures
        digits_scan(
            b,
            k,
            if neg { -digits_val(b.take(k)) } else { digits_val(b.take(k)) },
            10,
            neg,
            lo,
            hi,
        ) == Err::<int, (int, crate::error::Error)>((b.len() as int, crate::error::Error::IntegerOutOfBounds)),
    decreases b.len() - k,
{
    lemma_digits_grow(b, k);
    if k == b.len() {
        assert(b.take(k) =~= b);
    } else {
        lemma_digits_prefix(b, k);
        lemma_digits_grow(b, k + 1);
        let acc = if neg { -digits_val(b.take(k)) } else { digits_val(b.take(k)) };
        let next = if neg { -digits_val(b.take(k + 1)) } else { digits_val(b.take(k + 1)) };
        if lo <= acc * 10 <= hi && lo <= next <= hi {
            lemma_digits_overflow(b, k + 1, neg, lo, hi);
        }
    }
}

/// What reading a run of decimal digits that spells `n` gives, with a
/// minus sign in front when `neg`, `len` bytes long in all: the integer in
/// the smallest type that holds it (signed exactly when the sign is a
/// minus), or, where no type holds it, the error that it is out of bounds.
pub open spec fn decimal_reading(neg: bool, n: int, len: int) -> Outcome<ParsedInteger> {
    if neg {
        if -n >= i64::MIN {
            Outcome::Done { n: len, value: smallest_signed(-n) }
        } else {
            Outcome::Fail { n: len, err: ErrSpec::Plain(crate::error::Error::IntegerOutOfBounds) }
        }
    } else {
        if n <= u64::MAX {
            Outcome::Done { n: len, value: smallest_unsigned(n) }
        } else {
            Outcome::Fail { n: len, err: ErrSpec::Plain(crate::error::Error::IntegerOutOfBounds) }
        }
    }
}

/// Whether `rest` may follow the digits of a decimal literal without being
/// read into them or making them a base prefix.
pub open spec fn ends_digits(rest: Seq<u8>) -> bool {
    rest.len() == 0 || (!in_class(CharClass::Int, rest[0]) && rest[0] != 120 && rest[0] != 98 && rest[0] != 111)
}

pub(crate) proof fn lemma_digit_run_scan(d: Seq<u8>, rest: Seq<u8>, neg: bool, lo: int, hi: int)
    requires
        d.len() > 0,
        all_digits(d),
        ends_digits(rest),
        lo <= 0 <= hi,
    ensures
        integer_scan(d + rest, neg, lo, hi) == (if (neg && -digits_val(d) >= lo) || (!neg && digits_val(d)
            <= hi) {
            Outcome::Done { n: d.len() as int, value: if neg { -digits_val(d) } else { digits_val(d) } }
        } else {
            Outcome::Fail {
                n: d.len() as int,
                err: ErrSpec::Plain(crate::error::Error::IntegerOutOfBounds),
            }
        }),
{
    let s = d + rest;
    assert forall|i: int| 0 <= i < d.len() implies in_class(CharClass::Int, #[trigger] d[i]) by {
        assert(48 <= d[i] <= 57);
    }
    lemma_span_prefix(d, rest, CharClass::Int);
    if d.len() == 1 && rest.len() > 0 {
        assert(s[1] == rest[0]);
    }
    if d.len() > 1 {
        assert(s[1] == d[1]);
    }
    assert(s[0] == d[0]);
    assert(s.skip(0) =~= s);
    assert(s.take(d.len() as int) =~= d);
    assert(d.take(0) =~= Seq::<u8>::empty());
    if (neg && -digits_val(d) >= lo) || (!neg && digits_val(d) <= hi) {
        lemma_digits_scan(d, 0, neg, lo, hi);
    } else {
        lemma_digits_overflow(d, 0, neg, lo, hi);
    }
}

/// A run of decimal digits, with `+`, `-` or no sign in front and followed
/// by something that cannot continue a number, reads as the integer it
/// spells, in the smallest type that holds it, signed exactly when the sign
/// is a minus; where no type holds it, reading fails as out of bounds, past
/// the digits. Leading zeros change nothing.
pub proof fn lemma_any_integer_decimal(sign: Seq<u8>, d: Seq<u8>, rest: Seq<u8>)
    requires
        sign == Seq::<u8>::empty() || sign == seq![43u8] || sign == seq![45u8],
        d.len() > 0,
        all_digits(d),
        ends_number(rest),
    ensures
        any_integer_scan(sign + d + rest, DesireInteger::Any) == decimal_reading(
            sign == seq![45u8],
            digits_val(d),
            (sign.len() + d.len()) as int,
        ),
{
    reveal(any_integer_scan);
    let s = sign + d + rest;
    let sg = sign.len() as int;
    let neg = sign == seq![45u8];
    let t = d + rest;
    assert(s.skip(sg) =~= t);
    if sg == 0 {
        assert(s[0] == d[0]);
    } else {
        assert(s[0] == sign[0]);
    }
    lemma_span_digits(d, rest);
    if rest.len() > 0 {
        assert(t[d.len() as int] == rest[0]);
    }
    lemma_digits_nonneg(d);
    if neg {
        lemma_digit_run_scan(d, rest, true, i64::MIN as int, i64::MAX as int);
    } else {
        lemma_digit_run_scan(d, rest, false, 0, u64::MAX as int);
    }
}


} // verus!
