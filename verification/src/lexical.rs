//! Laws of the lexer: what each kind of token reads as, stated over the
//! bytes of the token.

use vstd::prelude::*;

use crate::parse::integer::{
    ParsedInteger, any_integer_scan, digits_scan, int_base, kind_max, kind_min, parsed_as, smallest_unsigned,
    suffix_after, suffix_kind, suffixed_scan,
};
use crate::parse::{in_class, span_len, spec_is_ident_other_char, CharClass, DesireInteger, ErrSpec, Outcome};
use crate::parse::string::{raw_close_at, raw_close_from, escaped_rest_scan, string_scan};
use crate::parse::{escape_scan, hex_val, pow16, unicode_digits_scan};
use crate::parse::float::{
    digit_run, float_clean, float_scan, float_syntax, special_float_scan, special_floats, unsigned_part, DesireFloat,
};
use vstd::utf8::*;
use crate::util::lemma_lit_ascii;
use crate::parse::{comma_scan, spec_is_float_char};
use crate::parse::{
    block_comment_scan, comment_scan, attr_close_lits, attr_open_lits, consume_all_scan, ext_list_scan, attrs_scan,
    ext_attr_scan, header_scan, ident_scan, lit, starts_with, spec_ident_follows, ws_scan,
};
use crate::roundtrip::{
    all_digits, digits_val, ends_digits, ends_number, lemma_digit_run_scan, lemma_digits_nonneg, lemma_encode_concat,
    lemma_encode_plain, lemma_span_prefix, plain_text,
};

verus! {

/// The character that a one-character escape stands for: after a
/// backslash, `n` is a line feed, `r` a carriage return, `t` a tab, `0` a
/// NUL, and a quote, a double quote or a backslash stands for itself.
pub open spec fn simple_escape(letter: u8) -> Option<char> {
    if letter == 39 {
        Some('\'')
    } else if letter == 34 {
        Some('"')
    } else if letter == 92 {
        Some('\\')
    } else if letter == 110 {
        Some('\n')
    } else if letter == 114 {
        Some('\r')
    } else if letter == 116 {
        Some('\t')
    } else if letter == 48 {
        Some('\0')
    } else {
        None
    }
}

/// A quoted string that holds one of the one-character escapes `\n`,
/// `\r`, `\t`, `\0`, `\'`, `\"` or `\\` between two stretches of plain
/// text reads as that text with the character the escape stands for in its
/// place, built anew.
pub proof fn lemma_simple_escape_reads(a: Seq<char>, letter: u8, b: Seq<char>, rest: Seq<u8>)
    requires
        plain_text(a),
        plain_text(b),
        simple_escape(letter) is Some,
    ensures
        string_scan(
            seq![34u8] + encode_utf8(a) + seq![92u8, letter] + encode_utf8(b) + seq![34u8] + rest,
        ) == (Outcome::Done {
            n: encode_utf8(a).len() + encode_utf8(b).len() + 4int,
            value: (true, a + seq![simple_escape(letter)->0] + b),
        }),
{
    reveal(string_scan);
    let c = simple_escape(letter)->0;
    let ea = encode_utf8(a);
    let eb = encode_utf8(b);
    let whole = seq![34u8] + ea + seq![92u8, letter] + eb + seq![34u8] + rest;
    let s1 = ea + (seq![92u8, letter] + eb + seq![34u8] + rest);
    assert(whole.skip(1) =~= s1);
    lemma_encode_plain(a);
    lemma_encode_plain(b);
    lemma_span_prefix(ea, seq![92u8, letter] + eb + seq![34u8] + rest, CharClass::NotQuoteOrBackslash);
    let i = ea.len() as int;
    assert(s1[i] == 92u8);
    assert(s1.take(i) =~= ea);
    let s2 = s1.skip(i + 1);
    assert(s2 =~= seq![letter] + (eb + (seq![34u8] + rest)));
    let t = eb + (seq![34u8] + rest);
    assert(s2.skip(1) =~= t);
    assert(escape_scan(s2) == (Outcome::Done { n: 1int, value: c }));
    lemma_span_prefix(eb, seq![34u8] + rest, CharClass::NotQuoteOrBackslash);
    assert(t[eb.len() as int] == 34u8);
    assert(t.take(eb.len() as int) =~= eb);
    let value = ea + encode_scalar(c as u32) + eb;
    assert(escaped_rest_scan(s2, ea) == (Outcome::Done { n: eb.len() + 2int, value }));
    let text = a + seq![c] + b;
    lemma_encode_concat(a, seq![c]);
    lemma_encode_concat(a + seq![c], b);
    assert(seq![c].drop_first() =~= Seq::<char>::empty());
    assert(encode_utf8(Seq::<char>::empty()) =~= Seq::<u8>::empty());
    assert(encode_utf8(seq![c]) == encode_scalar(seq![c][0] as u32) + encode_utf8(seq![c].drop_first()));
    assert(encode_utf8(seq![c]) =~= encode_scalar(c as u32));
    assert(encode_utf8(text) =~= value);
    encode_utf8_valid_utf8(text);
    encode_utf8_decode_utf8(text);
}

/// Whether `c` is a tab, a line feed, a carriage return or a space.
pub open spec fn blank_byte(c: u8) -> bool {
    c == 9 || c == 10 || c == 13 || c == 32
}

/// Whitespace between tokens is exactly tab, line feed, carriage return and
/// space: a run of those bytes, followed by text that starts with none of
/// them and with no slash, is read whole with no error (so a value followed
/// by `\r\n` ends the same as without it), and a first byte that is none
/// of them and no slash stops the scan before it.
pub proof fn lemma_blank_run(s: Seq<u8>, rest: Seq<u8>)
    ensures
        (forall|i: int| 0 <= i < s.len() ==> blank_byte(#[trigger] s[i])) && (rest.len() == 0 || (
        !blank_byte(rest[0]) && rest[0] != 47)) ==> ws_scan(s + rest) == (s.len() as int, None::<crate::error::Error>),
        s.len() > 0 && !blank_byte(s[0]) && s[0] != 47 ==> ws_scan(s) == (0int, None::<crate::error::Error>),
{
    reveal(ws_scan);
    if (forall|i: int| 0 <= i < s.len() ==> blank_byte(#[trigger] s[i])) && (rest.len() == 0 || (
    !blank_byte(rest[0]) && rest[0] != 47)) {
        lemma_span_prefix(s, rest, CharClass::Whitespace);
        assert((s + rest).skip(s.len() as int) =~= rest);
    }
    if s.len() > 0 && !blank_byte(s[0]) && s[0] != 47 {
        assert(s.skip(0) =~= s);
    }
}

/// The bit that the extension named `name` stands for: `unwrap_newtypes`
/// is 1, `implicit_some` 2, `unwrap_variant_newtypes` 4 and
/// `explicit_struct_names` 8.
pub open spec fn extension_name_bit(name: Seq<u8>) -> Option<usize> {
    if name == lit("unwrap_newtypes") {
        Some(1usize)
    } else if name == lit("implicit_some") {
        Some(2usize)
    } else if name == lit("unwrap_variant_newtypes") {
        Some(4usize)
    } else if name == lit("explicit_struct_names") {
        Some(8usize)
    } else {
        None
    }
}

proof fn lemma_extension_names()
    ensures
        lit("unwrap_newtypes").len() == 15,
        lit("implicit_some").len() == 13,
        lit("unwrap_variant_newtypes").len() == 23,
        lit("explicit_struct_names").len() == 21,
        lit("unwrap_newtypes")[0] == 117u8,
        lit("implicit_some")[0] == 105u8,
        lit("unwrap_variant_newtypes")[0] == 117u8,
        lit("explicit_struct_names")[0] == 101u8,
        forall|i: int| 0 <= i < 15 ==> in_class(CharClass::IdentOther, #[trigger] lit("unwrap_newtypes")[i]),
        forall|i: int| 0 <= i < 13 ==> in_class(CharClass::IdentOther, #[trigger] lit("implicit_some")[i]),
        forall|i: int| 0 <= i < 23 ==> in_class(CharClass::IdentOther, #[trigger] lit("unwrap_variant_newtypes")[i]),
        forall|i: int| 0 <= i < 21 ==> in_class(CharClass::IdentOther, #[trigger] lit("explicit_struct_names")[i]),
{
    reveal_strlit("unwrap_newtypes");
    lemma_lit_ascii("unwrap_newtypes");
    reveal_strlit("implicit_some");
    lemma_lit_ascii("implicit_some");
    reveal_strlit("unwrap_variant_newtypes");
    lemma_lit_ascii("unwrap_variant_newtypes");
    reveal_strlit("explicit_struct_names");
    lemma_lit_ascii("explicit_struct_names");
}

/// Each extension name in the list of `#![enable(...)]` enables its own
/// bit, added to those already enabled: `unwrap_newtypes` 1,
/// `implicit_some` 2, `unwrap_variant_newtypes` 4 and
/// `explicit_struct_names` 8.
pub proof fn lemma_extension_name_bit(name: Seq<u8>, rest: Seq<u8>, acc: usize)
    requires
        extension_name_bit(name) is Some,
        rest.len() == 0 || rest[0] == 41,
    ensures
        ext_list_scan(name + rest, acc) == (Outcome::Done {
            n: name.len() as int,
            value: acc | extension_name_bit(name)->0,
        }),
{
    lemma_extension_names();
    reveal(ident_scan);
    reveal(comma_scan);
    let s = name + rest;
    lemma_span_prefix(name, rest, CharClass::IdentOther);
    lemma_span_prefix(name, rest, CharClass::IdentRaw);
    assert(s.take(name.len() as int) =~= name);
    assert(s[0] == name[0]);
    assert(ident_scan(s) == (Outcome::Done { n: name.len() as int, value: name }));
    assert(s.skip(name.len() as int) =~= rest);
    lemma_blank_run(Seq::<u8>::empty(), rest);
    assert(Seq::<u8>::empty() + rest =~= rest);
    assert(rest.skip(0) =~= rest);
    assert(comma_scan(rest) == (Outcome::Done { n: 0int, value: false }));
}

/// Whether `sign` is nothing, a `+` or a `-`.
pub open spec fn optional_sign(sign: Seq<u8>) -> bool {
    sign.len() == 0 || sign == seq![43u8] || sign == seq![45u8]
}

/// Whether `rest` may follow a float literal without being read into it.
pub open spec fn ends_float(rest: Seq<u8>) -> bool {
    rest.len() == 0 || (!spec_is_float_char(rest[0]) && !spec_is_ident_other_char(rest[0]))
}

proof fn lemma_digit_run_prefix(a: Seq<u8>, x: Seq<u8>)
    requires
        all_digits(a),
        x.len() == 0 || !(48 <= x[0] <= 57),
    ensures
        digit_run(a + x) == a.len(),
    decreases a.len(),
{
    if a.len() > 0 {
        assert((a + x).drop_first() =~= a.drop_first() + x);
        assert(all_digits(a.drop_first())) by {
            assert forall|i: int| 0 <= i < a.drop_first().len() implies 48 <= #[trigger] a.drop_first()[i]
                <= 57 by {
                assert(a.drop_first()[i] == a[i + 1]);
            }
        }
        lemma_digit_run_prefix(a.drop_first(), x);
    } else {
        assert(a + x =~= x);
    }
}

proof fn lemma_float_clean_plain(b: Seq<u8>, i: int, allow: bool)
    requires
        0 <= i <= b.len(),
        forall|j: int| i <= j < b.len() ==> #[trigger] b[j] != 95,
    ensures
        float_clean(b, i, allow) == Ok::<Seq<u8>, int>(b.skip(i)),
    decreases b.len() - i,
{
    if i < b.len() {
        lemma_float_clean_plain(b, i + 1, true);
        lemma_float_clean_plain(b, i + 1, false);
        lemma_float_clean_plain(b, i + 1, allow);
        assert(seq![b[i]] + b.skip(i + 1) =~= b.skip(i));
    } else {
        assert(b.skip(i) =~= Seq::<u8>::empty());
    }
}

proof fn lemma_no_special_float(s: Seq<u8>, desire: DesireFloat, k: int)
    requires
        s.len() > 0,
        48 <= s[0] <= 57,
        0 <= k,
    ensures
        special_float_scan(s, desire, k) is None,
    decreases 6 - k,
{
    if k < 6 {
        reveal_strlit("inf");
        lemma_lit_ascii("inf");
        reveal_strlit("+inf");
        lemma_lit_ascii("+inf");
        reveal_strlit("-inf");
        lemma_lit_ascii("-inf");
        reveal_strlit("NaN");
        lemma_lit_ascii("NaN");
        reveal_strlit("+NaN");
        lemma_lit_ascii("+NaN");
        reveal_strlit("-NaN");
        lemma_lit_ascii("-NaN");
        let word = special_floats()[k].0;
        assert(word.len() > 0 && !(48 <= word[0] <= 57));
        assert(!starts_with(s, word)) by {
            if starts_with(s, word) {
                assert(s.take(word.len() as int)[0] == s[0]);
            }
        }
        assert(!starts_with(s, word + lit("_f32"))) by {
            if starts_with(s, word + lit("_f32")) {
                assert(s.take((word + lit("_f32")).len() as int)[0] == s[0]);
                assert((word + lit("_f32"))[0] == word[0]);
            }
        }
        assert(!starts_with(s, word + lit("_f64"))) by {
            if starts_with(s, word + lit("_f64")) {
                assert(s.take((word + lit("_f64")).len() as int)[0] == s[0]);
                assert((word + lit("_f64"))[0] == word[0]);
            }
        }
        lemma_no_special_float(s, desire, k + 1);
    }
}

/// Float syntax takes an exponent with a sign of either kind or none:
/// digits, `e` or `E`, an optional `+` or `-`, and digits make a float
/// literal whose text is exactly those bytes, read into the float type the
/// caller asks for.
pub proof fn lemma_float_exponent(
    a: Seq<u8>,
    mark: u8,
    sign: Seq<u8>,
    b: Seq<u8>,
    rest: Seq<u8>,
    desire: DesireFloat,
)
    requires
        a.len() > 0,
        all_digits(a),
        mark == 101 || mark == 69,
        optional_sign(sign),
        b.len() > 0,
        all_digits(b),
        ends_float(rest),
    ensures
        float_scan(a + seq![mark] + sign + b + rest, desire) == (Outcome::Done {
            n: (a.len() + 1 + sign.len() + b.len()) as int,
            value: (a + seq![mark] + sign + b, desire),
        }),
{
    reveal(float_scan);
    let text = a + seq![mark] + sign + b;
    let s = text + rest;
    assert(s[0] == a[0]);
    lemma_no_special_float(s, desire, 0);
    assert forall|i: int| 0 <= i < text.len() implies in_class(CharClass::Float, #[trigger] text[i]) by {
        if i < a.len() {
            assert(text[i] == a[i]);
        } else if i == a.len() {
        } else if i < a.len() + 1 + sign.len() {
            assert(text[i] == sign[i - a.len() - 1]);
        } else {
            assert(text[i] == b[i - a.len() - 1 - sign.len()]);
        }
    }
    lemma_span_prefix(text, rest, CharClass::Float);
    let num = text.len() as int;
    assert(s.take(num) =~= text);
    assert forall|j: int| 0 <= j < text.len() implies #[trigger] text[j] != 95 by {
        if j < a.len() {
            assert(text[j] == a[j]);
        } else if j == a.len() {
        } else if j < a.len() + 1 + sign.len() {
            assert(text[j] == sign[j - a.len() - 1]);
        } else {
            assert(text[j] == b[j - a.len() - 1 - sign.len()]);
        }
    }
    lemma_float_clean_plain(text, 0, false);
    assert(text.skip(0) =~= text);
    let r = seq![mark] + sign + b;
    assert(text =~= a + r);
    lemma_digit_run_prefix(a, r);
    assert(unsigned_part(text) == text);
    assert(text.skip(a.len() as int) =~= r);
    let d = sign + b;
    assert(r.skip(1) =~= d);
    assert(unsigned_part(d) =~= b) by {
        if sign.len() == 0 {
            assert(d =~= b);
        } else {
            assert(d.skip(1) =~= b);
        }
    }
    lemma_digit_run_prefix(b, Seq::<u8>::empty());
    assert(b + Seq::<u8>::empty() =~= b);
    assert(float_syntax(text));
    assert(s.skip(num) =~= rest);
    reveal_strlit("f32");
    lemma_lit_ascii("f32");
    reveal_strlit("f64");
    lemma_lit_ascii("f64");
    assert(!spec_ident_follows(rest, lit("f32"))) by {
        if starts_with(rest, lit("f32")) {
            assert(rest.take(3)[0] == rest[0]);
        }
    }
    assert(!spec_ident_follows(rest, lit("f64"))) by {
        if starts_with(rest, lit("f64")) {
            assert(rest.take(3)[0] == rest[0]);
        }
    }
}

/// Extension names listed with a comma between them enable the bits of
/// both: the list `a,b` enables what `a` and `b` each enable.
pub proof fn lemma_extension_pair(n1: Seq<u8>, n2: Seq<u8>, rest: Seq<u8>, acc: usize)
    requires
        extension_name_bit(n1) is Some,
        extension_name_bit(n2) is Some,
        rest.len() == 0 || rest[0] == 41,
    ensures
        ext_list_scan(n1 + seq![44u8] + n2 + rest, acc) == (Outcome::Done {
            n: n1.len() + 1 + n2.len() as int,
            value: acc | extension_name_bit(n1)->0 | extension_name_bit(n2)->0,
        }),
{
    lemma_extension_names();
    reveal(ident_scan);
    reveal(comma_scan);
    let after = seq![44u8] + n2 + rest;
    let s = n1 + after;
    assert(n1 + seq![44u8] + n2 + rest =~= s);
    lemma_span_prefix(n1, after, CharClass::IdentOther);
    lemma_span_prefix(n1, after, CharClass::IdentRaw);
    assert(s.take(n1.len() as int) =~= n1);
    assert(s[0] == n1[0]);
    assert(ident_scan(s) == (Outcome::Done { n: n1.len() as int, value: n1 }));
    assert(s.skip(n1.len() as int) =~= after);
    lemma_blank_run(after, Seq::<u8>::empty());
    assert(after + Seq::<u8>::empty() =~= after);
    assert(after.skip(0) =~= after);
    let u = n2 + rest;
    assert(after.skip(1) =~= u);
    assert(u[0] == n2[0]);
    lemma_blank_run(u, Seq::<u8>::empty());
    assert(u + Seq::<u8>::empty() =~= u);
    assert(comma_scan(after) == (Outcome::Done { n: 1int, value: true }));
    assert(after.skip(1) =~= u);
    lemma_extension_name_bit(n2, rest, acc | extension_name_bit(n1)->0);
}

proof fn lemma_consume_step(s: Seq<u8>, l: Seq<Seq<u8>>, acc: bool)
    requires
        l.len() > 0,
        starts_with(s, l[0]),
        ws_scan(s.skip(l[0].len() as int)) == (0int, None::<crate::error::Error>),
    ensures
        consume_all_scan(s, l, acc) == consume_all_scan(s.skip(l[0].len() as int), l.drop_first(), acc).shift(
            l[0].len() as int,
        ),
{
    assert(s.skip(l[0].len() as int).skip(0) =~= s.skip(l[0].len() as int));
}

/// Whether `rest` may follow a document's header without being read into
/// it: it starts with no whitespace, comment or further attribute.
pub open spec fn ends_header(rest: Seq<u8>) -> bool {
    rest.len() == 0 || (!blank_byte(rest[0]) && rest[0] != 47 && rest[0] != 35)
}

proof fn lemma_attr_texts()
    ensures
        lit("#![enable(") == seq![35u8, 33, 91, 101, 110, 97, 98, 108, 101, 40],
        lit(")]") == seq![41u8, 93],
        attr_open_lits() == seq![seq![35u8], seq![33u8], seq![91u8], seq![101u8, 110, 97, 98, 108, 101], seq![40u8]],
        attr_close_lits() == seq![seq![41u8], seq![93u8]],
{
    reveal_strlit("#![enable(");
    lemma_lit_ascii("#![enable(");
    reveal_strlit(")]");
    lemma_lit_ascii(")]");
    reveal_strlit("#");
    lemma_lit_ascii("#");
    reveal_strlit("!");
    lemma_lit_ascii("!");
    reveal_strlit("[");
    lemma_lit_ascii("[");
    reveal_strlit("enable");
    lemma_lit_ascii("enable");
    reveal_strlit("(");
    lemma_lit_ascii("(");
    reveal_strlit(")");
    lemma_lit_ascii(")");
    reveal_strlit("]");
    lemma_lit_ascii("]");
    assert(lit("#![enable(") =~= seq![35u8, 33, 91, 101, 110, 97, 98, 108, 101, 40]);
    assert(lit(")]") =~= seq![41u8, 93]);
    assert(lit("#") =~= seq![35u8]);
    assert(lit("!") =~= seq![33u8]);
    assert(lit("[") =~= seq![91u8]);
    assert(lit("enable") =~= seq![101u8, 110, 97, 98, 108, 101]);
    assert(lit("(") =~= seq![40u8]);
    assert(lit(")") =~= seq![41u8]);
    assert(lit("]") =~= seq![93u8]);
    assert(attr_open_lits() =~= seq![seq![35u8], seq![33u8], seq![91u8], seq![101u8, 110, 97, 98, 108, 101], seq![40u8]]);
    assert(attr_close_lits() =~= seq![seq![41u8], seq![93u8]]);
}

#[verifier::rlimit(30)]
proof fn lemma_enable_open(t: Seq<u8>)
    requires
        t.len() > 0,
        !blank_byte(t[0]),
        t[0] != 47,
    ensures
        consume_all_scan(lit("#![enable(") + t, attr_open_lits(), true) == (Outcome::Done {
            n: 10int,
            value: true,
        }),
{
    lemma_attr_texts();
    let s = lit("#![enable(") + t;
    let l = attr_open_lits();
    assert forall|j: int| 0 <= j <= 10 implies #[trigger] s.skip(j).len() > 0 && s.skip(j)[0] == s[j] by {}
    assert(s[1] == 33u8 && s[2] == 91u8 && s[3] == 101u8 && s[9] == 40u8 && s[10] == t[0]);
    lemma_blank_run(s.skip(1), Seq::<u8>::empty());
    lemma_blank_run(s.skip(2), Seq::<u8>::empty());
    lemma_blank_run(s.skip(3), Seq::<u8>::empty());
    lemma_blank_run(s.skip(9), Seq::<u8>::empty());
    lemma_blank_run(s.skip(10), Seq::<u8>::empty());
    assert(s.take(1) =~= l[0]);
    lemma_consume_step(s, l, true);
    assert(s.skip(1).take(1) =~= l.drop_first()[0]);
    assert(s.skip(1).skip(1) =~= s.skip(2));
    lemma_consume_step(s.skip(1), l.drop_first(), true);
    assert(s.skip(2).take(1) =~= l.drop_first().drop_first()[0]);
    assert(s.skip(2).skip(1) =~= s.skip(3));
    lemma_consume_step(s.skip(2), l.drop_first().drop_first(), true);
    assert(s.skip(3).take(6) =~= l.drop_first().drop_first().drop_first()[0]);
    assert(s.skip(3).skip(6) =~= s.skip(9));
    lemma_consume_step(s.skip(3), l.drop_first().drop_first().drop_first(), true);
    assert(s.skip(9).take(1) =~= l.drop_first().drop_first().drop_first().drop_first()[0]);
    assert(s.skip(9).skip(1) =~= s.skip(10));
    lemma_consume_step(s.skip(9), l.drop_first().drop_first().drop_first().drop_first(), true);
    assert(l.drop_first().drop_first().drop_first().drop_first().drop_first().len() == 0);
}

proof fn lemma_enable_close(rest: Seq<u8>)
    requires
        ends_header(rest),
    ensures
        consume_all_scan(lit(")]") + rest, attr_close_lits(), true) == (Outcome::Done {
            n: 2int,
            value: true,
        }),
{
    lemma_attr_texts();
    let u = lit(")]") + rest;
    let m = attr_close_lits();
    assert(u.take(1) =~= m[0]);
    let u1 = seq![93u8] + rest;
    assert(u.skip(1) =~= u1);
    lemma_blank_run(u1, Seq::<u8>::empty());
    assert(u1 + Seq::<u8>::empty() =~= u1);
    lemma_consume_step(u, m, true);
    assert(u1.take(1) =~= m.drop_first()[0]);
    assert(u1.skip(1) =~= rest);
    lemma_blank_run(Seq::<u8>::empty(), rest);
    assert(Seq::<u8>::empty() + rest =~= rest);
    lemma_consume_step(u1, m.drop_first(), true);
    assert(m.drop_first().drop_first().len() == 0);
    assert(rest.skip(0) =~= rest);
}

proof fn lemma_enable_attr(name: Seq<u8>, rest: Seq<u8>)
    requires
        extension_name_bit(name) is Some,
        ends_header(rest),
    ensures
        ext_attr_scan(lit("#![enable(") + name + lit(")]") + rest) == (Outcome::Done {
            n: name.len() + 12int,
            value: extension_name_bit(name)->0,
        }),
{
    lemma_extension_names();
    lemma_attr_texts();
    let close = lit(")]");
    let bit = extension_name_bit(name)->0;
    let t = name + (close + rest);
    let s = lit("#![enable(") + name + close + rest;
    assert(s =~= lit("#![enable(") + t);
    let nl = name.len() as int;
    assert(t[0] == name[0]);
    lemma_enable_open(t);
    assert(s.skip(10) =~= t);
    lemma_blank_run(t, Seq::<u8>::empty());
    assert(t + Seq::<u8>::empty() =~= t);
    assert(t.skip(0) =~= t);
    lemma_extension_name_bit(name, close + rest, 0);
    assert((0usize | bit) == bit) by {
        assert(forall|b: usize| #[trigger] (0usize | b) == b) by (bit_vector);
    }
    let u = close + rest;
    assert(t.skip(0).skip(nl) =~= u);
    lemma_blank_run(u, Seq::<u8>::empty());
    assert(u + Seq::<u8>::empty() =~= u);
    assert(u.skip(0) =~= u);
    lemma_enable_close(rest);
}

/// A document header `#![enable(name)]` enables the bit of the extension
/// it names and nothing else: `unwrap_newtypes` 1, `implicit_some` 2,
/// `unwrap_variant_newtypes` 4 and `explicit_struct_names` 8.
pub proof fn lemma_enable_header(name: Seq<u8>, rest: Seq<u8>)
    requires
        extension_name_bit(name) is Some,
        ends_header(rest),
    ensures
        header_scan(lit("#![enable(") + name + lit(")]") + rest) == (Outcome::Done {
            n: name.len() + 12int,
            value: extension_name_bit(name)->0,
        }),
{
    lemma_enable_attr(name, rest);
    lemma_attr_texts();
    let bit = extension_name_bit(name)->0;
    let s = lit("#![enable(") + name + lit(")]") + rest;
    let nl = name.len() as int;
    assert(s[0] == 35u8);
    lemma_blank_run(s, Seq::<u8>::empty());
    assert(s + Seq::<u8>::empty() =~= s);
    assert(s.skip(0) =~= s);
    assert(s.skip(nl + 12) =~= rest);
    lemma_blank_run(Seq::<u8>::empty(), rest);
    assert(Seq::<u8>::empty() + rest =~= rest);
    assert(rest.skip(0) =~= rest);
    assert(ext_attr_scan(rest) == (Outcome::Done { n: 0int, value: 0usize }));
    assert(attrs_scan(rest, 0usize | bit) == (Outcome::Done { n: 0int, value: 0usize | bit }));
    assert((0usize | bit) == bit) by {
        assert(forall|b: usize| #[trigger] (0usize | b) == b) by (bit_vector);
    }
    assert(attrs_scan(s, 0usize) == (Outcome::Done { n: nl + 12, value: bit }));
}

/// The float type a literal ending in `suffix` is read into: `f32` and
/// `f64` name theirs, and with no suffix the caller's wish stands.
pub open spec fn float_suffix_width(suffix: Seq<u8>, desire: DesireFloat) -> DesireFloat {
    if suffix == lit("f32") {
        DesireFloat::F32
    } else if suffix == lit("f64") {
        DesireFloat::F64
    } else {
        desire
    }
}

/// A float with a fraction, digits, `.` and perhaps more digits, is read
/// as exactly that text, and an `f32` or `f64` right after it names the
/// float type it is read into, over what the caller asks for.
#[verifier::rlimit(30)]
pub proof fn lemma_float_fraction(
    a: Seq<u8>,
    b: Seq<u8>,
    suffix: Seq<u8>,
    rest: Seq<u8>,
    desire: DesireFloat,
)
    requires
        a.len() > 0,
        all_digits(a),
        all_digits(b),
        suffix.len() == 0 || suffix == lit("f32") || suffix == lit("f64"),
        ends_float(rest),
    ensures
        float_scan(a + seq![46u8] + b + suffix + rest, desire) == (Outcome::Done {
            n: (a.len() + 1 + b.len() + suffix.len()) as int,
            value: (a + seq![46u8] + b, float_suffix_width(suffix, desire)),
        }),
{
    reveal(float_scan);
    reveal_strlit("f32");
    lemma_lit_ascii("f32");
    reveal_strlit("f64");
    lemma_lit_ascii("f64");
    assert(lit("f32") =~= seq![102u8, 51, 50]);
    assert(lit("f64") =~= seq![102u8, 54, 52]);
    let text = a + seq![46u8] + b;
    let after = suffix + rest;
    let s = text + after;
    assert(a + seq![46u8] + b + suffix + rest =~= s);
    assert(s[0] == a[0]);
    lemma_no_special_float(s, desire, 0);
    assert forall|i: int| 0 <= i < text.len() implies in_class(CharClass::Float, #[trigger] text[i])
        && text[i] != 95 by {
        if i < a.len() {
            assert(text[i] == a[i]);
        } else if i == a.len() {
        } else {
            assert(text[i] == b[i - a.len() - 1]);
        }
    }
    if suffix.len() > 0 {
        assert(after[0] == 102u8);
    }
    lemma_span_prefix(text, after, CharClass::Float);
    let num = text.len() as int;
    assert(s.take(num) =~= text);
    lemma_float_clean_plain(text, 0, false);
    assert(text.skip(0) =~= text);
    let r = seq![46u8] + b;
    assert(text =~= a + r);
    lemma_digit_run_prefix(a, r);
    assert(unsigned_part(text) == text);
    assert(text.skip(a.len() as int) =~= r);
    assert(r.skip(1) =~= b);
    lemma_digit_run_prefix(b, Seq::<u8>::empty());
    assert(b + Seq::<u8>::empty() =~= b);
    assert(r.skip(1 + b.len() as int) =~= Seq::<u8>::empty());
    assert(float_syntax(text));
    assert(s.skip(num) =~= after);
    if suffix.len() == 0 {
        assert(after =~= rest);
        assert(!spec_ident_follows(rest, lit("f32"))) by {
            if starts_with(rest, lit("f32")) {
                assert(rest.take(3)[0] == rest[0]);
            }
        }
        assert(!spec_ident_follows(rest, lit("f64"))) by {
            if starts_with(rest, lit("f64")) {
                assert(rest.take(3)[0] == rest[0]);
            }
        }
    } else {
        assert(after.take(3) =~= suffix);
        if rest.len() > 0 {
            assert(after[3] == rest[0]);
        }
        if suffix == lit("f64") {
            assert(!starts_with(after, lit("f32"))) by {
                if starts_with(after, lit("f32")) {
                    assert(after.take(3)[1] == after[1]);
                }
            }
        }
    }
}

/// The text that a special float literal stands for: `inf` and `+inf`
/// are `inf`, `-inf` is `-inf`, `NaN` and `+NaN` are `NaN`, and `-NaN` is
/// `-NaN`.
pub open spec fn special_float_text(word: Seq<u8>) -> Option<Seq<u8>> {
    if word == lit("inf") || word == lit("+inf") {
        Some(lit("inf"))
    } else if word == lit("-inf") {
        Some(lit("-inf"))
    } else if word == lit("NaN") || word == lit("+NaN") {
        Some(lit("NaN"))
    } else if word == lit("-NaN") {
        Some(lit("-NaN"))
    } else {
        None
    }
}

/// The float type a special literal ending in `suffix` is read into:
/// `_f32` and `_f64` name theirs, and with no suffix it is `f64` if the
/// caller asks for `f64` and `f32` otherwise.
pub open spec fn special_suffix_width(suffix: Seq<u8>, desire: DesireFloat) -> DesireFloat {
    if suffix == lit("_f32") {
        DesireFloat::F32
    } else if suffix == lit("_f64") {
        DesireFloat::F64
    } else if desire is F64 {
        DesireFloat::F64
    } else {
        DesireFloat::F32
    }
}

proof fn lemma_special_words()
    ensures
        lit("inf") == seq![105u8, 110, 102],
        lit("+inf") == seq![43u8, 105, 110, 102],
        lit("-inf") == seq![45u8, 105, 110, 102],
        lit("NaN") == seq![78u8, 97, 78],
        lit("+NaN") == seq![43u8, 78, 97, 78],
        lit("-NaN") == seq![45u8, 78, 97, 78],
        lit("_f32") == seq![95u8, 102, 51, 50],
        lit("_f64") == seq![95u8, 102, 54, 52],
{
    reveal_strlit("inf");
    lemma_lit_ascii("inf");
    assert(lit("inf") =~= seq![105u8, 110, 102]);
    reveal_strlit("+inf");
    lemma_lit_ascii("+inf");
    assert(lit("+inf") =~= seq![43u8, 105, 110, 102]);
    reveal_strlit("-inf");
    lemma_lit_ascii("-inf");
    assert(lit("-inf") =~= seq![45u8, 105, 110, 102]);
    reveal_strlit("NaN");
    lemma_lit_ascii("NaN");
    assert(lit("NaN") =~= seq![78u8, 97, 78]);
    reveal_strlit("+NaN");
    lemma_lit_ascii("+NaN");
    assert(lit("+NaN") =~= seq![43u8, 78, 97, 78]);
    reveal_strlit("-NaN");
    lemma_lit_ascii("-NaN");
    assert(lit("-NaN") =~= seq![45u8, 78, 97, 78]);
    reveal_strlit("_f32");
    lemma_lit_ascii("_f32");
    assert(lit("_f32") =~= seq![95u8, 102, 51, 50]);
    reveal_strlit("_f64");
    lemma_lit_ascii("_f64");
    assert(lit("_f64") =~= seq![95u8, 102, 54, 52]);
}

proof fn lemma_starts_longer(s: Seq<u8>, w: Seq<u8>, x: Seq<u8>)
    requires
        starts_with(s, w + x),
    ensures
        starts_with(s, w),
{
    assert(s.take(w.len() as int) =~= (w + x).take(w.len() as int));
    assert((w + x).take(w.len() as int) =~= w);
    assert(s.take((w + x).len() as int).take(w.len() as int) =~= s.take(w.len() as int));
}

/// Special words from the `j`-th on that `s` does not start with are
/// passed over.
proof fn lemma_special_pass(s: Seq<u8>, desire: DesireFloat, j: int, k: int)
    requires
        0 <= j <= k < 6,
        forall|i: int| j <= i < k ==> !starts_with(s, #[trigger] special_floats()[i].0),
    ensures
        special_float_scan(s, desire, j) == special_float_scan(s, desire, k),
    decreases k - j,
{
    if j < k {
        let w = special_floats()[j].0;
        assert(!starts_with(s, w));
        if starts_with(s, w + lit("_f32")) {
            lemma_starts_longer(s, w, lit("_f32"));
        }
        if starts_with(s, w + lit("_f64")) {
            lemma_starts_longer(s, w, lit("_f64"));
        }
        lemma_special_pass(s, desire, j + 1, k);
    }
}

/// The special float literals `inf`, `+inf`, `-inf`, `NaN`, `+NaN` and
/// `-NaN`, each perhaps followed by `_f32` or `_f64`, read as the value
/// they stand for, in the float type the suffix names.
#[verifier::rlimit(40)]
pub proof fn lemma_special_float(word: Seq<u8>, suffix: Seq<u8>, rest: Seq<u8>, desire: DesireFloat)
    requires
        special_float_text(word) is Some,
        suffix.len() == 0 || suffix == lit("_f32") || suffix == lit("_f64"),
        ends_number(rest),
    ensures
        float_scan(word + suffix + rest, desire) == (Outcome::Done {
            n: (word.len() + suffix.len()) as int,
            value: (special_float_text(word)->0, special_suffix_width(suffix, desire)),
        }),
{
    reveal(float_scan);
    lemma_special_words();
    let s = word + suffix + rest;
    let wl = word.len() as int;
    let k: int = if word == lit("inf") {
        0
    } else if word == lit("+inf") {
        1
    } else if word == lit("-inf") {
        2
    } else if word == lit("NaN") {
        3
    } else if word == lit("+NaN") {
        4
    } else {
        5
    };
    assert(special_floats()[k].0 == word);
    assert(s[0] == word[0] && s[1] == word[1] && s[2] == word[2]);
    assert forall|i: int| 0 <= i < k implies !starts_with(s, #[trigger] special_floats()[i].0) by {
        let w = special_floats()[i].0;
        if starts_with(s, w) {
            assert(s.take(w.len() as int)[0] == s[0]);
            assert(s.take(w.len() as int)[1] == s[1]);
            assert(s.take(w.len() as int)[2] == s[2]);
        }
    }
    lemma_special_pass(s, desire, 0, k);
    assert(s.take(wl) =~= word);
    if suffix.len() == 0 {
        assert(s =~= word + rest);
        if rest.len() > 0 {
            assert(s[wl] == rest[0]);
        }
    } else {
        assert(s[wl] == 95u8);
        assert(s.take(wl + 4) =~= word + suffix);
        if rest.len() > 0 {
            assert(s[wl + 4] == rest[0]);
        }
        if suffix == lit("_f64") {
            assert(s[wl + 2] == 54u8);
            assert(!starts_with(s, word + lit("_f32"))) by {
                if starts_with(s, word + lit("_f32")) {
                    assert(s.take(wl + 4)[wl + 2] == s[wl + 2]);
                    assert((word + lit("_f32"))[wl + 2] == 51u8);
                }
            }
        }
    }
}

/// A line comment, `//` and text up to a line feed, is passed over with the
/// line feed that ends it, and reading goes on after them.
pub proof fn lemma_line_comment(x: Seq<u8>, rest: Seq<u8>)
    requires
        forall|i: int| 0 <= i < x.len() ==> #[trigger] x[i] != 10,
        rest.len() == 0 || (!blank_byte(rest[0]) && rest[0] != 47),
    ensures
        ws_scan(seq![47u8, 47u8] + x + seq![10u8] + rest) == (x.len() + 3int, None::<crate::error::Error>),
{
    reveal(ws_scan);
    let s = seq![47u8, 47u8] + x + seq![10u8] + rest;
    assert(s.skip(0) =~= s);
    let after = seq![10u8] + rest;
    assert(s.skip(2) =~= x + after);
    lemma_span_prefix(x, after, CharClass::NotNewline);
    assert(comment_scan(s) == (x.len() + 2int, None::<crate::error::Error>, true));
    assert(s.skip(x.len() + 2int) =~= after);
    lemma_blank_run(seq![10u8], rest);
}

/// Whether `x` holds neither a slash nor a star.
pub open spec fn no_slash_or_star(x: Seq<u8>) -> bool {
    forall|i: int| 0 <= i < x.len() ==> #[trigger] x[i] != 47 && x[i] != 42
}

proof fn lemma_block_step(x: Seq<u8>, pair: Seq<u8>, tail: Seq<u8>, level: nat)
    requires
        no_slash_or_star(x),
        level > 0,
        pair == seq![47u8, 42u8] || pair == seq![42u8, 47u8],
    ensures
        block_comment_scan(x + pair + tail, level) == ({
            let r = block_comment_scan(tail, if pair[0] == 47 { level + 1 } else { (level - 1) as nat });
            (x.len() + 2 + r.0, r.1)
        }),
{
    let s = x + pair + tail;
    let after = pair + tail;
    assert(s =~= x + after);
    lemma_span_prefix(x, after, CharClass::NotSlashOrStar);
    assert(s.skip(x.len() as int) =~= after);
    assert(after.skip(2) =~= tail);
}

/// Block comments nest: in `/* x /* y */ z */` the first `*/` closes only
/// the inner comment, so the whole is one comment, passed over, and reading
/// goes on after it.
pub proof fn lemma_nested_block_comment(x: Seq<u8>, y: Seq<u8>, z: Seq<u8>, rest: Seq<u8>)
    requires
        no_slash_or_star(x),
        no_slash_or_star(y),
        no_slash_or_star(z),
        rest.len() == 0 || (!blank_byte(rest[0]) && rest[0] != 47),
    ensures
        ws_scan(
            seq![47u8, 42u8] + x + seq![47u8, 42u8] + y + seq![42u8, 47u8] + z + seq![42u8, 47u8] + rest,
        ) == (x.len() + y.len() + z.len() + 8int, None::<crate::error::Error>),
{
    reveal(ws_scan);
    let open = seq![47u8, 42u8];
    let close = seq![42u8, 47u8];
    let t3 = z + close + rest;
    let t2 = y + close + t3;
    let t1 = x + open + t2;
    let s = open + t1;
    assert(seq![47u8, 42u8] + x + seq![47u8, 42u8] + y + seq![42u8, 47u8] + z + seq![42u8, 47u8] + rest =~= s);
    lemma_block_step(z, close, rest, 1);
    assert(block_comment_scan(rest, 0) == (0int, None::<crate::error::Error>));
    lemma_block_step(y, close, t3, 2);
    lemma_block_step(x, open, t2, 1);
    assert(s.skip(0) =~= s);
    assert(s.skip(2) =~= t1);
    let n = x.len() + y.len() + z.len() + 8int;
    assert(comment_scan(s) == (n, None::<crate::error::Error>, true));
    assert(s.skip(n) =~= rest);
    lemma_blank_run(Seq::<u8>::empty(), rest);
    assert(Seq::<u8>::empty() + rest =~= rest);
}

/// `h` hashes.
pub open spec fn hashes(h: nat) -> Seq<u8> {
    Seq::new(h, |i: int| 35u8)
}

proof fn lemma_raw_close_first(u: Seq<u8>, h: int, j: int, m: int)
    requires
        0 <= j <= m,
        h >= 0,
        raw_close_at(u, m, h),
        forall|i: int| j <= i < m ==> !raw_close_at(u, i, h),
    ensures
        raw_close_from(u, h, j) == Some(m),
    decreases m - j,
{
    if j < m {
        lemma_raw_close_first(u, h, j + 1, m);
    }
}

/// A raw string, `r`, some hashes, a double quote, the text, a double quote
/// and as many hashes, reads as that text, borrowed, whatever follows it.
pub proof fn lemma_raw_string_reads(text: Seq<char>, h: nat, rest: Seq<u8>)
    requires
        plain_text(text),
    ensures
        string_scan(seq![114u8] + hashes(h) + seq![34u8] + encode_utf8(text) + seq![34u8] + hashes(h) + rest)
            == (Outcome::Done { n: encode_utf8(text).len() + 2 * h + 3int, value: (false, text) }),
{
    reveal(string_scan);
    let e = encode_utf8(text);
    let hs = hashes(h);
    let whole = seq![114u8] + hs + seq![34u8] + e + seq![34u8] + hs + rest;
    let s1 = hs + (seq![34u8] + e + seq![34u8] + hs + rest);
    assert(whole.skip(1) =~= s1);
    assert forall|i: int| 0 <= i < hs.len() implies in_class(CharClass::Hash, #[trigger] hs[i]) by {}
    lemma_span_prefix(hs, seq![34u8] + e + seq![34u8] + hs + rest, CharClass::Hash);
    let t = s1.skip(h as int);
    assert(t =~= seq![34u8] + e + seq![34u8] + hs + rest);
    let u = t.skip(1);
    assert(u =~= e + seq![34u8] + hs + rest);
    lemma_encode_plain(text);
    let m = e.len() as int;
    assert(u[m] == 34u8);
    assert forall|k: int| 1 <= k <= h implies #[trigger] u[m + k] == 35 by {
        assert(u[m + k] == hs[k - 1]);
    }
    assert(raw_close_at(u, m, h as int));
    assert forall|i: int| 0 <= i < m implies !raw_close_at(u, i, h as int) by {
        assert(u[i] == e[i]);
        assert(in_class(CharClass::NotQuoteOrBackslash, e[i]));
    }
    lemma_raw_close_first(u, h as int, 0, m);
    assert(u.take(m) =~= e);
    encode_utf8_valid_utf8(text);
    encode_utf8_decode_utf8(text);
}

/// The value of a hexadecimal digit: `0` to `9`, then `a` to `f` or `A` to
/// `F` for 10 to 15.
pub open spec fn hex_digit_value(c: u8) -> Option<int> {
    if 48 <= c <= 57 {
        Some(c - 48)
    } else if 97 <= c <= 102 {
        Some(c - 87)
    } else if 65 <= c <= 70 {
        Some(c - 55)
    } else {
        None
    }
}

/// The number that the hexadecimal digits `d` spell after the number
/// `acc` already read (most significant digit first).
pub open spec fn hex_number(acc: int, d: Seq<u8>) -> int
    decreases d.len(),
{
    if d.len() == 0 {
        acc
    } else {
        hex_number(acc * 16 + hex_digit_value(d[0])->0, d.drop_first())
    }
}

/// Whether every byte of `d` is a hexadecimal digit.
pub open spec fn all_hex(d: Seq<u8>) -> bool {
    forall|i: int| 0 <= i < d.len() ==> #[trigger] hex_digit_value(d[i]) is Some
}

/// A `\x` escape, two hexadecimal digits after the backslash and `x`,
/// stands for the character whose code the two digits spell.
pub proof fn lemma_hex_escape(h1: u8, h2: u8, rest: Seq<u8>)
    requires
        hex_digit_value(h1) is Some,
        hex_digit_value(h2) is Some,
    ensures
        escape_scan(seq![120u8, h1, h2] + rest) matches Outcome::Done { n, value } && n == 3 && value as u32
            == 16 * hex_digit_value(h1)->0 + hex_digit_value(h2)->0,
{
    let s = seq![120u8, h1, h2] + rest;
    let t = s.skip(1);
    assert(t =~= seq![h1, h2] + rest);
    assert(t[0] == h1 && t[1] == h2);
}

proof fn lemma_unicode_digits(d: Seq<u8>, tail: Seq<u8>, acc: u32, k: nat)
    requires
        k + d.len() <= 6,
        acc < pow16(k),
        all_hex(d),
        tail.len() > 0,
        tail[0] == 125,
    ensures
        0 <= hex_number(acc as int, d) < pow16(k + d.len()),
        unicode_digits_scan(d + tail, acc, k) == (Outcome::Done {
            n: d.len() as int,
            value: (hex_number(acc as int, d) as u32, k + d.len()),
        }),
    decreases d.len(),
{
    let s = d + tail;
    if d.len() == 0 {
        assert(s =~= tail);
    } else {
        assert(s[0] == d[0]);
        assert(hex_digit_value(d[0]) is Some);
        let dv = hex_digit_value(d[0])->0;
        assert(0 <= dv < 16);
        reveal_with_fuel(pow16, 7);
        let p = pow16(k);
        assert(pow16(k + 1) == 16 * p);
        assert(acc * 16 + dv < 16 * p) by (nonlinear_arith)
            requires
                acc < p,
                0 <= dv < 16,
        ;
        let next = (acc * 16 + dv) as u32;
        assert(next == acc * 16 + dv);
        assert(s.skip(1) =~= d.drop_first() + tail);
        assert forall|i: int| 0 <= i < d.drop_first().len() implies #[trigger] hex_digit_value(
            d.drop_first()[i],
        ) is Some by {
            assert(d.drop_first()[i] == d[i + 1]);
        }
        lemma_unicode_digits(d.drop_first(), tail, next, k + 1);
    }
}

/// A `\u{...}` escape, one to six hexadecimal digits between braces after
/// the backslash and `u`, stands for the character whose code the digits
/// spell, and is refused where that code is no Unicode scalar value.
pub proof fn lemma_unicode_escape(d: Seq<u8>, rest: Seq<u8>)
    requires
        1 <= d.len() <= 6,
        all_hex(d),
    ensures
        ({
            let v = hex_number(0, d);
            let o = escape_scan(seq![117u8, 123u8] + d + seq![125u8] + rest);
            &&& is_scalar(v as u32) ==> (o matches Outcome::Done { n, value } && n == d.len() + 3
                && value as u32 == v)
            &&& !is_scalar(v as u32) ==> o == (Outcome::<char>::Fail {
                n: d.len() + 3int,
                err: ErrSpec::Plain(crate::error::Error::InvalidEscape("Not a valid char")),
            })
        }),
{
    let s = seq![117u8, 123u8] + d + seq![125u8] + rest;
    let t = s.skip(1);
    assert(t =~= seq![123u8] + (d + (seq![125u8] + rest)));
    assert(t.skip(1) =~= d + (seq![125u8] + rest));
    lemma_unicode_digits(d, seq![125u8] + rest, 0, 0);
    reveal_with_fuel(pow16, 7);
    assert(pow16(d.len()) <= 16777216) by {
        assert(pow16(1) == 16 && pow16(2) == 256 && pow16(3) == 4096);
        assert(pow16(4) == 65536 && pow16(5) == 1048576 && pow16(6) == 16777216);
    }
    assert(t.skip(1 + d.len() as int) =~= seq![125u8] + rest);
    let v = hex_number(0, d);
    assert(0 <= v < 16777216);
    assert(s[0] == 117u8);
    assert(t.len() > 0 && t[0] == 123u8);
    assert(unicode_digits_scan(t.skip(1), 0, 0) == (Outcome::Done {
        n: d.len() as int,
        value: (v as u32, d.len()),
    }));
    assert((v as u32) as int == v);
    if is_scalar(v as u32) {
        assert(((v as u32) as char) as u32 == v as u32);
    }
}

/// The bytes of the type suffix that names the integer type `k`.
pub open spec fn suffix_bytes(k: DesireInteger) -> Seq<u8> {
    match k {
        DesireInteger::I8 => lit("i8"),
        DesireInteger::I16 => lit("i16"),
        DesireInteger::I32 => lit("i32"),
        DesireInteger::I64 => lit("i64"),
        DesireInteger::U8 => lit("u8"),
        DesireInteger::U16 => lit("u16"),
        DesireInteger::U32 => lit("u32"),
        DesireInteger::U64 => lit("u64"),
        DesireInteger::Any => Seq::empty(),
    }
}

/// The largest value of the integer type `k` names.
pub open spec fn suffix_max(k: DesireInteger) -> int {
    match k {
        DesireInteger::I8 => 127,
        DesireInteger::I16 => 32767,
        DesireInteger::I32 => 2147483647,
        DesireInteger::I64 => 9223372036854775807,
        DesireInteger::U8 => 255,
        DesireInteger::U16 => 65535,
        DesireInteger::U32 => 4294967295,
        DesireInteger::U64 => 18446744073709551615,
        DesireInteger::Any => 0,
    }
}

/// The smallest value of the integer type `k` names.
pub open spec fn suffix_min(k: DesireInteger) -> int {
    match k {
        DesireInteger::I8 => -128,
        DesireInteger::I16 => -32768,
        DesireInteger::I32 => -2147483648,
        DesireInteger::I64 => -9223372036854775808,
        _ => 0,
    }
}

/// The value `v`, which lies in `suffix_min(k)..=suffix_max(k)`, held in
/// the integer type `k` names.
pub open spec fn suffix_value(k: DesireInteger, v: int) -> ParsedInteger {
    match k {
        DesireInteger::I8 => ParsedInteger::I8(v as i8),
        DesireInteger::I16 => ParsedInteger::I16(v as i16),
        DesireInteger::I32 => ParsedInteger::I32(v as i32),
        DesireInteger::I64 => ParsedInteger::I64(v as i64),
        DesireInteger::U8 => ParsedInteger::U8(v as u8),
        DesireInteger::U16 => ParsedInteger::U16(v as u16),
        DesireInteger::U32 => ParsedInteger::U32(v as u32),
        DesireInteger::U64 => ParsedInteger::U64(v as u64),
        DesireInteger::Any => ParsedInteger::U64(v as u64),
    }
}

/// Whether `rest` may follow a type suffix without being read into it.
pub open spec fn ends_suffix(rest: Seq<u8>) -> bool {
    rest.len() == 0 || !(spec_is_ident_other_char(rest[0]) || rest[0] == 46 || rest[0] == 43 || rest[0] == 45)
}

proof fn lemma_suffix_texts()
    ensures
        lit("i8") == seq![105u8, 56u8],
        lit("i16") == seq![105u8, 49u8, 54u8],
        lit("i32") == seq![105u8, 51u8, 50u8],
        lit("i64") == seq![105u8, 54u8, 52u8],
        lit("u8") == seq![117u8, 56u8],
        lit("u16") == seq![117u8, 49u8, 54u8],
        lit("u32") == seq![117u8, 51u8, 50u8],
        lit("u64") == seq![117u8, 54u8, 52u8],
{
    reveal_strlit("i8");
    lemma_lit_ascii("i8");
    assert(lit("i8") =~= seq![105u8, 56u8]);
    reveal_strlit("i16");
    lemma_lit_ascii("i16");
    assert(lit("i16") =~= seq![105u8, 49u8, 54u8]);
    reveal_strlit("i32");
    lemma_lit_ascii("i32");
    assert(lit("i32") =~= seq![105u8, 51u8, 50u8]);
    reveal_strlit("i64");
    lemma_lit_ascii("i64");
    assert(lit("i64") =~= seq![105u8, 54u8, 52u8]);
    reveal_strlit("u8");
    lemma_lit_ascii("u8");
    assert(lit("u8") =~= seq![117u8, 56u8]);
    reveal_strlit("u16");
    lemma_lit_ascii("u16");
    assert(lit("u16") =~= seq![117u8, 49u8, 54u8]);
    reveal_strlit("u32");
    lemma_lit_ascii("u32");
    assert(lit("u32") =~= seq![117u8, 51u8, 50u8]);
    reveal_strlit("u64");
    lemma_lit_ascii("u64");
    assert(lit("u64") =~= seq![117u8, 54u8, 52u8]);
}

/// Whether `r` starts with the two or three bytes `x`.
proof fn lemma_starts_short(r: Seq<u8>, x: Seq<u8>)
    requires
        2 <= x.len() <= 3,
        x.len() <= r.len(),
    ensures
        starts_with(r, x) == (r[0] == x[0] && r[1] == x[1] && (x.len() == 2 || r[2] == x[2])),
{
    if r[0] == x[0] && r[1] == x[1] && (x.len() == 2 || r[2] == x[2]) {
        assert(r.take(x.len() as int) =~= x);
    }
    if starts_with(r, x) {
        assert(r.take(x.len() as int)[0] == r[0]);
        assert(r.take(x.len() as int)[1] == r[1]);
        if x.len() == 3 {
            assert(r.take(x.len() as int)[2] == r[2]);
        }
    }
}

/// The suffix at the start of `suffix_bytes(k) + rest` names `k`, and is
/// read whole as an identifier.
proof fn lemma_suffix_names(k: DesireInteger, rest: Seq<u8>)
    requires
        !(k is Any),
        ends_suffix(rest),
    ensures
        suffix_kind(suffix_bytes(k) + rest) == k,
        ident_scan(suffix_bytes(k) + rest).consumed() == suffix_bytes(k).len(),
{
    lemma_suffix_texts();
    let x = suffix_bytes(k);
    let r = x + rest;
    assert(r[0] == x[0] && r[1] == x[1]);
    if x.len() == 3 {
        assert(r[2] == x[2]);
    }
    if rest.len() > 0 {
        assert(r[x.len() as int] == rest[0]);
    }
    let all = seq![lit("i8"), lit("i16"), lit("i32"), lit("i64"), lit("u8"), lit("u16"), lit("u32"), lit("u64")];
    assert forall|j: int| 0 <= j < 8 implies (all[j].len() <= r.len() ==> starts_with(r, #[trigger] all[j]) == (
        r[0] == all[j][0] && r[1] == all[j][1] && (all[j].len() == 2 || r[2] == all[j][2]))) by {
        if all[j].len() <= r.len() {
            lemma_starts_short(r, all[j]);
        }
    }
    assert(all[0] == lit("i8") && all[1] == lit("i16") && all[2] == lit("i32") && all[3] == lit("i64"));
    assert(all[4] == lit("u8") && all[5] == lit("u16") && all[6] == lit("u32") && all[7] == lit("u64"));
    reveal(ident_scan);
    assert forall|i: int| 0 <= i < x.len() implies in_class(CharClass::IdentOther, #[trigger] x[i]) by {}
    lemma_span_prefix(x, rest, CharClass::IdentOther);
    lemma_span_prefix(x, rest, CharClass::IdentRaw);
}

/// The expected outcome of a suffixed literal of value `v`, `n` bytes long.
spec fn suffixed_outcome(k: DesireInteger, v: int, n: int) -> Outcome<ParsedInteger> {
    if suffix_min(k) <= v <= suffix_max(k) {
        Outcome::Done { n, value: suffix_value(k, v) }
    } else {
        Outcome::Fail { n, err: ErrSpec::Plain(crate::error::Error::IntegerOutOfBounds) }
    }
}

proof fn lemma_suffixed_digits(d: Seq<u8>, k: DesireInteger, rest: Seq<u8>, neg: bool)
    requires
        d.len() > 0,
        all_digits(d),
        !(k is Any),
        ends_suffix(rest),
    ensures
        ({
            let s = d + suffix_bytes(k) + rest;
            let v = if neg { -digits_val(d) } else { digits_val(d) };
            &&& suffix_after(s, span_len(s, CharClass::Int) as int) == k
            &&& suffixed_scan(s, neg, k) == suffixed_outcome(
                k,
                v,
                (d.len() + suffix_bytes(k).len()) as int,
            )
        }),
{
    lemma_suffix_texts();
    lemma_suffix_names(k, rest);
    let x = suffix_bytes(k);
    let r = x + rest;
    let s = d + x + rest;
    assert(s =~= d + r);
    assert(r[0] == x[0]);
    assert(ends_digits(r));
    lemma_digits_nonneg(d);
    let lo = kind_min(k);
    let hi = kind_max(k);
    lemma_digit_run_scan(d, r, neg, lo, hi);
    assert forall|i: int| 0 <= i < d.len() implies in_class(CharClass::Int, #[trigger] d[i]) by {
        assert(48 <= d[i] <= 57);
    }
    lemma_span_prefix(d, r, CharClass::Int);
    assert(s[d.len() as int] == x[0]);
    assert(s.skip(d.len() as int) =~= r);
    assert(hi == suffix_max(k) && lo == suffix_min(k));
    let v = if neg { -digits_val(d) } else { digits_val(d) };
    assert(parsed_as(k, v) == suffix_value(k, v));
}

/// A decimal literal with a type suffix, after a `+`, a `-` or no sign, is
/// read into exactly the type the suffix names, whatever type the caller
/// asks for: the digits of `v` followed by `u8` read as a `u8` holding `v`
/// when `v` is at most 255, and fail as out of bounds past the suffix when
/// it is larger; likewise `i8` from -128 to 127, `i16` from -32768 to
/// 32767, `i32` from -2147483648 to 2147483647, `i64` from
/// -9223372036854775808 to 9223372036854775807, `u16` up to 65535, `u32` up
/// to 4294967295 and `u64` up to 18446744073709551615; a minus sign
/// negates the value.
pub proof fn lemma_integer_suffix(
    sign: Seq<u8>,
    d: Seq<u8>,
    k: DesireInteger,
    rest: Seq<u8>,
    desire: DesireInteger,
)
    requires
        sign == Seq::<u8>::empty() || sign == seq![43u8] || sign == seq![45u8],
        d.len() > 0,
        all_digits(d),
        !(k is Any),
        ends_suffix(rest),
    ensures
        ({
            let v = if sign == seq![45u8] { -digits_val(d) } else { digits_val(d) };
            let n = (sign.len() + d.len() + suffix_bytes(k).len()) as int;
            any_integer_scan(sign + d + suffix_bytes(k) + rest, desire) == (if suffix_min(k) <= v
                <= suffix_max(k) {
                Outcome::Done { n, value: suffix_value(k, v) }
            } else {
                Outcome::Fail { n, err: ErrSpec::Plain(crate::error::Error::IntegerOutOfBounds) }
            })
        }),
{
    reveal(any_integer_scan);
    let x = suffix_bytes(k);
    let whole = sign + d + x + rest;
    let sg = sign.len() as int;
    let neg = sign == seq![45u8];
    let s = d + x + rest;
    assert(whole.skip(sg) =~= s);
    if sg == 0 {
        assert(whole[0] == d[0]);
    } else {
        assert(whole[0] == sign[0]);
    }
    lemma_suffixed_digits(d, k, rest, neg);
}


/// The base that the letter after a leading `0` names: `x` hexadecimal,
/// `b` binary and `o` octal.
pub open spec fn base_of_mark(mark: u8) -> int {
    if mark == 120 {
        16
    } else if mark == 98 {
        2
    } else if mark == 111 {
        8
    } else {
        10
    }
}

/// The number that the digits `d` spell in `base` after the number `acc`
/// already read (most significant digit first); underscores between them
/// count for nothing.
pub open spec fn number_in_base(base: int, acc: int, d: Seq<u8>) -> int
    decreases d.len(),
{
    if d.len() == 0 {
        acc
    } else if d[0] == 95 {
        number_in_base(base, acc, d.drop_first())
    } else {
        number_in_base(base, acc * base + hex_digit_value(d[0])->0, d.drop_first())
    }
}

/// Whether every byte of `d` is a digit of `base` or an underscore.
pub open spec fn digits_of_base(base: int, d: Seq<u8>) -> bool {
    forall|i: int| 0 <= i < d.len() ==> #[trigger] d[i] == 95 || (hex_digit_value(d[i]) is Some
        && hex_digit_value(d[i])->0 < base)
}

proof fn lemma_number_grows(base: int, acc: int, d: Seq<u8>)
    requires
        base >= 1,
        acc >= 0,
        digits_of_base(base, d),
    ensures
        number_in_base(base, acc, d) >= acc,
    decreases d.len(),
{
    if d.len() > 0 {
        assert(digits_of_base(base, d.drop_first())) by {
            assert forall|i: int| 0 <= i < d.drop_first().len() implies #[trigger] d.drop_first()[i] == 95 || (
            hex_digit_value(d.drop_first()[i]) is Some && hex_digit_value(d.drop_first()[i])->0 < base) by {
                assert(d.drop_first()[i] == d[i + 1]);
            }
        }
        if d[0] == 95 {
            lemma_number_grows(base, acc, d.drop_first());
        } else {
            let dv = hex_digit_value(d[0])->0;
            assert(hex_digit_value(d[0]) is Some);
            assert(acc * base >= acc) by (nonlinear_arith)
                requires
                    base >= 1,
                    acc >= 0,
            ;
            lemma_number_grows(base, acc * base + dv, d.drop_first());
        }
    }
}

proof fn lemma_based_digits(b: Seq<u8>, i: int, acc: int, base: u8, lo: int, hi: int)
    requires
        0 <= i <= b.len(),
        2 <= base <= 16,
        0 <= acc <= hi,
        lo <= 0,
        digits_of_base(base as int, b),
    ensures
        digits_scan(b, i, acc, base, false, lo, hi) == (if number_in_base(base as int, acc, b.skip(i)) <= hi {
            Ok::<int, (int, crate::error::Error)>(number_in_base(base as int, acc, b.skip(i)))
        } else {
            Err((b.len() as int, crate::error::Error::IntegerOutOfBounds))
        }),
    decreases b.len() - i,
{
    let r = b.skip(i);
    if i == b.len() {
        assert(r.len() == 0);
    } else {
        assert(r[0] == b[i]);
        assert(r.drop_first() =~= b.skip(i + 1));
        if b[i] == 95 {
            lemma_based_digits(b, i + 1, acc, base, lo, hi);
        } else {
            assert(hex_digit_value(b[i]) is Some);
            let dv = hex_digit_value(b[i])->0;
            assert(hex_val(b[i]) == Some(dv as u8));
            let next = acc * base + dv;
            assert(acc * base >= 0) by (nonlinear_arith)
                requires
                    acc >= 0,
                    base >= 2,
            ;
            assert(digits_of_base(base as int, b.skip(i + 1))) by {
                assert forall|j: int| 0 <= j < b.skip(i + 1).len() implies #[trigger] b.skip(i + 1)[j] == 95 || (
                hex_digit_value(b.skip(i + 1)[j]) is Some && hex_digit_value(b.skip(i + 1)[j])->0 < base) by {
                    assert(b.skip(i + 1)[j] == b[i + 1 + j]);
                }
            }
            lemma_number_grows(base as int, next, b.skip(i + 1));
            if lo <= acc * base <= hi && next <= hi {
                lemma_based_digits(b, i + 1, next, base, lo, hi);
            }
        }
    }
}

/// An integer literal with a base prefix, `0x` hexadecimal, `0b` binary or
/// `0o` octal, reads as the number its digits spell in that base, with any
/// underscores after the first digit passed over: in the type the caller
/// asks for when it holds the number (for no particular type, the smallest
/// unsigned one), and out of bounds past the digits when it does not.
pub proof fn lemma_based_integer(mark: u8, d: Seq<u8>, rest: Seq<u8>, desire: DesireInteger)
    requires
        mark == 120 || mark == 98 || mark == 111,
        d.len() > 0,
        d[0] != 95,
        digits_of_base(base_of_mark(mark), d),
        ends_number(rest),
    ensures
        ({
            let v = number_in_base(base_of_mark(mark), 0, d);
            let max = if desire is Any { 18446744073709551615 } else { suffix_max(desire) };
            let n = d.len() + 2int;
            any_integer_scan(seq![48u8, mark] + d + rest, desire) == (if v <= max {
                Outcome::Done {
                    n,
                    value: if desire is Any { smallest_unsigned(v) } else { suffix_value(desire, v) },
                }
            } else {
                Outcome::Fail { n, err: ErrSpec::Plain(crate::error::Error::IntegerOutOfBounds) }
            })
        }),
{
    reveal(any_integer_scan);
    let base = base_of_mark(mark);
    let s = seq![48u8, mark] + d + rest;
    assert(s[0] == 48u8 && s[1] == mark);
    assert(s.skip(0) =~= s);
    assert(int_base(s) == base);
    let t = s.skip(2);
    assert(t =~= d + rest);
    assert forall|i: int| 0 <= i < d.len() implies in_class(CharClass::Int, #[trigger] d[i]) by {
        assert(d[i] == 95 || hex_digit_value(d[i]) is Some);
    }
    lemma_span_prefix(d, rest, CharClass::Int);
    assert(t[0] == d[0]);
    assert(hex_digit_value(d[0]) is Some);
    assert(t.take(d.len() as int) =~= d);
    assert(d.skip(0) =~= d);
    let lo = if desire is Any { 0 } else { kind_min(desire) };
    let hi = if desire is Any { 18446744073709551615 } else { kind_max(desire) };
    lemma_based_digits(d, 0, 0, base as u8, lo, hi);
    // No type suffix follows.
    if mark == 98 {
        let pd = seq![48u8, mark] + d;
        assert forall|i: int| 0 <= i < pd.len() implies in_class(CharClass::Int, #[trigger] pd[i]) by {
            if i >= 2 {
                assert(pd[i] == d[i - 2]);
            }
        }
        lemma_span_prefix(pd, rest, CharClass::Int);
        assert(s =~= pd + rest);
        if rest.len() > 0 {
            assert(s[d.len() + 2int] == rest[0]);
        }
    } else {
        lemma_span_prefix(seq![48u8], seq![mark] + d + rest, CharClass::Int);
        assert(s =~= seq![48u8] + (seq![mark] + d + rest));
    }
    if !(desire is Any) {
        assert(hi == suffix_max(desire) && lo == suffix_min(desire));
        let v = number_in_base(base, 0, d);
        assert(parsed_as(desire, v) == suffix_value(desire, v));
    }
}

/// A decimal integer literal with underscores between its digits reads as
/// the number its digits spell, the underscores counting for nothing: in
/// the type the caller asks for when it holds the number (for no
/// particular type, the smallest unsigned one), and out of bounds past the
/// literal when it does not.
pub proof fn lemma_decimal_underscores(d: Seq<u8>, rest: Seq<u8>, desire: DesireInteger)
    requires
        d.len() > 0,
        48 <= d[0] <= 57,
        digits_of_base(10, d),
        ends_number(rest),
    ensures
        ({
            let v = number_in_base(10, 0, d);
            let max = if desire is Any { 18446744073709551615 } else { suffix_max(desire) };
            let n = d.len() as int;
            any_integer_scan(d + rest, desire) == (if v <= max {
                Outcome::Done {
                    n,
                    value: if desire is Any { smallest_unsigned(v) } else { suffix_value(desire, v) },
                }
            } else {
                Outcome::Fail { n, err: ErrSpec::Plain(crate::error::Error::IntegerOutOfBounds) }
            })
        }),
{
    reveal(any_integer_scan);
    let s = d + rest;
    assert(s[0] == d[0]);
    assert(s.skip(0) =~= s);
    if d.len() > 1 {
        assert(s[1] == d[1]);
        assert(d[1] == 95 || hex_digit_value(d[1]) is Some);
    } else if rest.len() > 0 {
        assert(s[1] == rest[0]);
    }
    assert(int_base(s) == 10);
    assert forall|i: int| 0 <= i < d.len() implies in_class(CharClass::Int, #[trigger] d[i]) by {
        assert(d[i] == 95 || hex_digit_value(d[i]) is Some);
    }
    lemma_span_prefix(d, rest, CharClass::Int);
    assert(s.take(d.len() as int) =~= d);
    assert(d.skip(0) =~= d);
    let lo = if desire is Any { 0 } else { kind_min(desire) };
    let hi = if desire is Any { 18446744073709551615 } else { kind_max(desire) };
    lemma_based_digits(d, 0, 0, 10u8, lo, hi);
    if rest.len() > 0 {
        assert(s[d.len() as int] == rest[0]);
    }
    if !(desire is Any) {
        assert(hi == suffix_max(desire) && lo == suffix_min(desire));
        let v = number_in_base(10, 0, d);
        assert(parsed_as(desire, v) == suffix_value(desire, v));
    }
}

proof fn lemma_float_clean_digits(b: Seq<u8>, i: int, j: int, allow: bool)
    requires
        0 <= i <= j <= b.len(),
        forall|k: int| i <= k < j ==> 48 <= #[trigger] b[k] <= 57,
        i < j || allow,
        float_clean(b, j, true) is Ok,
    ensures
        float_clean(b, i, allow) == Ok::<Seq<u8>, int>(b.subrange(i, j) + float_clean(b, j, true)->Ok_0),
    decreases j - i,
{
    if i < j {
        lemma_float_clean_digits(b, i + 1, j, true);
        assert(seq![b[i]] + (b.subrange(i + 1, j) + float_clean(b, j, true)->Ok_0) =~= b.subrange(i, j)
            + float_clean(b, j, true)->Ok_0);
    } else {
        assert(b.subrange(i, j) + float_clean(b, j, true)->Ok_0 =~= float_clean(b, j, true)->Ok_0);
    }
}

/// Underscores may stand between the digits of a float: digits, `_`,
/// digits, a fraction, read as the same float with the underscore taken
/// out.
#[verifier::rlimit(30)]
pub proof fn lemma_float_underscore(a1: Seq<u8>, a2: Seq<u8>, b: Seq<u8>, rest: Seq<u8>, desire: DesireFloat)
    requires
        a1.len() > 0,
        a2.len() > 0,
        all_digits(a1),
        all_digits(a2),
        all_digits(b),
        ends_float(rest),
    ensures
        float_scan(a1 + seq![95u8] + a2 + seq![46u8] + b + rest, desire) == (Outcome::Done {
            n: (a1.len() + 1 + a2.len() + 1 + b.len()) as int,
            value: (a1 + a2 + seq![46u8] + b, desire),
        }),
{
    reveal(float_scan);
    reveal_strlit("f32");
    lemma_lit_ascii("f32");
    reveal_strlit("f64");
    lemma_lit_ascii("f64");
    let raw = a1 + seq![95u8] + a2 + seq![46u8] + b;
    let text = a1 + a2 + seq![46u8] + b;
    let s = raw + rest;
    assert(a1 + seq![95u8] + a2 + seq![46u8] + b + rest =~= s);
    assert(s[0] == a1[0]);
    lemma_no_special_float(s, desire, 0);
    let l1 = a1.len() as int;
    assert forall|i: int| 0 <= i < raw.len() implies in_class(CharClass::Float, #[trigger] raw[i]) by {
        if i < l1 {
            assert(raw[i] == a1[i]);
        } else if i == l1 {
        } else if i < l1 + 1 + a2.len() {
            assert(raw[i] == a2[i - l1 - 1]);
        } else if i == l1 + 1 + a2.len() {
        } else {
            assert(raw[i] == b[i - l1 - 2 - a2.len()]);
        }
    }
    lemma_span_prefix(raw, rest, CharClass::Float);
    let num = raw.len() as int;
    assert(s.take(num) =~= raw);
    assert forall|k: int| l1 + 1 <= k < raw.len() implies #[trigger] raw[k] != 95 by {
        if k < l1 + 1 + a2.len() {
            assert(raw[k] == a2[k - l1 - 1]);
        } else if k == l1 + 1 + a2.len() {
        } else {
            assert(raw[k] == b[k - l1 - 2 - a2.len()]);
        }
    }
    lemma_float_clean_plain(raw, l1 + 1, true);
    assert(raw[l1] == 95u8);
    assert(float_clean(raw, l1, true) == float_clean(raw, l1 + 1, true));
    assert forall|k: int| 0 <= k < l1 implies 48 <= #[trigger] raw[k] <= 57 by {
        assert(raw[k] == a1[k]);
    }
    lemma_float_clean_digits(raw, 0, l1, false);
    assert(raw.subrange(0, l1) + raw.skip(l1 + 1) =~= text);
    let r = a2 + seq![46u8] + b;
    assert(text =~= a1 + r);
    assert(r[0] == a2[0]);
    assert forall|i: int| 0 <= i < (a1 + a2).len() implies 48 <= #[trigger] (a1 + a2)[i] <= 57 by {
        if i < l1 {
            assert((a1 + a2)[i] == a1[i]);
        } else {
            assert((a1 + a2)[i] == a2[i - l1]);
        }
    }
    lemma_digit_run_prefix(a1 + a2, seq![46u8] + b);
    assert(text =~= (a1 + a2) + (seq![46u8] + b));
    assert(unsigned_part(text) == text);
    let f = seq![46u8] + b;
    assert(text.skip((a1 + a2).len() as int) =~= f);
    assert(f.skip(1) =~= b);
    lemma_digit_run_prefix(b, Seq::<u8>::empty());
    assert(b + Seq::<u8>::empty() =~= b);
    assert(f.skip(1 + b.len() as int) =~= Seq::<u8>::empty());
    assert(float_syntax(text));
    assert(s.skip(num) =~= rest);
    assert(!spec_ident_follows(rest, lit("f32"))) by {
        if starts_with(rest, lit("f32")) {
            assert(rest.take(3)[0] == rest[0]);
        }
    }
    assert(!spec_ident_follows(rest, lit("f64"))) by {
        if starts_with(rest, lit("f64")) {
            assert(rest.take(3)[0] == rest[0]);
        }
    }
}

} // verus!
