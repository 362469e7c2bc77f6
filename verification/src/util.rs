//! Small helpers on byte slices and text.

use vstd::prelude::*;
use vstd::string::StringSliceAdditionalSpecFns;
use vstd::utf8::*;

verus! {

/// Whether two byte slices hold the same bytes.
pub fn bytes_eq(a: &[u8], b: &[u8]) -> (r: bool)
    ensures
        r == (a@ == b@),
{
    if a.len() != b.len() {
        return false;
    }
    let mut i: usize = 0;
    while i < a.len()
        invariant
            a@.len() == b@.len(),
            i <= a@.len(),
            forall|j: int| 0 <= j < i ==> a@[j] == b@[j],
        decreases a@.len() - i,
    {
        if a[i] != b[i] {
            return false;
        }
        i = i + 1;
    }
    assert(a@ =~= b@);
    true
}

/// Whether two strings hold the same characters.
pub fn str_eq(a: &str, b: &str) -> (r: bool)
    ensures
        r == (a@ == b@),
{
    let r = bytes_eq(a.as_bytes(), b.as_bytes());
    proof {
        encode_utf8_decode_utf8(a@);
        encode_utf8_decode_utf8(b@);
    }
    r
}

/// The decimal digits of `n`, most significant first, without leading
/// zeros.
pub open spec fn decimal(n: nat) -> Seq<u8>
    decreases n,
{
    if n < 10 {
        seq![(48 + n) as u8]
    } else {
        decimal(n / 10).push((48 + n % 10) as u8)
    }
}

/// `v` written in decimal, with a `-` in front when it is negative.
pub open spec fn signed_decimal(v: int) -> Seq<u8> {
    if v < 0 {
        seq![45u8] + decimal((-v) as nat)
    } else {
        decimal(v as nat)
    }
}

/// The bytes of `s` read as ASCII characters.
pub open spec fn ascii_chars(s: Seq<u8>) -> Seq<char> {
    s.map_values(|b: u8| b as char)
}

/// Whether every byte of `s` is ASCII.
pub open spec fn all_ascii(s: Seq<u8>) -> bool {
    forall|i: int| 0 <= i < s.len() ==> #[trigger] s[i] < 128
}

/// Decimal digits are ASCII digits.
pub proof fn lemma_decimal_digits(n: nat)
    ensures
        decimal(n).len() >= 1,
        forall|i: int| 0 <= i < decimal(n).len() ==> 48 <= #[trigger] decimal(n)[i] <= 57,
    decreases n,
{
    if n >= 10 {
        lemma_decimal_digits(n / 10);
    }
}

/// ASCII bytes are valid UTF-8, and encode the characters they name.
pub proof fn lemma_ascii_utf8(s: Seq<u8>)
    requires
        all_ascii(s),
    ensures
        valid_utf8(s),
        decode_utf8(s) == ascii_chars(s),
{
    let chars = ascii_chars(s);
    assert(is_ascii_chars(chars));
    is_ascii_chars_encode_utf8(chars);
    assert(encode_utf8(chars) =~= s);
    encode_utf8_valid_utf8(chars);
    encode_utf8_decode_utf8(chars);
}

/// The bytes of a string of ASCII characters are those characters, one
/// byte each.
pub proof fn lemma_lit_ascii(s: &str)
    requires
        is_ascii_chars(s@),
    ensures
        s.spec_bytes() == s@.map_values(|c: char| c as u8),
        s.spec_bytes().len() == s@.len(),
        all_ascii(s.spec_bytes()),
{
    is_ascii_chars_encode_utf8(s@);
    assert(s.spec_bytes() =~= s@.map_values(|c: char| c as u8));
}

/// ASCII bytes read as characters encode back into the same bytes.
pub proof fn lemma_ascii_encode(s: Seq<u8>)
    requires
        all_ascii(s),
    ensures
        encode_utf8(ascii_chars(s)) == s,
{
    let chars = ascii_chars(s);
    assert(is_ascii_chars(chars));
    is_ascii_chars_encode_utf8(chars);
    assert(encode_utf8(chars) =~= s);
}

/// Appends the decimal digits of `n` to `out`.
pub fn push_decimal(out: &mut Vec<u8>, n: u64)
    ensures
        final(out)@ == old(out)@ + decimal(n as nat),
    decreases n,
{
    if n >= 10 {
        push_decimal(out, n / 10);
    }
    out.push(48u8 + (n % 10) as u8);
    proof {
        if n >= 10 {
            assert(old(out)@ + decimal(n as nat) =~= (old(out)@ + decimal((n / 10) as nat)).push(
                (48 + n % 10) as u8,
            ));
        } else {
            assert(old(out)@ + decimal(n as nat) =~= old(out)@.push((48 + n % 10) as u8));
        }
    }
}

/// Appends `v` in decimal to `out`, with a `-` in front when negative.
pub fn push_signed_decimal(out: &mut Vec<u8>, v: i64)
    ensures
        final(out)@ == old(out)@ + signed_decimal(v as int),
{
    if v < 0 {
        out.push(45u8);
        let m: u64 = ((-(v + 1)) as u64) + 1;
        assert(m == -v);
        push_decimal(out, m);
        assert(old(out)@ + signed_decimal(v as int) =~= old(out)@.push(45u8) + decimal(m as nat));
    } else {
        push_decimal(out, v as u64);
    }
}

/// `core::str::from_utf8`: per its documentation, it succeeds exactly when
/// the bytes are valid UTF-8, and then yields the string they encode.
#[verifier::external_body]
pub(crate) fn str_from_utf8<'b>(v: &'b [u8]) -> (r: Result<&'b str, core::str::Utf8Error>)
    ensures
        r is Ok <==> valid_utf8(v@),
        r matches Ok(s) ==> s@ == decode_utf8(v@),
{
    core::str::from_utf8(v)
}

/// The string of the ASCII bytes `v`.
pub fn ascii_string(v: &[u8]) -> (s: String)
    requires
        all_ascii(v@),
    ensures
        s@ == ascii_chars(v@),
{
    proof {
        lemma_ascii_utf8(v@);
    }
    match str_from_utf8(v) {
        Ok(t) => t.to_owned(),
        Err(_) => {
            proof {
                assert(false);
            }
            String::new()
        },
    }
}

/// `n` in decimal, as a string.
pub fn decimal_string(n: u64) -> (s: String)
    ensures
        s@ == ascii_chars(decimal(n as nat)),
{
    let mut digits: Vec<u8> = Vec::new();
    push_decimal(&mut digits, n);
    proof {
        assert(digits@ =~= decimal(n as nat));
        lemma_decimal_digits(n as nat);
    }
    ascii_string(digits.as_slice())
}

/// `v` in decimal, with a `-` in front when negative, as a string.
pub fn signed_decimal_string(v: i64) -> (s: String)
    ensures
        s@ == ascii_chars(signed_decimal(v as int)),
{
    let mut digits: Vec<u8> = Vec::new();
    push_signed_decimal(&mut digits, v);
    proof {
        assert(digits@ =~= signed_decimal(v as int));
        lemma_decimal_digits(if v < 0 { (-v) as nat } else { v as nat });
        assert forall|i: int| 0 <= i < digits@.len() implies #[trigger] digits@[i] < 128 by {
            if v < 0 && i > 0 {
                assert(digits@[i] == decimal((-v) as nat)[i - 1]);
            }
        }
    }
    ascii_string(digits.as_slice())
}

/// `String::push`: appends one character to the string.
#[verifier::external_body]
pub(crate) fn string_push(s: &mut String, c: char)
    ensures
        final(s)@ == old(s)@.push(c),
{
    s.push(c);
}

} // verus!
