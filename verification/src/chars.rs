//! Character classification and the byte-offset arithmetic behind spans.
//!
//! Spans are measured in byte offsets into the UTF-8 encoding of the source,
//! while the scanner walks the source one `char` at a time.  This module ties
//! the two together: `byte_of` gives the byte offset of a char position, and
//! `lemma_span_addresses_text` shows that the byte interval of a char range
//! addresses exactly the UTF-8 encoding of those chars.

use vstd::prelude::*;

verus! {

use vstd::string::StrSliceExecFns;
use vstd::utf8::encode_scalar;
use vstd::utf8::encode_utf8;

/// Whether `c` has the Unicode `White_Space` property, as `char::is_whitespace`
/// decides it.
pub uninterp spec fn char_is_whitespace(c: char) -> bool;

/// Whether `c` counts as numeric, as `char::is_numeric` decides it (a Unicode
/// `Numeric_Type` of `Decimal`, `Digit` or `Numeric`).
pub uninterp spec fn char_is_numeric(c: char) -> bool;

/// Relies on `char::is_whitespace`: a property of `c` alone (the Unicode
/// `White_Space` property).  Among ASCII characters it holds exactly of space,
/// tab, line feed, vertical tab, form feed and carriage return.
#[verifier::external_body]
pub fn is_whitespace_char(c: char) -> (r: bool)
    ensures
        r == char_is_whitespace(c),
        (c as u32) < 128 ==> r == (c == ' ' || c == '\t' || c == '\n' || c == '\u{0b}'
            || c == '\u{0c}' || c == '\r'),
{
    c.is_whitespace()
}

/// Relies on `char::is_numeric`: a property of `c` alone (a Unicode
/// `Numeric_Type` of `Decimal`, `Digit` or `Numeric`).  Among ASCII characters
/// it holds exactly of the ten decimal digits.
#[verifier::external_body]
pub fn is_numeric_char(c: char) -> (r: bool)
    ensures
        r == char_is_numeric(c),
        (c as u32) < 128 ==> r == (48 <= c as u32 && c as u32 <= 57),
{
    c.is_numeric()
}

/// A Unicode scalar value: what a `char` can hold.
pub open spec fn is_unicode_scalar(v: int) -> bool {
    0 <= v < 0x110000 && !(0xD800 <= v <= 0xDFFF)
}

/// Relies on `char::from_u32`: `Some` exactly for the Unicode scalar values,
/// and the returned char carries the value `v`.
#[verifier::external_body]
pub fn char_from_u32(v: u32) -> (r: Option<char>)
    ensures
        r is Some <==> is_unicode_scalar(v as int),
        r matches Some(c) ==> c as u32 == v,
{
    char::from_u32(v)
}

/// How many bytes the UTF-8 encoding of `c` takes.
pub open spec fn char_len(c: char) -> int {
    encode_scalar(c as u32).len() as int
}

/// The length in bytes of the UTF-8 encoding of `s`.
pub open spec fn byte_len(s: Seq<char>) -> int {
    encode_utf8(s).len() as int
}

/// The byte offset of char position `i` of `s` in the UTF-8 encoding of `s`.
pub open spec fn byte_of(s: Seq<char>, i: int) -> int {
    byte_len(s.take(i))
}

pub proof fn lemma_char_len_bounds(c: char)
    ensures
        1 <= char_len(c) <= 4,
{
    vstd::utf8::char_is_scalar(c);
}

/// The number of bytes `c` encodes to, computed from the scalar value ranges
/// that each UTF-8 width covers.
pub fn utf8_len(c: char) -> (n: usize)
    ensures
        n == char_len(c),
        1 <= n <= 4,
{
    proof {
        vstd::utf8::char_is_scalar(c);
    }
    let u = c as u32;
    if u < 0x80 {
        1
    } else if u < 0x800 {
        2
    } else if u < 0x10000 {
        3
    } else {
        4
    }
}

pub proof fn lemma_encode_push(s: Seq<char>, c: char)
    ensures
        encode_utf8(s.push(c)) == encode_utf8(s) + encode_scalar(c as u32),
    decreases s.len(),
{
    if s.len() == 0 {
        assert(s.push(c)[0] == c);
        assert(s.push(c).drop_first() =~= Seq::<char>::empty());
        assert(encode_utf8(s.push(c)) == encode_scalar(c as u32) + encode_utf8(
            s.push(c).drop_first(),
        ));
        assert(encode_utf8(s.push(c)) =~= encode_utf8(s) + encode_scalar(c as u32));
    } else {
        assert(s.push(c).drop_first() =~= s.drop_first().push(c));
        lemma_encode_push(s.drop_first(), c);
        assert(encode_utf8(s.push(c)) =~= encode_utf8(s) + encode_scalar(c as u32));
    }
}

pub proof fn lemma_encode_concat(a: Seq<char>, b: Seq<char>)
    ensures
        encode_utf8(a + b) == encode_utf8(a) + encode_utf8(b),
    decreases a.len(),
{
    if a.len() == 0 {
        assert(a + b =~= b);
        assert(encode_utf8(a) + encode_utf8(b) =~= encode_utf8(b));
    } else {
        assert((a + b).drop_first() =~= a.drop_first() + b);
        lemma_encode_concat(a.drop_first(), b);
        assert((a + b)[0] == a[0]);
        assert(encode_utf8(a + b) =~= encode_utf8(a) + encode_utf8(b));
    }
}

pub proof fn lemma_byte_of_step(s: Seq<char>, i: int)
    requires
        0 <= i < s.len(),
    ensures
        byte_of(s, i + 1) == byte_of(s, i) + char_len(s[i]),
{
    assert(s.take(i + 1) =~= s.take(i).push(s[i]));
    lemma_encode_push(s.take(i), s[i]);
}

pub proof fn lemma_byte_of_mono(s: Seq<char>, i: int, j: int)
    requires
        0 <= i <= j <= s.len(),
    ensures
        byte_of(s, i) <= byte_of(s, j),
        i < j ==> byte_of(s, i) < byte_of(s, j),
    decreases j - i,
{
    if i < j {
        lemma_byte_of_step(s, j - 1);
        lemma_char_len_bounds(s[j - 1]);
        lemma_byte_of_mono(s, i, j - 1);
    }
}

pub proof fn lemma_byte_of_whole(s: Seq<char>)
    ensures
        byte_of(s, s.len() as int) == byte_len(s),
{
    assert(s.take(s.len() as int) =~= s);
}

/// Span fidelity, stated over the byte arithmetic: the bytes of the source
/// addressed by the byte-offset interval of a char range `[i, j)` are exactly
/// the UTF-8 encoding of the chars in that range.  Every token the scanner
/// emits carries the text `s.subrange(i, j)` of some char range together with
/// the span `[byte_of(s, i), byte_of(s, j))`, so by this lemma the source
/// substring its span addresses equals its carried text.
pub proof fn lemma_span_addresses_text(s: Seq<char>, i: int, j: int)
    requires
        0 <= i <= j <= s.len(),
    ensures
        encode_utf8(s).subrange(byte_of(s, i), byte_of(s, j)) == encode_utf8(s.subrange(i, j)),
{
    let a = s.take(i);
    let m = s.subrange(i, j);
    let z = s.skip(j);
    assert(s =~= (a + m) + z);
    lemma_encode_concat(a + m, z);
    lemma_encode_concat(a, m);
    lemma_byte_of_mono(s, i, j);
    lemma_byte_of_mono(s, j, s.len() as int);
    lemma_byte_of_whole(s);
    assert(s.take(j) =~= a + m);
    assert(encode_utf8(s).subrange(byte_of(s, i), byte_of(s, j)) =~= encode_utf8(m));
}

/// Whether the views of two string slices are equal, decided char by char.
pub fn str_eq(a: &str, b: &str) -> (r: bool)
    ensures
        r == (a@ == b@),
{
    let n = a.unicode_len();
    let m = b.unicode_len();
    if n != m {
        return false;
    }
    let mut i: usize = 0;
    while i < n
        invariant
            n == a@.len(),
            n == b@.len(),
            0 <= i <= n,
            forall|k: int| 0 <= k < i ==> a@[k] == b@[k],
        decreases n - i,
    {
        if a.get_char(i) != b.get_char(i) {
            return false;
        }
        i += 1;
    }
    proof {
        assert(a@ =~= b@);
    }
    true
}

/// Relies on `String::push`: appends exactly the one character `c` to `s`.
#[verifier::external_body]
pub fn push_char(s: &mut String, c: char)
    ensures
        final(s)@ == old(s)@.push(c),
{
    s.push(c);
}

} // verus!
