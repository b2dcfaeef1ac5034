//! Character and string primitives the lexer builds on.
//!
//! On ASCII, `char::is_alphabetic`, `char::is_numeric` and `str::to_uppercase`
//! are stated in full (std's source spells them out there in a line each).
//! Beyond ASCII the Unicode tables behind them are not restated: their results
//! are named, and the contracts of the library speak of those names.
use vstd::prelude::*;
use vstd::utf8::{encode_scalar, encode_utf8, is_ascii_chars};

verus! {

/// Whether the non-ASCII character `c` has the Unicode `Alphabetic` property.
pub uninterp spec fn unicode_alphabetic(c: char) -> bool;

/// Whether the non-ASCII character `c` lies in one of the Unicode general
/// categories for numbers.
pub uninterp spec fn unicode_numeric(c: char) -> bool;

/// The Unicode upper-case mapping of a string that is not all ASCII.
pub uninterp spec fn unicode_upper_case(s: Seq<char>) -> Seq<char>;

/// Whether `c` is an ASCII letter.
pub open spec fn ascii_letter(c: char) -> bool {
    ('a' <= c <= 'z') || ('A' <= c <= 'Z')
}

/// Whether `c` is an ASCII digit.
pub open spec fn ascii_digit(c: char) -> bool {
    '0' <= c <= '9'
}

/// What `char::is_alphabetic` returns: on ASCII, whether `c` is a letter.
pub open spec fn char_is_alphabetic(c: char) -> bool {
    if c <= '\u{7f}' {
        ascii_letter(c)
    } else {
        unicode_alphabetic(c)
    }
}

/// What `char::is_numeric` returns: on ASCII, whether `c` is a digit.
pub open spec fn char_is_numeric(c: char) -> bool {
    if c <= '\u{7f}' {
        ascii_digit(c)
    } else {
        unicode_numeric(c)
    }
}

/// The upper-case form of an ASCII character: a lower-case letter becomes its
/// capital, any other character stays.
pub open spec fn ascii_upper(c: char) -> char {
    if 'a' <= c <= 'z' {
        ((c as u32) - 32) as char
    } else {
        c
    }
}

/// What `str::to_uppercase` returns: on an all-ASCII string, each character
/// upper-cased in place.
pub open spec fn upper_case(s: Seq<char>) -> Seq<char> {
    if is_ascii_chars(s) {
        s.map_values(|c: char| ascii_upper(c))
    } else {
        unicode_upper_case(s)
    }
}

/// The number of bytes of the UTF-8 encoding of `s` (what `str::len` returns).
pub open spec fn byte_len(s: Seq<char>) -> nat {
    encode_utf8(s).len()
}

/// `char::is_alphabetic`: on ASCII, true exactly for `a`-`z` and `A`-`Z`
/// (std's source); beyond ASCII, the named `unicode_alphabetic(c)`.
#[verifier::external_body]
pub(crate) fn is_alphabetic(c: char) -> (r: bool)
    ensures
        r == (if c <= '\u{7f}' { ascii_letter(c) } else { unicode_alphabetic(c) }),
{
    c.is_alphabetic()
}

/// `char::is_numeric`: on ASCII, true exactly for `0`-`9` (std's source);
/// beyond ASCII, the named `unicode_numeric(c)`.
#[verifier::external_body]
pub(crate) fn is_numeric(c: char) -> (r: bool)
    ensures
        r == (if c <= '\u{7f}' { ascii_digit(c) } else { unicode_numeric(c) }),
{
    c.is_numeric()
}

/// `char::is_alphanumeric`, which std documents as "`is_alphabetic()` or
/// `is_numeric()`".
pub(crate) fn is_alphanumeric(c: char) -> (r: bool)
    ensures
        r == (char_is_alphabetic(c) || char_is_numeric(c)),
{
    is_alphabetic(c) || is_numeric(c)
}

/// `str::to_uppercase`: on an all-ASCII string, each lower-case letter replaced
/// by its capital and every other character kept (std's source); otherwise the
/// named `unicode_upper_case(s@)`.
#[verifier::external_body]
pub(crate) fn to_uppercase(s: &str) -> (r: String)
    ensures
        r@ == (if is_ascii_chars(s@) {
            s@.map_values(|c: char| ascii_upper(c))
        } else {
            unicode_upper_case(s@)
        }),
{
    s.to_uppercase()
}

/// `char::to_string`: a string that holds exactly `c`.
#[verifier::external_body]
pub(crate) fn char_to_string(c: char) -> (r: String)
    ensures
        r@ == seq![c],
{
    c.to_string()
}

/// `String::push`: appends `c` at the end of `s`.
#[verifier::external_body]
pub(crate) fn push_char(s: &mut String, c: char)
    ensures
        final(s)@ == old(s)@.push(c),
{
    s.push(c)
}

/// The characters of `s`, in order.
pub(crate) fn chars_of(s: &str) -> (v: Vec<char>)
    ensures
        v@ == s@,
{
    let mut v: Vec<char> = Vec::new();
    for c in it: s.chars()
        invariant
            v@ == it.seq().take(it.index() as int),
    {
        v.push(c);
    }
    v
}

/// The encoding of a concatenation is the concatenation of the encodings.
pub proof fn lemma_byte_len_concat(a: Seq<char>, b: Seq<char>)
    ensures
        byte_len(a + b) == byte_len(a) + byte_len(b),
    decreases a.len(),
{
    if a.len() == 0 {
        assert(a + b =~= b);
    } else {
        lemma_byte_len_concat(a.drop_first(), b);
        assert((a + b).drop_first() =~= a.drop_first() + b);
        assert((a + b)[0] == a[0]);
    }
}

/// One character takes between one and four bytes, and one byte when it is ASCII.
pub proof fn lemma_byte_len_char(c: char)
    ensures
        1 <= byte_len(seq![c]) <= 4,
        (c as u32) < 0x80 ==> byte_len(seq![c]) == 1,
{
    let e = Seq::<char>::empty();
    assert(seq![c].drop_first() =~= e);
    assert(seq![c][0] == c);
    assert(encode_utf8(e).len() == 0);
    let scalar = encode_scalar(c as u32);
    assert(1 <= scalar.len() <= 4);
    assert((c as u32) < 0x80 ==> scalar.len() == 1);
    assert(encode_utf8(seq![c]) == scalar + encode_utf8(e));
}

/// A string never has fewer bytes than characters, nor more than four bytes per character.
pub proof fn lemma_byte_len_bounds(s: Seq<char>)
    ensures
        s.len() <= byte_len(s) <= 4 * s.len(),
    decreases s.len(),
{
    if s.len() > 0 {
        lemma_byte_len_bounds(s.drop_first());
        lemma_byte_len_char(s[0]);
        assert(seq![s[0]] + s.drop_first() =~= s);
        lemma_byte_len_concat(seq![s[0]], s.drop_first());
    }
}

/// A slice of a string has no more bytes than the string.
pub proof fn lemma_byte_len_subrange(s: Seq<char>, i: int, j: int)
    requires
        0 <= i <= j <= s.len(),
    ensures
        byte_len(s.subrange(i, j)) <= byte_len(s),
{
    assert(s =~= s.subrange(0, i) + s.subrange(i, j) + s.subrange(j, s.len() as int));
    lemma_byte_len_concat(s.subrange(0, i) + s.subrange(i, j), s.subrange(j, s.len() as int));
    lemma_byte_len_concat(s.subrange(0, i), s.subrange(i, j));
}

} // verus!
