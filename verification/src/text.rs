//! Character and string primitives the rest of the crate is written against.
//!
//! Unicode property tables (alphabetic, numeric, case mappings) are large and
//! owned by the standard library; the crate does not restate them. Each one is
//! reached through a single trusted wrapper whose result is given a name, so
//! that every contract in the crate can speak of "the Unicode lowercase of `s`"
//! without pretending to know the table.
//!
//! UTF-8 itself is small enough to be stated exactly, and vstd already does so
//! (`encode_utf8`, `decode_utf8`, `valid_utf8`); the helpers here only connect
//! those definitions to byte offsets.

use vstd::prelude::*;
use vstd::utf8::*;

verus! {

broadcast use vstd::seq_lib::group_seq_properties;

/// Whether `c` has the Unicode `Alphabetic` property (`char::is_alphabetic`).
pub uninterp spec fn unicode_alphabetic(c: char) -> bool;

/// Whether `c` has the Unicode `Numeric` property (`char::is_numeric`).
pub uninterp spec fn unicode_numeric(c: char) -> bool;

/// Whether `c` has the Unicode `White_Space` property (`char::is_whitespace`).
pub uninterp spec fn unicode_whitespace(c: char) -> bool;

/// Whether `c` has the Unicode `Uppercase` property (`char::is_uppercase`).
pub uninterp spec fn unicode_uppercase(c: char) -> bool;

/// The full lowercase mapping of a single character (`char::to_lowercase`).
pub uninterp spec fn unicode_char_lower(c: char) -> Seq<char>;

/// The full uppercase mapping of a single character (`char::to_uppercase`).
pub uninterp spec fn unicode_char_upper(c: char) -> Seq<char>;

/// The lowercase of a whole string (`str::to_lowercase`), which is context
/// sensitive (final sigma) and therefore not a per-character map.
pub uninterp spec fn unicode_lower(s: Seq<char>) -> Seq<char>;

/// The message `std::str::Utf8Error` renders for invalid input `bytes`.
pub uninterp spec fn utf8_error_text(bytes: Seq<u8>) -> Seq<char>;

/// `char::is_alphabetic`: the result is the `Alphabetic` property of `c`.
#[verifier::external_body]
pub(crate) fn is_alphabetic(c: char) -> (r: bool)
    ensures
        r == unicode_alphabetic(c),
{
    c.is_alphabetic()
}

/// `char::is_numeric`: the result is the `Numeric` property of `c`.
#[verifier::external_body]
pub(crate) fn is_numeric(c: char) -> (r: bool)
    ensures
        r == unicode_numeric(c),
{
    c.is_numeric()
}

/// `char::is_whitespace`: the result is the `White_Space` property of `c`.
#[verifier::external_body]
pub(crate) fn is_whitespace(c: char) -> (r: bool)
    ensures
        r == unicode_whitespace(c),
{
    c.is_whitespace()
}

/// `char::is_uppercase`: the result is the `Uppercase` property of `c`.
#[verifier::external_body]
pub(crate) fn is_uppercase(c: char) -> (r: bool)
    ensures
        r == unicode_uppercase(c),
{
    c.is_uppercase()
}

/// `char::to_lowercase`, collected: the lowercase mapping of `c`, which the
/// documentation describes as one or more characters.
#[verifier::external_body]
pub(crate) fn char_to_lowercase(c: char) -> (r: String)
    ensures
        r@ == unicode_char_lower(c),
        r@.len() >= 1,
{
    c.to_lowercase().collect::<String>()
}

/// `char::to_uppercase`, collected: the uppercase mapping of `c`, one or more
/// characters.
#[verifier::external_body]
pub(crate) fn char_to_uppercase(c: char) -> (r: String)
    ensures
        r@ == unicode_char_upper(c),
        r@.len() >= 1,
{
    c.to_uppercase().collect::<String>()
}

/// `str::to_lowercase`: the lowercase of the whole string `s`.
#[verifier::external_body]
pub(crate) fn to_lowercase(s: &str) -> (r: String)
    ensures
        r@ == unicode_lower(s@),
{
    s.to_lowercase()
}

/// `std::str::from_utf8`: succeeds exactly on valid UTF-8 and then yields the
/// decoded characters; on failure the error is rendered to its message.
#[verifier::external_body]
pub(crate) fn utf8_decode(bytes: &[u8]) -> (r: Result<&str, String>)
    ensures
        r is Ok <==> valid_utf8(bytes@),
        r matches Ok(s) ==> s@ == decode_utf8(bytes@),
        r matches Err(m) ==> m@ == utf8_error_text(bytes@),
{
    match std::str::from_utf8(bytes) {
        Ok(s) => Ok(s),
        Err(e) => Err(e.to_string()),
    }
}

/// `String::push`: appends one character.
#[verifier::external_body]
pub(crate) fn push_char(s: &mut String, c: char)
    ensures
        final(s)@ == old(s)@.push(c),
{
    s.push(c);
}

/// `PartialEq for str`: two string slices are equal exactly when their
/// characters are.
#[verifier::external_body]
pub(crate) fn str_eq(a: &str, b: &str) -> (r: bool)
    ensures
        r == (a@ == b@),
{
    a == b
}

/// The characters of `s`, in order.
pub fn chars_of(s: &str) -> (r: Vec<char>)
    ensures
        r@ == s@,
{
    broadcast use vstd::string::group_string_axioms;
    let mut v: Vec<char> = Vec::new();
    for c in it: s.chars()
        invariant
            v@ == it.seq().take(it.index() as int),
    {
        v.push(c);
    }
    v
}

/// Whether `c` is an ASCII letter (`char::is_ascii_alphabetic`).
pub open spec fn ascii_alphabetic(c: char) -> bool {
    ('a' <= c && c <= 'z') || ('A' <= c && c <= 'Z')
}

/// Whether `c` is an ASCII letter.
pub fn is_ascii_alphabetic(c: char) -> (r: bool)
    ensures
        r == ascii_alphabetic(c),
{
    ('a' <= c && c <= 'z') || ('A' <= c && c <= 'Z')
}

/// Number of bytes in the UTF-8 encoding of `c` (`char::len_utf8`).
pub fn utf8_width(c: char) -> (r: usize)
    ensures
        r as int == encode_scalar(c as u32).len(),
        1 <= r <= 4,
{
    let v = c as u32;
    proof {
        char_is_scalar(c);
    }
    if v < 0x80 {
        1
    } else if v < 0x800 {
        2
    } else if v < 0x10000 {
        3
    } else {
        4
    }
}

/// UTF-8 encoding distributes over concatenation.
pub proof fn lemma_encode_concat(a: Seq<char>, b: Seq<char>)
    ensures
        encode_utf8(a + b) == encode_utf8(a) + encode_utf8(b),
    decreases a.len(),
{
    if a.len() == 0 {
        assert(a + b =~= b);
        assert(encode_utf8(a) =~= Seq::<u8>::empty());
        assert(encode_utf8(a) + encode_utf8(b) =~= encode_utf8(b));
    } else {
        assert((a + b).drop_first() =~= a.drop_first() + b);
        assert((a + b)[0] == a[0]);
        lemma_encode_concat(a.drop_first(), b);
        assert(encode_utf8(a + b) =~= encode_scalar(a[0] as u32) + encode_utf8(a.drop_first() + b));
        assert(encode_utf8(a) =~= encode_scalar(a[0] as u32) + encode_utf8(a.drop_first()));
    }
}

/// Encoding a prefix and then one more character.
pub proof fn lemma_encode_push(a: Seq<char>, c: char)
    ensures
        encode_utf8(a.push(c)) == encode_utf8(a) + encode_scalar(c as u32),
{
    lemma_encode_concat(a, seq![c]);
    assert(a + seq![c] =~= a.push(c));
    assert(encode_utf8(seq![c]) =~= encode_scalar(c as u32) + encode_utf8(seq![c].drop_first()));
    assert(encode_utf8(seq![c].drop_first()) =~= Seq::<u8>::empty()) by {
        assert(seq![c].drop_first() =~= Seq::<char>::empty());
    }
    assert(encode_scalar(c as u32) + Seq::<u8>::empty() =~= encode_scalar(c as u32));
}

/// The end of an encoded prefix is a character boundary of the whole encoding.
pub proof fn lemma_prefix_is_boundary(a: Seq<char>, b: Seq<char>)
    ensures
        valid_utf8(encode_utf8(a + b)),
        is_char_boundary(encode_utf8(a + b), encode_utf8(a).len() as int),
    decreases a.len(),
{
    encode_utf8_valid_utf8(a + b);
    if a.len() == 0 {
        assert(encode_utf8(a) =~= Seq::<u8>::empty());
    } else {
        let bytes = encode_utf8(a + b);
        lemma_prefix_is_boundary(a.drop_first(), b);
        assert((a + b).drop_first() =~= a.drop_first() + b);
        encode_utf8_first_scalar(a + b);
        assert(pop_first_scalar(bytes) =~= encode_utf8(a.drop_first() + b));
        assert(encode_utf8(a) =~= encode_scalar(a[0] as u32) + encode_utf8(a.drop_first()));
        assert((a + b)[0] == a[0]);
    }
}

/// Splitting an encoding at the boundary after the first `k` characters gives
/// back the encodings of the two parts.
pub proof fn lemma_encode_split(s: Seq<char>, k: int)
    requires
        0 <= k <= s.len(),
    ensures
        encode_utf8(s) == encode_utf8(s.take(k)) + encode_utf8(s.skip(k)),
        is_char_boundary(encode_utf8(s), encode_utf8(s.take(k)).len() as int),
        valid_utf8(encode_utf8(s)),
{
    assert(s.take(k) + s.skip(k) =~= s);
    lemma_encode_concat(s.take(k), s.skip(k));
    lemma_prefix_is_boundary(s.take(k), s.skip(k));
}

/// Decoding the bytes between two character offsets yields those characters.
pub proof fn lemma_decode_range(s: Seq<char>, i: int, j: int)
    requires
        0 <= i <= j <= s.len(),
    ensures
        valid_utf8(encode_utf8(s).subrange(
            encode_utf8(s.take(i)).len() as int,
            encode_utf8(s.take(j)).len() as int,
        )),
        decode_utf8(
            encode_utf8(s).subrange(
                encode_utf8(s.take(i)).len() as int,
                encode_utf8(s.take(j)).len() as int,
            ),
        ) == s.subrange(i, j),
        encode_utf8(s.take(i)).len() <= encode_utf8(s.take(j)).len() <= encode_utf8(s).len(),
        encode_utf8(s.take(j)).len() - encode_utf8(s.take(i)).len() == encode_utf8(
            s.subrange(i, j),
        ).len(),
{
    let mid = s.subrange(i, j);
    lemma_encode_concat(s.take(i), mid);
    assert(s.take(i) + mid =~= s.take(j));
    lemma_encode_split(s, j);
    let bi = encode_utf8(s.take(i)).len() as int;
    let bj = encode_utf8(s.take(j)).len() as int;
    assert(encode_utf8(s).subrange(bi, bj) =~= encode_utf8(mid));
    encode_utf8_valid_utf8(mid);
    encode_utf8_decode_utf8(mid);
}

} // verus!
