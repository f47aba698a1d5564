//! Macedonian-aware tokenizer.
//!
//! Splits text into words, numbers and punctuation while keeping the
//! apostrophe and hyphen attached when they sit *between* letters, so that
//! `к'смет`, `црно-бел`, `д-р` and `1-ви` survive as single tokens.

use vstd::prelude::*;
use vstd::string::StringSliceAdditionalSpecFns;
use vstd::utf8::{decode_utf8, encode_utf8, encode_utf8_decode_utf8, is_char_boundary};
use crate::alphabet::{is_word_internal, word_internal, is_apostrophe, apostrophe};
use crate::text::{
    chars_of, is_alphabetic, is_numeric, is_whitespace, lemma_decode_range, lemma_encode_split,
    unicode_alphabetic, unicode_numeric, unicode_whitespace, utf8_width, lemma_encode_push,
};

verus! {

/// What kind of thing a token is.
#[derive(Debug, Clone, Copy, PartialEq, Eq, Structural)]
pub enum TokenKind {
    /// Contains at least one letter.
    Word,
    /// Digits only (possibly with internal separators).
    Number,
    /// Everything else that is not whitespace.
    Punct,
}

/// A single token, carrying both byte and character offsets.
///
/// Byte offsets index back into the original `&str`; character offsets are what
/// the JavaScript side needs to position a highlight. Macedonian Cyrillic lives
/// entirely in the Basic Multilingual Plane, so character offsets and JavaScript
/// UTF-16 offsets coincide for all-Macedonian text.
#[derive(Debug, Clone, PartialEq, Eq)]
pub struct Token<'a> {
    pub text: &'a str,
    pub byte_start: usize,
    pub byte_end: usize,
    pub char_start: usize,
    pub char_end: usize,
    pub kind: TokenKind,
}

/// What a token says: its text, its character span and its kind.
pub struct TokenView {
    pub text: Seq<char>,
    pub start: int,
    pub end: int,
    pub kind: TokenKind,
}

impl<'a> View for Token<'a> {
    type V = TokenView;

    open spec fn view(&self) -> TokenView {
        TokenView {
            text: self.text@,
            start: self.char_start as int,
            end: self.char_end as int,
            kind: self.kind,
        }
    }
}

/// The views of a sequence of tokens.
pub open spec fn token_views(toks: Seq<Token>) -> Seq<TokenView> {
    toks.map_values(|t: Token| t@)
}

/// What the tokens of `text` say, span by span.
pub open spec fn spans_of(text: Seq<char>, spans: Seq<TokenSpan>) -> Seq<TokenView> {
    spans.map_values(
        |s: TokenSpan| TokenView { text: text.subrange(s.start, s.end), start: s.start, end: s.end, kind: s.kind },
    )
}

/// The tokens of `text`, as what each says.
pub open spec fn token_views_of(text: Seq<char>) -> Seq<TokenView> {
    spans_of(text, tokens_of(text))
}

/// A letter or a digit.
pub open spec fn alnum(c: char) -> bool {
    unicode_alphabetic(c) || unicode_numeric(c)
}

/// End of a word or number that continues at `j`: letters and digits, plus a
/// word-internal separator when a letter or digit follows it.
pub open spec fn scan_word(s: Seq<char>, j: int) -> int
    decreases s.len() - j,
{
    if j < 0 || j >= s.len() {
        j
    } else if alnum(s[j]) {
        scan_word(s, j + 1)
    } else if word_internal(s[j]) && j + 1 < s.len() && alnum(s[j + 1]) {
        scan_word(s, j + 1)
    } else {
        j
    }
}

/// End of a word that began with an apostrophe and continues at `j`: as
/// `scan_word`, but a separator must be followed by a letter.
pub open spec fn scan_apostrophe_word(s: Seq<char>, j: int) -> int
    decreases s.len() - j,
{
    if j < 0 || j >= s.len() {
        j
    } else if alnum(s[j]) {
        scan_apostrophe_word(s, j + 1)
    } else if word_internal(s[j]) && j + 1 < s.len() && unicode_alphabetic(s[j + 1]) {
        scan_apostrophe_word(s, j + 1)
    } else {
        j
    }
}

/// Some character of `s[i..j]` is a letter.
pub open spec fn has_letter(s: Seq<char>, i: int, j: int) -> bool {
    exists|k: int| i <= k < j && unicode_alphabetic(s[k])
}

/// A token as character offsets and kind.
pub struct TokenSpan {
    pub start: int,
    pub end: int,
    pub kind: TokenKind,
}

/// The tokens of `s` from character position `i` on.
pub open spec fn tokens_from(s: Seq<char>, i: int) -> Seq<TokenSpan>
    decreases s.len() - i,
{
    if i < 0 || i >= s.len() {
        Seq::empty()
    } else if unicode_whitespace(s[i]) {
        tokens_from(s, i + 1)
    } else if alnum(s[i]) {
        let j = scan_word(s, i);
        let kind = if has_letter(s, i, j) {
            TokenKind::Word
        } else {
            TokenKind::Number
        };
        if i < j <= s.len() {
            seq![TokenSpan { start: i, end: j, kind }] + tokens_from(s, j)
        } else {
            Seq::empty()
        }
    } else if apostrophe(s[i]) && i + 1 < s.len() && unicode_alphabetic(s[i + 1]) {
        let j = scan_apostrophe_word(s, i + 1);
        if i < j <= s.len() {
            seq![TokenSpan { start: i, end: j, kind: TokenKind::Word }] + tokens_from(s, j)
        } else {
            Seq::empty()
        }
    } else {
        seq![TokenSpan { start: i, end: i + 1, kind: TokenKind::Punct }] + tokens_from(s, i + 1)
    }
}

/// The tokens of the whole of `s`.
pub open spec fn tokens_of(s: Seq<char>) -> Seq<TokenSpan> {
    tokens_from(s, 0)
}

/// Byte offset of character position `k` in `s`.
pub open spec fn byte_offset(s: Seq<char>, k: int) -> int {
    encode_utf8(s.take(k)).len() as int
}

/// `t` is the token `span` of `text`: same offsets and kind, and its text is
/// the corresponding slice.
pub open spec fn token_is(text: Seq<char>, t: Token, span: TokenSpan) -> bool {
    &&& t.char_start == span.start
    &&& t.char_end == span.end
    &&& t.kind == span.kind
    &&& t.text@ == text.subrange(span.start, span.end)
    &&& t.byte_start == byte_offset(text, span.start)
    &&& t.byte_end == byte_offset(text, span.end)
}

/// `toks` are exactly the spans `spans` of `text`.
pub open spec fn tokens_are(text: Seq<char>, toks: Seq<Token>, spans: Seq<TokenSpan>) -> bool {
    &&& toks.len() == spans.len()
    &&& forall|k: int| 0 <= k < toks.len() ==> #[trigger] token_is(text, toks[k], spans[k])
}

proof fn lemma_scan_word_bounds(s: Seq<char>, j: int)
    requires
        0 <= j <= s.len(),
    ensures
        j <= scan_word(s, j) <= s.len(),
    decreases s.len() - j,
{
    if j < s.len() {
        if alnum(s[j]) || (word_internal(s[j]) && j + 1 < s.len() && alnum(s[j + 1])) {
            lemma_scan_word_bounds(s, j + 1);
        }
    }
}

proof fn lemma_scan_apostrophe_bounds(s: Seq<char>, j: int)
    requires
        0 <= j <= s.len(),
    ensures
        j <= scan_apostrophe_word(s, j) <= s.len(),
    decreases s.len() - j,
{
    if j < s.len() {
        if alnum(s[j]) || (word_internal(s[j]) && j + 1 < s.len() && unicode_alphabetic(
            s[j + 1],
        )) {
            lemma_scan_apostrophe_bounds(s, j + 1);
        }
    }
}

proof fn lemma_tokens_push(
    s: Seq<char>,
    toks: Seq<Token>,
    spans: Seq<TokenSpan>,
    t: Token,
    span: TokenSpan,
)
    requires
        tokens_are(s, toks, spans),
        token_is(s, t, span),
    ensures
        tokens_are(s, toks.push(t), spans.push(span)),
{
    assert forall|k: int| 0 <= k < toks.len() + 1 implies #[trigger] token_is(
        s,
        toks.push(t)[k],
        spans.push(span)[k],
    ) by {
        if k < toks.len() {
            assert(toks.push(t)[k] == toks[k]);
            assert(spans.push(span)[k] == spans[k]);
        }
    }
}

/// Whether the word scanned by `scan_word` goes on at position `j`.
fn continues_word(chars: &Vec<char>, j: usize) -> (r: bool)
    ensures
        r == (j < chars@.len() && (alnum(chars@[j as int]) || (word_internal(chars@[j as int])
            && j + 1 < chars@.len() && alnum(chars@[j + 1])))),
{
    if j >= chars.len() {
        return false;
    }
    let cj = chars[j];
    if is_alphabetic(cj) || is_numeric(cj) {
        return true;
    }
    is_word_internal(cj) && j + 1 < chars.len() && (is_alphabetic(chars[j + 1]) || is_numeric(
        chars[j + 1],
    ))
}

/// Whether the word scanned by `scan_apostrophe_word` goes on at position `j`.
fn continues_apostrophe_word(chars: &Vec<char>, j: usize) -> (r: bool)
    ensures
        r == (j < chars@.len() && (alnum(chars@[j as int]) || (word_internal(chars@[j as int])
            && j + 1 < chars@.len() && unicode_alphabetic(chars@[j + 1])))),
{
    if j >= chars.len() {
        return false;
    }
    let cj = chars[j];
    if is_alphabetic(cj) || is_numeric(cj) {
        return true;
    }
    is_word_internal(cj) && j + 1 < chars.len() && is_alphabetic(chars[j + 1])
}

/// Byte offsets of every character position of `text`, plus the end.
fn byte_offsets(text: &str, chars: &Vec<char>) -> (r: Vec<usize>)
    requires
        chars@ == text@,
    ensures
        r@.len() == chars@.len() + 1,
        forall|k: int| 0 <= k <= chars@.len() ==> r@[k] == byte_offset(text@, k),
{
    let total = text.as_bytes().len();
    let n = chars.len();
    let mut offs: Vec<usize> = Vec::new();
    offs.push(0);
    let mut acc: usize = 0;
    let mut k: usize = 0;
    proof {
        assert(text@.take(0) =~= Seq::<char>::empty());
        assert(encode_utf8(Seq::<char>::empty()) =~= Seq::<u8>::empty());
    }
    while k < n
        invariant
            0 <= k <= n,
            n == chars@.len(),
            chars@ == text@,
            total == encode_utf8(text@).len(),
            offs@.len() == k + 1,
            acc == byte_offset(text@, k as int),
            forall|m: int| 0 <= m <= k ==> offs@[m] == byte_offset(text@, m),
        decreases n - k,
    {
        let w = utf8_width(chars[k]);
        proof {
            assert(text@.take(k + 1) =~= text@.take(k as int).push(chars@[k as int]));
            lemma_encode_push(text@.take(k as int), chars@[k as int]);
            lemma_encode_split(text@, k + 1);
        }
        acc = acc + w;
        offs.push(acc);
        k = k + 1;
    }
    offs
}

/// The slice of `text` between two character positions, given their byte offsets.
fn slice_chars<'a>(text: &'a str, i: usize, j: usize, bi: usize, bj: usize) -> (r: &'a str)
    requires
        0 <= i <= j <= text@.len(),
        bi == byte_offset(text@, i as int),
        bj == byte_offset(text@, j as int),
    ensures
        r@ == text@.subrange(i as int, j as int),
{
    let ghost s = text@;
    proof {
        lemma_encode_split(s, i as int);
        lemma_decode_range(s, i as int, j as int);
        lemma_decode_range(s, i as int, s.len() as int);
        assert(s.take(s.len() as int) =~= s);
    }
    let (_, rest) = text.split_at(bi);
    proof {
        // rest holds the characters from position i on.
        encode_utf8_decode_utf8(rest@);
        assert(rest@ == s.subrange(i as int, s.len() as int));
        let t = s.subrange(i as int, s.len() as int);
        lemma_encode_split(t, (j - i) as int);
        lemma_decode_range(s, i as int, j as int);
        assert(t.take((j - i) as int) =~= s.subrange(i as int, j as int));
    }
    let (mid, _) = rest.split_at(bj - bi);
    proof {
        encode_utf8_decode_utf8(mid@);
        assert(mid.spec_bytes() =~= encode_utf8(s).subrange(bi as int, bj as int));
    }
    mid
}

/// Tokenize `text`, skipping whitespace.
pub fn tokenize(text: &str) -> (r: Vec<Token<'_>>)
    ensures
        tokens_are(text@, r@, tokens_of(text@)),
        token_views(r@) == token_views_of(text@),
{
    let chars = chars_of(text);
    let offs = byte_offsets(text, &chars);
    let n = chars.len();
    let ghost s = text@;
    let mut tokens: Vec<Token<'_>> = Vec::new();
    let ghost mut spans: Seq<TokenSpan> = Seq::empty();
    let mut i: usize = 0;
    while i < n
        invariant
            0 <= i <= n,
            n == s.len(),
            s == text@,
            chars@ == s,
            offs@.len() == n + 1,
            forall|k: int| 0 <= k <= n ==> offs@[k] == byte_offset(s, k),
            tokens_are(s, tokens@, spans),
            spans + tokens_from(s, i as int) == tokens_of(s),
        decreases n - i,
    {
        let c = chars[i];
        let char_start = i;
        if is_whitespace(c) {
            i = i + 1;
            continue;
        }
        if is_alphabetic(c) || is_numeric(c) {
            let mut j = i;
            let mut letter = false;
            while continues_word(&chars, j)
                invariant
                    i <= j <= n,
                    n == s.len(),
                    chars@ == s,
                    scan_word(s, i as int) == scan_word(s, j as int),
                    letter == has_letter(s, i as int, j as int),
                    j == i ==> !letter,
                decreases n - j,
            {
                let cj = chars[j];
                if is_alphabetic(cj) || is_numeric(cj) {
                    proof {
                        if unicode_alphabetic(cj) {
                            assert(has_letter(s, i as int, j + 1));
                        } else {
                            if has_letter(s, i as int, j + 1) {
                                let k = choose|k: int| i <= k < j + 1 && unicode_alphabetic(s[k]);
                                assert(has_letter(s, i as int, j as int));
                            }
                        }
                    }
                    letter = letter || is_alphabetic(cj);
                    j = j + 1;
                } else {
                    proof {
                        if has_letter(s, i as int, j + 1) {
                            let k = choose|k: int| i <= k < j + 1 && unicode_alphabetic(s[k]);
                            assert(has_letter(s, i as int, j as int));
                        }
                    }
                    j = j + 1;
                }
            }
            proof {
                assert(scan_word(s, j as int) == j as int);
                assert(j > i) by {
                    assert(alnum(s[i as int]));
                }
            }
            let kind = if letter {
                TokenKind::Word
            } else {
                TokenKind::Number
            };
            let tok = Token {
                text: slice_chars(text, i, j, offs[i], offs[j]),
                byte_start: offs[i],
                byte_end: offs[j],
                char_start,
                char_end: j,
                kind,
            };
            let ghost old_toks = tokens@;
            tokens.push(tok);
            proof {
                let span = TokenSpan { start: i as int, end: j as int, kind };
                lemma_tokens_push(s, old_toks, spans, tok, span);
                assert(tokens_from(s, i as int) == seq![span] + tokens_from(s, j as int));
                assert(token_is(s, tok, span));
                let old_spans = spans;
                spans = spans.push(span);
                assert(spans + tokens_from(s, j as int) =~= old_spans + tokens_from(s, i as int));
            }
            i = j;
        } else {
            // A word may legitimately *start* with an apostrophe: 'рж, 'рбет.
            if is_apostrophe(c) && i + 1 < n && is_alphabetic(chars[i + 1]) {
                let mut j = i + 1;
                while continues_apostrophe_word(&chars, j)
                    invariant
                        i + 1 <= j <= n,
                        n == s.len(),
                        chars@ == s,
                        scan_apostrophe_word(s, i + 1) == scan_apostrophe_word(s, j as int),
                    decreases n - j,
                {
                    j = j + 1;
                }
                proof {
                    assert(scan_apostrophe_word(s, j as int) == j as int);
                }
                let tok = Token {
                    text: slice_chars(text, i, j, offs[i], offs[j]),
                    byte_start: offs[i],
                    byte_end: offs[j],
                    char_start,
                    char_end: j,
                    kind: TokenKind::Word,
                };
                let ghost old_toks = tokens@;
                tokens.push(tok);
                proof {
                    let span = TokenSpan { start: i as int, end: j as int, kind: TokenKind::Word };
                    lemma_tokens_push(s, old_toks, spans, tok, span);
                    assert(tokens_from(s, i as int) == seq![span] + tokens_from(s, j as int));
                    let old_spans = spans;
                    spans = spans.push(span);
                    assert(spans + tokens_from(s, j as int) =~= old_spans + tokens_from(
                        s,
                        i as int,
                    ));
                }
                i = j;
                continue;
            }
            let tok = Token {
                text: slice_chars(text, i, i + 1, offs[i], offs[i + 1]),
                byte_start: offs[i],
                byte_end: offs[i + 1],
                char_start,
                char_end: i + 1,
                kind: TokenKind::Punct,
            };
            let ghost old_toks = tokens@;
            tokens.push(tok);
            proof {
                let span = TokenSpan { start: i as int, end: i + 1, kind: TokenKind::Punct };
                lemma_tokens_push(s, old_toks, spans, tok, span);
                assert(tokens_from(s, i as int) == seq![span] + tokens_from(s, i + 1));
                let old_spans = spans;
                spans = spans.push(span);
                assert(spans + tokens_from(s, i + 1) =~= old_spans + tokens_from(s, i as int));
            }
            i = i + 1;
        }
    }
    proof {
        assert(spans + tokens_from(s, n as int) =~= spans);
        assert(token_views(tokens@) =~= token_views_of(s)) by {
            assert forall|k: int| 0 <= k < tokens@.len() implies token_views(tokens@)[k] == token_views_of(s)[k] by {
                assert(token_is(s, tokens@[k], spans[k]));
            }
        }
    }
    tokens
}

} // verus!
