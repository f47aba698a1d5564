//! What every token of a text is: where it lies, what its kind says of its
//! characters, and what the tokens together cover.

use vstd::prelude::*;
use crate::alphabet::word_internal;
use crate::text::{unicode_alphabetic, unicode_numeric, unicode_whitespace};
use crate::tokenizer::{
    alnum, has_letter, scan_word, scan_apostrophe_word, spans_of, tokens_from, tokens_of,
    token_views_of, TokenKind, TokenSpan, TokenView,
};

verus! {

/// The span is a token of `s` as its kind describes it: a word holds a
/// letter and nothing else does; punctuation is one character that is
/// neither letter nor digit; a number starts with a digit; a word or number
/// ends in a letter or digit and is not followed by one.
pub open spec fn span_ok(s: Seq<char>, t: TokenSpan) -> bool {
    &&& 0 <= t.start < t.end <= s.len()
    &&& (t.kind == TokenKind::Word) == has_letter(s, t.start, t.end)
    &&& t.kind == TokenKind::Punct ==> t.end == t.start + 1 && !alnum(s[t.start])
    &&& t.kind == TokenKind::Number ==> unicode_numeric(s[t.start])
    &&& t.kind != TokenKind::Punct ==> alnum(s[t.end - 1]) && (t.end == s.len() || !alnum(s[t.end]))
    &&& t.kind != TokenKind::Punct ==> t.end == s.len() || !(joins_words(s[t.end]) && t.end + 1 < s.len()
        && unicode_alphabetic(s[t.end + 1]))
}

/// The characters that join letters into one word: the apostrophes `'`,
/// `’` (U+2019) and `ʼ` (U+02BC), and the hyphen.
pub open spec fn joins_words(c: char) -> bool {
    c == '\'' || c == '\u{2019}' || c == '\u{02BC}' || c == '-'
}

/// A word or number scanned from `j` ends after a letter or digit, before
/// anything that is not one.
proof fn lemma_scan_word_end(s: Seq<char>, j: int)
    requires
        0 <= j <= s.len(),
    ensures
        j <= scan_word(s, j) <= s.len(),
        scan_word(s, j) == s.len() || !alnum(s[scan_word(s, j)]),
        scan_word(s, j) == s.len() || !(word_internal(s[scan_word(s, j)]) && scan_word(s, j) + 1 < s.len()
            && alnum(s[scan_word(s, j) + 1])),
        scan_word(s, j) > j ==> alnum(s[scan_word(s, j) - 1]),
        j < s.len() && alnum(s[j]) ==> scan_word(s, j) > j,
    decreases s.len() - j,
{
    if j < s.len() {
        if alnum(s[j]) {
            lemma_scan_word_end(s, j + 1);
        } else if word_internal(s[j]) && j + 1 < s.len() && alnum(s[j + 1]) {
            lemma_scan_word_end(s, j + 1);
        }
    }
}

/// A word that began with an apostrophe, scanned on from `j`, ends after a
/// letter or digit, before anything that is not one.
proof fn lemma_scan_apostrophe_end(s: Seq<char>, j: int)
    requires
        0 <= j <= s.len(),
    ensures
        j <= scan_apostrophe_word(s, j) <= s.len(),
        scan_apostrophe_word(s, j) == s.len() || !alnum(s[scan_apostrophe_word(s, j)]),
        scan_apostrophe_word(s, j) == s.len() || !(word_internal(s[scan_apostrophe_word(s, j)])
            && scan_apostrophe_word(s, j) + 1 < s.len() && unicode_alphabetic(s[scan_apostrophe_word(s, j) + 1])),
        scan_apostrophe_word(s, j) > j ==> alnum(s[scan_apostrophe_word(s, j) - 1]),
        j < s.len() && alnum(s[j]) ==> scan_apostrophe_word(s, j) > j,
    decreases s.len() - j,
{
    if j < s.len() {
        if alnum(s[j]) {
            lemma_scan_apostrophe_end(s, j + 1);
        } else if word_internal(s[j]) && j + 1 < s.len() && unicode_alphabetic(s[j + 1]) {
            lemma_scan_apostrophe_end(s, j + 1);
        }
    }
}

/// Every token from position `i` on is a token as its kind describes, and
/// the tokens come in order without overlapping.
proof fn lemma_tokens_from(s: Seq<char>, i: int)
    requires
        0 <= i <= s.len(),
    ensures
        forall|k: int|
            0 <= k < tokens_from(s, i).len() ==> span_ok(s, #[trigger] tokens_from(s, i)[k]) && i
                <= tokens_from(s, i)[k].start,
        forall|k: int|
            0 <= k < tokens_from(s, i).len() - 1 ==> #[trigger] tokens_from(s, i)[k].end <= tokens_from(
                s,
                i,
            )[k + 1].start,
    decreases s.len() - i,
{
    let ts = tokens_from(s, i);
    if i < s.len() {
        if unicode_whitespace(s[i]) {
            lemma_tokens_from(s, i + 1);
        } else if alnum(s[i]) {
            let j = scan_word(s, i);
            lemma_scan_word_end(s, i);
            lemma_tokens_from(s, j);
            let kind = if has_letter(s, i, j) {
                TokenKind::Word
            } else {
                TokenKind::Number
            };
            let first = TokenSpan { start: i, end: j, kind };
            let rest = tokens_from(s, j);
            assert(ts == seq![first] + rest);
            if !has_letter(s, i, j) {
                assert(!unicode_alphabetic(s[i]));
            }
            assert forall|k: int| 0 <= k < ts.len() implies span_ok(s, #[trigger] ts[k]) && i <= ts[k].start by {
                if k > 0 {
                    assert(ts[k] == rest[k - 1]);
                }
            }
            assert forall|k: int| 0 <= k < ts.len() - 1 implies #[trigger] ts[k].end <= ts[k + 1].start by {
                if k > 0 {
                    assert(ts[k] == rest[k - 1]);
                }
                assert(ts[k + 1] == rest[k]);
            }
        } else if crate::alphabet::apostrophe(s[i]) && i + 1 < s.len() && unicode_alphabetic(s[i + 1]) {
            let j = scan_apostrophe_word(s, i + 1);
            lemma_scan_apostrophe_end(s, i + 1);
            lemma_tokens_from(s, j);
            let first = TokenSpan { start: i, end: j, kind: TokenKind::Word };
            let rest = tokens_from(s, j);
            assert(ts == seq![first] + rest);
            assert(has_letter(s, i, j)) by {
                assert(unicode_alphabetic(s[i + 1]));
            }
            assert forall|k: int| 0 <= k < ts.len() implies span_ok(s, #[trigger] ts[k]) && i <= ts[k].start by {
                if k > 0 {
                    assert(ts[k] == rest[k - 1]);
                }
            }
            assert forall|k: int| 0 <= k < ts.len() - 1 implies #[trigger] ts[k].end <= ts[k + 1].start by {
                if k > 0 {
                    assert(ts[k] == rest[k - 1]);
                }
                assert(ts[k + 1] == rest[k]);
            }
        } else {
            lemma_tokens_from(s, i + 1);
            let first = TokenSpan { start: i, end: i + 1, kind: TokenKind::Punct };
            let rest = tokens_from(s, i + 1);
            assert(ts == seq![first] + rest);
            assert(!has_letter(s, i, i + 1));
            assert forall|k: int| 0 <= k < ts.len() implies span_ok(s, #[trigger] ts[k]) && i <= ts[k].start by {
                if k > 0 {
                    assert(ts[k] == rest[k - 1]);
                }
            }
            assert forall|k: int| 0 <= k < ts.len() - 1 implies #[trigger] ts[k].end <= ts[k + 1].start by {
                if k > 0 {
                    assert(ts[k] == rest[k - 1]);
                }
                assert(ts[k + 1] == rest[k]);
            }
        }
    }
}

/// Law: every token of `s` is a non-empty slice of `s` at its own span, and
/// the tokens come in order without overlapping. A token is a word exactly
/// when it holds a letter; punctuation is one character that is neither
/// letter nor digit; a number starts with a digit; and a word or number ends
/// in a letter or digit and is not followed by one, nor by an apostrophe or
/// hyphen that a letter follows: those join letters into one word.
pub proof fn lemma_token_kinds(s: Seq<char>)
    ensures
        forall|k: int| 0 <= k < token_views_of(s).len() ==> {
            let t = #[trigger] token_views_of(s)[k];
            &&& 0 <= t.start < t.end <= s.len()
            &&& t.text == s.subrange(t.start, t.end)
            &&& (t.kind == TokenKind::Word) == (exists|m: int|
                0 <= m < t.text.len() && unicode_alphabetic(#[trigger] t.text[m]))
            &&& t.kind == TokenKind::Punct ==> t.text.len() == 1 && !unicode_alphabetic(t.text[0])
                && !unicode_numeric(t.text[0])
            &&& t.kind == TokenKind::Number ==> unicode_numeric(t.text[0])
            &&& t.kind != TokenKind::Punct ==> alnum(t.text.last()) && (t.end == s.len() || !alnum(
                s[t.end],
            ))
            &&& t.kind != TokenKind::Punct ==> t.end == s.len() || !(joins_words(s[t.end]) && t.end + 1
                < s.len() && unicode_alphabetic(s[t.end + 1]))
        },
        forall|k: int|
            0 <= k < token_views_of(s).len() - 1 ==> #[trigger] token_views_of(s)[k].end
                <= token_views_of(s)[k + 1].start,
{
    lemma_tokens_from(s, 0);
    let ts = tokens_of(s);
    let vs = token_views_of(s);
    assert forall|k: int| 0 <= k < vs.len() implies {
        let t = #[trigger] vs[k];
        &&& 0 <= t.start < t.end <= s.len()
        &&& t.text == s.subrange(t.start, t.end)
        &&& (t.kind == TokenKind::Word) == (exists|m: int|
            0 <= m < t.text.len() && unicode_alphabetic(#[trigger] t.text[m]))
        &&& t.kind == TokenKind::Punct ==> t.text.len() == 1 && !unicode_alphabetic(t.text[0])
            && !unicode_numeric(t.text[0])
        &&& t.kind == TokenKind::Number ==> unicode_numeric(t.text[0])
        &&& t.kind != TokenKind::Punct ==> alnum(t.text.last()) && (t.end == s.len() || !alnum(s[t.end]))
        &&& t.kind != TokenKind::Punct ==> t.end == s.len() || !(joins_words(s[t.end]) && t.end + 1 < s.len()
            && unicode_alphabetic(s[t.end + 1]))
    } by {
        let sp = ts[k];
        assert(span_ok(s, sp));
        let t = vs[k];
        assert(t.text == s.subrange(sp.start, sp.end));
        if has_letter(s, sp.start, sp.end) {
            let m = choose|m: int| sp.start <= m < sp.end && unicode_alphabetic(s[m]);
            assert(t.text[m - sp.start] == s[m]);
        }
        if exists|m: int| 0 <= m < t.text.len() && unicode_alphabetic(#[trigger] t.text[m]) {
            let m = choose|m: int| 0 <= m < t.text.len() && unicode_alphabetic(#[trigger] t.text[m]);
            assert(s[m + sp.start] == t.text[m]);
        }
    }
    assert forall|k: int| 0 <= k < vs.len() - 1 implies #[trigger] vs[k].end <= vs[k + 1].start by {
        assert(ts[k].end <= ts[k + 1].start);
    }
}

/// The characters of `s` that are not white space, in order.
pub open spec fn non_space(s: Seq<char>) -> Seq<char>
    decreases s.len(),
{
    if s.len() == 0 {
        Seq::empty()
    } else if unicode_whitespace(s[0]) {
        non_space(s.drop_first())
    } else {
        seq![s[0]] + non_space(s.drop_first())
    }
}

/// The texts of the tokens, joined in order.
pub open spec fn joined(ts: Seq<TokenView>) -> Seq<char>
    decreases ts.len(),
{
    if ts.len() == 0 {
        Seq::empty()
    } else {
        ts[0].text + joined(ts.drop_first())
    }
}

/// No white space character of `s` is a letter, a digit, an apostrophe or a
/// hyphen, as in Unicode, whose White_Space characters are all spaces,
/// separators and controls.
pub open spec fn spaces_apart(s: Seq<char>) -> bool {
    forall|k: int| 0 <= k < s.len() && unicode_whitespace(#[trigger] s[k]) ==> !alnum(s[k]) && !word_internal(s[k])
}

/// What a word or number scan passes over is letters, digits and separators.
proof fn lemma_scan_word_chars(s: Seq<char>, j: int)
    requires
        0 <= j <= s.len(),
    ensures
        forall|k: int| j <= k < scan_word(s, j) ==> alnum(#[trigger] s[k]) || word_internal(s[k]),
    decreases s.len() - j,
{
    if j < s.len() {
        if alnum(s[j]) || (word_internal(s[j]) && j + 1 < s.len() && alnum(s[j + 1])) {
            lemma_scan_word_chars(s, j + 1);
        }
    }
}

/// What an apostrophe-word scan passes over is letters, digits and separators.
proof fn lemma_scan_apostrophe_chars(s: Seq<char>, j: int)
    requires
        0 <= j <= s.len(),
    ensures
        forall|k: int| j <= k < scan_apostrophe_word(s, j) ==> alnum(#[trigger] s[k]) || word_internal(s[k]),
    decreases s.len() - j,
{
    if j < s.len() {
        if alnum(s[j]) || (word_internal(s[j]) && j + 1 < s.len() && unicode_alphabetic(s[j + 1])) {
            lemma_scan_apostrophe_chars(s, j + 1);
        }
    }
}

/// Characters `i..j` of `s`, none of them white space, lead what is left of
/// `s` after white space is dropped.
proof fn lemma_non_space_split(s: Seq<char>, i: int, j: int)
    requires
        0 <= i <= j <= s.len(),
        forall|k: int| i <= k < j ==> !unicode_whitespace(#[trigger] s[k]),
    ensures
        non_space(s.subrange(i, s.len() as int)) == s.subrange(i, j) + non_space(s.subrange(j, s.len() as int)),
    decreases j - i,
{
    if i < j {
        lemma_non_space_split(s, i + 1, j);
        let t = s.subrange(i, s.len() as int);
        assert(t.drop_first() =~= s.subrange(i + 1, s.len() as int));
        assert(t[0] == s[i]);
        assert(s.subrange(i, j) =~= seq![s[i]] + s.subrange(i + 1, j));
    } else {
        assert(s.subrange(i, j) =~= Seq::<char>::empty());
    }
}

/// The tokens from `i` on, joined, are the characters of `s[i..]` that are
/// not white space, and none of them holds white space.
proof fn lemma_joined_from(s: Seq<char>, i: int)
    requires
        0 <= i <= s.len(),
        spaces_apart(s),
    ensures
        joined(spans_of(s, tokens_from(s, i))) == non_space(s.subrange(i, s.len() as int)),
        forall|k: int, m: int|
            0 <= k < tokens_from(s, i).len() && #[trigger] tokens_from(s, i)[k].start <= m < tokens_from(s, i)[k].end
                ==> !unicode_whitespace(#[trigger] s[m]),
    decreases s.len() - i,
{
    let ts = tokens_from(s, i);
    let tail = s.subrange(i, s.len() as int);
    if i == s.len() {
        assert(tail =~= Seq::<char>::empty());
        assert(spans_of(s, ts) =~= Seq::<TokenView>::empty());
    } else if unicode_whitespace(s[i]) {
        lemma_joined_from(s, i + 1);
        assert(tail.drop_first() =~= s.subrange(i + 1, s.len() as int));
        assert(tail[0] == s[i]);
    } else {
        let (j, kind) = if alnum(s[i]) {
            let j = scan_word(s, i);
            lemma_scan_word_end(s, i);
            lemma_scan_word_chars(s, i);
            (j, if has_letter(s, i, j) { TokenKind::Word } else { TokenKind::Number })
        } else if crate::alphabet::apostrophe(s[i]) && i + 1 < s.len() && unicode_alphabetic(s[i + 1]) {
            let j = scan_apostrophe_word(s, i + 1);
            lemma_scan_apostrophe_end(s, i + 1);
            lemma_scan_apostrophe_chars(s, i + 1);
            (j, TokenKind::Word)
        } else {
            (i + 1, TokenKind::Punct)
        };
        assert(i < j <= s.len());
        let first = TokenSpan { start: i, end: j, kind };
        let rest = tokens_from(s, j);
        assert(ts == seq![first] + rest);
        assert forall|m: int| i <= m < j implies !unicode_whitespace(#[trigger] s[m]) by {
            if m > i {
                assert(alnum(s[m]) || word_internal(s[m]));
            }
        }
        lemma_joined_from(s, j);
        lemma_non_space_split(s, i, j);
        let vs = spans_of(s, ts);
        assert(vs.drop_first() =~= spans_of(s, rest));
        assert(vs[0].text == s.subrange(i, j));
        assert forall|k: int, m: int|
            0 <= k < ts.len() && #[trigger] ts[k].start <= m < ts[k].end implies !unicode_whitespace(#[trigger] s[m]) by {
            if k > 0 {
                assert(ts[k] == rest[k - 1]);
            }
        }
    }
}

/// Law: in a text whose white space is, as in Unicode, no letter, digit,
/// apostrophe or hyphen, every character that is not white space lies in
/// exactly one token, in order: the token texts, joined, are the text with
/// its white space dropped, and no token holds white space.
pub proof fn lemma_tokens_cover_text(s: Seq<char>)
    requires
        spaces_apart(s),
    ensures
        joined(token_views_of(s)) == non_space(s),
        forall|k: int, m: int|
            0 <= k < token_views_of(s).len() && 0 <= m < token_views_of(s)[k].text.len()
                ==> !unicode_whitespace(#[trigger] token_views_of(s)[k].text[m]),
{
    lemma_joined_from(s, 0);
    lemma_tokens_from(s, 0);
    assert(s.subrange(0, s.len() as int) =~= s);
    let ts = tokens_of(s);
    let vs = token_views_of(s);
    assert forall|k: int, m: int| 0 <= k < vs.len() && 0 <= m < vs[k].text.len()
        implies !unicode_whitespace(#[trigger] vs[k].text[m]) by {
        assert(vs[k].text[m] == s[ts[k].start + m]);
        assert(ts[k].start <= ts[k].start + m < ts[k].end);
    }
}

} // verus!
