//! Detection of characters that *look* Macedonian but are not.
//!
//! Two distinct problems live here, both invisible to the naked eye:
//!
//! 1. **Mixed script.** Latin `a c e o p s x y j` and their capitals are pixel
//!    twins of Cyrillic `а с е о р ѕ х у ј`. Text typed while the keyboard
//!    layout drifted ends up with a few Latin letters inside Cyrillic words.
//! 2. **Foreign Cyrillic.** Serbian `ђ ћ`, Russian `ъ ы э я ю ё`, Bulgarian `щ`
//!    and Ukrainian `і ї є` are not Macedonian letters.
//!
//! Both are reported by the checker only after the repaired spelling is looked
//! up in the lexicon, which is what keeps the false-positive rate near zero.

use vstd::prelude::*;
use crate::alphabet::{script, script_of, Script};
use crate::text::push_char;

verus! {

/// Latin characters that are visually identical to a Macedonian letter.
/// Deliberately conservative: lowercase Latin `m k t h b` are *not* included,
/// because Cyrillic `м к т н б` look different at ordinary sizes.
pub open spec fn latin_lookalike(c: char) -> Option<char> {
    match c {
        'a' => Some('а'),
        'c' => Some('с'),
        'e' => Some('е'),
        // `сѐ` typed with Latin `è` is the most frequent instance in the wild.
        'è' => Some('ѐ'),
        'È' => Some('Ѐ'),
        'ì' => Some('ѝ'),
        'Ì' => Some('Ѝ'),
        'j' => Some('ј'),
        'o' => Some('о'),
        'p' => Some('р'),
        's' => Some('ѕ'),
        'x' => Some('х'),
        'y' => Some('у'),
        'A' => Some('А'),
        'B' => Some('В'),
        'C' => Some('С'),
        'E' => Some('Е'),
        'H' => Some('Н'),
        'J' => Some('Ј'),
        'K' => Some('К'),
        'M' => Some('М'),
        'O' => Some('О'),
        'P' => Some('Р'),
        'S' => Some('Ѕ'),
        'T' => Some('Т'),
        'X' => Some('Х'),
        'Y' => Some('У'),
        _ => None,
    }
}

/// Cyrillic letters from other languages, mapped to their Macedonian spelling.
/// Bulgarian `щ` is /ʃt/, written `шт`; Russian `я`/`ю` are written `ја`/`ју`;
/// the hard and soft signs have no Macedonian reflex and are dropped.
pub open spec fn foreign_cyrillic(c: char) -> Option<Seq<char>> {
    match c {
        // Serbian
        'ђ' => Some(seq!['ѓ']),
        'Ђ' => Some(seq!['Ѓ']),
        'ћ' => Some(seq!['ќ']),
        'Ћ' => Some(seq!['Ќ']),
        // Russian / Bulgarian
        'ё' => Some(seq!['е']),
        'Ё' => Some(seq!['Е']),
        'ъ' => Some(Seq::empty()),
        'Ъ' => Some(Seq::empty()),
        'ы' => Some(seq!['и']),
        'Ы' => Some(seq!['И']),
        'э' => Some(seq!['е']),
        'Э' => Some(seq!['Е']),
        'я' => Some(seq!['ј', 'а']),
        'Я' => Some(seq!['Ј', 'а']),
        'ю' => Some(seq!['ј', 'у']),
        'Ю' => Some(seq!['Ј', 'у']),
        'щ' => Some(seq!['ш', 'т']),
        'Щ' => Some(seq!['Ш', 'т']),
        'ь' => Some(Seq::empty()),
        'Ь' => Some(Seq::empty()),
        // Ukrainian / Belarusian
        'і' => Some(seq!['и']),
        'І' => Some(seq!['И']),
        'ї' => Some(seq!['ј', 'и']),
        'Ї' => Some(seq!['Ј', 'и']),
        'є' => Some(seq!['е']),
        'Є' => Some(seq!['Е']),
        'ґ' => Some(seq!['г']),
        'Ґ' => Some(seq!['Г']),
        _ => None,
    }
}

/// The Macedonian rendering of one character: a lookalike is swapped for its
/// twin, a foreign letter for its Macedonian spelling, anything else is kept.
pub open spec fn normalize_char(c: char) -> Seq<char> {
    match latin_lookalike(c) {
        Some(m) => seq![m],
        None => match foreign_cyrillic(c) {
            Some(s) => s,
            None => seq![c],
        },
    }
}

/// `normalize_char` applied to every character of `s`, concatenated.
pub open spec fn normalized(s: Seq<char>) -> Seq<char>
    decreases s.len(),
{
    if s.len() == 0 {
        Seq::empty()
    } else {
        normalized(s.drop_last()) + normalize_char(s.last())
    }
}

/// Some character of `s` belongs to `sc`.
pub open spec fn has_script(s: Seq<char>, sc: Script) -> bool {
    exists|i: int| 0 <= i < s.len() && script(s[i]) == sc
}

/// Why a word looks wrong at the character level.
#[derive(Debug, Clone, Copy, PartialEq, Eq, Structural)]
pub enum IssueKind {
    /// Latin lookalikes embedded in a Cyrillic word.
    Homoglyph,
    /// Cyrillic letters that are not in the Macedonian alphabet.
    ForeignCyrillic,
}

/// A character-level problem, together with the repaired spelling.
#[derive(Debug, Clone, PartialEq, Eq)]
pub struct ScriptIssue {
    pub kind: IssueKind,
    pub normalized: String,
}

/// The issue `analyze` reports for the characters `s`: foreign Cyrillic
/// anywhere wins; otherwise a Macedonian letter together with a Latin one is a
/// homoglyph; otherwise nothing.
pub open spec fn issue_of(s: Seq<char>) -> Option<IssueKind> {
    if has_script(s, Script::ForeignCyrillic) {
        Some(IssueKind::ForeignCyrillic)
    } else if has_script(s, Script::Macedonian) && has_script(s, Script::Latin) {
        Some(IssueKind::Homoglyph)
    } else {
        None
    }
}

fn latin_to_mk(c: char) -> (r: Option<char>)
    ensures
        r == latin_lookalike(c),
{
    match c {
        'a' => Some('а'),
        'c' => Some('с'),
        'e' => Some('е'),
        'è' => Some('ѐ'),
        'È' => Some('Ѐ'),
        'ì' => Some('ѝ'),
        'Ì' => Some('Ѝ'),
        'j' => Some('ј'),
        'o' => Some('о'),
        'p' => Some('р'),
        's' => Some('ѕ'),
        'x' => Some('х'),
        'y' => Some('у'),
        'A' => Some('А'),
        'B' => Some('В'),
        'C' => Some('С'),
        'E' => Some('Е'),
        'H' => Some('Н'),
        'J' => Some('Ј'),
        'K' => Some('К'),
        'M' => Some('М'),
        'O' => Some('О'),
        'P' => Some('Р'),
        'S' => Some('Ѕ'),
        'T' => Some('Т'),
        'X' => Some('Х'),
        'Y' => Some('У'),
        _ => None,
    }
}

/// Appends the Macedonian spelling of the foreign letter `c` to `out`, and
/// reports whether `c` was one.
fn push_foreign_to_mk(out: &mut String, c: char) -> (r: bool)
    ensures
        r == foreign_cyrillic(c) is Some,
        r ==> final(out)@ == old(out)@ + foreign_cyrillic(c).unwrap(),
        !r ==> final(out)@ == old(out)@,
{
    let (n, a, b): (usize, char, char) = match c {
        'ђ' => (1, 'ѓ', ' '),
        'Ђ' => (1, 'Ѓ', ' '),
        'ћ' => (1, 'ќ', ' '),
        'Ћ' => (1, 'Ќ', ' '),
        'ё' => (1, 'е', ' '),
        'Ё' => (1, 'Е', ' '),
        'ъ' => (0, ' ', ' '),
        'Ъ' => (0, ' ', ' '),
        'ы' => (1, 'и', ' '),
        'Ы' => (1, 'И', ' '),
        'э' => (1, 'е', ' '),
        'Э' => (1, 'Е', ' '),
        'я' => (2, 'ј', 'а'),
        'Я' => (2, 'Ј', 'а'),
        'ю' => (2, 'ј', 'у'),
        'Ю' => (2, 'Ј', 'у'),
        'щ' => (2, 'ш', 'т'),
        'Щ' => (2, 'Ш', 'т'),
        'ь' => (0, ' ', ' '),
        'Ь' => (0, ' ', ' '),
        'і' => (1, 'и', ' '),
        'І' => (1, 'И', ' '),
        'ї' => (2, 'ј', 'и'),
        'Ї' => (2, 'Ј', 'и'),
        'є' => (1, 'е', ' '),
        'Є' => (1, 'Е', ' '),
        'ґ' => (1, 'г', ' '),
        'Ґ' => (1, 'Г', ' '),
        _ => (3, ' ', ' '),
    };
    if n == 3 {
        return false;
    }
    if n >= 1 {
        push_char(out, a);
    }
    if n == 2 {
        push_char(out, b);
    }
    proof {
        let m = foreign_cyrillic(c).unwrap();
        if n == 0 {
            assert(m =~= Seq::<char>::empty());
        } else if n == 1 {
            assert(m =~= seq![a]);
        } else {
            assert(m =~= seq![a, b]);
        }
        assert(final(out)@ =~= old(out)@ + m);
    }
    true
}

/// Rewrite every lookalike and foreign letter in `word` to its Macedonian form.
pub fn normalize(word: &str) -> (r: String)
    ensures
        r@ == normalized(word@),
{
    let chars = crate::text::chars_of(word);
    let mut out = String::new();
    let mut i: usize = 0;
    while i < chars.len()
        invariant
            0 <= i <= chars@.len(),
            chars@ == word@,
            out@ == normalized(chars@.take(i as int)),
        decreases chars.len() - i,
    {
        let c = chars[i];
        let ghost before = out@;
        if let Some(mk) = latin_to_mk(c) {
            push_char(&mut out, mk);
        } else if push_foreign_to_mk(&mut out, c) {
        } else {
            push_char(&mut out, c);
        }
        proof {
            let t = chars@.take(i + 1);
            assert(t.drop_last() =~= chars@.take(i as int));
            assert(t.last() == c);
            assert(out@ =~= before + normalize_char(c));
        }
        i = i + 1;
    }
    proof {
        assert(chars@.take(chars@.len() as int) =~= chars@);
    }
    out
}

/// Inspect `word` for mixed-script or foreign-Cyrillic contamination.
///
/// Returns `None` for words that are wholly Macedonian, wholly Latin (that is
/// transliteration's job), or that contain no letters at all.
pub fn analyze(word: &str) -> (r: Option<ScriptIssue>)
    ensures
        (match r {
            Some(i) => Some(i.kind),
            None => None,
        }) == issue_of(word@),
        r matches Some(i) ==> i.normalized@ == normalized(word@),
{
    let chars = crate::text::chars_of(word);
    let mut has_mk = false;
    let mut has_latin = false;
    let mut has_foreign = false;
    let mut i: usize = 0;
    while i < chars.len()
        invariant
            0 <= i <= chars@.len(),
            chars@ == word@,
            has_mk == exists|j: int| 0 <= j < i && script(chars@[j]) == Script::Macedonian,
            has_latin == exists|j: int| 0 <= j < i && script(chars@[j]) == Script::Latin,
            has_foreign == exists|j: int|
                0 <= j < i && script(chars@[j]) == Script::ForeignCyrillic,
        decreases chars.len() - i,
    {
        let s = script_of(chars[i]);
        match s {
            Script::Macedonian => has_mk = true,
            Script::Latin => has_latin = true,
            Script::ForeignCyrillic => has_foreign = true,
            _ => {},
        }
        i = i + 1;
    }
    // A foreign Cyrillic letter is wrong regardless of what surrounds it.
    if has_foreign {
        return Some(ScriptIssue { kind: IssueKind::ForeignCyrillic, normalized: normalize(word) });
    }
    // Mixed script only matters when Cyrillic is the base and Latin intrudes.
    if has_mk && has_latin {
        return Some(ScriptIssue { kind: IssueKind::Homoglyph, normalized: normalize(word) });
    }
    None
}

/// Law: a word with neither a Latin lookalike nor a foreign Cyrillic letter
/// normalizes to itself.
pub proof fn lemma_normalize_clean(w: Seq<char>)
    requires
        forall|i: int| 0 <= i < w.len() ==> latin_lookalike(#[trigger] w[i]) is None && foreign_cyrillic(w[i]) is None,
    ensures
        normalized(w) == w,
    decreases w.len(),
{
    if w.len() > 0 {
        assert forall|i: int| 0 <= i < w.drop_last().len() implies latin_lookalike(#[trigger] w.drop_last()[i]) is None
            && foreign_cyrillic(w.drop_last()[i]) is None by {
            assert(w.drop_last()[i] == w[i]);
        }
        lemma_normalize_clean(w.drop_last());
        assert(latin_lookalike(w[w.len() - 1]) is None);
        assert(w.drop_last() + seq![w.last()] =~= w);
    }
}

/// Neither a Latin lookalike nor a foreign Cyrillic letter.
pub open spec fn clean_char(c: char) -> bool {
    latin_lookalike(c) is None && foreign_cyrillic(c) is None
}

/// What one character normalizes to is clean.
proof fn lemma_normalize_char_clean(c: char)
    ensures
        forall|k: int| 0 <= k < normalize_char(c).len() ==> clean_char(#[trigger] normalize_char(c)[k]),
{
    let out = normalize_char(c);
    assert forall|k: int| 0 <= k < out.len() implies clean_char(#[trigger] out[k]) by {
        match latin_lookalike(c) {
            Some(m) => {
                assert(out[k] == m);
            },
            None => match foreign_cyrillic(c) {
                Some(t) => {
                    assert(out[k] == t[k]);
                },
                None => {
                    assert(out[k] == c);
                },
            },
        }
    }
}

/// Every character of a normalized word is clean.
proof fn lemma_normalized_chars_clean(s: Seq<char>)
    ensures
        forall|k: int| 0 <= k < normalized(s).len() ==> clean_char(#[trigger] normalized(s)[k]),
    decreases s.len(),
{
    if s.len() > 0 {
        lemma_normalized_chars_clean(s.drop_last());
        lemma_normalize_char_clean(s.last());
        let a = normalized(s.drop_last());
        let b = normalize_char(s.last());
        assert forall|k: int| 0 <= k < normalized(s).len() implies clean_char(#[trigger] normalized(s)[k]) by {
            if k < a.len() {
                assert(normalized(s)[k] == a[k]);
            } else {
                assert(normalized(s)[k] == b[k - a.len()]);
            }
        }
    }
}

/// Law: a normalized word holds no Latin lookalike and no foreign Cyrillic
/// letter, so normalizing it again changes nothing.
pub proof fn lemma_normalize_idempotent(w: Seq<char>)
    ensures
        forall|k: int| 0 <= k < normalized(w).len() ==> clean_char(#[trigger] normalized(w)[k]),
        normalized(normalized(w)) == normalized(w),
{
    lemma_normalized_chars_clean(w);
    let n = normalized(w);
    assert forall|i: int| 0 <= i < n.len() implies latin_lookalike(#[trigger] n[i]) is None && foreign_cyrillic(n[i]) is None by {
        assert(clean_char(n[i]));
    }
    lemma_normalize_clean(n);
}

/// A word without foreign Cyrillic letters is normalized character for
/// character.
proof fn lemma_normalized_pointwise(w: Seq<char>)
    requires
        forall|j: int| 0 <= j < w.len() ==> foreign_cyrillic(#[trigger] w[j]) is None,
    ensures
        normalized(w).len() == w.len(),
        forall|k: int|
            0 <= k < w.len() ==> #[trigger] normalized(w)[k] == (match latin_lookalike(w[k]) {
                Some(m) => m,
                None => w[k],
            }),
    decreases w.len(),
{
    if w.len() > 0 {
        let d = w.drop_last();
        assert forall|j: int| 0 <= j < d.len() implies foreign_cyrillic(#[trigger] d[j]) is None by {
            assert(d[j] == w[j]);
        }
        lemma_normalized_pointwise(d);
        assert(foreign_cyrillic(w[w.len() - 1]) is None);
        let c = w.last();
        let tail = normalize_char(c);
        assert(tail.len() == 1);
        assert forall|k: int| 0 <= k < w.len() implies #[trigger] normalized(w)[k] == (match latin_lookalike(w[k]) {
            Some(m) => m,
            None => w[k],
        }) by {
            if k < d.len() {
                assert(normalized(w)[k] == normalized(d)[k]);
                assert(d[k] == w[k]);
            } else {
                assert(normalized(w)[k] == tail[0]);
            }
        }
    }
}

/// Law: in a word without foreign Cyrillic letters, normalizing replaces
/// each Latin lookalike by its visually identical Cyrillic twin (`a c e o p
/// s x y j` by `а с е о р ѕ х у ј`, `è ì` by `ѐ ѝ`, and the capitals `A B C E
/// H J K M O P S T X Y È Ì` by `А В С Е Н Ј К М О Р Ѕ Т Х У Ѐ Ѝ`) and keeps
/// every other character, one for one.
pub proof fn lemma_lookalike_twins(w: Seq<char>, k: int)
    requires
        forall|j: int| 0 <= j < w.len() ==> foreign_cyrillic(#[trigger] w[j]) is None,
        0 <= k < w.len(),
    ensures
        normalized(w).len() == w.len(),
        ({
            let c = w[k];
            let n = normalized(w)[k];
            &&& c == 'a' ==> n == 'а'
            &&& c == 'c' ==> n == 'с'
            &&& c == 'e' ==> n == 'е'
            &&& c == 'è' ==> n == 'ѐ'
            &&& c == 'È' ==> n == 'Ѐ'
            &&& c == 'ì' ==> n == 'ѝ'
            &&& c == 'Ì' ==> n == 'Ѝ'
            &&& c == 'j' ==> n == 'ј'
            &&& c == 'o' ==> n == 'о'
            &&& c == 'p' ==> n == 'р'
            &&& c == 's' ==> n == 'ѕ'
            &&& c == 'x' ==> n == 'х'
            &&& c == 'y' ==> n == 'у'
            &&& c == 'A' ==> n == 'А'
            &&& c == 'B' ==> n == 'В'
            &&& c == 'C' ==> n == 'С'
            &&& c == 'E' ==> n == 'Е'
            &&& c == 'H' ==> n == 'Н'
            &&& c == 'J' ==> n == 'Ј'
            &&& c == 'K' ==> n == 'К'
            &&& c == 'M' ==> n == 'М'
            &&& c == 'O' ==> n == 'О'
            &&& c == 'P' ==> n == 'Р'
            &&& c == 'S' ==> n == 'Ѕ'
            &&& c == 'T' ==> n == 'Т'
            &&& c == 'X' ==> n == 'Х'
            &&& c == 'Y' ==> n == 'У'
            &&& !(c == 'a' || c == 'c' || c == 'e' || c == 'è' || c == 'È' || c == 'ì' || c == 'Ì' || c == 'j' || c == 'o' || c == 'p' || c == 's' || c == 'x' || c == 'y' || c == 'A' || c == 'B' || c == 'C' || c == 'E' || c == 'H' || c == 'J' || c == 'K' || c == 'M' || c == 'O' || c == 'P' || c == 'S' || c == 'T' || c == 'X' || c == 'Y') ==> n == c
        }),
{
    lemma_normalized_pointwise(w);
    assert(normalized(w)[k] == (match latin_lookalike(w[k]) {
        Some(m) => m,
        None => w[k],
    }));
}

} // verus!
