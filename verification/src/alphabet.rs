//! The Macedonian alphabet, and script classification for individual characters.
//!
//! Macedonian uses a 31-letter Cyrillic alphabet. Any Cyrillic letter *outside*
//! that set (Russian `ъ ы э я ю щ ё`, Serbian `ђ ћ`, Ukrainian `і ї`) is a
//! reliable signal that the text came from the wrong keyboard layout or was
//! pasted from another language.

use vstd::prelude::*;
use crate::text::{
    ascii_alphabetic, char_to_lowercase, is_alphabetic, is_ascii_alphabetic, unicode_alphabetic,
    unicode_char_lower,
};

verus! {

/// The 31 letters of the Macedonian alphabet, lowercase, in alphabetical order.
pub const MK_LETTERS: [char; 31] = [
    'а', 'б', 'в', 'г', 'д', 'ѓ', 'е', 'ж', 'з', 'ѕ', 'и', 'ј', 'к', 'л', 'љ', 'м', 'н', 'њ', 'о',
    'п', 'р', 'с', 'т', 'ќ', 'у', 'ф', 'х', 'ц', 'ч', 'џ', 'ш',
];

/// Grave-accented vowels. These are not separate letters of the alphabet, but
/// they are correct Macedonian spelling: the accent is what separates two words
/// that are otherwise identical (`сѐ` "everything" vs `се`, `ѝ` "to her" vs
/// `и` "and"). The correct characters are Cyrillic `ѐ` U+0450 and `ѝ` U+045D;
/// the Latin lookalikes `è` U+00E8 and `ì` U+00EC stay wrong.
pub const MK_ACCENTED: [char; 2] = ['ѐ', 'ѝ'];

/// Which writing system a character belongs to.
#[derive(Debug, Clone, Copy, PartialEq, Eq, Hash, Structural)]
pub enum Script {
    /// A letter in the 31-letter Macedonian alphabet.
    Macedonian,
    /// A Cyrillic letter that is *not* part of the Macedonian alphabet.
    ForeignCyrillic,
    /// A Latin letter.
    Latin,
    /// A decimal digit.
    Digit,
    /// Anything else: punctuation, whitespace, symbols.
    Other,
}

/// The lowercase Macedonian letters and accented vowels, as a sequence.
pub open spec fn mk_lowercase_letters() -> Seq<char> {
    MK_LETTERS@ + MK_ACCENTED@
}

/// The single character `is_mk_letter` compares: the first character of the
/// lowercase mapping of `c`.
pub open spec fn first_lower(c: char) -> char {
    unicode_char_lower(c)[0]
}

/// `c` is one of the 31 Macedonian letters or an accented vowel, in either case.
pub open spec fn mk_letter(c: char) -> bool {
    mk_lowercase_letters().contains(first_lower(c))
}

/// `c` lies in one of the Unicode Cyrillic blocks: Cyrillic, Cyrillic
/// Supplement, and Cyrillic Extended-A, -B, -C and -D.
pub open spec fn cyrillic(c: char) -> bool {
    ||| ('\u{0400}' <= c && c <= '\u{04FF}')
    ||| ('\u{0500}' <= c && c <= '\u{052F}')
    ||| ('\u{2DE0}' <= c && c <= '\u{2DFF}')
    ||| ('\u{A640}' <= c && c <= '\u{A69F}')
    ||| ('\u{1C80}' <= c && c <= '\u{1C8F}')
    ||| ('\u{1E030}' <= c && c <= '\u{1E08F}')
}

/// `c` lies in one of the Unicode blocks of the Latin script: Latin-1
/// Supplement and Latin Extended-A and -B, IPA Extensions, Phonetic
/// Extensions and their Supplement, Latin Extended Additional, Latin
/// Extended-C, -D and -E, and the fullwidth Latin letters.
pub open spec fn latin_block(c: char) -> bool {
    ||| ('\u{00C0}' <= c && c <= '\u{02AF}')
    ||| ('\u{1D00}' <= c && c <= '\u{1DBF}')
    ||| ('\u{1E00}' <= c && c <= '\u{1EFF}')
    ||| ('\u{2C60}' <= c && c <= '\u{2C7F}')
    ||| ('\u{A720}' <= c && c <= '\u{A7FF}')
    ||| ('\u{AB30}' <= c && c <= '\u{AB6F}')
    ||| ('\u{FF21}' <= c && c <= '\u{FF3A}')
    ||| ('\u{FF41}' <= c && c <= '\u{FF5A}')
}

/// A Latin letter: an ASCII letter, or a letter of a Latin block (`ž`, `č`,
/// `ǵ`, `ḱ`, `è` …).
pub open spec fn latin_letter(c: char) -> bool {
    ascii_alphabetic(c) || (unicode_alphabetic(c) && latin_block(c))
}

/// A decimal digit, `0` to `9`.
pub open spec fn decimal_digit(c: char) -> bool {
    '0' <= c && c <= '9'
}

/// The script class of `c`, rule by rule.
pub open spec fn script(c: char) -> Script {
    if mk_letter(c) {
        Script::Macedonian
    } else if cyrillic(c) {
        Script::ForeignCyrillic
    } else if latin_letter(c) {
        Script::Latin
    } else if decimal_digit(c) {
        Script::Digit
    } else {
        Script::Other
    }
}

/// An apostrophe: the only character besides a letter that may start a word
/// (`'рж`, `'рбет`).
pub open spec fn apostrophe(c: char) -> bool {
    c == '\'' || c == '\u{2019}' || c == '\u{02BC}'
}

/// Characters that may appear *inside* a Macedonian word: the apostrophes
/// (syllabic schwa in `к'смет`, `'рж`) and the hyphen (`црно-бел`, `д-р`, `1-ви`).
pub open spec fn word_internal(c: char) -> bool {
    c == '\'' || c == '\u{2019}' || c == '\u{02BC}' || c == '-'
}

/// True if `c` is one of the 31 Macedonian letters or an accented vowel,
/// in either case.
pub fn is_mk_letter(c: char) -> (r: bool)
    ensures
        r == mk_letter(c),
{
    let lowered = char_to_lowercase(c);
    let lower = lowered.as_str().get_char(0);
    let letters = MK_LETTERS;
    let mut i: usize = 0;
    while i < 31
        invariant
            0 <= i <= 31,
            letters@ == MK_LETTERS@,
            lower == first_lower(c),
            forall|j: int| 0 <= j < i ==> letters@[j] != lower,
        decreases 31 - i,
    {
        if letters[i] == lower {
            proof {
                assert(mk_lowercase_letters()[i as int] == lower);
            }
            return true;
        }
        i = i + 1;
    }
    let accented = MK_ACCENTED;
    let found = accented[0] == lower || accented[1] == lower;
    proof {
        let all = mk_lowercase_letters();
        if found {
            if accented[0] == lower {
                assert(all[31] == lower);
            } else {
                assert(all[32] == lower);
            }
        } else {
            assert forall|j: int| 0 <= j < all.len() implies all[j] != lower by {
                if j < 31 {
                    assert(all[j] == letters@[j]);
                } else {
                    assert(all[j] == accented@[j - 31]);
                }
            }
        }
    }
    found
}

/// True if `c` lies in one of the Unicode Cyrillic blocks.
pub fn is_cyrillic(c: char) -> (r: bool)
    ensures
        r == cyrillic(c),
{
    ('\u{0400}' <= c && c <= '\u{04FF}') || ('\u{0500}' <= c && c <= '\u{052F}') || ('\u{2DE0}'
        <= c && c <= '\u{2DFF}') || ('\u{A640}' <= c && c <= '\u{A69F}') || ('\u{1C80}' <= c && c
        <= '\u{1C8F}') || ('\u{1E030}' <= c && c <= '\u{1E08F}')
}

/// True if `c` lies in a block of the Latin script.
fn in_latin_block(c: char) -> (r: bool)
    ensures
        r == latin_block(c),
{
    ('\u{00C0}' <= c && c <= '\u{02AF}') || ('\u{1D00}' <= c && c <= '\u{1DBF}') || ('\u{1E00}'
        <= c && c <= '\u{1EFF}') || ('\u{2C60}' <= c && c <= '\u{2C7F}') || ('\u{A720}' <= c && c
        <= '\u{A7FF}') || ('\u{AB30}' <= c && c <= '\u{AB6F}') || ('\u{FF21}' <= c && c
        <= '\u{FF3A}') || ('\u{FF41}' <= c && c <= '\u{FF5A}')
}

/// Classify a single character.
pub fn script_of(c: char) -> (r: Script)
    ensures
        r == script(c),
{
    if is_mk_letter(c) {
        Script::Macedonian
    } else if is_cyrillic(c) {
        Script::ForeignCyrillic
    } else if is_ascii_alphabetic(c) || (is_alphabetic(c) && in_latin_block(c)) {
        Script::Latin
    } else if '0' <= c && c <= '9' {
        Script::Digit
    } else {
        Script::Other
    }
}

/// True for an apostrophe, which may start a word.
pub fn is_apostrophe(c: char) -> (r: bool)
    ensures
        r == apostrophe(c),
{
    c == '\'' || c == '\u{2019}' || c == '\u{02BC}'
}

/// Characters that may appear *inside* a Macedonian word.
pub fn is_word_internal(c: char) -> (r: bool)
    ensures
        r == word_internal(c),
{
    c == '\'' || c == '\u{2019}' || c == '\u{02BC}' || c == '-'
}

} // verus!
