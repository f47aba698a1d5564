//! Stable rule identifiers. These end up in the UI and in test fixtures, so
//! they are part of the public contract and must not be renamed casually.

use vstd::prelude::*;

verus! {

/// Word is absent from the lexicon.
pub const SPELL: &'static str = "MK_SPELL";

/// Word mixes Latin and Cyrillic characters that look alike.
pub const HOMOGLYPH: &'static str = "MK_HOMOGLYPH";

/// Word contains Cyrillic letters outside the Macedonian alphabet.
pub const FOREIGN_CYRILLIC: &'static str = "MK_FOREIGN_CYRILLIC";

/// Word appears to be Macedonian typed in the Latin alphabet.
pub const LATIN_TEXT: &'static str = "MK_LATIN_TEXT";

/// The definite article is marked on both the adjective and the noun.
pub const DOUBLE_DEFINITE: &'static str = "MK_DOUBLE_DEFINITE";

/// A dative clitic follows an accusative one: `ми го` ✓, `го ми` ✗.
pub const CLITIC_ORDER: &'static str = "MK_CLITIC_ORDER";

/// Bare `и` where the dative clitic `ѝ` belongs.
pub const DATIVE_I: &'static str = "MK_DATIVE_I";

/// An л-participle disagreeing with its subject: `таа дошол` ✗.
pub const L_PARTICIPLE: &'static str = "MK_L_PARTICIPLE";

} // verus!
