//! Morphological analysis: surface form → lemma plus grammatical features.
//!
//! Spelling only needs to know *whether* a word exists. Grammar needs to know
//! *what it is* — that `книгата` is a definite feminine singular noun, that
//! `дошла` is a feminine л-participle. This module provides that lookup.
//!
//! # Storage
//!
//! Analyses are enormously repetitive, so everything is interned: tag names
//! appear once in a vocabulary, lemmas once in a table, each distinct
//! combination of tags once, and an analysis is then a pair of integer ids.
//! The whole structure, FST included, serialises to one self-contained blob.
//!
//! # Binary format
//!
//! All integers little-endian.
//!
//! ```text
//! magic     "MKMORPH2"                       8 bytes
//! fst       u32 length, then that many bytes  (surface -> entry index)
//! vocab     u32 count, each: u16 len + UTF-8  (tag names)
//! lemmas    u32 count, each: u16 len + UTF-8
//! tagsets   u32 count, each: u8 len + u16 vocab ids
//! entries   u32 count, each: u8 len + (u32 lemma id, u32 tagset id) pairs
//! lp_forms  u32 count, each: u32 lemma id + u16 len + UTF-8 surface
//! ```

use vstd::prelude::*;
use vstd::utf8::{encode_utf8, valid_utf8, decode_utf8};
use crate::text::{to_lowercase, str_eq, unicode_lower, chars_of, push_char};
use crate::fst_store::{
    map_entries, map_intact, map_get, map_len, map_loads, map_from_bytes, map_source, map_encoding,
    entries_map, entry_keys, keys_strictly_ascending, map_count,
};
use crate::codec::{le16, le32, read_u16, read_u32, read_text, TextRead};

verus! {

broadcast use vstd::seq_lib::group_seq_properties;

/// Something went wrong loading or building a morphology table.
#[derive(Debug)]
pub enum MorphError {
    /// The blob is not a morphology file.
    BadMagic,
    /// The blob ended in the middle of a structure.
    Truncated,
    /// An id pointed outside its table.
    BadIndex,
    /// A tag name or lemma was not valid UTF-8.
    BadUtf8,
    /// The underlying FST rejected the data.
    Fst(fst::Error),
}

impl MorphError {
    /// The message shown for this error.
    pub fn message(&self) -> (r: String)
        ensures
            match self {
                MorphError::BadMagic => r@ == "not a morphology file"@,
                MorphError::Truncated => r@ == "morphology data ends unexpectedly"@,
                MorphError::BadIndex => r@ == "morphology data has an out-of-range index"@,
                MorphError::BadUtf8 => r@ == "morphology data has invalid UTF-8"@,
                MorphError::Fst(_) => "fst: "@.is_prefix_of(r@),
            },
    {
        match self {
            MorphError::BadMagic => String::from_str("not a morphology file"),
            MorphError::Truncated => String::from_str("morphology data ends unexpectedly"),
            MorphError::BadIndex => String::from_str("morphology data has an out-of-range index"),
            MorphError::BadUtf8 => String::from_str("morphology data has invalid UTF-8"),
            MorphError::Fst(e) => {
                let mut out = String::from_str("fst: ");
                let text = fst_error_text(e);
                let cs = chars_of(text.as_str());
                let mut i: usize = 0;
                while i < cs.len()
                    invariant
                        0 <= i <= cs@.len(),
                        out@ == "fst: "@ + cs@.take(i as int),
                    decreases cs.len() - i,
                {
                    push_char(&mut out, cs[i]);
                    proof {
                        assert(cs@.take(i + 1) =~= cs@.take(i as int).push(cs@[i as int]));
                        assert(out@ =~= "fst: "@ + cs@.take(i + 1));
                    }
                    i = i + 1;
                }
                proof {
                    assert(out@.subrange(0, "fst: "@.len() as int) =~= "fst: "@);
                }
                out
            },
        }
    }
}

impl From<fst::Error> for MorphError {
    fn from(e: fst::Error) -> (r: Self) {
        MorphError::Fst(e)
    }
}

impl vstd::std_specs::convert::FromSpecImpl<fst::Error> for MorphError {
    open spec fn obeys_from_spec() -> bool {
        true
    }

    open spec fn from_spec(e: fst::Error) -> MorphError {
        MorphError::Fst(e)
    }
}

/// The `Display` text of an `fst` error. What it says is left unstated.
#[verifier::external_body]
fn fst_error_text(e: &fst::Error) -> String {
    e.to_string()
}

/// Part of speech, for the categories grammar rules actually branch on.
#[derive(Debug, Clone, Copy, PartialEq, Eq, Structural)]
pub enum Pos {
    Noun,
    ProperNoun,
    Adjective,
    Verb,
    Pronoun,
    Preposition,
    Conjunction,
    Numeral,
    Adverb,
    Particle,
    Determiner,
    Interjection,
    Abbreviation,
}

/// Grammatical gender. Macedonian marks three, plus underspecified forms.
#[derive(Debug, Clone, Copy, PartialEq, Eq, Structural)]
pub enum Gender {
    Masculine,
    Feminine,
    Neuter,
    /// Shared across genders — the tag `mfn` or `mf`.
    Common,
}

/// Grammatical number.
#[derive(Debug, Clone, Copy, PartialEq, Eq, Structural)]
pub enum Number {
    Singular,
    Plural,
    /// The count form after a numeral: `два стола`, not `два столови`.
    Count,
}

/// Macedonian marks definiteness as a suffix, in three deictic series.
#[derive(Debug, Clone, Copy, PartialEq, Eq, Structural)]
pub enum Definiteness {
    /// No article: `книга`.
    Indefinite,
    /// Neutral `-от/-та/-то`: `книгата`.
    Definite,
    /// Proximate `-ов/-ва/-во`: `книгава` — near the speaker.
    Proximate,
    /// Distal `-он/-на/-но`: `книгана` — away from both.
    Distal,
}

/// The part of speech a tag names.
pub open spec fn tag_pos(t: Seq<char>) -> Option<Pos> {
    if t == "n"@ {
        Some(Pos::Noun)
    } else if t == "np"@ {
        Some(Pos::ProperNoun)
    } else if t == "adj"@ {
        Some(Pos::Adjective)
    } else if t == "vblex"@ || t == "vbser"@ || t == "vbhaver"@ || t == "vbmod"@ || t == "vaux"@ {
        Some(Pos::Verb)
    } else if t == "prn"@ {
        Some(Pos::Pronoun)
    } else if t == "pr"@ {
        Some(Pos::Preposition)
    } else if t == "cnjcoo"@ || t == "cnjsub"@ || t == "cnjadv"@ {
        Some(Pos::Conjunction)
    } else if t == "num"@ {
        Some(Pos::Numeral)
    } else if t == "adv"@ {
        Some(Pos::Adverb)
    } else if t == "part"@ {
        Some(Pos::Particle)
    } else if t == "det"@ {
        Some(Pos::Determiner)
    } else if t == "ij"@ {
        Some(Pos::Interjection)
    } else if t == "abbr"@ {
        Some(Pos::Abbreviation)
    } else {
        None
    }
}

/// The gender a tag names; `mi`/`ma` split masculine by animacy.
pub open spec fn tag_gender(t: Seq<char>) -> Option<Gender> {
    if t == "m"@ || t == "mi"@ || t == "ma"@ {
        Some(Gender::Masculine)
    } else if t == "f"@ {
        Some(Gender::Feminine)
    } else if t == "nt"@ {
        Some(Gender::Neuter)
    } else if t == "mfn"@ || t == "mf"@ {
        Some(Gender::Common)
    } else {
        None
    }
}

/// The number a tag names.
pub open spec fn tag_number(t: Seq<char>) -> Option<Number> {
    if t == "sg"@ {
        Some(Number::Singular)
    } else if t == "pl"@ {
        Some(Number::Plural)
    } else if t == "ct"@ {
        Some(Number::Count)
    } else {
        None
    }
}

/// The definiteness a tag names.
pub open spec fn tag_definiteness(t: Seq<char>) -> Option<Definiteness> {
    if t == "ind"@ {
        Some(Definiteness::Indefinite)
    } else if t == "def"@ {
        Some(Definiteness::Definite)
    } else if t == "prx"@ {
        Some(Definiteness::Proximate)
    } else if t == "dst"@ {
        Some(Definiteness::Distal)
    } else {
        None
    }
}

/// The feature named by the first tag that names one.
pub open spec fn first_feature<T>(tags: Seq<Seq<char>>, f: spec_fn(Seq<char>) -> Option<T>) -> Option<T>
    decreases tags.len(),
{
    if tags.len() == 0 {
        None
    } else {
        match first_feature(tags.drop_last(), f) {
            Some(x) => Some(x),
            None => f(tags.last()),
        }
    }
}

/// A reading: its lemma and its tag names, in order.
pub struct Reading {
    pub lemma: Seq<char>,
    pub tags: Seq<Seq<char>>,
}

/// The part of speech of a reading.
pub open spec fn reading_pos(r: Reading) -> Option<Pos> {
    first_feature(r.tags, |t: Seq<char>| tag_pos(t))
}

/// The gender of a reading.
pub open spec fn reading_gender(r: Reading) -> Option<Gender> {
    first_feature(r.tags, |t: Seq<char>| tag_gender(t))
}

/// The number of a reading.
pub open spec fn reading_number(r: Reading) -> Option<Number> {
    first_feature(r.tags, |t: Seq<char>| tag_number(t))
}

/// The definiteness of a reading.
pub open spec fn reading_definiteness(r: Reading) -> Option<Definiteness> {
    first_feature(r.tags, |t: Seq<char>| tag_definiteness(t))
}

/// The reading carries a definite article of some series.
pub open spec fn reading_is_definite(r: Reading) -> bool {
    match reading_definiteness(r) {
        Some(Definiteness::Definite) | Some(Definiteness::Proximate) | Some(Definiteness::Distal) => true,
        _ => false,
    }
}

/// The reading is an л-participle.
pub open spec fn reading_is_l_participle(r: Reading) -> bool {
    r.tags.contains("lp"@)
}

/// A single reading of a surface form.
#[derive(Clone, Copy)]
pub struct Analysis<'a> {
    lemma: &'a str,
    tags: &'a [u16],
    vocab: &'a [String],
}

impl<'a> Analysis<'a> {
    #[verifier::type_invariant]
    spec fn inv(&self) -> bool {
        forall|i: int| 0 <= i < self.tags@.len() ==> (#[trigger] self.tags@[i]) < self.vocab@.len()
    }
}

impl<'a> View for Analysis<'a> {
    type V = Reading;

    closed spec fn view(&self) -> Reading {
        Reading {
            lemma: self.lemma@,
            tags: self.tags@.map_values(|id: u16| self.vocab@[id as int]@),
        }
    }
}

/// The part of speech a tag names.
fn pos_of_tag(t: &str) -> (r: Option<Pos>)
    ensures
        r == tag_pos(t@),
{
    if str_eq(t, "n") {
        Some(Pos::Noun)
    } else if str_eq(t, "np") {
        Some(Pos::ProperNoun)
    } else if str_eq(t, "adj") {
        Some(Pos::Adjective)
    } else if str_eq(t, "vblex") || str_eq(t, "vbser") || str_eq(t, "vbhaver") || str_eq(t, "vbmod")
        || str_eq(t, "vaux") {
        Some(Pos::Verb)
    } else if str_eq(t, "prn") {
        Some(Pos::Pronoun)
    } else if str_eq(t, "pr") {
        Some(Pos::Preposition)
    } else if str_eq(t, "cnjcoo") || str_eq(t, "cnjsub") || str_eq(t, "cnjadv") {
        Some(Pos::Conjunction)
    } else if str_eq(t, "num") {
        Some(Pos::Numeral)
    } else if str_eq(t, "adv") {
        Some(Pos::Adverb)
    } else if str_eq(t, "part") {
        Some(Pos::Particle)
    } else if str_eq(t, "det") {
        Some(Pos::Determiner)
    } else if str_eq(t, "ij") {
        Some(Pos::Interjection)
    } else if str_eq(t, "abbr") {
        Some(Pos::Abbreviation)
    } else {
        None
    }
}

/// The gender a tag names.
fn gender_of_tag(t: &str) -> (r: Option<Gender>)
    ensures
        r == tag_gender(t@),
{
    if str_eq(t, "m") || str_eq(t, "mi") || str_eq(t, "ma") {
        Some(Gender::Masculine)
    } else if str_eq(t, "f") {
        Some(Gender::Feminine)
    } else if str_eq(t, "nt") {
        Some(Gender::Neuter)
    } else if str_eq(t, "mfn") || str_eq(t, "mf") {
        Some(Gender::Common)
    } else {
        None
    }
}

/// The number a tag names.
fn number_of_tag(t: &str) -> (r: Option<Number>)
    ensures
        r == tag_number(t@),
{
    if str_eq(t, "sg") {
        Some(Number::Singular)
    } else if str_eq(t, "pl") {
        Some(Number::Plural)
    } else if str_eq(t, "ct") {
        Some(Number::Count)
    } else {
        None
    }
}

/// The definiteness a tag names.
fn definiteness_of_tag(t: &str) -> (r: Option<Definiteness>)
    ensures
        r == tag_definiteness(t@),
{
    if str_eq(t, "ind") {
        Some(Definiteness::Indefinite)
    } else if str_eq(t, "def") {
        Some(Definiteness::Definite)
    } else if str_eq(t, "prx") {
        Some(Definiteness::Proximate)
    } else if str_eq(t, "dst") {
        Some(Definiteness::Distal)
    } else {
        None
    }
}

impl<'a> Analysis<'a> {
    /// The dictionary form.
    pub fn lemma(&self) -> (r: &'a str)
        ensures
            r@ == self@.lemma,
    {
        self.lemma
    }

    /// The name of tag `i`.
    fn tag_name(&self, i: usize) -> (r: &'a str)
        requires
            i < self@.tags.len(),
        ensures
            r@ == self@.tags[i as int],
    {
        proof {
            use_type_invariant(self);
        }
        self.vocab[self.tags[i] as usize].as_str()
    }

    /// Every Apertium tag on this reading, in order.
    pub fn tags(&self) -> (r: Vec<&'a str>)
        ensures
            r@.map_values(|t: &str| t@) == self@.tags,
    {
        let mut out: Vec<&'a str> = Vec::new();
        let mut i: usize = 0;
        while i < self.tags.len()
            invariant
                0 <= i <= self@.tags.len(),
                self.tags@.len() == self@.tags.len(),
                out@.map_values(|t: &str| t@) == self@.tags.take(i as int),
            decreases self.tags.len() - i,
        {
            let t = self.tag_name(i);
            let ghost before = out@.map_values(|t: &str| t@);
            out.push(t);
            proof {
                assert(out@.map_values(|t: &str| t@) =~= before.push(t@));
                assert(self@.tags.take(i + 1) =~= self@.tags.take(i as int).push(self@.tags[i as int]));
            }
            i = i + 1;
        }
        proof {
            assert(self@.tags.take(i as int) =~= self@.tags);
        }
        out
    }

    /// Does this reading carry `tag`? Tag names are Apertium's, e.g. `"lp"`.
    pub fn has(&self, tag: &str) -> (r: bool)
        ensures
            r == self@.tags.contains(tag@),
    {
        let mut i: usize = 0;
        while i < self.tags.len()
            invariant
                0 <= i <= self@.tags.len(),
                self.tags@.len() == self@.tags.len(),
                forall|k: int| 0 <= k < i ==> self@.tags[k] != tag@,
            decreases self.tags.len() - i,
        {
            if str_eq(self.tag_name(i), tag) {
                return true;
            }
            i = i + 1;
        }
        false
    }

    /// The part of speech: the first tag that names one.
    pub fn pos(&self) -> (r: Option<Pos>)
        ensures
            r == reading_pos(self@),
    {
        let ghost tags = self@.tags;
        let ghost f = |t: Seq<char>| tag_pos(t);
        let mut i: usize = 0;
        while i < self.tags.len()
            invariant
                0 <= i <= tags.len(),
                tags == self@.tags,
                self.tags@.len() == tags.len(),
                f == (|t: Seq<char>| tag_pos(t)),
                first_feature(tags.take(i as int), f) is None,
            decreases self.tags.len() - i,
        {
            let found = pos_of_tag(self.tag_name(i));
            proof {
                assert(tags.take(i + 1).drop_last() =~= tags.take(i as int));
            }
            if found.is_some() {
                proof {
                    lemma_first_feature_prefix(tags, f, i + 1);
                }
                return found;
            }
            i = i + 1;
        }
        proof {
            assert(tags.take(i as int) =~= tags);
        }
        None
    }

    /// The gender: the first tag that names one.
    pub fn gender(&self) -> (r: Option<Gender>)
        ensures
            r == reading_gender(self@),
    {
        let ghost tags = self@.tags;
        let ghost f = |t: Seq<char>| tag_gender(t);
        let mut i: usize = 0;
        while i < self.tags.len()
            invariant
                0 <= i <= tags.len(),
                tags == self@.tags,
                self.tags@.len() == tags.len(),
                f == (|t: Seq<char>| tag_gender(t)),
                first_feature(tags.take(i as int), f) is None,
            decreases self.tags.len() - i,
        {
            let found = gender_of_tag(self.tag_name(i));
            proof {
                assert(tags.take(i + 1).drop_last() =~= tags.take(i as int));
            }
            if found.is_some() {
                proof {
                    lemma_first_feature_prefix(tags, f, i + 1);
                }
                return found;
            }
            i = i + 1;
        }
        proof {
            assert(tags.take(i as int) =~= tags);
        }
        None
    }

    /// The number: the first tag that names one.
    pub fn number(&self) -> (r: Option<Number>)
        ensures
            r == reading_number(self@),
    {
        let ghost tags = self@.tags;
        let ghost f = |t: Seq<char>| tag_number(t);
        let mut i: usize = 0;
        while i < self.tags.len()
            invariant
                0 <= i <= tags.len(),
                tags == self@.tags,
                self.tags@.len() == tags.len(),
                f == (|t: Seq<char>| tag_number(t)),
                first_feature(tags.take(i as int), f) is None,
            decreases self.tags.len() - i,
        {
            let found = number_of_tag(self.tag_name(i));
            proof {
                assert(tags.take(i + 1).drop_last() =~= tags.take(i as int));
            }
            if found.is_some() {
                proof {
                    lemma_first_feature_prefix(tags, f, i + 1);
                }
                return found;
            }
            i = i + 1;
        }
        proof {
            assert(tags.take(i as int) =~= tags);
        }
        None
    }

    /// The definiteness: the first tag that names one.
    pub fn definiteness(&self) -> (r: Option<Definiteness>)
        ensures
            r == reading_definiteness(self@),
    {
        let ghost tags = self@.tags;
        let ghost f = |t: Seq<char>| tag_definiteness(t);
        let mut i: usize = 0;
        while i < self.tags.len()
            invariant
                0 <= i <= tags.len(),
                tags == self@.tags,
                self.tags@.len() == tags.len(),
                f == (|t: Seq<char>| tag_definiteness(t)),
                first_feature(tags.take(i as int), f) is None,
            decreases self.tags.len() - i,
        {
            let found = definiteness_of_tag(self.tag_name(i));
            proof {
                assert(tags.take(i + 1).drop_last() =~= tags.take(i as int));
            }
            if found.is_some() {
                proof {
                    lemma_first_feature_prefix(tags, f, i + 1);
                }
                return found;
            }
            i = i + 1;
        }
        proof {
            assert(tags.take(i as int) =~= tags);
        }
        None
    }

    /// True for the л-participle (`дошол`, `дошла`, `дошле`), which must agree
    /// with its subject in gender and number.
    pub fn is_l_participle(&self) -> (r: bool)
        ensures
            r == reading_is_l_participle(self@),
    {
        self.has("lp")
    }

    /// True when the form carries any definite article.
    pub fn is_definite(&self) -> (r: bool)
        ensures
            r == reading_is_definite(self@),
            r == (reading_definiteness(self@) is Some && reading_definiteness(self@) != Some(
                Definiteness::Indefinite,
            )),
    {
        match self.definiteness() {
            Some(Definiteness::Definite) | Some(Definiteness::Proximate) | Some(
                Definiteness::Distal,
            ) => true,
            _ => false,
        }
    }
}

/// Once a prefix names a feature, the whole sequence names the same one.
proof fn lemma_first_feature_prefix<T>(tags: Seq<Seq<char>>, f: spec_fn(Seq<char>) -> Option<T>, i: int)
    requires
        0 <= i <= tags.len(),
        first_feature(tags.take(i), f) is Some,
    ensures
        first_feature(tags, f) == first_feature(tags.take(i), f),
    decreases tags.len() - i,
{
    if i < tags.len() {
        assert(tags.drop_last().take(i) =~= tags.take(i));
        lemma_first_feature_prefix(tags.drop_last(), f, i);
    } else {
        assert(tags.take(i) =~= tags);
    }
}

/// Surface form → analyses.
pub struct Morphology {
    map: fst::Map<Vec<u8>>,
    vocab: Vec<String>,
    lemmas: Vec<String>,
    tagsets: Vec<Vec<u16>>,
    /// Per entry, the (lemma id, tagset id) pairs making up its readings.
    entries: Vec<Vec<(u32, u32)>>,
    /// (lemma id, surface) for readings tagged `lp`: the reverse index rules
    /// use to propose an agreeing participle.
    lp_forms: Vec<(u32, String)>,
}

/// The content of a morphology table.
pub struct MorphTables {
    pub vocab: Seq<Seq<char>>,
    pub lemmas: Seq<Seq<char>>,
    pub tagsets: Seq<Seq<u16>>,
    pub entries: Seq<Seq<(u32, u32)>>,
    pub lp_forms: Seq<(u32, Seq<char>)>,
}

/// Every id in the tables points inside its table.
pub open spec fn tables_wf(t: MorphTables) -> bool {
    &&& forall|i: int, j: int|
        0 <= i < t.tagsets.len() && 0 <= j < t.tagsets[i].len() ==> (#[trigger] t.tagsets[i][j])
            < t.vocab.len()
    &&& forall|i: int, j: int|
        0 <= i < t.entries.len() && 0 <= j < t.entries[i].len() ==> (#[trigger] t.entries[i][j]).0
            < t.lemmas.len() && t.entries[i][j].1 < t.tagsets.len()
    &&& forall|i: int| 0 <= i < t.lp_forms.len() ==> (#[trigger] t.lp_forms[i]).0 < t.lemmas.len()
}

/// The reading made of lemma `l` and tagset `ts`.
pub open spec fn reading_of(t: MorphTables, pair: (u32, u32)) -> Reading {
    Reading {
        lemma: t.lemmas[pair.0 as int],
        tags: t.tagsets[pair.1 as int].map_values(|id: u16| t.vocab[id as int]),
    }
}

/// The readings stored at entry `index`; none when there is no such entry.
pub open spec fn readings_at(t: MorphTables, index: int) -> Seq<Reading> {
    if 0 <= index < t.entries.len() {
        t.entries[index].map_values(|pair: (u32, u32)| reading_of(t, pair))
    } else {
        Seq::empty()
    }
}

/// The entry index of `form`: as written, else lowercased.
pub open spec fn lookup(forms: Map<Seq<u8>, u64>, form: Seq<char>) -> Option<u64> {
    if forms.contains_key(encode_utf8(form)) {
        Some(forms[encode_utf8(form)])
    } else if forms.contains_key(encode_utf8(unicode_lower(form))) {
        Some(forms[encode_utf8(unicode_lower(form))])
    } else {
        None
    }
}

/// The first position of `x` in `xs`.
pub open spec fn first_index(xs: Seq<Seq<char>>, x: Seq<char>) -> Option<int>
    decreases xs.len(),
{
    if xs.len() == 0 {
        None
    } else {
        match first_index(xs.drop_last(), x) {
            Some(i) => Some(i),
            None => if xs.last() == x {
                Some(xs.len() - 1)
            } else {
                None
            },
        }
    }
}

/// The surfaces of the rows for lemma id `id`, in order.
pub open spec fn surfaces_of(rows: Seq<(u32, Seq<char>)>, id: u32) -> Seq<Seq<char>>
    decreases rows.len(),
{
    if rows.len() == 0 {
        Seq::empty()
    } else {
        let rest = surfaces_of(rows.drop_last(), id);
        if rows.last().0 == id {
            rest.push(rows.last().1)
        } else {
            rest
        }
    }
}

impl Morphology {
    #[verifier::type_invariant]
    spec fn inv(&self) -> bool {
        tables_wf(self.tables())
    }

    /// The interned tables.
    pub closed spec fn tables(&self) -> MorphTables {
        MorphTables {
            vocab: self.vocab@.map_values(|s: String| s@),
            lemmas: self.lemmas@.map_values(|s: String| s@),
            tagsets: self.tagsets@.map_values(|v: Vec<u16>| v@),
            entries: self.entries@.map_values(|v: Vec<(u32, u32)>| v@),
            lp_forms: self.lp_forms@.map_values(|r: (u32, String)| (r.0, r.1@)),
        }
    }

    /// Surface form bytes → entry index, as the FST holds them.
    pub closed spec fn forms(&self) -> Map<Seq<u8>, u64> {
        map_entries(self.map)
    }

    /// The number of surface forms the FST's header records; for a loaded
    /// table, the number of forms it holds.
    pub closed spec fn count(&self) -> nat {
        map_count(self.map)
    }

    /// The FST was loaded from bytes a map builder wrote, so that its reads
    /// answer for the entries written.
    pub closed spec fn loaded(&self) -> bool {
        map_intact(self.map)
    }

    /// Every reading of `form`.
    pub open spec fn analyses_of(&self, form: Seq<char>) -> Seq<Reading> {
        match lookup(self.forms(), form) {
            Some(i) => readings_at(self.tables(), i as int),
            None => Seq::empty(),
        }
    }

    /// The stored л-participle surfaces of `lemma`.
    pub open spec fn participles_of(&self, lemma: Seq<char>) -> Seq<Seq<char>> {
        match first_index(self.tables().lemmas, lemma) {
            Some(id) => surfaces_of(self.tables().lp_forms, id as u32),
            None => Seq::empty(),
        }
    }

    /// Number of distinct surface forms.
    pub fn len(&self) -> (r: usize)
        ensures
            r == self.count(),
            self.loaded() ==> r == self.forms().len(),
    {
        map_len(&self.map)
    }

    /// True when no surface form is known.
    pub fn is_empty(&self) -> (r: bool)
        ensures
            r == (self.count() == 0),
            self.loaded() ==> r == (self.forms().len() == 0),
    {
        map_len(&self.map) == 0
    }

    /// Distinct lemmas known to the table.
    pub fn lemma_count(&self) -> (r: usize)
        ensures
            r == self.tables().lemmas.len(),
    {
        self.lemmas.len()
    }

    /// The entry index of `form`: as written, else lowercased.
    fn find(&self, form: &str) -> (r: Option<u64>)
        requires
            self.loaded(),
        ensures
            r == lookup(self.forms(), form@),
    {
        match map_get(&self.map, form.as_bytes()) {
            Some(i) => Some(i),
            None => {
                let lower = to_lowercase(form);
                map_get(&self.map, lower.as_str().as_bytes())
            },
        }
    }

    /// Every reading of `form`. Empty if the form is unknown.
    ///
    /// Lookup is case-insensitive, falling back to the lowercased form so that
    /// a sentence-initial capital still analyses.
    ///
    /// The table must have been loaded around FST bytes a builder wrote:
    /// `fst` can panic walking other bytes.
    pub fn analyze(&self, form: &str) -> (r: Vec<Analysis<'_>>)
        requires
            self.loaded(),
        ensures
            r@.map_values(|a: Analysis<'_>| a@) == self.analyses_of(form@),
    {
        proof {
            use_type_invariant(self);
        }
        let index = match self.find(form) {
            Some(i) => i,
            None => {
                proof {
                    assert(Seq::<Analysis<'_>>::empty().map_values(|a: Analysis<'_>| a@) =~= Seq::<Reading>::empty());
                }
                return Vec::new();
            },
        };
        if index >= self.entries.len() as u64 {
            proof {
                assert(Seq::<Analysis<'_>>::empty().map_values(|a: Analysis<'_>| a@) =~= Seq::<Reading>::empty());
            }
            return Vec::new();
        }
        let readings = &self.entries[index as usize];
        let ghost t = self.tables();
        let mut out: Vec<Analysis<'_>> = Vec::new();
        let mut j: usize = 0;
        while j < readings.len()
            invariant
                0 <= j <= readings@.len(),
                t == self.tables(),
                tables_wf(t),
                index < t.entries.len(),
                readings@ == t.entries[index as int],
                out@.map_values(|a: Analysis<'_>| a@) == readings@.take(j as int).map_values(
                    |pair: (u32, u32)| reading_of(t, pair),
                ),
            decreases readings.len() - j,
        {
            let (lemma_id, tagset_id) = readings[j];
            proof {
                assert(t.entries[index as int][j as int] == (lemma_id, tagset_id));
            }
            let tags = self.tagsets[tagset_id as usize].as_slice();
            proof {
                assert forall|k: int| 0 <= k < tags@.len() implies (#[trigger] tags@[k]) < self.vocab@.len() by {
                    assert(t.tagsets[tagset_id as int][k] == tags@[k]);
                }
            }
            let a = Analysis {
                lemma: self.lemmas[lemma_id as usize].as_str(),
                tags,
                vocab: self.vocab.as_slice(),
            };
            let ghost before = out@.map_values(|a: Analysis<'_>| a@);
            out.push(a);
            proof {
                assert(a@.tags =~= t.tagsets[tagset_id as int].map_values(|id: u16| t.vocab[id as int]));
                assert(a@ == reading_of(t, (lemma_id, tagset_id)));
                assert(out@.map_values(|a: Analysis<'_>| a@) =~= before.push(a@));
                assert(readings@.take(j + 1) =~= readings@.take(j as int).push(readings@[j as int]));
            }
            j = j + 1;
        }
        proof {
            assert(readings@.take(j as int) =~= readings@);
        }
        out
    }

    /// Is `form` known to the morphology at all?
    ///
    /// The table must have been loaded around FST bytes a builder wrote:
    /// `fst` can panic walking other bytes.
    pub fn contains(&self, form: &str) -> (r: bool)
        requires
            self.loaded(),
        ensures
            r == lookup(self.forms(), form@) is Some,
    {
        self.find(form).is_some()
    }

    /// Every stored л-participle surface form of `lemma` (empty when unknown).
    ///
    /// Forward lookup is surface → analyses; this is the narrow reverse index
    /// rules need to propose an agreeing participle without inventing one.
    pub fn participle_forms(&self, lemma: &str) -> (r: Vec<&str>)
        ensures
            r@.map_values(|s: &str| s@) == self.participles_of(lemma@),
    {
        let ghost t = self.tables();
        let mut id: usize = 0;
        while id < self.lemmas.len() && !str_eq(self.lemmas[id].as_str(), lemma)
            invariant
                0 <= id <= self.lemmas@.len(),
                t == self.tables(),
                first_index(t.lemmas.take(id as int), lemma@) is None,
            decreases self.lemmas.len() - id,
        {
            proof {
                assert(t.lemmas.take(id + 1).drop_last() =~= t.lemmas.take(id as int));
            }
            id = id + 1;
        }
        if id == self.lemmas.len() {
            proof {
                assert(t.lemmas.take(id as int) =~= t.lemmas);
                assert(Seq::<&str>::empty().map_values(|s: &str| s@) =~= Seq::<Seq<char>>::empty());
            }
            return Vec::new();
        }
        proof {
            assert(t.lemmas.take(id + 1).drop_last() =~= t.lemmas.take(id as int));
            assert(t.lemmas[id as int] == lemma@);
            assert(first_index(t.lemmas.take(id + 1), lemma@) == Some(id as int));
            lemma_first_index_prefix(t.lemmas, lemma@, id + 1);
        }
        #[verifier::truncate]
        let wanted = id as u32;
        let mut out: Vec<&str> = Vec::new();
        let mut k: usize = 0;
        while k < self.lp_forms.len()
            invariant
                0 <= k <= self.lp_forms@.len(),
                t == self.tables(),
                out@.map_values(|s: &str| s@) == surfaces_of(t.lp_forms.take(k as int), wanted),
            decreases self.lp_forms.len() - k,
        {
            let ghost before = out@.map_values(|s: &str| s@);
            if self.lp_forms[k].0 == wanted {
                out.push(self.lp_forms[k].1.as_str());
                proof {
                    assert(out@.map_values(|s: &str| s@) =~= before.push(t.lp_forms[k as int].1));
                }
            }
            proof {
                assert(t.lp_forms.take(k + 1).drop_last() =~= t.lp_forms.take(k as int));
            }
            k = k + 1;
        }
        proof {
            assert(t.lp_forms.take(k as int) =~= t.lp_forms);
        }
        out
    }
}

/// Once a prefix holds `x`, its first position is the whole sequence's.
proof fn lemma_first_index_prefix(xs: Seq<Seq<char>>, x: Seq<char>, i: int)
    requires
        0 <= i <= xs.len(),
        first_index(xs.take(i), x) is Some,
    ensures
        first_index(xs, x) == first_index(xs.take(i), x),
    decreases xs.len() - i,
{
    if i < xs.len() {
        assert(xs.drop_last().take(i) =~= xs.take(i));
        lemma_first_index_prefix(xs.drop_last(), x, i);
    } else {
        assert(xs.take(i) =~= xs);
    }
}

/// Where reading a morphology blob stops.
pub enum Fault {
    BadMagic,
    Truncated,
    BadIndex,
    BadUtf8,
    Fst,
}

/// The kind of a loading error.
pub open spec fn fault_of(e: MorphError) -> Fault {
    match e {
        MorphError::BadMagic => Fault::BadMagic,
        MorphError::Truncated => Fault::Truncated,
        MorphError::BadIndex => Fault::BadIndex,
        MorphError::BadUtf8 => Fault::BadUtf8,
        MorphError::Fst(_) => Fault::Fst,
    }
}

/// The first eight bytes of a morphology blob: `MKMORPH2` in ASCII.
pub open spec fn morph_magic() -> Seq<u8> {
    seq![0x4Du8, 0x4B, 0x4D, 0x4F, 0x52, 0x50, 0x48, 0x32]
}

/// What a step of reading gives: a value and the position after it.
pub type Step<T> = Result<(T, int), Fault>;

/// `done` before what `rest` reads.
pub open spec fn prepend_step<T>(done: Seq<T>, rest: Step<Seq<T>>) -> Step<Seq<T>> {
    match rest {
        Ok(r) => Ok((done + r.0, r.1)),
        Err(f) => Err(f),
    }
}

/// A byte at `pos`.
pub open spec fn sp_u8(b: Seq<u8>, pos: int) -> Step<u8> {
    if pos + 1 > b.len() {
        Err(Fault::Truncated)
    } else {
        Ok((b[pos], pos + 1))
    }
}

/// A little-endian `u16` at `pos`.
pub open spec fn sp_u16(b: Seq<u8>, pos: int) -> Step<u16> {
    if pos + 2 > b.len() {
        Err(Fault::Truncated)
    } else {
        Ok((le16(b, pos) as u16, pos + 2))
    }
}

/// A little-endian `u32` at `pos`.
pub open spec fn sp_u32(b: Seq<u8>, pos: int) -> Step<u32> {
    if pos + 4 > b.len() {
        Err(Fault::Truncated)
    } else {
        Ok((le32(b, pos) as u32, pos + 4))
    }
}

/// A `u16` length and that many bytes of UTF-8 at `pos`.
pub open spec fn sp_text(b: Seq<u8>, pos: int) -> Step<Seq<char>> {
    match sp_u16(b, pos) {
        Err(f) => Err(f),
        Ok((len, p)) => if p + len > b.len() {
            Err(Fault::Truncated)
        } else if !valid_utf8(b.subrange(p, p + len)) {
            Err(Fault::BadUtf8)
        } else {
            Ok((decode_utf8(b.subrange(p, p + len)), p + len))
        },
    }
}

/// `n` texts from `pos`.
pub open spec fn sp_texts(b: Seq<u8>, pos: int, n: nat) -> Step<Seq<Seq<char>>>
    decreases n,
{
    if n == 0 {
        Ok((Seq::empty(), pos))
    } else {
        match sp_text(b, pos) {
            Err(f) => Err(f),
            Ok((s, p)) => prepend_step(seq![s], sp_texts(b, p, (n - 1) as nat)),
        }
    }
}

/// A `u32` count and that many texts.
pub open spec fn sp_text_block(b: Seq<u8>, pos: int) -> Step<Seq<Seq<char>>> {
    match sp_u32(b, pos) {
        Err(f) => Err(f),
        Ok((n, p)) => sp_texts(b, p, n as nat),
    }
}

/// `n` tag ids below `bound` from `pos`.
pub open spec fn sp_ids(b: Seq<u8>, pos: int, n: nat, bound: nat) -> Step<Seq<u16>>
    decreases n,
{
    if n == 0 {
        Ok((Seq::empty(), pos))
    } else {
        match sp_u16(b, pos) {
            Err(f) => Err(f),
            Ok((id, p)) => if id >= bound {
                Err(Fault::BadIndex)
            } else {
                prepend_step(seq![id], sp_ids(b, p, (n - 1) as nat, bound))
            },
        }
    }
}

/// `n` tagsets (a `u8` length and that many ids each) from `pos`.
pub open spec fn sp_tagsets(b: Seq<u8>, pos: int, n: nat, bound: nat) -> Step<Seq<Seq<u16>>>
    decreases n,
{
    if n == 0 {
        Ok((Seq::empty(), pos))
    } else {
        match sp_u8(b, pos) {
            Err(f) => Err(f),
            Ok((k, p)) => match sp_ids(b, p, k as nat, bound) {
                Err(f) => Err(f),
                Ok((ids, q)) => prepend_step(seq![ids], sp_tagsets(b, q, (n - 1) as nat, bound)),
            },
        }
    }
}

/// `n` (lemma id, tagset id) pairs, each id below its bound, from `pos`.
pub open spec fn sp_pairs(b: Seq<u8>, pos: int, n: nat, lemmas: nat, tagsets: nat) -> Step<Seq<(u32, u32)>>
    decreases n,
{
    if n == 0 {
        Ok((Seq::empty(), pos))
    } else {
        match sp_u32(b, pos) {
            Err(f) => Err(f),
            Ok((l, p)) => match sp_u32(b, p) {
                Err(f) => Err(f),
                Ok((t, q)) => if l >= lemmas || t >= tagsets {
                    Err(Fault::BadIndex)
                } else {
                    prepend_step(seq![(l, t)], sp_pairs(b, q, (n - 1) as nat, lemmas, tagsets))
                },
            },
        }
    }
}

/// `n` entries (a `u8` length and that many pairs each) from `pos`.
pub open spec fn sp_entries(b: Seq<u8>, pos: int, n: nat, lemmas: nat, tagsets: nat) -> Step<Seq<Seq<(u32, u32)>>>
    decreases n,
{
    if n == 0 {
        Ok((Seq::empty(), pos))
    } else {
        match sp_u8(b, pos) {
            Err(f) => Err(f),
            Ok((k, p)) => match sp_pairs(b, p, k as nat, lemmas, tagsets) {
                Err(f) => Err(f),
                Ok((pairs, q)) => prepend_step(seq![pairs], sp_entries(b, q, (n - 1) as nat, lemmas, tagsets)),
            },
        }
    }
}

/// `n` participle rows (a lemma id below the bound, then a text) from `pos`.
pub open spec fn sp_lp(b: Seq<u8>, pos: int, n: nat, lemmas: nat) -> Step<Seq<(u32, Seq<char>)>>
    decreases n,
{
    if n == 0 {
        Ok((Seq::empty(), pos))
    } else {
        match sp_u32(b, pos) {
            Err(f) => Err(f),
            Ok((l, p)) => if l >= lemmas {
                Err(Fault::BadIndex)
            } else {
                match sp_text(b, p) {
                    Err(f) => Err(f),
                    Ok((s, q)) => prepend_step(seq![(l, s)], sp_lp(b, q, (n - 1) as nat, lemmas)),
                }
            },
        }
    }
}

/// What [`Morphology::from_bytes`] reads from `b`: the FST bytes and the
/// tables, or where reading stops. The FST bytes are handed to `fst`, whose
/// acceptance is `map_loads`.
pub open spec fn morph_parse(b: Seq<u8>) -> Result<(Seq<u8>, MorphTables), Fault> {
    if b.len() < 8 {
        Err(Fault::Truncated)
    } else if b.take(8) != morph_magic() {
        Err(Fault::BadMagic)
    } else {
        match sp_u32(b, 8) {
            Err(f) => Err(f),
            Ok((fst_len, p0)) => if p0 + fst_len > b.len() {
                Err(Fault::Truncated)
            } else if !map_loads(b.subrange(p0, p0 + fst_len)) {
                Err(Fault::Fst)
            } else {
                let p1 = p0 + fst_len;
                match sp_text_block(b, p1) {
                    Err(f) => Err(f),
                    Ok((vocab, p2)) => match sp_text_block(b, p2) {
                        Err(f) => Err(f),
                        Ok((lemmas, p3)) => match sp_u32(b, p3) {
                            Err(f) => Err(f),
                            Ok((nt, p4)) => match sp_tagsets(b, p4, nt as nat, vocab.len()) {
                                Err(f) => Err(f),
                                Ok((tagsets, p5)) => match sp_u32(b, p5) {
                                    Err(f) => Err(f),
                                    Ok((ne, p6)) => match sp_entries(b, p6, ne as nat, lemmas.len(), tagsets.len()) {
                                        Err(f) => Err(f),
                                        Ok((entries, p7)) => match sp_u32(b, p7) {
                                            Err(f) => Err(f),
                                            Ok((nl, p8)) => match sp_lp(b, p8, nl as nat, lemmas.len()) {
                                                Err(f) => Err(f),
                                                Ok((lp_forms, _)) => Ok((
                                                    b.subrange(p0, p0 + fst_len),
                                                    MorphTables { vocab, lemmas, tagsets, entries, lp_forms },
                                                )),
                                            },
                                        },
                                    },
                                },
                            },
                        },
                    },
                }
            }
        }
    }
}

/// A cursor over a byte buffer.
struct Reader<'a> {
    data: &'a [u8],
    pos: usize,
}

impl<'a> Reader<'a> {
    /// The next `n` bytes.
    fn take(&mut self, n: usize) -> (r: Result<&'a [u8], MorphError>)
        requires
            old(self).pos <= old(self).data@.len(),
        ensures
            final(self).data == old(self).data,
            final(self).pos <= final(self).data@.len(),
            old(self).pos + n <= old(self).data@.len() ==> r is Ok && r->Ok_0@ == old(self).data@.subrange(
                old(self).pos as int,
                old(self).pos + n,
            ) && final(self).pos == old(self).pos + n,
            old(self).pos + n > old(self).data@.len() ==> r is Err && fault_of(r->Err_0) is Truncated,
    {
        if self.data.len() - self.pos < n {
            return Err(MorphError::Truncated);
        }
        let end = self.pos + n;
        let slice = vstd::slice::slice_subrange(self.data, self.pos, end);
        self.pos = end;
        Ok(slice)
    }

    /// The next byte.
    fn u8(&mut self) -> (r: Result<u8, MorphError>)
        requires
            old(self).pos <= old(self).data@.len(),
        ensures
            final(self).data == old(self).data,
            final(self).pos <= final(self).data@.len(),
            match sp_u8(old(self).data@, old(self).pos as int) {
                Ok((v, p)) => r is Ok && r->Ok_0 == v && final(self).pos == p,
                Err(f) => r is Err && fault_of(r->Err_0) == f,
            },
    {
        if self.pos >= self.data.len() {
            return Err(MorphError::Truncated);
        }
        let v = self.data[self.pos];
        self.pos = self.pos + 1;
        Ok(v)
    }

    /// The next little-endian `u16`.
    fn u16(&mut self) -> (r: Result<u16, MorphError>)
        requires
            old(self).pos <= old(self).data@.len(),
        ensures
            final(self).data == old(self).data,
            final(self).pos <= final(self).data@.len(),
            match sp_u16(old(self).data@, old(self).pos as int) {
                Ok((v, p)) => r is Ok && r->Ok_0 == v && final(self).pos == p,
                Err(f) => r is Err && fault_of(r->Err_0) == f,
            },
    {
        let total = self.data.len();
        match read_u16(self.data, self.pos) {
            Some(v) => {
                assert(self.pos + 2 <= total);
                self.pos = self.pos + 2;
                Ok(v)
            },
            None => Err(MorphError::Truncated),
        }
    }

    /// The next little-endian `u32`.
    fn u32(&mut self) -> (r: Result<u32, MorphError>)
        requires
            old(self).pos <= old(self).data@.len(),
        ensures
            final(self).data == old(self).data,
            final(self).pos <= final(self).data@.len(),
            match sp_u32(old(self).data@, old(self).pos as int) {
                Ok((v, p)) => r is Ok && r->Ok_0 == v && final(self).pos == p,
                Err(f) => r is Err && fault_of(r->Err_0) == f,
            },
    {
        let total = self.data.len();
        match read_u32(self.data, self.pos) {
            Some(v) => {
                assert(self.pos + 4 <= total);
                self.pos = self.pos + 4;
                Ok(v)
            },
            None => Err(MorphError::Truncated),
        }
    }

    /// A `u16` length and that many bytes of UTF-8.
    fn text(&mut self) -> (r: Result<String, MorphError>)
        requires
            old(self).pos <= old(self).data@.len(),
        ensures
            final(self).data == old(self).data,
            final(self).pos <= final(self).data@.len(),
            match sp_text(old(self).data@, old(self).pos as int) {
                Ok((v, p)) => r is Ok && r->Ok_0@ == v && final(self).pos == p,
                Err(f) => r is Err && fault_of(r->Err_0) == f,
            },
    {
        let len = self.u16()?;
        let start = self.pos;
        let total = self.data.len();
        match read_text(self.data, start, len as usize) {
            TextRead::Truncated => Err(MorphError::Truncated),
            TextRead::Invalid(_) => Err(MorphError::BadUtf8),
            TextRead::Text(s) => {
                assert(start + len <= total);
                self.pos = start + len as usize;
                Ok(s)
            },
        }
    }

    /// A `u32` count and that many texts.
    fn strings(&mut self) -> (r: Result<Vec<String>, MorphError>)
        requires
            old(self).pos <= old(self).data@.len(),
        ensures
            final(self).data == old(self).data,
            final(self).pos <= final(self).data@.len(),
            match sp_text_block(old(self).data@, old(self).pos as int) {
                Ok((v, p)) => r is Ok && r->Ok_0@.map_values(|s: String| s@) == v && final(self).pos == p,
                Err(f) => r is Err && fault_of(r->Err_0) == f,
            },
    {
        let ghost b = self.data@;
        let count = self.u32()?;
        let ghost start = self.pos as int;
        let mut out: Vec<String> = Vec::new();
        let mut i: u32 = 0;
        while i < count
            invariant
                self.data == old(self).data,
                self.data@ == b,
                sp_text_block(b, old(self).pos as int) == sp_texts(b, start, count as nat),
                self.pos <= b.len(),
                0 <= i <= count,
                sp_texts(b, start, count as nat) == prepend_step(
                    out@.map_values(|s: String| s@),
                    sp_texts(b, self.pos as int, (count - i) as nat),
                ),
            decreases count - i,
        {
            let ghost before = out@.map_values(|s: String| s@);
            let s = self.text()?;
            proof {
                let rest = sp_texts(b, self.pos as int, (count - i - 1) as nat);
                match rest {
                    Ok(rs) => {
                        assert(before.push(s@) + rs.0 =~= before + (seq![s@] + rs.0));
                    },
                    Err(_) => {},
                }
            }
            out.push(s);
            proof {
                assert(out@.map_values(|s: String| s@) =~= before.push(s@));
            }
            i = i + 1;
        }
        proof {
            assert(out@.map_values(|s: String| s@) + Seq::<Seq<char>>::empty() =~= out@.map_values(
                |s: String| s@,
            ));
        }
        Ok(out)
    }
}

impl<'a> Reader<'a> {
    /// `n` tag ids below `bound`.
    fn ids(&mut self, n: u8, bound: usize) -> (r: Result<Vec<u16>, MorphError>)
        requires
            old(self).pos <= old(self).data@.len(),
        ensures
            final(self).data == old(self).data,
            final(self).pos <= final(self).data@.len(),
            match sp_ids(old(self).data@, old(self).pos as int, n as nat, bound as nat) {
                Ok((v, p)) => r is Ok && r->Ok_0@ == v && final(self).pos == p,
                Err(f) => r is Err && fault_of(r->Err_0) == f,
            },
    {
        let ghost b = self.data@;
        let ghost start = self.pos as int;
        let mut out: Vec<u16> = Vec::new();
        let mut i: u8 = 0;
        while i < n
            invariant
                self.data == old(self).data,
                self.data@ == b,
                start == old(self).pos,
                self.pos <= b.len(),
                0 <= i <= n,
                sp_ids(b, start, n as nat, bound as nat) == prepend_step(
                    out@,
                    sp_ids(b, self.pos as int, (n - i) as nat, bound as nat),
                ),
            decreases n - i,
        {
            let id = self.u16()?;
            if id as usize >= bound {
                return Err(MorphError::BadIndex);
            }
            proof {
                let rest = sp_ids(b, self.pos as int, (n - i - 1) as nat, bound as nat);
                match rest {
                    Ok(rs) => {
                        assert(out@.push(id) + rs.0 =~= out@ + (seq![id] + rs.0));
                    },
                    Err(_) => {},
                }
            }
            out.push(id);
            i = i + 1;
        }
        proof {
            assert(out@ + Seq::<u16>::empty() =~= out@);
        }
        Ok(out)
    }

    /// `n` tagsets over a vocabulary of `bound` tags.
    fn tagsets(&mut self, n: u32, bound: usize) -> (r: Result<Vec<Vec<u16>>, MorphError>)
        requires
            old(self).pos <= old(self).data@.len(),
        ensures
            final(self).data == old(self).data,
            final(self).pos <= final(self).data@.len(),
            match sp_tagsets(old(self).data@, old(self).pos as int, n as nat, bound as nat) {
                Ok((v, p)) => r is Ok && r->Ok_0@.map_values(|t: Vec<u16>| t@) == v && final(self).pos == p,
                Err(f) => r is Err && fault_of(r->Err_0) == f,
            },
    {
        let ghost b = self.data@;
        let ghost start = self.pos as int;
        let mut out: Vec<Vec<u16>> = Vec::new();
        let mut i: u32 = 0;
        while i < n
            invariant
                self.data == old(self).data,
                self.data@ == b,
                start == old(self).pos,
                self.pos <= b.len(),
                0 <= i <= n,
                sp_tagsets(b, start, n as nat, bound as nat) == prepend_step(
                    out@.map_values(|t: Vec<u16>| t@),
                    sp_tagsets(b, self.pos as int, (n - i) as nat, bound as nat),
                ),
            decreases n - i,
        {
            let ghost before = out@.map_values(|t: Vec<u16>| t@);
            let k = self.u8()?;
            let set = self.ids(k, bound)?;
            proof {
                let rest = sp_tagsets(b, self.pos as int, (n - i - 1) as nat, bound as nat);
                match rest {
                    Ok(rs) => {
                        assert(before.push(set@) + rs.0 =~= before + (seq![set@] + rs.0));
                    },
                    Err(_) => {},
                }
            }
            out.push(set);
            proof {
                assert(out@.map_values(|t: Vec<u16>| t@) =~= before.push(set@));
            }
            i = i + 1;
        }
        proof {
            assert(out@.map_values(|t: Vec<u16>| t@) + Seq::<Seq<u16>>::empty() =~= out@.map_values(
                |t: Vec<u16>| t@,
            ));
        }
        Ok(out)
    }

    /// `n` (lemma id, tagset id) pairs.
    fn pairs(&mut self, n: u8, lemmas: usize, tagsets: usize) -> (r: Result<Vec<(u32, u32)>, MorphError>)
        requires
            old(self).pos <= old(self).data@.len(),
        ensures
            final(self).data == old(self).data,
            final(self).pos <= final(self).data@.len(),
            match sp_pairs(old(self).data@, old(self).pos as int, n as nat, lemmas as nat, tagsets as nat) {
                Ok((v, p)) => r is Ok && r->Ok_0@ == v && final(self).pos == p,
                Err(f) => r is Err && fault_of(r->Err_0) == f,
            },
    {
        let ghost b = self.data@;
        let ghost start = self.pos as int;
        let mut out: Vec<(u32, u32)> = Vec::new();
        let mut i: u8 = 0;
        while i < n
            invariant
                self.data == old(self).data,
                self.data@ == b,
                start == old(self).pos,
                self.pos <= b.len(),
                0 <= i <= n,
                sp_pairs(b, start, n as nat, lemmas as nat, tagsets as nat) == prepend_step(
                    out@,
                    sp_pairs(b, self.pos as int, (n - i) as nat, lemmas as nat, tagsets as nat),
                ),
            decreases n - i,
        {
            let lemma_id = self.u32()?;
            let tagset_id = self.u32()?;
            if lemma_id as usize >= lemmas || tagset_id as usize >= tagsets {
                return Err(MorphError::BadIndex);
            }
            proof {
                let rest = sp_pairs(b, self.pos as int, (n - i - 1) as nat, lemmas as nat, tagsets as nat);
                match rest {
                    Ok(rs) => {
                        assert(out@.push((lemma_id, tagset_id)) + rs.0 =~= out@ + (seq![(lemma_id, tagset_id)] + rs.0));
                    },
                    Err(_) => {},
                }
            }
            out.push((lemma_id, tagset_id));
            i = i + 1;
        }
        proof {
            assert(out@ + Seq::<(u32, u32)>::empty() =~= out@);
        }
        Ok(out)
    }

    /// `n` entries of readings.
    fn entry_rows(&mut self, n: u32, lemmas: usize, tagsets: usize) -> (r: Result<Vec<Vec<(u32, u32)>>, MorphError>)
        requires
            old(self).pos <= old(self).data@.len(),
        ensures
            final(self).data == old(self).data,
            final(self).pos <= final(self).data@.len(),
            match sp_entries(old(self).data@, old(self).pos as int, n as nat, lemmas as nat, tagsets as nat) {
                Ok((v, p)) => r is Ok && r->Ok_0@.map_values(|e: Vec<(u32, u32)>| e@) == v && final(self).pos == p,
                Err(f) => r is Err && fault_of(r->Err_0) == f,
            },
    {
        let ghost b = self.data@;
        let ghost start = self.pos as int;
        let mut out: Vec<Vec<(u32, u32)>> = Vec::new();
        let mut i: u32 = 0;
        while i < n
            invariant
                self.data == old(self).data,
                self.data@ == b,
                start == old(self).pos,
                self.pos <= b.len(),
                0 <= i <= n,
                sp_entries(b, start, n as nat, lemmas as nat, tagsets as nat) == prepend_step(
                    out@.map_values(|e: Vec<(u32, u32)>| e@),
                    sp_entries(b, self.pos as int, (n - i) as nat, lemmas as nat, tagsets as nat),
                ),
            decreases n - i,
        {
            let ghost before = out@.map_values(|e: Vec<(u32, u32)>| e@);
            let k = self.u8()?;
            let row = self.pairs(k, lemmas, tagsets)?;
            proof {
                let rest = sp_entries(b, self.pos as int, (n - i - 1) as nat, lemmas as nat, tagsets as nat);
                match rest {
                    Ok(rs) => {
                        assert(before.push(row@) + rs.0 =~= before + (seq![row@] + rs.0));
                    },
                    Err(_) => {},
                }
            }
            out.push(row);
            proof {
                assert(out@.map_values(|e: Vec<(u32, u32)>| e@) =~= before.push(row@));
            }
            i = i + 1;
        }
        proof {
            assert(out@.map_values(|e: Vec<(u32, u32)>| e@) + Seq::<Seq<(u32, u32)>>::empty()
                =~= out@.map_values(|e: Vec<(u32, u32)>| e@));
        }
        Ok(out)
    }

    /// `n` participle rows.
    fn participle_rows(&mut self, n: u32, lemmas: usize) -> (r: Result<Vec<(u32, String)>, MorphError>)
        requires
            old(self).pos <= old(self).data@.len(),
        ensures
            final(self).data == old(self).data,
            final(self).pos <= final(self).data@.len(),
            match sp_lp(old(self).data@, old(self).pos as int, n as nat, lemmas as nat) {
                Ok((v, p)) => r is Ok && r->Ok_0@.map_values(|x: (u32, String)| (x.0, x.1@)) == v
                    && final(self).pos == p,
                Err(f) => r is Err && fault_of(r->Err_0) == f,
            },
    {
        let ghost b = self.data@;
        let ghost start = self.pos as int;
        let mut out: Vec<(u32, String)> = Vec::new();
        let mut i: u32 = 0;
        while i < n
            invariant
                self.data == old(self).data,
                self.data@ == b,
                start == old(self).pos,
                self.pos <= b.len(),
                0 <= i <= n,
                sp_lp(b, start, n as nat, lemmas as nat) == prepend_step(
                    out@.map_values(|x: (u32, String)| (x.0, x.1@)),
                    sp_lp(b, self.pos as int, (n - i) as nat, lemmas as nat),
                ),
            decreases n - i,
        {
            let ghost before = out@.map_values(|x: (u32, String)| (x.0, x.1@));
            let lemma_id = self.u32()?;
            if lemma_id as usize >= lemmas {
                return Err(MorphError::BadIndex);
            }
            let surface = self.text()?;
            proof {
                let rest = sp_lp(b, self.pos as int, (n - i - 1) as nat, lemmas as nat);
                match rest {
                    Ok(rs) => {
                        assert(before.push((lemma_id, surface@)) + rs.0 =~= before + (seq![(lemma_id, surface@)] + rs.0));
                    },
                    Err(_) => {},
                }
            }
            let ghost row = (lemma_id, surface@);
            out.push((lemma_id, surface));
            proof {
                assert(out@.map_values(|x: (u32, String)| (x.0, x.1@)) =~= before.push(row));
            }
            i = i + 1;
        }
        proof {
            assert(out@.map_values(|x: (u32, String)| (x.0, x.1@)) + Seq::<(u32, Seq<char>)>::empty()
                =~= out@.map_values(|x: (u32, String)| (x.0, x.1@)));
        }
        Ok(out)
    }
}

/// Ids read below a bound are below it.
proof fn lemma_ids_bounded(b: Seq<u8>, pos: int, n: nat, bound: nat)
    ensures
        sp_ids(b, pos, n, bound) is Ok ==> forall|i: int|
            0 <= i < sp_ids(b, pos, n, bound)->Ok_0.0.len() ==> (#[trigger] sp_ids(
                b,
                pos,
                n,
                bound,
            )->Ok_0.0[i]) < bound,
    decreases n,
{
    if n > 0 {
        if let Ok((id, p)) = sp_u16(b, pos) {
            lemma_ids_bounded(b, p, (n - 1) as nat, bound);
        }
    }
}

/// Every id of every tagset read is below the vocabulary's size.
proof fn lemma_tagsets_bounded(b: Seq<u8>, pos: int, n: nat, bound: nat)
    ensures
        sp_tagsets(b, pos, n, bound) is Ok ==> forall|i: int, j: int|
            0 <= i < sp_tagsets(b, pos, n, bound)->Ok_0.0.len() && 0 <= j < sp_tagsets(
                b,
                pos,
                n,
                bound,
            )->Ok_0.0[i].len() ==> (#[trigger] sp_tagsets(b, pos, n, bound)->Ok_0.0[i][j]) < bound,
    decreases n,
{
    if n > 0 {
        if let Ok((k, p)) = sp_u8(b, pos) {
            lemma_ids_bounded(b, p, k as nat, bound);
            if let Ok((ids, q)) = sp_ids(b, p, k as nat, bound) {
                lemma_tagsets_bounded(b, q, (n - 1) as nat, bound);
                let all = sp_tagsets(b, pos, n, bound);
                if all is Ok {
                    let rest = sp_tagsets(b, q, (n - 1) as nat, bound)->Ok_0.0;
                    assert forall|i: int, j: int|
                        0 <= i < all->Ok_0.0.len() && 0 <= j < all->Ok_0.0[i].len() implies (#[trigger] all->Ok_0.0[i][j])
                            < bound by {
                        if i > 0 {
                            assert(all->Ok_0.0[i] == rest[i - 1]);
                        }
                    }
                }
            }
        }
    }
}

/// Every pair read has both ids below their bounds.
proof fn lemma_pairs_bounded(b: Seq<u8>, pos: int, n: nat, lemmas: nat, tagsets: nat)
    ensures
        sp_pairs(b, pos, n, lemmas, tagsets) is Ok ==> forall|i: int|
            0 <= i < sp_pairs(b, pos, n, lemmas, tagsets)->Ok_0.0.len() ==> (#[trigger] sp_pairs(
                b,
                pos,
                n,
                lemmas,
                tagsets,
            )->Ok_0.0[i]).0 < lemmas && sp_pairs(b, pos, n, lemmas, tagsets)->Ok_0.0[i].1 < tagsets,
    decreases n,
{
    if n > 0 {
        if let Ok((l, p)) = sp_u32(b, pos) {
            if let Ok((t, q)) = sp_u32(b, p) {
                lemma_pairs_bounded(b, q, (n - 1) as nat, lemmas, tagsets);
            }
        }
    }
}

/// Every pair of every entry read has both ids below their bounds.
proof fn lemma_entries_bounded(b: Seq<u8>, pos: int, n: nat, lemmas: nat, tagsets: nat)
    ensures
        sp_entries(b, pos, n, lemmas, tagsets) is Ok ==> forall|i: int, j: int|
            0 <= i < sp_entries(b, pos, n, lemmas, tagsets)->Ok_0.0.len() && 0 <= j < sp_entries(
                b,
                pos,
                n,
                lemmas,
                tagsets,
            )->Ok_0.0[i].len() ==> (#[trigger] sp_entries(b, pos, n, lemmas, tagsets)->Ok_0.0[i][j]).0
                < lemmas && sp_entries(b, pos, n, lemmas, tagsets)->Ok_0.0[i][j].1 < tagsets,
    decreases n,
{
    if n > 0 {
        if let Ok((k, p)) = sp_u8(b, pos) {
            lemma_pairs_bounded(b, p, k as nat, lemmas, tagsets);
            if let Ok((pairs, q)) = sp_pairs(b, p, k as nat, lemmas, tagsets) {
                lemma_entries_bounded(b, q, (n - 1) as nat, lemmas, tagsets);
                let all = sp_entries(b, pos, n, lemmas, tagsets);
                if all is Ok {
                    let rest = sp_entries(b, q, (n - 1) as nat, lemmas, tagsets)->Ok_0.0;
                    assert forall|i: int, j: int|
                        0 <= i < all->Ok_0.0.len() && 0 <= j < all->Ok_0.0[i].len() implies (#[trigger] all->Ok_0.0[i][j]).0
                            < lemmas && all->Ok_0.0[i][j].1 < tagsets by {
                        if i > 0 {
                            assert(all->Ok_0.0[i] == rest[i - 1]);
                        }
                    }
                }
            }
        }
    }
}

/// Every participle row read names a lemma below the bound.
proof fn lemma_lp_bounded(b: Seq<u8>, pos: int, n: nat, lemmas: nat)
    ensures
        sp_lp(b, pos, n, lemmas) is Ok ==> forall|i: int|
            0 <= i < sp_lp(b, pos, n, lemmas)->Ok_0.0.len() ==> (#[trigger] sp_lp(
                b,
                pos,
                n,
                lemmas,
            )->Ok_0.0[i]).0 < lemmas,
    decreases n,
{
    if n > 0 {
        if let Ok((l, p)) = sp_u32(b, pos) {
            if let Ok((s, q)) = sp_text(b, p) {
                lemma_lp_bounded(b, q, (n - 1) as nat, lemmas);
            }
        }
    }
}

/// A blob starts with the magic and a 32-bit length that the bytes after
/// it cover.
pub open spec fn header_ok(b: Seq<u8>) -> bool {
    &&& b.len() >= 12
    &&& b.take(8) == morph_magic()
    &&& 12 + le32(b, 8) <= b.len()
}

/// The bytes a blob's header marks as the FST: after the magic and a
/// 32-bit length, that many bytes.
pub open spec fn fst_field(b: Seq<u8>) -> Seq<u8> {
    b.subrange(12, 12 + le32(b, 8) as int)
}

impl Morphology {
    /// The bytes the FST was loaded from.
    pub closed spec fn fst_source(&self) -> Seq<u8> {
        map_source(self.map)
    }

    /// What [`Morphology::from_bytes`] returns for `bytes`: the tables and
    /// FST bytes the blob holds, or the fault where reading stops; a map that
    /// answers for the entries written whenever a map builder wrote the FST
    /// bytes; and FST bytes a map builder wrote are never refused.
    pub open spec fn loads(bytes: Seq<u8>, r: Result<Morphology, MorphError>) -> bool {
        &&& match morph_parse(bytes) {
            Ok((fst, t)) => r is Ok && r->Ok_0.tables() == t && r->Ok_0.fst_source() == fst,
            Err(f) => r is Err && fault_of(r->Err_0) == f,
        }
        &&& r is Ok ==> forall|es: Seq<(Seq<u8>, u64)>|
            keys_strictly_ascending(entry_keys(es)) && #[trigger] map_encoding(es) == r->Ok_0.fst_source()
                ==> r->Ok_0.loaded() && r->Ok_0.forms() == entries_map(es)
        &&& forall|es: Seq<(Seq<u8>, u64)>|
            keys_strictly_ascending(entry_keys(es)) && #[trigger] map_encoding(es) == fst_field(bytes)
                && header_ok(bytes) ==> map_loads(fst_field(bytes))
    }

    /// Load a table produced by [`Morphology::build`].
    pub fn from_bytes(bytes: &[u8]) -> (r: Result<Self, MorphError>)
        ensures
            Self::loads(bytes@, r),
    {
        let ghost b = bytes@;
        let mut r = Reader { data: bytes, pos: 0 };
        let magic = r.take(8)?;
        if !bytes_equal8(magic) {
            return Err(MorphError::BadMagic);
        }
        proof {
            assert(b.take(8) =~= magic@);
        }
        let fst_len = r.u32()?;
        let ghost p0 = r.pos as int;
        let fst_bytes = r.take(fst_len as usize)?;
        let fst_vec = vstd::slice::slice_to_vec(fst_bytes);
        let map = match map_from_bytes(fst_vec) {
            Ok(m) => m,
            Err(e) => {
                proof {
                    assert(fst_vec@ =~= fst_field(b));
                }
                return Err(MorphError::Fst(e));
            },
        };
        proof {
            assert(fst_vec@ =~= fst_field(b));
        }
        let vocab = r.strings()?;
        let lemmas = r.strings()?;
        let ghost p3 = r.pos as int;
        let tagset_count = r.u32()?;
        let tagsets = r.tagsets(tagset_count, vocab.len())?;
        let entry_count = r.u32()?;
        let entries = r.entry_rows(entry_count, lemmas.len(), tagsets.len())?;
        let lp_count = r.u32()?;
        let ghost p8 = r.pos as int;
        let lp_forms = r.participle_rows(lp_count, lemmas.len())?;
        proof {
            lemma_tagsets_bounded(b, p3 + 4, tagset_count as nat, vocab@.len());
            lemma_entries_bounded(b, sp_tagsets(b, p3 + 4, tagset_count as nat, vocab@.len())->Ok_0.1 + 4, entry_count as nat, lemmas@.len(), tagsets@.len());
            lemma_lp_bounded(b, p8, lp_count as nat, lemmas@.len());
        }
        let m = Morphology { map, vocab, lemmas, tagsets, entries, lp_forms };
        Ok(m)
    }
}

/// Whether `b` is `MKMORPH2`.
fn bytes_equal8(b: &[u8]) -> (r: bool)
    requires
        b@.len() == 8,
    ensures
        r == (b@ == morph_magic()),
{
    let r = b[0] == 0x4D && b[1] == 0x4B && b[2] == 0x4D && b[3] == 0x4F && b[4] == 0x52 && b[5]
        == 0x50 && b[6] == 0x48 && b[7] == 0x32;
    proof {
        if r {
            assert(b@ =~= morph_magic());
        }
    }
    r
}

/// Law: a reading carries a definite article exactly when it names a
/// definiteness other than the indefinite one: the `-от`/`-та`/`-то` series
/// (`def`), the proximate `-ов`/`-ва`/`-во` (`prx`) and the distal
/// `-он`/`-на`/`-но` (`dst`) are all definite.
pub proof fn lemma_definite_articles(r: Reading)
    ensures
        reading_is_definite(r) <==> (reading_definiteness(r) is Some && reading_definiteness(r) != Some(
            Definiteness::Indefinite,
        )),
        reading_definiteness(r) == Some(Definiteness::Definite) ==> reading_is_definite(r),
        reading_definiteness(r) == Some(Definiteness::Proximate) ==> reading_is_definite(r),
        reading_definiteness(r) == Some(Definiteness::Distal) ==> reading_is_definite(r),
        tag_definiteness("def"@) == Some(Definiteness::Definite),
        tag_definiteness("prx"@) == Some(Definiteness::Proximate),
        tag_definiteness("dst"@) == Some(Definiteness::Distal),
        tag_definiteness("ind"@) == Some(Definiteness::Indefinite),
{
    reveal_strlit("def");
    reveal_strlit("prx");
    reveal_strlit("dst");
    reveal_strlit("ind");
    assert("def"@[0] != "ind"@[0]);
    assert("prx"@[0] != "ind"@[0] && "prx"@[0] != "def"@[0]);
    assert("dst"@[0] != "ind"@[0] && "dst"@[0] != "prx"@[0] && "dst"@[1] != "def"@[1]);
}

} // verus!
