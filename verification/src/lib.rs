//! A Macedonian spelling and grammar checker.
//!
//! The engine is free of I/O and of any platform assumption: it takes a
//! compiled lexicon as bytes and returns [`Diagnostic`]s, so the same code
//! serves a WebAssembly build inside a browser extension, a native binary
//! and a command-line tool.

pub mod alphabet;
pub mod text;
pub mod homoglyph;
pub mod tokenizer;
pub mod tokenizer_laws;
pub mod translit;
pub mod levenshtein;
pub mod levenshtein_laws;
pub mod fst_store;
pub mod order;
pub mod cost;
pub mod lexicon;
pub mod codec;
pub mod frequency;
pub mod bigram;
pub mod morphology;
pub mod intern;
pub mod morph_build;
pub mod morph_laws;
pub mod diagnostic;
pub mod grammar;
pub mod sources;

pub use diagnostic::{rule, Diagnostic, Severity};
pub use lexicon::Lexicon;
pub use tokenizer::{tokenize, Token, TokenKind};

use vstd::prelude::*;
use vstd::utf8::encode_utf8;
use alphabet::{script, script_of, Script};
use bigram::{Bigram, top_completions};
use cost::{correction_cost, weighted_cost};
use diagnostic::{Finding, findings};
use frequency::Frequency;
use grammar::{finding_of, grammar_findings};
use homoglyph::{IssueKind, issue_of, normalized};
use lexicon::{keyed_order, listed_texts, offerable, suggestions, word_key};
use morphology::Morphology;
use order::{KeyView, RankKey, key_views, listing};
use text::{
    chars_of, is_alphabetic, is_numeric, is_uppercase, str_eq, to_lowercase, unicode_alphabetic,
    unicode_lower, unicode_numeric, unicode_uppercase,
};
use tokenizer::{TokenView, token_views, token_views_of};
use translit::{candidate_readings, take_at_most, views};

verus! {

broadcast use vstd::seq_lib::group_seq_properties;

/// How many replacements to offer for one problem.
pub const MAX_SUGGESTIONS: usize = 5;

/// Latin runs shorter than this are too likely to be a genuine abbreviation or
/// a stray English particle to be worth converting.
pub const MIN_LATIN_WORD_LEN: usize = 3;

/// Words in all capitals up to this length are treated as acronyms (МПЦ, ДДВ,
/// МВР) rather than misspellings. Precision matters more than recall here:
/// underlining every acronym would teach users to ignore the checker.
pub const MAX_ACRONYM_LEN: usize = 5;

/// The word has a Latin letter and no Cyrillic one.
pub open spec fn all_latin(w: Seq<char>) -> bool {
    &&& forall|i: int|
        0 <= i < w.len() ==> script(#[trigger] w[i]) != Script::Macedonian && script(w[i])
            != Script::ForeignCyrillic
    &&& exists|i: int| 0 <= i < w.len() && script(#[trigger] w[i]) == Script::Latin
}

/// A short word whose letters are all capitals.
pub open spec fn acronym(w: Seq<char>) -> bool {
    &&& 2 <= w.len() <= MAX_ACRONYM_LEN
    &&& forall|i: int| 0 <= i < w.len() && unicode_alphabetic(#[trigger] w[i]) ==> unicode_uppercase(w[i])
}

/// The word has a numeric character.
pub open spec fn has_numeric(w: Seq<char>) -> bool {
    exists|i: int| 0 <= i < w.len() && unicode_numeric(#[trigger] w[i])
}

/// The pieces of `s` between hyphens, as `str::split('-')` yields them.
pub open spec fn hyphen_parts(s: Seq<char>) -> Seq<Seq<char>> {
    sources::pieces(s, '-')
}

/// The candidates whose key the lexicon holds, in order.
pub open spec fn known_words(keys: Set<Seq<u8>>, cands: Seq<Seq<char>>) -> Seq<Seq<char>>
    decreases cands.len(),
{
    if cands.len() == 0 {
        Seq::empty()
    } else {
        let rest = known_words(keys, cands.drop_last());
        if keys.contains(word_key(cands.last())) {
            rest.push(cands.last())
        } else {
            rest
        }
    }
}

/// How often `w` occurs according to `f`; 0 when it is not listed.
pub open spec fn count_of(f: Map<Seq<char>, u32>, w: Seq<char>) -> u32 {
    if f.contains_key(w) {
        f[w]
    } else {
        0
    }
}

/// How a candidate ranks once frequencies are known: most frequent first
/// (by its lowercase), then by correction cost from `q`, then by its bytes.
pub open spec fn freq_key(f: Map<Seq<char>, u32>, q: Seq<char>, c: Seq<char>) -> KeyView {
    ((u32::MAX - count_of(f, unicode_lower(c))) as int, correction_cost(q, c) as int, 0, encode_utf8(c))
}

/// The frequency key of each candidate.
pub open spec fn freq_keys(f: Map<Seq<char>, u32>, q: Seq<char>) -> spec_fn(Seq<char>) -> KeyView {
    |c: Seq<char>| freq_key(f, q, c)
}

/// The suggestions offered for `word`: the lexicon's best twenty, reordered
/// by frequency when a table is given, then the first five.
pub open spec fn ranked_for(keys: Set<Seq<u8>>, freq: Option<Map<Seq<char>, u32>>, word: Seq<char>) -> Seq<Seq<char>> {
    let hits = suggestions(keys, word, (MAX_SUGGESTIONS * 4) as nat);
    match freq {
        Some(f) => take_at_most(
            listing(hits.to_set(), keyed_order(freq_keys(f, unicode_lower(word)))),
            MAX_SUGGESTIONS as int,
        ),
        None => take_at_most(hits, MAX_SUGGESTIONS as int),
    }
}

/// The words among the tokens, in order.
pub open spec fn words_of(ts: Seq<TokenView>) -> Seq<TokenView>
    decreases ts.len(),
{
    if ts.len() == 0 {
        Seq::empty()
    } else {
        let rest = words_of(ts.drop_last());
        if ts.last().kind == TokenKind::Word {
            rest.push(ts.last())
        } else {
            rest
        }
    }
}

/// Word `i` is Latin and so is a neighbouring word: someone writing
/// Macedonian on a Latin keyboard writes whole phrases that way, while a lone
/// Latin word among Cyrillic is a name or a citation.
pub open spec fn in_latin_run(words: Seq<TokenView>, i: int) -> bool {
    &&& all_latin(words[i].text)
    &&& ((i > 0 && all_latin(words[i - 1].text)) || (i + 1 < words.len() && all_latin(words[i + 1].text)))
}

/// `a` comes no later than `b`: by start, then by end.
pub open spec fn span_le(a: Finding, b: Finding) -> bool {
    a.char_start < b.char_start || (a.char_start == b.char_start && a.char_end <= b.char_end)
}

/// Ordered by span, earlier first.
pub open spec fn sorted_by_span(s: Seq<Finding>) -> bool {
    forall|i: int, j: int| 0 <= i < j < s.len() ==> span_le(#[trigger] s[i], #[trigger] s[j])
}

/// `s` with `f` inserted after every element that comes no later than it.
pub open spec fn insert_by_span(s: Seq<Finding>, f: Finding) -> Seq<Finding>
    decreases s.len(),
{
    if s.len() == 0 {
        seq![f]
    } else if span_le(s.last(), f) {
        s.push(f)
    } else {
        insert_by_span(s.drop_last(), f).push(s.last())
    }
}

/// `s` sorted by span, findings with the same span kept in their order.
pub open spec fn by_span(s: Seq<Finding>) -> Seq<Finding>
    decreases s.len(),
{
    if s.len() == 0 {
        Seq::empty()
    } else {
        insert_by_span(by_span(s.drop_last()), s.last())
    }
}

/// The checker: a lexicon plus the rules that consult it.
///
/// Spelling needs only the lexicon. Grammar additionally needs morphology, so
/// it is optional: a caller that only wants spell-checking pays neither the
/// download nor the memory for the analyses. Frequency and bigram tables are
/// optional in the same way.
pub struct Checker {
    lexicon: Lexicon,
    morphology: Option<Morphology>,
    frequency: Option<Frequency>,
    bigram: Option<Bigram>,
}

impl Checker {
    /// The lexicon.
    pub closed spec fn lex(&self) -> Lexicon {
        self.lexicon
    }

    /// The morphology, when grammar is enabled.
    pub closed spec fn morph(&self) -> Option<Morphology> {
        self.morphology
    }

    /// The frequency table, when one is attached.
    pub closed spec fn freq(&self) -> Option<Frequency> {
        self.frequency
    }

    /// The bigram table, when one is attached.
    pub closed spec fn pairs(&self) -> Option<Bigram> {
        self.bigram
    }

    /// Every table the checker reads was loaded from bytes its builder wrote.
    pub open spec fn ready(&self) -> bool {
        &&& self.lex().loaded()
        &&& self.morph() matches Some(m) ==> m.loaded()
    }

    /// The counts of the frequency table, when one is attached.
    pub open spec fn counts(&self) -> Option<Map<Seq<char>, u32>> {
        match self.freq() {
            Some(f) => Some(f@),
            None => None,
        }
    }

    /// The lexicon knows `w`, in any case.
    pub open spec fn knows(&self, w: Seq<char>) -> bool {
        self.lex()@.contains(word_key(w))
    }

    /// A hyphenated word whose every part is a known word.
    pub open spec fn known_compound(&self, w: Seq<char>) -> bool {
        let parts = hyphen_parts(w);
        &&& w.contains('-')
        &&& forall|k: int| 0 <= k < parts.len() ==> (#[trigger] parts[k]).len() > 0 && self.knows(parts[k])
    }

    /// What the checker reports for the word `w` at `start..end`.
    pub open spec fn word_finding(&self, w: Seq<char>, start: int, end: int, in_run: bool) -> Option<Finding> {
        match issue_of(w) {
            Some(kind) => {
                let fixed = normalized(w);
                Some(
                    Finding {
                        rule: match kind {
                            IssueKind::Homoglyph => rule::HOMOGLYPH@,
                            IssueKind::ForeignCyrillic => rule::FOREIGN_CYRILLIC@,
                        },
                        severity: if self.knows(fixed) {
                            Severity::Error
                        } else {
                            Severity::Warning
                        },
                        char_start: start,
                        char_end: end,
                        text: w,
                        message: match kind {
                            IssueKind::Homoglyph => "Зборот меша латинични и кирилични букви што изгледаат исто."@,
                            IssueKind::ForeignCyrillic => "Зборот содржи букви што не постојат во македонската азбука."@,
                        },
                        suggestions: if fixed != w {
                            seq![fixed]
                        } else {
                            Seq::empty()
                        },
                    },
                )
            },
            None => if all_latin(w) {
                let readings = take_at_most(known_words(self.lex()@, candidate_readings(w)), MAX_SUGGESTIONS as int);
                if w.len() < MIN_LATIN_WORD_LEN || acronym(w) || !in_run || readings.len() == 0 {
                    None
                } else {
                    Some(
                        Finding {
                            rule: rule::LATIN_TEXT@,
                            severity: Severity::Warning,
                            char_start: start,
                            char_end: end,
                            text: w,
                            message: "Изгледа дека зборот е напишан со латиница."@,
                            suggestions: readings,
                        },
                    )
                }
            } else if self.knows(w) || self.known_compound(w) || acronym(w) || w.len() == 1 {
                None
            } else {
                Some(
                    Finding {
                        rule: rule::SPELL@,
                        severity: Severity::Error,
                        char_start: start,
                        char_end: end,
                        text: w,
                        message: "Непознат збор."@,
                        suggestions: ranked_for(self.lex()@, self.counts(), w),
                    },
                )
            },
        }
    }

    /// The spelling findings for the first `n` words, in order. A word with
    /// a digit in it (`1-ви`, `А4`) is skipped.
    pub open spec fn spelling(&self, words: Seq<TokenView>, n: int) -> Seq<Finding>
        decreases n,
    {
        if n <= 0 {
            Seq::empty()
        } else {
            let rest = self.spelling(words, n - 1);
            let w = words[n - 1];
            if has_numeric(w.text) {
                rest
            } else {
                match self.word_finding(w.text, w.start, w.end, in_latin_run(words, n - 1)) {
                    Some(f) => rest.push(f),
                    None => rest,
                }
            }
        }
    }

    /// Everything the checker reports for `text`: the spelling findings, then
    /// the grammar findings when grammar is enabled, all sorted by span.
    pub open spec fn findings_in(&self, text: Seq<char>) -> Seq<Finding> {
        let tokens = token_views_of(text);
        let words = words_of(tokens);
        let grammar = match self.morph() {
            Some(m) => grammar_findings(tokens, m),
            None => Seq::empty(),
        };
        by_span(self.spelling(words, words.len() as int) + grammar)
    }
}

/// The words of some completions.
pub open spec fn completion_words(cs: Seq<(Seq<char>, u32)>) -> Seq<Seq<char>> {
    cs.map_values(|e: (Seq<char>, u32)| e.0)
}

impl Checker {
    /// Build a checker over a compiled FST lexicon. Spelling rules only.
    pub fn new(fst_bytes: Vec<u8>) -> (r: Result<Self, fst::Error>)
        ensures
            match r {
                Ok(c) => {
                    &&& Lexicon::loads(fst_bytes@, Ok(c.lex()))
                    &&& c.morph() is None
                    &&& c.freq() is None
                    &&& c.pairs() is None
                },
                Err(e) => Lexicon::loads(fst_bytes@, Err(e)),
            },
    {
        match Lexicon::from_bytes(fst_bytes) {
            Ok(lexicon) => Ok(Checker { lexicon, morphology: None, frequency: None, bigram: None }),
            Err(e) => Err(e),
        }
    }

    /// Enable the grammar rules by supplying a morphology table.
    pub fn with_morphology(self, morphology: Morphology) -> (r: Self)
        ensures
            r.lex() == self.lex(),
            r.morph() == Some(morphology),
            r.freq() == self.freq(),
            r.pairs() == self.pairs(),
    {
        Checker {
            lexicon: self.lexicon,
            morphology: Some(morphology),
            frequency: self.frequency,
            bigram: self.bigram,
        }
    }

    /// Enable frequency-ranked suggestions. Without a table the lexicon's
    /// own ranking stands.
    pub fn with_frequency(self, frequency: Frequency) -> (r: Self)
        ensures
            r.lex() == self.lex(),
            r.morph() == self.morph(),
            r.freq() == Some(frequency),
            r.pairs() == self.pairs(),
    {
        Checker {
            lexicon: self.lexicon,
            morphology: self.morphology,
            frequency: Some(frequency),
            bigram: self.bigram,
        }
    }

    /// Attach a frequency table after construction, replacing any previous
    /// one (for a setup where tables arrive one at a time).
    pub fn set_frequency(&mut self, frequency: Frequency)
        ensures
            final(self).lex() == old(self).lex(),
            final(self).morph() == old(self).morph(),
            final(self).freq() == Some(frequency),
            final(self).pairs() == old(self).pairs(),
    {
        self.frequency = Some(frequency);
    }

    /// Attach a bigram table for next-word completions, replacing any
    /// previous one.
    pub fn set_bigram(&mut self, bigram: Bigram)
        ensures
            final(self).lex() == old(self).lex(),
            final(self).morph() == old(self).morph(),
            final(self).freq() == old(self).freq(),
            final(self).pairs() == Some(bigram),
    {
        self.bigram = Some(bigram);
    }

    /// Borrow the underlying lexicon.
    pub fn lexicon(&self) -> (r: &Lexicon)
        ensures
            *r == self.lex(),
    {
        &self.lexicon
    }

    /// Borrow the morphology, if the checker has one.
    pub fn morphology(&self) -> (r: Option<&Morphology>)
        ensures
            match r {
                Some(m) => self.morph() == Some(*m),
                None => self.morph() is None,
            },
    {
        match &self.morphology {
            Some(m) => Some(m),
            None => None,
        }
    }

    /// Next-word completions of `prefix` after `prev`, most frequent first,
    /// at most `limit`; none without a bigram table.
    pub fn suggest_next(&self, prev: &str, prefix: &str, limit: usize) -> (r: Vec<String>)
        ensures
            match self.pairs() {
                Some(b) => views(r@) == completion_words(
                    top_completions(b@, unicode_lower(prev@), unicode_lower(prefix@), limit as nat),
                ),
                None => r@.len() == 0,
            },
    {
        match &self.bigram {
            Some(b) => {
                let top = b.top_next(prev, prefix, limit);
                let ghost tv = bigram::completion_views(top@);
                let mut out: Vec<String> = Vec::new();
                let mut i: usize = 0;
                while i < top.len()
                    invariant
                        0 <= i <= top@.len(),
                        tv == bigram::completion_views(top@),
                        views(out@) == completion_words(tv.take(i as int)),
                    decreases top.len() - i,
                {
                    let w = top[i].0.clone();
                    let ghost before = views(out@);
                    out.push(w);
                    proof {
                        assert(tv[i as int].0 == w@);
                        assert(tv.take(i + 1) =~= tv.take(i as int).push(tv[i as int]));
                        assert(views(out@) =~= before.push(w@));
                        assert(views(out@) =~= completion_words(tv.take(i + 1)));
                    }
                    i = i + 1;
                }
                proof {
                    assert(tv.take(i as int) =~= tv);
                }
                out
            },
            None => Vec::new(),
        }
    }
}

/// True when `word` has a Latin letter and no Cyrillic one.
fn is_all_latin(word: &str) -> (r: bool)
    ensures
        r == all_latin(word@),
{
    let chars = chars_of(word);
    let mut saw_letter = false;
    let mut i: usize = 0;
    while i < chars.len()
        invariant
            0 <= i <= chars@.len(),
            chars@ == word@,
            forall|k: int|
                0 <= k < i ==> script(#[trigger] chars@[k]) != Script::Macedonian && script(chars@[k])
                    != Script::ForeignCyrillic,
            saw_letter <==> exists|k: int| 0 <= k < i && script(#[trigger] chars@[k]) == Script::Latin,
        decreases chars.len() - i,
    {
        match script_of(chars[i]) {
            Script::Latin => {
                saw_letter = true;
            },
            Script::Macedonian | Script::ForeignCyrillic => {
                return false;
            },
            _ => {},
        }
        i = i + 1;
    }
    saw_letter
}

/// True for a word of two to five characters whose letters are capitals.
fn is_acronym(word: &str) -> (r: bool)
    ensures
        r == acronym(word@),
{
    let chars = chars_of(word);
    let count = chars.len();
    if count < 2 || count > MAX_ACRONYM_LEN {
        return false;
    }
    let mut i: usize = 0;
    while i < count
        invariant
            0 <= i <= count,
            count == chars@.len(),
            chars@ == word@,
            forall|k: int| 0 <= k < i && unicode_alphabetic(#[trigger] chars@[k]) ==> unicode_uppercase(chars@[k]),
        decreases count - i,
    {
        if is_alphabetic(chars[i]) && !is_uppercase(chars[i]) {
            return false;
        }
        i = i + 1;
    }
    true
}

/// True when `word` has a numeric character.
fn has_numeric_char(word: &str) -> (r: bool)
    ensures
        r == has_numeric(word@),
{
    let chars = chars_of(word);
    let mut i: usize = 0;
    while i < chars.len()
        invariant
            0 <= i <= chars@.len(),
            chars@ == word@,
            forall|k: int| 0 <= k < i ==> !unicode_numeric(#[trigger] chars@[k]),
        decreases chars.len() - i,
    {
        if is_numeric(chars[i]) {
            return true;
        }
        i = i + 1;
    }
    false
}

/// Does `word` hold a hyphen?
fn has_hyphen(word: &str) -> (r: bool)
    ensures
        r == word@.contains('-'),
{
    let chars = chars_of(word);
    let mut i: usize = 0;
    while i < chars.len()
        invariant
            0 <= i <= chars@.len(),
            chars@ == word@,
            forall|k: int| 0 <= k < i ==> chars@[k] != '-',
        decreases chars.len() - i,
    {
        if chars[i] == '-' {
            assert(word@[i as int] == '-');
            return true;
        }
        i = i + 1;
    }
    false
}

impl Checker {
    /// `црно-бел` is not in the lexicon, but both halves are: accept a
    /// compound when every hyphen-separated part is a known word.
    fn is_known_compound(&self, word: &str) -> (r: bool)
        requires
            self.lex().loaded(),
        ensures
            r == self.known_compound(word@),
    {
        if !has_hyphen(word) {
            return false;
        }
        let parts = sources::split_char(word, '-');
        let ghost pv = views(parts@);
        let mut i: usize = 0;
        while i < parts.len()
            invariant
                0 <= i <= parts@.len(),
                pv == views(parts@),
                pv == hyphen_parts(word@),
                self.lex().loaded(),
                forall|k: int| 0 <= k < i ==> (#[trigger] pv[k]).len() > 0 && self.knows(pv[k]),
            decreases parts.len() - i,
        {
            proof {
                assert(pv[i as int] == parts@[i as int]@);
            }
            if parts[i].as_str().is_empty() || !self.lexicon.contains(parts[i].as_str()) {
                return false;
            }
            i = i + 1;
        }
        true
    }

    /// The transliterations of `word` the lexicon knows, at most five.
    fn latin_readings(&self, word: &str) -> (r: Vec<String>)
        requires
            self.lex().loaded(),
        ensures
            views(r@) == take_at_most(
                known_words(self.lex()@, candidate_readings(word@)),
                MAX_SUGGESTIONS as int,
            ),
    {
        let cands = translit::candidates(word);
        let ghost cv = views(cands@);
        let ghost keys = self.lex()@;
        let mut out: Vec<String> = Vec::new();
        let mut i: usize = 0;
        while i < cands.len()
            invariant
                0 <= i <= cands@.len(),
                cv == views(cands@),
                cv == candidate_readings(word@),
                keys == self.lex()@,
                self.lex().loaded(),
                views(out@) == take_at_most(known_words(keys, cv.take(i as int)), MAX_SUGGESTIONS as int),
                out@.len() <= MAX_SUGGESTIONS,
            decreases cands.len() - i,
        {
            let c = cands[i].as_str();
            let ghost before = views(out@);
            let ghost known = known_words(keys, cv.take(i as int));
            proof {
                assert(cv[i as int] == c@);
                assert(cv.take(i + 1).drop_last() =~= cv.take(i as int));
                assert(cv.take(i + 1).last() == c@);
            }
            if out.len() < MAX_SUGGESTIONS && self.lexicon.contains(c) {
                out.push(String::from_str(c));
                proof {
                    assert(views(out@) =~= before.push(c@));
                    if self.lex().loaded() {
                        assert(known.len() < MAX_SUGGESTIONS);
                        assert(known.push(c@).len() <= MAX_SUGGESTIONS);
                    }
                }
            } else {
                proof {
                    if self.lex().loaded() && keys.contains(word_key(c@)) {
                        assert(known.len() >= MAX_SUGGESTIONS);
                        assert(known.push(c@).take(MAX_SUGGESTIONS as int) =~= known.take(MAX_SUGGESTIONS as int));
                    }
                }
            }
            i = i + 1;
        }
        proof {
            assert(cv.take(i as int) =~= cv);
        }
        out
    }

    /// Lexicon suggestions reranked by frequency when a table is loaded; the
    /// lexicon's own order otherwise. Never invents candidates.
    fn ranked_suggestions(&self, word: &str) -> (r: Vec<String>)
        requires
            self.lex().loaded(),
        ensures
            views(r@) == ranked_for(self.lex()@, self.counts(), word@),
    {
        let mut hits = self.lexicon.suggest(word, MAX_SUGGESTIONS * 4);
        match &self.frequency {
            Some(f) => {
                let lower = to_lowercase(word);
                let qchars = chars_of(lower.as_str());
                let ghost q = lower@;
                let ghost cands = views(hits@);
                let ghost kf = freq_keys(f@, q);
                let mut keys: Vec<RankKey> = Vec::new();
                let mut i: usize = 0;
                while i < hits.len()
                    invariant
                        0 <= i <= hits@.len(),
                        q == unicode_lower(word@),
                        qchars@ == q,
                        cands == views(hits@),
                        kf == freq_keys(f@, q),
                        forall|j: int| 0 <= j < hits@.len() ==> #[trigger] hits@[j]@.len() <= q.len() + 2,
                        hits@.len() > 0 ==> q.len() <= levenshtein::MAX_QUERY_CHARS,
                        key_views(keys@) == cands.take(i as int).map_values(kf),
                    decreases hits.len() - i,
                {
                    let c = hits[i].as_str();
                    let cchars = chars_of(c);
                    let count = f.get(to_lowercase(c).as_str());
                    let cost = weighted_cost(qchars.as_slice(), cchars.as_slice());
                    let text = vstd::slice::slice_to_vec(c.as_bytes());
                    let k = RankKey { first: (u32::MAX - count) as u64, second: cost as u64, third: 0, text };
                    let ghost old_keys = key_views(keys@);
                    keys.push(k);
                    proof {
                        assert(cands[i as int] == c@);
                        assert(k@ == freq_key(f@, q, c@));
                        assert(key_views(keys@) =~= old_keys.push(k@));
                        assert(cands.take(i + 1) =~= cands.take(i as int).push(cands[i as int]));
                        assert(key_views(keys@) =~= cands.take(i + 1).map_values(kf));
                    }
                    i = i + 1;
                }
                proof {
                    assert(cands.take(i as int) =~= cands);
                }
                let mut out = listed_texts(&keys, Ghost(cands), Ghost(kf));
                let ghost listed = views(out@);
                out.truncate(MAX_SUGGESTIONS);
                proof {
                    if listed.len() <= MAX_SUGGESTIONS {
                        assert(views(out@) =~= listed);
                    } else {
                        assert(views(out@) =~= listed.take(MAX_SUGGESTIONS as int));
                    }
                }
                out
            },
            None => {
                let ghost all = views(hits@);
                hits.truncate(MAX_SUGGESTIONS);
                proof {
                    if all.len() <= MAX_SUGGESTIONS {
                        assert(views(hits@) =~= all);
                    } else {
                        assert(views(hits@) =~= all.take(MAX_SUGGESTIONS as int));
                    }
                }
                hits
            },
        }
    }
}

impl Checker {
    /// The diagnostic for one word at `start..end`, if it needs one.
    fn check_word(&self, word: &str, start: usize, end: usize, in_latin_run: bool) -> (r: Option<Diagnostic>)
        requires
            self.lex().loaded(),
        ensures
            finding_of(r) == self.word_finding(word@, start as int, end as int, in_latin_run),
    {
        // 1. Characters that are not Macedonian at all.
        match homoglyph::analyze(word) {
            Some(issue) => {
                let repaired_is_a_word = self.lexicon.contains(issue.normalized.as_str());
                let (rule_id, message) = match issue.kind {
                    IssueKind::Homoglyph => (
                        rule::HOMOGLYPH,
                        "Зборот меша латинични и кирилични букви што изгледаат исто.",
                    ),
                    IssueKind::ForeignCyrillic => (
                        rule::FOREIGN_CYRILLIC,
                        "Зборот содржи букви што не постојат во македонската азбука.",
                    ),
                };
                let same = str_eq(issue.normalized.as_str(), word);
                let d = Diagnostic {
                    rule: String::from_str(rule_id),
                    // A confirmed repair is an error; an unconfirmed one is still
                    // wrong at the character level, but said more quietly.
                    severity: if repaired_is_a_word {
                        Severity::Error
                    } else {
                        Severity::Warning
                    },
                    char_start: start,
                    char_end: end,
                    text: String::from_str(word),
                    message: String::from_str(message),
                    suggestions: if !same {
                        vec![issue.normalized]
                    } else {
                        Vec::new()
                    },
                };
                proof {
                    if self.lex().loaded() {
                        let want = self.word_finding(word@, start as int, end as int, in_latin_run);
                        assert(d@.suggestions =~= want->Some_0.suggestions);
                    }
                }
                return Some(d);
            },
            None => {},
        }
        // 2. Macedonian written in Latin letters.
        if is_all_latin(word) {
            let count = chars_of(word).len();
            // BBC, CNN and Roman numerals like XIV transliterate into
            // plausible-looking nonsense; an isolated Latin word among
            // Cyrillic is a name or a citation.
            if count < MIN_LATIN_WORD_LEN || is_acronym(word) || !in_latin_run {
                return None;
            }
            let readings = self.latin_readings(word);
            // No reading is a Macedonian word: probably a genuine foreign word.
            if readings.len() == 0 {
                return None;
            }
            return Some(
                Diagnostic {
                    rule: String::from_str(rule::LATIN_TEXT),
                    severity: Severity::Warning,
                    char_start: start,
                    char_end: end,
                    text: String::from_str(word),
                    message: String::from_str("Изгледа дека зборот е напишан со латиница."),
                    suggestions: readings,
                },
            );
        }
        // 3. Ordinary spelling. A lone letter is nearly always an
        // abbreviation (`г.`, `ж.`, `в.`) or a list marker, not a typo.
        if self.lexicon.contains(word) || self.is_known_compound(word) || is_acronym(word) || chars_of(
            word,
        ).len() == 1 {
            return None;
        }
        Some(
            Diagnostic {
                rule: String::from_str(rule::SPELL),
                severity: Severity::Error,
                char_start: start,
                char_end: end,
                text: String::from_str(word),
                message: String::from_str("Непознат збор."),
                suggestions: self.ranked_suggestions(word),
            },
        )
    }
}

/// Inserting `f` at `j` is `insert_by_span` when everything from `j` on
/// comes after `f` and what stands just before `j` does not.
proof fn lemma_insert_at(s: Seq<Finding>, f: Finding, j: int)
    requires
        0 <= j <= s.len(),
        forall|k: int| j <= k < s.len() ==> !span_le(#[trigger] s[k], f),
        j > 0 ==> span_le(s[j - 1], f),
    ensures
        insert_by_span(s, f) == s.insert(j, f),
    decreases s.len(),
{
    if s.len() == 0 {
        assert(s.insert(j, f) =~= seq![f]);
    } else if j == s.len() {
        assert(s.insert(j, f) =~= s.push(f));
    } else {
        lemma_insert_at(s.drop_last(), f, j);
        assert(s.drop_last().insert(j, f).push(s.last()) =~= s.insert(j, f));
    }
}

/// Sort diagnostics by span, keeping those with the same span in order.
fn sort_by_span(all: Vec<Diagnostic>) -> (r: Vec<Diagnostic>)
    ensures
        findings(r@) == by_span(findings(all@)),
        sorted_by_span(findings(r@)),
{
    let ghost fs = findings(all@);
    let n = all.len();
    let mut rest = all;
    let mut out: Vec<Diagnostic> = Vec::new();
    let mut i: usize = 0;
    while i < n
        invariant
            0 <= i <= n,
            n == fs.len(),
            findings(rest@) == fs.skip(i as int),
            rest@.len() == n - i,
            findings(out@) == by_span(fs.take(i as int)),
            sorted_by_span(findings(out@)),
        decreases n - i,
    {
        let ghost before_rest = findings(rest@);
        let d = rest.remove(0);
        proof {
            assert(findings(rest@) =~= before_rest.drop_first());
            assert(d@ == fs[i as int]);
            assert(fs.skip(i + 1) =~= fs.skip(i as int).drop_first());
        }
        let ghost o = findings(out@);
        let mut j: usize = out.len();
        while j > 0 && (out[j - 1].char_start > d.char_start || (out[j - 1].char_start == d.char_start
            && out[j - 1].char_end > d.char_end))
            invariant
                0 <= j <= out@.len(),
                o == findings(out@),
                forall|k: int| j <= k < o.len() ==> !span_le(#[trigger] o[k], d@),
            decreases j,
        {
            j = j - 1;
        }
        proof {
            lemma_insert_at(o, d@, j as int);
            assert(fs.take(i + 1).drop_last() =~= fs.take(i as int));
            assert(fs.take(i + 1).last() == d@);
        }
        out.insert(j, d);
        proof {
            assert(findings(out@) =~= o.insert(j as int, d@));
            let no = findings(out@);
            assert forall|a: int, b: int| 0 <= a < b < no.len() implies span_le(#[trigger] no[a], #[trigger] no[b]) by {
                if b < j {
                    assert(no[a] == o[a] && no[b] == o[b]);
                } else if b == j {
                    assert(no[a] == o[a]);
                    assert(span_le(o[a], o[j - 1]) || a == j - 1);
                } else if a == j {
                    assert(no[b] == o[b - 1]);
                } else if a < j {
                    assert(no[a] == o[a] && no[b] == o[b - 1]);
                } else {
                    assert(no[a] == o[a - 1] && no[b] == o[b - 1]);
                }
            }
        }
        i = i + 1;
    }
    proof {
        assert(fs.take(i as int) =~= fs);
    }
    out
}

/// A copy of a token.
fn copy_token<'a>(t: &Token<'a>) -> (r: Token<'a>)
    ensures
        r@ == t@,
{
    Token {
        text: t.text,
        byte_start: t.byte_start,
        byte_end: t.byte_end,
        char_start: t.char_start,
        char_end: t.char_end,
        kind: t.kind,
    }
}

impl Checker {
    /// Check `text` and return every problem found, in document order.
    ///
    /// The tables must have been loaded from bytes their builders wrote:
    /// `fst` can panic walking other bytes.
    pub fn check(&self, text: &str) -> (r: Vec<Diagnostic>)
        requires
            self.ready(),
        ensures
            findings(r@) == self.findings_in(text@),
            sorted_by_span(findings(r@)),
    {
        let tokens = tokenize(text);
        let ghost tv = token_views(tokens@);
        let mut words: Vec<Token<'_>> = Vec::new();
        let mut i: usize = 0;
        while i < tokens.len()
            invariant
                0 <= i <= tokens@.len(),
                tv == token_views(tokens@),
                token_views(words@) == words_of(tv.take(i as int)),
            decreases tokens.len() - i,
        {
            proof {
                assert(tv.take(i + 1).drop_last() =~= tv.take(i as int));
                assert(tv.take(i + 1).last() == tokens@[i as int]@);
            }
            if tokens[i].kind == TokenKind::Word {
                let ghost before = token_views(words@);
                let t = copy_token(&tokens[i]);
                words.push(t);
                proof {
                    assert(token_views(words@) =~= before.push(t@));
                }
            }
            i = i + 1;
        }
        proof {
            assert(tv.take(i as int) =~= tv);
        }
        let ghost wv = token_views(words@);
        // Someone writing Macedonian on a Latin keyboard writes whole phrases
        // that way; a lone Latin word inside Cyrillic text is nearly always a
        // foreign name or a citation. So transliteration needs a run of two
        // or more adjacent Latin words.
        let mut latin: Vec<bool> = Vec::new();
        let mut k: usize = 0;
        while k < words.len()
            invariant
                0 <= k <= words@.len(),
                wv == token_views(words@),
                latin@.len() == k,
                forall|m: int| 0 <= m < k ==> #[trigger] latin@[m] == all_latin(wv[m].text),
            decreases words.len() - k,
        {
            latin.push(is_all_latin(words[k].text));
            k = k + 1;
        }
        let mut out: Vec<Diagnostic> = Vec::new();
        let mut k: usize = 0;
        while k < words.len()
            invariant
                0 <= k <= words@.len(),
                wv == token_views(words@),
                latin@.len() == words@.len(),
                forall|m: int| 0 <= m < words@.len() ==> #[trigger] latin@[m] == all_latin(wv[m].text),
                self.lex().loaded(),
                findings(out@) == self.spelling(wv, k as int),
            decreases words.len() - k,
        {
            let w = &words[k];
            proof {
                assert(wv[k as int] == w@);
            }
            // Suffixed ordinals and codes (`1-ви`, `А4`) are not lexicon entries.
            if !has_numeric_char(w.text) {
                let run = latin[k] && ((k > 0 && latin[k - 1]) || (k + 1 < latin.len() && latin[k + 1]));
                proof {
                    assert(run == in_latin_run(wv, k as int));
                }
                match self.check_word(w.text, w.char_start, w.char_end, run) {
                    Some(d) => {
                        let ghost before = findings(out@);
                        out.push(d);
                        proof {
                            assert(findings(out@) =~= before.push(d@));
                        }
                    },
                    None => {},
                }
            }
            k = k + 1;
        }
        // Grammar needs the punctuation the spelling pass filtered out, so
        // that a sentence boundary is not mistaken for a phrase boundary.
        let ghost spelled = findings(out@);
        match &self.morphology {
            Some(morphology) => {
                let mut found = grammar::check(tokens.as_slice(), morphology);
                let ghost g = findings(found@);
                out.append(&mut found);
                proof {
                    assert(findings(out@) =~= spelled + g);
                }
            },
            None => {
                proof {
                    assert(spelled + Seq::<Finding>::empty() =~= spelled);
                }
            },
        }
        sort_by_span(out)
    }
}

/// What `insert_by_span` holds: the findings of `s`, and `f`.
proof fn lemma_insert_by_span_members(s: Seq<Finding>, f: Finding)
    ensures
        insert_by_span(s, f).to_multiset() == s.to_multiset().insert(f),
        insert_by_span(s, f).len() == s.len() + 1,
        forall|k: int| 0 <= k < insert_by_span(s, f).len() ==> #[trigger] insert_by_span(s, f)[k] == f || s.contains(
            insert_by_span(s, f)[k],
        ),
    decreases s.len(),
{
    broadcast use vstd::seq_lib::to_multiset_build;
    if s.len() == 0 {
        assert(seq![f] == Seq::<Finding>::empty().push(f));
    } else if span_le(s.last(), f) {
        assert(s.drop_last().push(s.last()) =~= s);
    } else {
        let d = s.drop_last();
        lemma_insert_by_span_members(d, f);
        assert(d.push(s.last()) =~= s);
        assert(insert_by_span(s, f).to_multiset() =~= s.to_multiset().insert(f));
        let r = insert_by_span(s, f);
        assert forall|k: int| 0 <= k < r.len() implies #[trigger] r[k] == f || s.contains(r[k]) by {
            if k < r.len() - 1 {
                let x = insert_by_span(d, f)[k];
                if x != f {
                    let j = choose|j: int| 0 <= j < d.len() && d[j] == x;
                    assert(s[j] == x);
                }
            } else {
                assert(s[s.len() - 1] == s.last());
            }
        }
    }
}

/// Inserting by span keeps a sorted sequence sorted.
proof fn lemma_insert_by_span_sorted(s: Seq<Finding>, f: Finding)
    requires
        sorted_by_span(s),
    ensures
        sorted_by_span(insert_by_span(s, f)),
    decreases s.len(),
{
    lemma_insert_by_span_members(s, f);
    if s.len() > 0 {
        let r = insert_by_span(s, f);
        if span_le(s.last(), f) {
            assert forall|i: int, j: int| 0 <= i < j < r.len() implies span_le(#[trigger] r[i], #[trigger] r[j]) by {
                if j == r.len() - 1 && i < s.len() - 1 {
                    assert(span_le(s[i], s[s.len() - 1]));
                }
            }
        } else {
            let d = s.drop_last();
            assert(sorted_by_span(d)) by {
                assert forall|i: int, j: int| 0 <= i < j < d.len() implies span_le(#[trigger] d[i], #[trigger] d[j]) by {
                    assert(span_le(s[i], s[j]));
                }
            }
            lemma_insert_by_span_sorted(d, f);
            lemma_insert_by_span_members(d, f);
            let e = insert_by_span(d, f);
            assert forall|i: int, j: int| 0 <= i < j < r.len() implies span_le(#[trigger] r[i], #[trigger] r[j]) by {
                if j == r.len() - 1 {
                    let x = e[i];
                    if x != f {
                        let k = choose|k: int| 0 <= k < d.len() && d[k] == x;
                        assert(span_le(s[k], s[s.len() - 1]));
                    }
                } else {
                    assert(r[i] == e[i] && r[j] == e[j]);
                }
            }
        }
    }
}

/// Law: sorting findings by span neither loses nor adds one, and leaves
/// them in document order; findings with the same span keep their order.
pub proof fn lemma_by_span_sorts(s: Seq<Finding>)
    ensures
        by_span(s).to_multiset() == s.to_multiset(),
        sorted_by_span(by_span(s)),
    decreases s.len(),
{
    broadcast use vstd::seq_lib::to_multiset_build;
    if s.len() == 0 {
        assert(by_span(s) =~= s);
    } else {
        lemma_by_span_sorts(s.drop_last());
        lemma_insert_by_span_members(by_span(s.drop_last()), s.last());
        lemma_insert_by_span_sorted(by_span(s.drop_last()), s.last());
        assert(s.drop_last().push(s.last()) =~= s);
    }
}

/// Law: every spelling suggestion is a word the lexicon holds, within two
/// edits of the lowercased word, and never that word itself; a frequency
/// table only reorders the lexicon's best twenty before the first five are
/// taken. At most five are offered, each once.
pub proof fn lemma_spelling_suggestions_known(keys: Set<Seq<u8>>, freq: Option<Map<Seq<char>, u32>>, word: Seq<char>)
    requires
        keys.finite(),
    ensures
        forall|k: int| 0 <= k < ranked_for(keys, freq, word).len() ==> #[trigger] offerable(
            keys,
            unicode_lower(word),
            ranked_for(keys, freq, word)[k],
        ),
        forall|k: int| 0 <= k < ranked_for(keys, freq, word).len() ==> suggestions(
            keys,
            word,
            (MAX_SUGGESTIONS * 4) as nat,
        ).contains(#[trigger] ranked_for(keys, freq, word)[k]),
        ranked_for(keys, freq, word).len() <= MAX_SUGGESTIONS,
        ranked_for(keys, freq, word).no_duplicates(),
{
    let hits = suggestions(keys, word, (MAX_SUGGESTIONS * 4) as nat);
    lexicon::lemma_suggestions_are_offerable(keys, word, (MAX_SUGGESTIONS * 4) as nat);
    let out = ranked_for(keys, freq, word);
    match freq {
        Some(f) => {
            let kf = freq_keys(f, unicode_lower(word));
            lexicon::lemma_keyed_strict_total(kf, hits.to_set());
            order::lemma_listing_exists(hits.to_set(), keyed_order(kf));
            let l = listing(hits.to_set(), keyed_order(kf));
            assert forall|k: int| #![trigger out[k]] 0 <= k < out.len() implies offerable(keys, unicode_lower(word), out[k])
                && hits.contains(out[k]) by {
                assert(out[k] == l[k]);
                assert(l.to_set().contains(l[k]));
                let j = choose|j: int| 0 <= j < hits.len() && hits[j] == l[k];
                assert(hits.contains(out[k]));
            }
            assert forall|a: int, b: int| 0 <= a < out.len() && 0 <= b < out.len() && a != b implies out[a] != out[b] by {
                let (x, y) = if a < b { (a, b) } else { (b, a) };
                assert(out[x] == l[x] && out[y] == l[y]);
                assert(keyed_order(kf)(l[x], l[y]));
                order::lemma_key_irreflexive(kf(l[x]));
            }
        },
        None => {
            assert forall|k: int| #![trigger out[k]] 0 <= k < out.len() implies offerable(keys, unicode_lower(word), out[k])
                && hits.contains(out[k]) by {
                assert(out[k] == hits[k]);
                assert(hits.contains(out[k]));
            }
            let q = unicode_lower(word);
            assert forall|a: int, b: int| 0 <= a < out.len() && 0 <= b < out.len() && a != b implies out[a] != out[b] by {
                let (x, y) = if a < b { (a, b) } else { (b, a) };
                assert(out[x] == hits[x] && out[y] == hits[y]);
                assert(lexicon::rank_order(q)(hits[x], hits[y]));
                order::lemma_key_irreflexive(lexicon::rank_key(q, hits[x]));
            }
        },
    }
}

/// The Latin-text readings offered are words the lexicon knows.
proof fn lemma_known_words_known(keys: Set<Seq<u8>>, cands: Seq<Seq<char>>)
    ensures
        forall|k: int| 0 <= k < known_words(keys, cands).len() ==> keys.contains(
            word_key(#[trigger] known_words(keys, cands)[k]),
        ),
    decreases cands.len(),
{
    if cands.len() > 0 {
        lemma_known_words_known(keys, cands.drop_last());
        let rest = known_words(keys, cands.drop_last());
        let all = known_words(keys, cands);
        assert forall|k: int| 0 <= k < all.len() implies keys.contains(word_key(#[trigger] all[k])) by {
            if k < rest.len() {
                assert(all[k] == rest[k]);
            }
        }
    }
}

/// Law: what the checker proposes for a word is backed by the lexicon. A
/// spelling suggestion is a word the lexicon holds, within two edits of the
/// lowercased word and not that word; a reading of Latin text is a word the
/// lexicon knows; and a repair of mixed or foreign letters is reported as
/// an error only when the repaired word is known.
pub proof fn lemma_proposals_backed(c: Checker, w: Seq<char>, start: int, end: int, in_run: bool)
    requires
        c.ready(),
    ensures
        c.word_finding(w, start, end, in_run) matches Some(f) ==> {
            &&& f.rule == rule::SPELL@ ==> forall|k: int|
                0 <= k < f.suggestions.len() ==> #[trigger] offerable(
                    c.lex()@,
                    unicode_lower(w),
                    f.suggestions[k],
                )
            &&& f.rule == rule::LATIN_TEXT@ ==> forall|k: int|
                0 <= k < f.suggestions.len() ==> c.knows(#[trigger] f.suggestions[k])
            &&& (f.rule == rule::HOMOGLYPH@ || f.rule == rule::FOREIGN_CYRILLIC@) && f.severity
                == Severity::Error ==> c.knows(normalized(w))
        },
{
    reveal_strlit("MK_SPELL");
    reveal_strlit("MK_HOMOGLYPH");
    reveal_strlit("MK_FOREIGN_CYRILLIC");
    reveal_strlit("MK_LATIN_TEXT");
    assert(rule::SPELL@ == "MK_SPELL"@);
    assert(rule::HOMOGLYPH@ == "MK_HOMOGLYPH"@);
    assert(rule::FOREIGN_CYRILLIC@ == "MK_FOREIGN_CYRILLIC"@);
    assert(rule::LATIN_TEXT@ == "MK_LATIN_TEXT"@);
    assert(rule::SPELL@.len() == 8 && rule::HOMOGLYPH@.len() == 12);
    assert(rule::FOREIGN_CYRILLIC@.len() == 19 && rule::LATIN_TEXT@.len() == 13);
    c.lex().lemma_loaded_finite();
    lemma_spelling_suggestions_known(c.lex()@, c.counts(), w);
    let all = known_words(c.lex()@, candidate_readings(w));
    lemma_known_words_known(c.lex()@, candidate_readings(w));
    let taken = take_at_most(all, MAX_SUGGESTIONS as int);
    assert forall|k: int| 0 <= k < taken.len() implies c.knows(#[trigger] taken[k]) by {
        assert(taken[k] == all[k]);
    }
    match c.word_finding(w, start, end, in_run) {
        Some(f) => {
            match issue_of(w) {
                Some(kind) => {
                    assert(f.rule != rule::SPELL@ && f.rule != rule::LATIN_TEXT@);
                },
                None => {
                    if all_latin(w) {
                        assert(f.suggestions == taken);
                        assert(f.rule != rule::SPELL@);
                    } else {
                        assert(f.rule != rule::LATIN_TEXT@);
                        assert(f.rule != rule::HOMOGLYPH@ && f.rule != rule::FOREIGN_CYRILLIC@);
                    }
                },
            }
        },
        None => {},
    }
}

/// The rules that judge a single word.
pub open spec fn word_rule_name(r: Seq<char>) -> bool {
    ||| r == rule::SPELL@
    ||| r == rule::HOMOGLYPH@
    ||| r == rule::FOREIGN_CYRILLIC@
    ||| r == rule::LATIN_TEXT@
}

/// Sorting by span keeps only findings it was given.
proof fn lemma_by_span_members(s: Seq<Finding>)
    ensures
        by_span(s).len() == s.len(),
        forall|k: int| 0 <= k < by_span(s).len() ==> s.contains(#[trigger] by_span(s)[k]),
    decreases s.len(),
{
    if s.len() > 0 {
        let d = s.drop_last();
        lemma_by_span_members(d);
        lemma_insert_by_span_members(by_span(d), s.last());
        let r = by_span(s);
        assert forall|k: int| 0 <= k < r.len() implies s.contains(#[trigger] r[k]) by {
            if r[k] == s.last() {
                assert(s[s.len() - 1] == r[k]);
            } else {
                let j = choose|j: int| 0 <= j < by_span(d).len() && by_span(d)[j] == r[k];
                let i = choose|i: int| 0 <= i < d.len() && d[i] == by_span(d)[j];
                assert(s[i] == r[k]);
            }
        }
    }
}

/// The words among tokens are tokens.
proof fn lemma_words_of_members(ts: Seq<TokenView>)
    ensures
        forall|k: int| 0 <= k < words_of(ts).len() ==> ts.contains(#[trigger] words_of(ts)[k]),
    decreases ts.len(),
{
    if ts.len() > 0 {
        let d = ts.drop_last();
        lemma_words_of_members(d);
        let w = words_of(ts);
        assert forall|k: int| 0 <= k < w.len() implies ts.contains(#[trigger] w[k]) by {
            if k < words_of(d).len() {
                assert(w[k] == words_of(d)[k]);
                let i = choose|i: int| 0 <= i < d.len() && d[i] == w[k];
                assert(ts[i] == w[k]);
            } else {
                assert(ts[ts.len() - 1] == w[k]);
            }
        }
    }
}

impl Checker {
    /// A spelling finding quotes one of the words, at its span.
    proof fn lemma_spelling_quotes(&self, words: Seq<TokenView>, n: int)
        requires
            n <= words.len(),
        ensures
            forall|k: int|
                0 <= k < self.spelling(words, n).len() ==> exists|j: int|
                    0 <= j < words.len() && #[trigger] self.spelling(words, n)[k].text == words[j].text
                        && self.spelling(words, n)[k].char_start == words[j].start && self.spelling(
                        words,
                        n,
                    )[k].char_end == words[j].end,
        decreases n,
    {
        if n > 0 {
            self.lemma_spelling_quotes(words, n - 1);
            let rest = self.spelling(words, n - 1);
            let sp = self.spelling(words, n);
            let w = words[n - 1];
            assert forall|k: int| 0 <= k < sp.len() implies exists|j: int|
                0 <= j < words.len() && #[trigger] sp[k].text == words[j].text && sp[k].char_start == words[j].start
                    && sp[k].char_end == words[j].end by {
                if k < rest.len() {
                    assert(sp[k] == rest[k]);
                } else {
                    assert(sp[k].text == words[n - 1].text);
                }
            }
        }
    }
}

/// Law: every finding of the spelling and script rules quotes the text at
/// its span: its text is the characters `char_start..char_end` of the
/// checked text.
pub proof fn lemma_word_findings_quote_text(c: Checker, text: Seq<char>)
    ensures
        forall|k: int|
            0 <= k < c.findings_in(text).len() && word_rule_name(#[trigger] c.findings_in(text)[k].rule) ==> {
                let f = c.findings_in(text)[k];
                &&& 0 <= f.char_start <= f.char_end <= text.len()
                &&& f.text == text.subrange(f.char_start, f.char_end)
            },
{
    reveal_strlit("MK_SPELL");
    reveal_strlit("MK_HOMOGLYPH");
    reveal_strlit("MK_FOREIGN_CYRILLIC");
    reveal_strlit("MK_LATIN_TEXT");
    reveal_strlit("MK_DOUBLE_DEFINITE");
    reveal_strlit("MK_CLITIC_ORDER");
    reveal_strlit("MK_DATIVE_I");
    reveal_strlit("MK_L_PARTICIPLE");
    assert(rule::SPELL@ == "MK_SPELL"@ && rule::HOMOGLYPH@ == "MK_HOMOGLYPH"@);
    assert(rule::FOREIGN_CYRILLIC@ == "MK_FOREIGN_CYRILLIC"@ && rule::LATIN_TEXT@ == "MK_LATIN_TEXT"@);
    assert(rule::DOUBLE_DEFINITE@ == "MK_DOUBLE_DEFINITE"@ && rule::CLITIC_ORDER@ == "MK_CLITIC_ORDER"@);
    assert(rule::DATIVE_I@ == "MK_DATIVE_I"@ && rule::L_PARTICIPLE@ == "MK_L_PARTICIPLE"@);
    assert(rule::SPELL@.len() == 8 && rule::HOMOGLYPH@.len() == 12);
    assert(rule::FOREIGN_CYRILLIC@.len() == 19 && rule::LATIN_TEXT@.len() == 13);
    assert(rule::DOUBLE_DEFINITE@.len() == 18 && rule::CLITIC_ORDER@.len() == 15);
    assert(rule::DATIVE_I@.len() == 11 && rule::L_PARTICIPLE@.len() == 15);
    let tokens = token_views_of(text);
    let words = words_of(tokens);
    let sp = c.spelling(words, words.len() as int);
    let g = match c.morph() {
        Some(m) => grammar_findings(tokens, m),
        None => Seq::empty(),
    };
    match c.morph() {
        Some(m) => {
            grammar::lemma_grammar_findings_adjacent(tokens, m);
        },
        None => {},
    }
    let all = sp + g;
    lemma_by_span_members(all);
    lemma_words_of_members(tokens);
    c.lemma_spelling_quotes(words, words.len() as int);
    tokenizer_laws::lemma_token_kinds(text);
    let out = c.findings_in(text);
    assert(out == by_span(all));
    assert forall|k: int| 0 <= k < out.len() && word_rule_name(#[trigger] out[k].rule) implies {
        let f = out[k];
        &&& 0 <= f.char_start <= f.char_end <= text.len()
        &&& f.text == text.subrange(f.char_start, f.char_end)
    } by {
        let f = out[k];
        assert(all.contains(f));
        let i = choose|i: int| 0 <= i < all.len() && all[i] == f;
        if i < sp.len() {
            assert(sp[i] == f);
            let j = choose|j: int|
                0 <= j < words.len() && #[trigger] sp[i].text == words[j].text && sp[i].char_start == words[j].start
                    && sp[i].char_end == words[j].end;
            assert(tokens.contains(words[j]));
            let t = choose|t: int| 0 <= t < tokens.len() && tokens[t] == words[j];
            assert(tokens[t].text == text.subrange(tokens[t].start, tokens[t].end));
        } else {
            assert(g[i - sp.len()] == f);
            assert(grammar::grammar_rule_name(f.rule));
        }
    }
}

} // verus!
