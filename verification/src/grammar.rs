//! Grammar rules over morphologically analysed text.
//!
//! Everything here works on a window of analysed tokens rather than on raw
//! characters, which is what separates these checks from spelling.
//!
//! # Precision over recall
//!
//! A proofreader that cries wolf gets switched off, so every rule here is
//! written to stay silent when it is not sure:
//!
//! * a rule fires only when *every* reading of a word supports it, never when
//!   merely one ambiguous reading does;
//! * the words must be genuinely adjacent, with no punctuation between them,
//!   so a sentence boundary cannot be mistaken for a phrase;
//! * features must agree, so two unrelated words that happen to sit next to
//!   each other are not read as one phrase.
//!
//! Each rule is stated as a spec function giving, for every window of
//! tokens, the finding the rule reports there, if any.

use vstd::prelude::*;
use crate::diagnostic::{Diagnostic, Finding, Severity, findings};
use crate::diagnostic::rule;
use crate::morphology::{
    Analysis, Gender, Morphology, Number, Pos, Reading, reading_pos, reading_gender,
    reading_number, reading_is_definite, reading_is_l_participle,
};
use crate::tokenizer::{Token, TokenKind, TokenView, token_views};
use crate::text::{str_eq, to_lowercase, unicode_lower, unicode_uppercase, is_uppercase, chars_of};

verus! {

broadcast use vstd::seq_lib::group_seq_properties;

/// The readings of each analysis.
pub open spec fn readings_of(v: Seq<Analysis>) -> Seq<Reading> {
    v.map_values(|a: Analysis| a@)
}

/// The finding a diagnostic carries, if there is one.
pub open spec fn finding_of(d: Option<Diagnostic>) -> Option<Finding> {
    match d {
        Some(x) => Some(x@),
        None => None,
    }
}

/// The characters of an optional string.
pub open spec fn text_of(s: Option<String>) -> Option<Seq<char>> {
    match s {
        Some(x) => Some(x@),
        None => None,
    }
}

/// A token that is a word.
pub open spec fn is_word(t: TokenView) -> bool {
    t.kind == TokenKind::Word
}

/// Do two genders agree? `mfn`/`mf` are underspecified and agree with
/// anything, which matters because Macedonian plural adjectives do not
/// distinguish gender.
pub open spec fn genders_agree(a: Gender, b: Gender) -> bool {
    a == b || a == Gender::Common || b == Gender::Common
}

/// The first reading of part of speech `pos`.
pub open spec fn first_of_pos(rs: Seq<Reading>, pos: Pos) -> Option<Reading>
    decreases rs.len(),
{
    if rs.len() == 0 {
        None
    } else {
        match first_of_pos(rs.drop_last(), pos) {
            Some(r) => Some(r),
            None => if reading_pos(rs.last()) == Some(pos) {
                Some(rs.last())
            } else {
                None
            },
        }
    }
}

/// Some reading is of part of speech `pos`.
pub open spec fn some_of_pos(rs: Seq<Reading>, pos: Pos) -> bool {
    exists|k: int| 0 <= k < rs.len() && reading_pos(#[trigger] rs[k]) == Some(pos)
}

/// Every reading of part of speech `pos` is definite.
pub open spec fn all_definite(rs: Seq<Reading>, pos: Pos) -> bool {
    forall|k: int| 0 <= k < rs.len() && reading_pos(#[trigger] rs[k]) == Some(pos) ==> reading_is_definite(rs[k])
}

/// Gender and number of a word when it is unambiguously a definite `pos`:
/// it has a reading of that part of speech, every such reading is definite,
/// and the first one carries a gender and a number.
pub open spec fn definite_features(rs: Seq<Reading>, pos: Pos) -> Option<(Gender, Number)> {
    if !some_of_pos(rs, pos) || !all_definite(rs, pos) {
        None
    } else {
        match first_of_pos(rs, pos) {
            Some(first) => match (reading_gender(first), reading_number(first)) {
                (Some(g), Some(n)) => Some((g, n)),
                _ => None,
            },
            None => None,
        }
    }
}

/// The reading is an indefinite noun of number `n` whose gender agrees
/// with `g`.
pub open spec fn bare_noun_of(r: Reading, g: Gender, n: Number) -> bool {
    &&& reading_pos(r) == Some(Pos::Noun)
    &&& !reading_is_definite(r)
    &&& reading_number(r) == Some(n)
    &&& match reading_gender(r) {
        Some(x) => genders_agree(x, g),
        None => false,
    }
}

/// Some reading is a bare noun agreeing with `(g, n)`.
pub open spec fn some_bare_noun(rs: Seq<Reading>, g: Gender, n: Number) -> bool {
    exists|k: int| 0 <= k < rs.len() && bare_noun_of(#[trigger] rs[k], g, n)
}

/// The bare form of the noun: the lemma of its first noun reading, when the
/// lemma itself analyses as an indefinite noun agreeing in gender and number.
/// The lemma is the indefinite singular, so this serves singulars; for a
/// plural no stored form fits and there is no suggestion.
pub open spec fn indefinite_form(rs: Seq<Reading>, m: Morphology, g: Gender, n: Number) -> Option<Seq<char>> {
    match first_of_pos(rs, Pos::Noun) {
        None => None,
        Some(noun) => if some_bare_noun(m.analyses_of(noun.lemma), g, n) {
            Some(noun.lemma)
        } else {
            None
        },
    }
}

/// Two texts with a space between them.
pub open spec fn joined(a: Seq<char>, b: Seq<char>) -> Seq<char> {
    a + " "@ + b
}

/// The finding for a noun phrase whose article is marked twice, on the
/// adjacent tokens `first` and `second`.
pub open spec fn double_definite_pair(first: TokenView, second: TokenView, m: Morphology) -> Option<Finding> {
    if !is_word(first) || !is_word(second) {
        None
    } else {
        let noun = m.analyses_of(second.text);
        match (definite_features(m.analyses_of(first.text), Pos::Adjective), definite_features(noun, Pos::Noun)) {
            (Some((ag, an)), Some((ng, nn))) => if !genders_agree(ag, ng) || an != nn {
                None
            } else {
                Some(
                    Finding {
                        rule: rule::DOUBLE_DEFINITE@,
                        severity: Severity::Error,
                        char_start: first.start,
                        char_end: second.end,
                        text: joined(first.text, second.text),
                        message: "Членот се пишува само на првиот збор во именската група."@,
                        suggestions: match indefinite_form(noun, m, ng, nn) {
                            Some(bare) => seq![joined(first.text, bare)],
                            None => Seq::empty(),
                        },
                    },
                )
            },
            _ => None,
        }
    }
}

/// The reading is a pronoun carrying `case`.
pub open spec fn pronoun_in(r: Reading, case: Seq<char>) -> bool {
    reading_pos(r) == Some(Pos::Pronoun) && r.tags.contains(case)
}

/// Some reading is a pronoun carrying `case`.
pub open spec fn some_pronoun_in(rs: Seq<Reading>, case: Seq<char>) -> bool {
    exists|k: int| 0 <= k < rs.len() && pronoun_in(#[trigger] rs[k], case)
}

/// The finding for an accusative clitic before a dative one before a verb.
/// The verb anchors the judgement: `ми` alone also reads as a verb form, but
/// two adjacent verbs are wrong anyway, so the reversed pair before a verb is
/// wrong under every reading.
pub open spec fn clitic_order_triple(first: TokenView, second: TokenView, third: TokenView, m: Morphology) -> Option<Finding> {
    let acc = m.analyses_of(first.text);
    let dat = m.analyses_of(second.text);
    let verb = m.analyses_of(third.text);
    if !is_word(first) || !is_word(second) || !is_word(third) {
        None
    } else if acc.len() == 0 || dat.len() == 0 || verb.len() == 0 {
        None
    } else if !some_pronoun_in(acc, "acc"@) || some_of_pos(acc, Pos::Verb) {
        None
    } else if !some_pronoun_in(dat, "dat"@) || !some_of_pos(verb, Pos::Verb) {
        None
    } else {
        Some(
            Finding {
                rule: rule::CLITIC_ORDER@,
                severity: Severity::Error,
                char_start: first.start,
                char_end: third.end,
                text: joined(joined(first.text, second.text), third.text),
                message: "Заменките се пишуваат: дативна пред акузативна (ми го, не го ми)."@,
                suggestions: seq![joined(joined(second.text, first.text), third.text)],
            },
        )
    }
}

/// The subject pronouns after which a bare `и` is the dative clitic.
pub open spec fn subject_pronouns() -> Seq<Seq<char>> {
    seq!["јас"@, "ти"@, "тој"@, "таа"@, "тоа"@, "ние"@, "вие"@, "тие"@]
}

/// The finding for a bare `и` in the dative slot: after a subject pronoun and
/// before an accusative clitic. After a verb the `и` is the conjunction and
/// nothing is found.
pub open spec fn dative_i_triple(subj: TokenView, maybe_i: TokenView, acc: TokenView, m: Morphology) -> Option<Finding> {
    if !is_word(subj) || !is_word(maybe_i) || !is_word(acc) {
        None
    } else if unicode_lower(maybe_i.text) != "и"@ || !subject_pronouns().contains(unicode_lower(subj.text)) {
        None
    } else if !some_pronoun_in(m.analyses_of(maybe_i.text), "dat"@) {
        None
    } else if m.analyses_of(acc.text).len() == 0 || !some_pronoun_in(m.analyses_of(acc.text), "acc"@) {
        None
    } else {
        Some(
            Finding {
                rule: rule::DATIVE_I@,
                severity: Severity::Error,
                char_start: maybe_i.start,
                char_end: maybe_i.end,
                text: maybe_i.text,
                message: "Дативната заменка ѝ се пишува со гравис, за разлика од сврзникот и."@,
                suggestions: seq![
                    if maybe_i.text.len() > 0 && unicode_uppercase(maybe_i.text[0]) {
                        "Ѝ"@
                    } else {
                        "ѝ"@
                    },
                ],
            },
        )
    }
}

/// Gender and number of each pronoun reading that carries both.
pub open spec fn subject_forms(rs: Seq<Reading>) -> Seq<(Gender, Number)>
    decreases rs.len(),
{
    if rs.len() == 0 {
        Seq::empty()
    } else {
        let rest = subject_forms(rs.drop_last());
        let r = rs.last();
        match (reading_pos(r), reading_gender(r), reading_number(r)) {
            (Some(Pos::Pronoun), Some(g), Some(n)) => rest.push((g, n)),
            _ => rest,
        }
    }
}

/// Gender, number and lemma of each л-participle reading that carries both.
pub open spec fn participle_forms(rs: Seq<Reading>) -> Seq<(Gender, Number, Seq<char>)>
    decreases rs.len(),
{
    if rs.len() == 0 {
        Seq::empty()
    } else {
        let rest = participle_forms(rs.drop_last());
        let r = rs.last();
        if reading_is_l_participle(r) {
            match (reading_gender(r), reading_number(r)) {
                (Some(g), Some(n)) => rest.push((g, n, r.lemma)),
                _ => rest,
            }
        } else {
            rest
        }
    }
}

/// Some subject form agrees with some participle form in gender and number.
pub open spec fn some_agreement(subjects: Seq<(Gender, Number)>, parts: Seq<(Gender, Number, Seq<char>)>) -> bool {
    exists|a: int, b: int|
        0 <= a < subjects.len() && 0 <= b < parts.len() && #[trigger] agree_at(subjects, parts, a, b)
}

/// Subject form `a` agrees with participle form `b`.
pub open spec fn agree_at(subjects: Seq<(Gender, Number)>, parts: Seq<(Gender, Number, Seq<char>)>, a: int, b: int) -> bool {
    genders_agree(subjects[a].0, parts[b].0) && subjects[a].1 == parts[b].1
}

/// The reading is an л-participle of number `n` whose gender agrees with `g`.
pub open spec fn agreeing_participle(r: Reading, g: Gender, n: Number) -> bool {
    &&& reading_is_l_participle(r)
    &&& reading_number(r) == Some(n)
    &&& match reading_gender(r) {
        Some(x) => genders_agree(x, g),
        None => false,
    }
}

/// Some reading is an agreeing л-participle.
pub open spec fn some_agreeing_participle(rs: Seq<Reading>, g: Gender, n: Number) -> bool {
    exists|k: int| 0 <= k < rs.len() && agreeing_participle(#[trigger] rs[k], g, n)
}

/// The first of `forms` that analyses as an agreeing л-participle.
pub open spec fn first_agreeing(m: Morphology, forms: Seq<Seq<char>>, g: Gender, n: Number) -> Option<Seq<char>>
    decreases forms.len(),
{
    if forms.len() == 0 {
        None
    } else {
        match first_agreeing(m, forms.drop_last(), g, n) {
            Some(f) => Some(f),
            None => if some_agreeing_participle(m.analyses_of(forms.last()), g, n) {
                Some(forms.last())
            } else {
                None
            },
        }
    }
}

/// The first stored л-participle form of `lemma` agreeing with `(g, n)`;
/// never an invented one.
pub open spec fn best_participle(m: Morphology, lemma: Seq<char>, g: Gender, n: Number) -> Option<Seq<char>> {
    first_agreeing(m, m.participles_of(lemma), g, n)
}

/// The finding for a subject pronoun followed by an л-participle that agrees
/// with it under no pair of readings. The suggestion reuses a stored form of
/// the same lemma, and there is none when no stored form agrees.
pub open spec fn l_participle_pair(subj: TokenView, part: TokenView, m: Morphology) -> Option<Finding> {
    let subj_readings = m.analyses_of(subj.text);
    let part_readings = m.analyses_of(part.text);
    let subjects = subject_forms(subj_readings);
    let parts = participle_forms(part_readings);
    if !is_word(subj) || !is_word(part) {
        None
    } else if subj_readings.len() == 0 || part_readings.len() == 0 {
        None
    } else if subjects.len() == 0 || parts.len() == 0 || some_agreement(subjects, parts) {
        None
    } else {
        Some(
            Finding {
                rule: rule::L_PARTICIPLE@,
                severity: Severity::Error,
                char_start: subj.start,
                char_end: part.end,
                text: joined(subj.text, part.text),
                message: "Л-партиципот мора да се сложува со подметот во род и број."@,
                suggestions: match best_participle(m, parts[0].2, subjects[0].0, subjects[0].1) {
                    Some(f) => seq![joined(subj.text, f)],
                    None => Seq::empty(),
                },
            },
        )
    }
}

/// The grammar rules, each judging the window of tokens that starts at a
/// position.
pub enum GrammarRule {
    DoubleDefinite,
    CliticOrder,
    DativeI,
    LParticiple,
}

/// What `rule` finds in the window of `tokens` starting at `i`.
pub open spec fn finding_at(rule: GrammarRule, tokens: Seq<TokenView>, m: Morphology, i: int) -> Option<Finding> {
    match rule {
        GrammarRule::DoubleDefinite => double_definite_pair(tokens[i], tokens[i + 1], m),
        GrammarRule::CliticOrder => clitic_order_triple(tokens[i], tokens[i + 1], tokens[i + 2], m),
        GrammarRule::DativeI => dative_i_triple(tokens[i], tokens[i + 1], tokens[i + 2], m),
        GrammarRule::LParticiple => l_participle_pair(tokens[i], tokens[i + 1], m),
    }
}

/// What `rule` finds in the windows starting before `n`, in text order.
pub open spec fn gather(rule: GrammarRule, tokens: Seq<TokenView>, m: Morphology, n: int) -> Seq<Finding>
    decreases n,
{
    if n <= 0 {
        Seq::empty()
    } else {
        let rest = gather(rule, tokens, m, n - 1);
        match finding_at(rule, tokens, m, n - 1) {
            Some(f) => rest.push(f),
            None => rest,
        }
    }
}

/// Every grammar finding for `tokens`: doubled articles, then clitic order,
/// then dative `и`, then л-participle agreement, each in text order.
pub open spec fn grammar_findings(tokens: Seq<TokenView>, m: Morphology) -> Seq<Finding> {
    gather(GrammarRule::DoubleDefinite, tokens, m, tokens.len() - 1)
        + gather(GrammarRule::CliticOrder, tokens, m, tokens.len() - 2)
        + gather(GrammarRule::DativeI, tokens, m, tokens.len() - 2)
        + gather(GrammarRule::LParticiple, tokens, m, tokens.len() - 1)
}


/// `a`, a space, and `b`.
fn join_words(a: &str, b: &str) -> (r: String)
    ensures
        r@ == joined(a@, b@),
{
    let mut out = String::from_str(a);
    out.append(" ");
    out.append(b);
    out
}

/// Do two genders agree?
fn compatible(a: Gender, b: Gender) -> (r: bool)
    ensures
        r == genders_agree(a, b),
{
    a == b || a == Gender::Common || b == Gender::Common
}

/// Is the analysis of part of speech `pos`?
fn is_pos(a: &Analysis<'_>, pos: Pos) -> (r: bool)
    ensures
        r == (reading_pos(a@) == Some(pos)),
{
    match a.pos() {
        Some(p) => p == pos,
        None => false,
    }
}

/// Once a prefix has a reading of `pos`, the whole sequence has the same
/// first one.
proof fn lemma_first_of_pos_prefix(rs: Seq<Reading>, pos: Pos, i: int)
    requires
        0 <= i <= rs.len(),
        first_of_pos(rs.take(i), pos) is Some,
    ensures
        first_of_pos(rs, pos) == first_of_pos(rs.take(i), pos),
    decreases rs.len() - i,
{
    if i < rs.len() {
        assert(rs.drop_last().take(i) =~= rs.take(i));
        lemma_first_of_pos_prefix(rs.drop_last(), pos, i);
    } else {
        assert(rs.take(i) =~= rs);
    }
}

/// The views of a vector of analyses, element by element.
proof fn lemma_readings_index(v: Seq<Analysis>, k: int)
    requires
        0 <= k < v.len(),
    ensures
        readings_of(v)[k] == v[k]@,
        readings_of(v).len() == v.len(),
{
}

/// Gender and number of a word when it is unambiguously a definite `pos`.
fn definite_reading(analyses: &[Analysis<'_>], pos: Pos) -> (r: Option<(Gender, Number)>)
    ensures
        r == definite_features(readings_of(analyses@), pos),
{
    let ghost rs = readings_of(analyses@);
    let mut first: Option<usize> = None;
    let mut all_def = true;
    let mut i: usize = 0;
    while i < analyses.len()
        invariant
            0 <= i <= analyses@.len(),
            rs == readings_of(analyses@),
            rs.len() == analyses@.len(),
            match first {
                Some(k) => k < i && reading_pos(rs[k as int]) == Some(pos) && first_of_pos(rs.take(i as int), pos)
                    == Some(rs[k as int]),
                None => first_of_pos(rs.take(i as int), pos) is None,
            },
            first is None <==> !(exists|k: int| 0 <= k < i && reading_pos(#[trigger] rs[k]) == Some(pos)),
            all_def <==> (forall|k: int|
                0 <= k < i && reading_pos(#[trigger] rs[k]) == Some(pos) ==> reading_is_definite(rs[k])),
        decreases analyses.len() - i,
    {
        let a = &analyses[i];
        proof {
            lemma_readings_index(analyses@, i as int);
            assert(rs.take(i + 1).drop_last() =~= rs.take(i as int));
            assert(rs.take(i + 1).last() == rs[i as int]);
        }
        if is_pos(a, pos) {
            if first.is_none() {
                first = Some(i);
            }
            if !a.is_definite() {
                all_def = false;
            }
        }
        proof {
            if first is None {
                assert forall|k: int| 0 <= k < i + 1 implies reading_pos(#[trigger] rs[k]) != Some(pos) by {
                    if k < i {
                    }
                }
            }
        }
        i = i + 1;
    }
    proof {
        assert(rs.take(i as int) =~= rs);
    }
    let k = match first {
        Some(k) => k,
        None => return None,
    };
    if !all_def {
        return None;
    }
    proof {
        lemma_readings_index(analyses@, k as int);
    }
    let f = &analyses[k];
    match (f.gender(), f.number()) {
        (Some(g), Some(n)) => Some((g, n)),
        _ => None,
    }
}

/// Does some analysis satisfy being a pronoun carrying `case`?
fn any_pronoun_in(analyses: &[Analysis<'_>], case: &str) -> (r: bool)
    ensures
        r == some_pronoun_in(readings_of(analyses@), case@),
{
    let ghost rs = readings_of(analyses@);
    let mut i: usize = 0;
    while i < analyses.len()
        invariant
            0 <= i <= analyses@.len(),
            rs == readings_of(analyses@),
            forall|k: int| 0 <= k < i ==> !pronoun_in(#[trigger] rs[k], case@),
        decreases analyses.len() - i,
    {
        proof {
            lemma_readings_index(analyses@, i as int);
        }
        if is_pos(&analyses[i], Pos::Pronoun) && analyses[i].has(case) {
            assert(pronoun_in(rs[i as int], case@));
            return true;
        }
        i = i + 1;
    }
    false
}

/// Does some analysis have part of speech `pos`?
fn any_of_pos(analyses: &[Analysis<'_>], pos: Pos) -> (r: bool)
    ensures
        r == some_of_pos(readings_of(analyses@), pos),
{
    let ghost rs = readings_of(analyses@);
    let mut i: usize = 0;
    while i < analyses.len()
        invariant
            0 <= i <= analyses@.len(),
            rs == readings_of(analyses@),
            forall|k: int| 0 <= k < i ==> reading_pos(#[trigger] rs[k]) != Some(pos),
        decreases analyses.len() - i,
    {
        proof {
            lemma_readings_index(analyses@, i as int);
        }
        if is_pos(&analyses[i], pos) {
            assert(reading_pos(rs[i as int]) == Some(pos));
            return true;
        }
        i = i + 1;
    }
    false
}

/// Does some analysis read as a bare noun agreeing with `(g, n)`?
fn any_bare_noun(analyses: &[Analysis<'_>], g: Gender, n: Number) -> (r: bool)
    ensures
        r == some_bare_noun(readings_of(analyses@), g, n),
{
    let ghost rs = readings_of(analyses@);
    let mut i: usize = 0;
    while i < analyses.len()
        invariant
            0 <= i <= analyses@.len(),
            rs == readings_of(analyses@),
            forall|k: int| 0 <= k < i ==> !bare_noun_of(#[trigger] rs[k], g, n),
        decreases analyses.len() - i,
    {
        proof {
            lemma_readings_index(analyses@, i as int);
        }
        let a = &analyses[i];
        let gender_ok = match a.gender() {
            Some(x) => compatible(x, g),
            None => false,
        };
        let number_ok = match a.number() {
            Some(x) => x == n,
            None => false,
        };
        if is_pos(a, Pos::Noun) && !a.is_definite() && number_ok && gender_ok {
            assert(bare_noun_of(rs[i as int], g, n));
            return true;
        }
        i = i + 1;
    }
    false
}

/// Does some analysis read as an л-participle agreeing with `(g, n)`?
fn any_agreeing_participle(analyses: &[Analysis<'_>], g: Gender, n: Number) -> (r: bool)
    ensures
        r == some_agreeing_participle(readings_of(analyses@), g, n),
{
    let ghost rs = readings_of(analyses@);
    let mut i: usize = 0;
    while i < analyses.len()
        invariant
            0 <= i <= analyses@.len(),
            rs == readings_of(analyses@),
            forall|k: int| 0 <= k < i ==> !agreeing_participle(#[trigger] rs[k], g, n),
        decreases analyses.len() - i,
    {
        proof {
            lemma_readings_index(analyses@, i as int);
        }
        let a = &analyses[i];
        let gender_ok = match a.gender() {
            Some(x) => compatible(x, g),
            None => false,
        };
        let number_ok = match a.number() {
            Some(x) => x == n,
            None => false,
        };
        if a.is_l_participle() && number_ok && gender_ok {
            assert(agreeing_participle(rs[i as int], g, n));
            return true;
        }
        i = i + 1;
    }
    false
}

/// The bare form of the noun, so the suggestion can drop the second article.
fn bare_form(analyses: &[Analysis<'_>], morph: &Morphology, g: Gender, n: Number) -> (r: Option<String>)
    requires
        morph.loaded(),
    ensures
        text_of(r) == indefinite_form(readings_of(analyses@), *morph, g, n),
{
    let ghost rs = readings_of(analyses@);
    let mut i: usize = 0;
    while i < analyses.len() && !is_pos(&analyses[i], Pos::Noun)
        invariant
            0 <= i <= analyses@.len(),
            rs == readings_of(analyses@),
            rs.len() == analyses@.len(),
            first_of_pos(rs.take(i as int), Pos::Noun) is None,
        decreases analyses.len() - i,
    {
        proof {
            lemma_readings_index(analyses@, i as int);
            assert(rs.take(i + 1).drop_last() =~= rs.take(i as int));
        }
        i = i + 1;
    }
    if i == analyses.len() {
        proof {
            assert(rs.take(i as int) =~= rs);
        }
        return None;
    }
    proof {
        lemma_readings_index(analyses@, i as int);
        assert(rs.take(i + 1).drop_last() =~= rs.take(i as int));
        assert(first_of_pos(rs.take(i + 1), Pos::Noun) == Some(rs[i as int]));
        lemma_first_of_pos_prefix(rs, Pos::Noun, i + 1);
    }
    let lemma = analyses[i].lemma();
    let lemma_readings = morph.analyze(lemma);
    proof {
        if morph.loaded() {
            assert(readings_of(lemma_readings@) =~= morph.analyses_of(lemma@));
        }
    }
    if any_bare_noun(lemma_readings.as_slice(), g, n) {
        Some(String::from_str(lemma))
    } else {
        None
    }
}

/// The diagnostic for a doubled article on `first` and `second`, if any.
fn double_definite_here(first: &Token<'_>, second: &Token<'_>, morph: &Morphology) -> (r: Option<Diagnostic>)
    requires
        morph.loaded(),
    ensures
        finding_of(r) == double_definite_pair(first@, second@, *morph),
{
    if first.kind != TokenKind::Word || second.kind != TokenKind::Word {
        return None;
    }
    let adjective = morph.analyze(first.text);
    let noun = morph.analyze(second.text);
    proof {
        if morph.loaded() {
            assert(readings_of(adjective@) =~= morph.analyses_of(first.text@));
            assert(readings_of(noun@) =~= morph.analyses_of(second.text@));
        }
    }
    let (adj_gender, adj_number) = match definite_reading(adjective.as_slice(), Pos::Adjective) {
        Some(x) => x,
        None => return None,
    };
    let (noun_gender, noun_number) = match definite_reading(noun.as_slice(), Pos::Noun) {
        Some(x) => x,
        None => return None,
    };
    if !compatible(adj_gender, noun_gender) || adj_number != noun_number {
        return None;
    }
    let suggestions = match bare_form(noun.as_slice(), morph, noun_gender, noun_number) {
        Some(bare) => vec![join_words(first.text, bare.as_str())],
        None => Vec::new(),
    };
    let d = Diagnostic {
        rule: String::from_str(rule::DOUBLE_DEFINITE),
        severity: Severity::Error,
        char_start: first.char_start,
        char_end: second.char_end,
        text: join_words(first.text, second.text),
        message: String::from_str("Членот се пишува само на првиот збор во именската група."),
        suggestions,
    };
    proof {
        if morph.loaded() {
            let want = double_definite_pair(first@, second@, *morph);
            assert(d@.suggestions =~= want->Some_0.suggestions);
        }
    }
    Some(d)
}

/// The diagnostic for reversed clitics on `first`, `second`, `third`, if any.
fn clitic_order_here(first: &Token<'_>, second: &Token<'_>, third: &Token<'_>, morph: &Morphology) -> (r: Option<Diagnostic>)
    requires
        morph.loaded(),
    ensures
        finding_of(r) == clitic_order_triple(first@, second@, third@, *morph),
{
    if first.kind != TokenKind::Word || second.kind != TokenKind::Word || third.kind != TokenKind::Word {
        return None;
    }
    let acc = morph.analyze(first.text);
    let dat = morph.analyze(second.text);
    let verb = morph.analyze(third.text);
    proof {
        if morph.loaded() {
            assert(readings_of(acc@) =~= morph.analyses_of(first.text@));
            assert(readings_of(dat@) =~= morph.analyses_of(second.text@));
            assert(readings_of(verb@) =~= morph.analyses_of(third.text@));
        }
    }
    if acc.len() == 0 || dat.len() == 0 || verb.len() == 0 {
        return None;
    }
    if !any_pronoun_in(acc.as_slice(), "acc") || any_of_pos(acc.as_slice(), Pos::Verb) {
        return None;
    }
    if !any_pronoun_in(dat.as_slice(), "dat") || !any_of_pos(verb.as_slice(), Pos::Verb) {
        return None;
    }
    let swapped = join_words(second.text, first.text);
    let as_written = join_words(first.text, second.text);
    let d = Diagnostic {
        rule: String::from_str(rule::CLITIC_ORDER),
        severity: Severity::Error,
        char_start: first.char_start,
        char_end: third.char_end,
        text: join_words(as_written.as_str(), third.text),
        message: String::from_str("Заменките се пишуваат: дативна пред акузативна (ми го, не го ми)."),
        suggestions: vec![join_words(swapped.as_str(), third.text)],
    };
    proof {
        if morph.loaded() {
            let want = clitic_order_triple(first@, second@, third@, *morph);
            assert(d@.suggestions =~= want->Some_0.suggestions);
        }
    }
    Some(d)
}

/// Is `s` one of the subject pronouns?
fn is_subject_pronoun(s: &str) -> (r: bool)
    ensures
        r == subject_pronouns().contains(s@),
{
    let ghost all = subject_pronouns();
    let r = str_eq(s, "јас") || str_eq(s, "ти") || str_eq(s, "тој") || str_eq(s, "таа") || str_eq(s, "тоа")
        || str_eq(s, "ние") || str_eq(s, "вие") || str_eq(s, "тие");
    proof {
        if r {
            assert(all.contains(s@)) by {
                if s@ == "јас"@ { assert(all[0] == s@); }
                else if s@ == "ти"@ { assert(all[1] == s@); }
                else if s@ == "тој"@ { assert(all[2] == s@); }
                else if s@ == "таа"@ { assert(all[3] == s@); }
                else if s@ == "тоа"@ { assert(all[4] == s@); }
                else if s@ == "ние"@ { assert(all[5] == s@); }
                else if s@ == "вие"@ { assert(all[6] == s@); }
                else { assert(all[7] == s@); }
            }
        } else {
            assert forall|k: int| 0 <= k < all.len() implies all[k] != s@ by {
                assert(all[0] == "јас"@ && all[1] == "ти"@ && all[2] == "тој"@ && all[3] == "таа"@);
                assert(all[4] == "тоа"@ && all[5] == "ние"@ && all[6] == "вие"@ && all[7] == "тие"@);
            }
        }
    }
    r
}

/// The diagnostic for a bare `и` in the dative slot, if any.
fn dative_i_here(subj: &Token<'_>, maybe_i: &Token<'_>, acc: &Token<'_>, morph: &Morphology) -> (r: Option<Diagnostic>)
    requires
        morph.loaded(),
    ensures
        finding_of(r) == dative_i_triple(subj@, maybe_i@, acc@, *morph),
{
    if subj.kind != TokenKind::Word || maybe_i.kind != TokenKind::Word || acc.kind != TokenKind::Word {
        return None;
    }
    let lower_i = to_lowercase(maybe_i.text);
    if !str_eq(lower_i.as_str(), "и") {
        return None;
    }
    let lower_subj = to_lowercase(subj.text);
    if !is_subject_pronoun(lower_subj.as_str()) {
        return None;
    }
    let i_readings = morph.analyze(maybe_i.text);
    let acc_readings = morph.analyze(acc.text);
    proof {
        if morph.loaded() {
            assert(readings_of(i_readings@) =~= morph.analyses_of(maybe_i.text@));
            assert(readings_of(acc_readings@) =~= morph.analyses_of(acc.text@));
        }
    }
    if !any_pronoun_in(i_readings.as_slice(), "dat") {
        return None;
    }
    if acc_readings.len() == 0 || !any_pronoun_in(acc_readings.as_slice(), "acc") {
        return None;
    }
    let chars = chars_of(maybe_i.text);
    let fixed = if chars.len() > 0 && is_uppercase(chars[0]) {
        String::from_str("Ѝ")
    } else {
        String::from_str("ѝ")
    };
    let d = Diagnostic {
        rule: String::from_str(rule::DATIVE_I),
        severity: Severity::Error,
        char_start: maybe_i.char_start,
        char_end: maybe_i.char_end,
        text: String::from_str(maybe_i.text),
        message: String::from_str("Дативната заменка ѝ се пишува со гравис, за разлика од сврзникот и."),
        suggestions: vec![fixed],
    };
    proof {
        if morph.loaded() {
            let want = dative_i_triple(subj@, maybe_i@, acc@, *morph);
            assert(d@.suggestions =~= want->Some_0.suggestions);
        }
    }
    Some(d)
}

/// The forms of a vector of participle readings, lemma by its characters.
pub open spec fn part_view(v: Seq<(Gender, Number, &str)>) -> Seq<(Gender, Number, Seq<char>)> {
    v.map_values(|x: (Gender, Number, &str)| (x.0, x.1, x.2@))
}

/// Gender and number of each pronoun analysis that carries both.
fn subject_forms_of(analyses: &[Analysis<'_>]) -> (r: Vec<(Gender, Number)>)
    ensures
        r@ == subject_forms(readings_of(analyses@)),
{
    let ghost rs = readings_of(analyses@);
    let mut out: Vec<(Gender, Number)> = Vec::new();
    let mut i: usize = 0;
    while i < analyses.len()
        invariant
            0 <= i <= analyses@.len(),
            rs == readings_of(analyses@),
            out@ == subject_forms(rs.take(i as int)),
        decreases analyses.len() - i,
    {
        proof {
            lemma_readings_index(analyses@, i as int);
            assert(rs.take(i + 1).drop_last() =~= rs.take(i as int));
            assert(rs.take(i + 1).last() == rs[i as int]);
        }
        let a = &analyses[i];
        if is_pos(a, Pos::Pronoun) {
            match (a.gender(), a.number()) {
                (Some(g), Some(n)) => out.push((g, n)),
                _ => {},
            }
        }
        i = i + 1;
    }
    proof {
        assert(rs.take(i as int) =~= rs);
    }
    out
}

/// Gender, number and lemma of each л-participle analysis that carries both.
fn participle_forms_of<'a>(analyses: &[Analysis<'a>]) -> (r: Vec<(Gender, Number, &'a str)>)
    ensures
        part_view(r@) == participle_forms(readings_of(analyses@)),
{
    let ghost rs = readings_of(analyses@);
    let mut out: Vec<(Gender, Number, &'a str)> = Vec::new();
    let mut i: usize = 0;
    while i < analyses.len()
        invariant
            0 <= i <= analyses@.len(),
            rs == readings_of(analyses@),
            part_view(out@) == participle_forms(rs.take(i as int)),
        decreases analyses.len() - i,
    {
        proof {
            lemma_readings_index(analyses@, i as int);
            assert(rs.take(i + 1).drop_last() =~= rs.take(i as int));
            assert(rs.take(i + 1).last() == rs[i as int]);
        }
        let a = &analyses[i];
        if a.is_l_participle() {
            match (a.gender(), a.number()) {
                (Some(g), Some(n)) => {
                    let ghost before = out@;
                    out.push((g, n, a.lemma()));
                    proof {
                        assert(part_view(out@) =~= part_view(before).push((g, n, rs[i as int].lemma)));
                    }
                },
                _ => {},
            }
        }
        i = i + 1;
    }
    proof {
        assert(rs.take(i as int) =~= rs);
    }
    out
}

/// Does some subject form agree with some participle form?
fn agreement(subjects: &[(Gender, Number)], parts: &[(Gender, Number, &str)]) -> (r: bool)
    ensures
        r == some_agreement(subjects@, part_view(parts@)),
{
    let ghost pv = part_view(parts@);
    let mut a: usize = 0;
    while a < subjects.len()
        invariant
            0 <= a <= subjects@.len(),
            pv == part_view(parts@),
            pv.len() == parts@.len(),
            forall|x: int, y: int| 0 <= x < a && 0 <= y < pv.len() ==> !#[trigger] agree_at(subjects@, pv, x, y),
        decreases subjects.len() - a,
    {
        let mut b: usize = 0;
        while b < parts.len()
            invariant
                0 <= a < subjects@.len(),
                0 <= b <= parts@.len(),
                pv == part_view(parts@),
                pv.len() == parts@.len(),
                forall|x: int, y: int| 0 <= x < a && 0 <= y < pv.len() ==> !#[trigger] agree_at(subjects@, pv, x, y),
                forall|y: int| 0 <= y < b ==> !#[trigger] agree_at(subjects@, pv, a as int, y),
            decreases parts.len() - b,
        {
            let (sg, sn) = subjects[a];
            let (pg, pn, _) = parts[b];
            proof {
                assert(pv[b as int] == (pg, pn, parts@[b as int].2@));
            }
            if compatible(sg, pg) && sn == pn {
                assert(agree_at(subjects@, pv, a as int, b as int));
                return true;
            }
            b = b + 1;
        }
        a = a + 1;
    }
    false
}

/// Once a prefix of `forms` has an agreeing form, the whole list has the
/// same first one.
proof fn lemma_first_agreeing_prefix(m: Morphology, forms: Seq<Seq<char>>, g: Gender, n: Number, i: int)
    requires
        0 <= i <= forms.len(),
        first_agreeing(m, forms.take(i), g, n) is Some,
    ensures
        first_agreeing(m, forms, g, n) == first_agreeing(m, forms.take(i), g, n),
    decreases forms.len() - i,
{
    if i < forms.len() {
        assert(forms.drop_last().take(i) =~= forms.take(i));
        lemma_first_agreeing_prefix(m, forms.drop_last(), g, n, i);
    } else {
        assert(forms.take(i) =~= forms);
    }
}

/// A stored л-participle surface form of `lemma` agreeing with `(g, n)`.
/// Never invents a form: no match means no suggestion.
fn best_participle_form(morph: &Morphology, lemma: &str, g: Gender, n: Number) -> (r: Option<String>)
    requires
        morph.loaded(),
    ensures
        text_of(r) == best_participle(*morph, lemma@, g, n),
{
    let forms = morph.participle_forms(lemma);
    let ghost fs = forms@.map_values(|f: &str| f@);
    let mut i: usize = 0;
    while i < forms.len()
        invariant
            0 <= i <= forms@.len(),
            fs == forms@.map_values(|f: &str| f@),
            fs == morph.participles_of(lemma@),
            morph.loaded(),
            first_agreeing(*morph, fs.take(i as int), g, n) is None,
        decreases forms.len() - i,
    {
        let readings = morph.analyze(forms[i]);
        proof {
            assert(fs[i as int] == forms@[i as int]@);
            assert(fs.take(i + 1).drop_last() =~= fs.take(i as int));
            assert(fs.take(i + 1).last() == fs[i as int]);
            if morph.loaded() {
                assert(readings_of(readings@) =~= morph.analyses_of(fs[i as int]));
            }
        }
        if any_agreeing_participle(readings.as_slice(), g, n) {
            proof {
                if morph.loaded() {
                    assert(first_agreeing(*morph, fs.take(i + 1), g, n) == Some(fs[i as int]));
                    lemma_first_agreeing_prefix(*morph, fs, g, n, i + 1);
                }
            }
            return Some(String::from_str(forms[i]));
        }
        i = i + 1;
    }
    proof {
        assert(fs.take(i as int) =~= fs);
    }
    None
}

/// The diagnostic for an л-participle disagreeing with its subject, if any.
fn l_participle_here(subj: &Token<'_>, part: &Token<'_>, morph: &Morphology) -> (r: Option<Diagnostic>)
    requires
        morph.loaded(),
    ensures
        finding_of(r) == l_participle_pair(subj@, part@, *morph),
{
    if subj.kind != TokenKind::Word || part.kind != TokenKind::Word {
        return None;
    }
    let subj_readings = morph.analyze(subj.text);
    let part_readings = morph.analyze(part.text);
    proof {
        if morph.loaded() {
            assert(readings_of(subj_readings@) =~= morph.analyses_of(subj.text@));
            assert(readings_of(part_readings@) =~= morph.analyses_of(part.text@));
        }
    }
    if subj_readings.len() == 0 || part_readings.len() == 0 {
        return None;
    }
    let subjects = subject_forms_of(subj_readings.as_slice());
    let parts = participle_forms_of(part_readings.as_slice());
    if subjects.len() == 0 || parts.len() == 0 {
        return None;
    }
    if agreement(subjects.as_slice(), parts.as_slice()) {
        return None;
    }
    let (sg, sn) = subjects[0];
    let lemma = parts[0].2;
    proof {
        assert(part_view(parts@)[0].2 == lemma@);
    }
    let suggestions = match best_participle_form(morph, lemma, sg, sn) {
        Some(f) => vec![join_words(subj.text, f.as_str())],
        None => Vec::new(),
    };
    let d = Diagnostic {
        rule: String::from_str(rule::L_PARTICIPLE),
        severity: Severity::Error,
        char_start: subj.char_start,
        char_end: part.char_end,
        text: join_words(subj.text, part.text),
        message: String::from_str("Л-партиципот мора да се сложува со подметот во род и број."),
        suggestions,
    };
    proof {
        if morph.loaded() {
            let want = l_participle_pair(subj@, part@, *morph);
            assert(d@.suggestions =~= want->Some_0.suggestions);
        }
    }
    Some(d)
}

/// Appends the diagnostic, if there is one.
fn push_found(out: &mut Vec<Diagnostic>, d: Option<Diagnostic>)
    ensures
        findings(final(out)@) == match finding_of(d) {
            Some(f) => findings(old(out)@).push(f),
            None => findings(old(out)@),
        },
{
    match d {
        Some(x) => {
            let ghost before = out@;
            out.push(x);
            proof {
                assert(findings(out@) =~= findings(before).push(x@));
            }
        },
        None => {},
    }
}

/// The definite article attaches to the first element of a noun phrase, and
/// to that element only: `убавата книга` ✓, `убава книгата` ✓,
/// `убавата книгата` ✗.
fn double_definite_article(tokens: &[Token<'_>], morph: &Morphology, out: &mut Vec<Diagnostic>)
    requires
        morph.loaded(),
    ensures
        findings(final(out)@) == findings(old(out)@) + gather(
            GrammarRule::DoubleDefinite,
            token_views(tokens@),
            *morph,
            tokens@.len() - 1,
        ),
{
    let ghost start = findings(out@);
    if tokens.len() < 2 {
        proof {
            assert(start + Seq::<Finding>::empty() =~= start);
        }
        return;
    }
    let mut i: usize = 0;
    while i < tokens.len() - 1
        invariant
            0 <= i <= tokens@.len() - 1,
            morph.loaded(),
            findings(out@) == start + gather(GrammarRule::DoubleDefinite, token_views(tokens@), *morph, i as int),
        decreases tokens.len() - 1 - i,
    {
        let d = double_definite_here(&tokens[i], &tokens[i + 1], morph);
        let ghost before = findings(out@);
        push_found(out, d);
        proof {
            if morph.loaded() {
                let g = gather(GrammarRule::DoubleDefinite, token_views(tokens@), *morph, i as int);
                assert(findings(out@) =~= start + gather(GrammarRule::DoubleDefinite, token_views(tokens@), *morph, i + 1)) by {
                    match finding_of(d) {
                        Some(f) => assert(before.push(f) =~= start + g.push(f)),
                        None => {},
                    }
                }
            }
        }
        i = i + 1;
    }
}

/// Dative clitics come before accusative ones: `ми го даде` ✓,
/// `го ми даде` ✗.
fn clitic_order(tokens: &[Token<'_>], morph: &Morphology, out: &mut Vec<Diagnostic>)
    requires
        morph.loaded(),
    ensures
        findings(final(out)@) == findings(old(out)@) + gather(
            GrammarRule::CliticOrder,
            token_views(tokens@),
            *morph,
            tokens@.len() - 2,
        ),
{
    let ghost start = findings(out@);
    if tokens.len() < 3 {
        proof {
            assert(start + Seq::<Finding>::empty() =~= start);
        }
        return;
    }
    let mut i: usize = 0;
    while i < tokens.len() - 2
        invariant
            0 <= i <= tokens@.len() - 2,
            morph.loaded(),
            findings(out@) == start + gather(GrammarRule::CliticOrder, token_views(tokens@), *morph, i as int),
        decreases tokens.len() - 2 - i,
    {
        let d = clitic_order_here(&tokens[i], &tokens[i + 1], &tokens[i + 2], morph);
        let ghost before = findings(out@);
        push_found(out, d);
        proof {
            if morph.loaded() {
                let g = gather(GrammarRule::CliticOrder, token_views(tokens@), *morph, i as int);
                assert(findings(out@) =~= start + gather(GrammarRule::CliticOrder, token_views(tokens@), *morph, i + 1)) by {
                    match finding_of(d) {
                        Some(f) => assert(before.push(f) =~= start + g.push(f)),
                        None => {},
                    }
                }
            }
        }
        i = i + 1;
    }
}

/// Bare `и` where the dative clitic `ѝ` belongs: `таа и го даде` ✗.
fn dative_i(tokens: &[Token<'_>], morph: &Morphology, out: &mut Vec<Diagnostic>)
    requires
        morph.loaded(),
    ensures
        findings(final(out)@) == findings(old(out)@) + gather(
            GrammarRule::DativeI,
            token_views(tokens@),
            *morph,
            tokens@.len() - 2,
        ),
{
    let ghost start = findings(out@);
    if tokens.len() < 3 {
        proof {
            assert(start + Seq::<Finding>::empty() =~= start);
        }
        return;
    }
    let mut i: usize = 0;
    while i < tokens.len() - 2
        invariant
            0 <= i <= tokens@.len() - 2,
            morph.loaded(),
            findings(out@) == start + gather(GrammarRule::DativeI, token_views(tokens@), *morph, i as int),
        decreases tokens.len() - 2 - i,
    {
        let d = dative_i_here(&tokens[i], &tokens[i + 1], &tokens[i + 2], morph);
        let ghost before = findings(out@);
        push_found(out, d);
        proof {
            if morph.loaded() {
                let g = gather(GrammarRule::DativeI, token_views(tokens@), *morph, i as int);
                assert(findings(out@) =~= start + gather(GrammarRule::DativeI, token_views(tokens@), *morph, i + 1)) by {
                    match finding_of(d) {
                        Some(f) => assert(before.push(f) =~= start + g.push(f)),
                        None => {},
                    }
                }
            }
        }
        i = i + 1;
    }
}

/// An л-participle agreeing with its subject: `таа дошла` ✓, `таа дошол` ✗.
fn l_participle(tokens: &[Token<'_>], morph: &Morphology, out: &mut Vec<Diagnostic>)
    requires
        morph.loaded(),
    ensures
        findings(final(out)@) == findings(old(out)@) + gather(
            GrammarRule::LParticiple,
            token_views(tokens@),
            *morph,
            tokens@.len() - 1,
        ),
{
    let ghost start = findings(out@);
    if tokens.len() < 2 {
        proof {
            assert(start + Seq::<Finding>::empty() =~= start);
        }
        return;
    }
    let mut i: usize = 0;
    while i < tokens.len() - 1
        invariant
            0 <= i <= tokens@.len() - 1,
            morph.loaded(),
            findings(out@) == start + gather(GrammarRule::LParticiple, token_views(tokens@), *morph, i as int),
        decreases tokens.len() - 1 - i,
    {
        let d = l_participle_here(&tokens[i], &tokens[i + 1], morph);
        let ghost before = findings(out@);
        push_found(out, d);
        proof {
            if morph.loaded() {
                let g = gather(GrammarRule::LParticiple, token_views(tokens@), *morph, i as int);
                assert(findings(out@) =~= start + gather(GrammarRule::LParticiple, token_views(tokens@), *morph, i + 1)) by {
                    match finding_of(d) {
                        Some(f) => assert(before.push(f) =~= start + g.push(f)),
                        None => {},
                    }
                }
            }
        }
        i = i + 1;
    }
}

/// Run every grammar rule over `tokens`. The morphology must have been
/// loaded around FST bytes a builder wrote.
pub fn check(tokens: &[Token<'_>], morph: &Morphology) -> (r: Vec<Diagnostic>)
    requires
        morph.loaded(),
    ensures
        findings(r@) == grammar_findings(token_views(tokens@), *morph),
{
    let mut out: Vec<Diagnostic> = Vec::new();
    proof {
        assert(findings(out@) =~= Seq::<Finding>::empty());
    }
    double_definite_article(tokens, morph, &mut out);
    clitic_order(tokens, morph, &mut out);
    dative_i(tokens, morph, &mut out);
    l_participle(tokens, morph, &mut out);
    proof {
        if morph.loaded() {
            assert(findings(out@) =~= grammar_findings(token_views(tokens@), *morph));
        }
    }
    out
}

/// The first agreeing form is one of `forms`, and it agrees.
proof fn lemma_first_agreeing(m: Morphology, forms: Seq<Seq<char>>, g: Gender, n: Number)
    ensures
        first_agreeing(m, forms, g, n) matches Some(f) ==> forms.contains(f) && some_agreeing_participle(
            m.analyses_of(f),
            g,
            n,
        ),
    decreases forms.len(),
{
    if forms.len() > 0 {
        lemma_first_agreeing(m, forms.drop_last(), g, n);
        match first_agreeing(m, forms.drop_last(), g, n) {
            Some(f) => {
                let k = choose|k: int| 0 <= k < forms.drop_last().len() && forms.drop_last()[k] == f;
                assert(forms[k] == f);
            },
            None => {
                assert(forms[forms.len() - 1] == forms.last());
            },
        }
    }
}

/// Law: the л-participle form suggested is never invented: it is a stored
/// participle form of the lemma, and one of its readings is an л-participle
/// agreeing with the subject's gender and number.
pub proof fn lemma_participle_never_invented(m: Morphology, lemma: Seq<char>, g: Gender, n: Number)
    ensures
        best_participle(m, lemma, g, n) matches Some(f) ==> m.participles_of(lemma).contains(f)
            && some_agreeing_participle(m.analyses_of(f), g, n),
{
    lemma_first_agreeing(m, m.participles_of(lemma), g, n);
}

/// Finding `f` spans tokens `i..=j`, at most three of them, all words: it
/// starts where token `i` starts and ends where token `j` ends.
pub open spec fn spans_words(f: Finding, tokens: Seq<TokenView>, i: int, j: int) -> bool {
    &&& 0 <= i <= j < tokens.len()
    &&& j <= i + 2
    &&& forall|k: int| i <= k <= j ==> is_word(#[trigger] tokens[k])
    &&& f.char_start == tokens[i].start
    &&& f.char_end == tokens[j].end
}

/// Finding `f` spans a run of at most three adjacent word tokens.
pub open spec fn on_adjacent_words(f: Finding, tokens: Seq<TokenView>) -> bool {
    exists|i: int, j: int| #[trigger] spans_words(f, tokens, i, j)
}

/// How many tokens `rule` judges at a time.
pub open spec fn window_width(rule: GrammarRule) -> int {
    match rule {
        GrammarRule::DoubleDefinite => 2,
        GrammarRule::CliticOrder => 3,
        GrammarRule::DativeI => 3,
        GrammarRule::LParticiple => 2,
    }
}

/// `r` names one of the grammar rules.
pub open spec fn grammar_rule_name(r: Seq<char>) -> bool {
    ||| r == rule::DOUBLE_DEFINITE@
    ||| r == rule::CLITIC_ORDER@
    ||| r == rule::DATIVE_I@
    ||| r == rule::L_PARTICIPLE@
}

/// No token of `tokens` has a reading.
pub open spec fn nothing_analysed(tokens: Seq<TokenView>, m: Morphology) -> bool {
    forall|k: int| 0 <= k < tokens.len() ==> (#[trigger] m.analyses_of(tokens[k].text)).len() == 0
}

/// What `rule` finds at window `i` spans adjacent words, and nothing is
/// found where no word has a reading.
proof fn lemma_finding_at_words(rule: GrammarRule, tokens: Seq<TokenView>, m: Morphology, i: int)
    requires
        0 <= i,
        i + window_width(rule) <= tokens.len(),
    ensures
        finding_at(rule, tokens, m, i) matches Some(f) ==> on_adjacent_words(f, tokens) && grammar_rule_name(
            f.rule,
        ),
        nothing_analysed(tokens, m) ==> finding_at(rule, tokens, m, i) is None,
{
    match finding_at(rule, tokens, m, i) {
        Some(f) => {
            match rule {
                GrammarRule::DoubleDefinite => {
                    assert(spans_words(f, tokens, i, i + 1));
                },
                GrammarRule::CliticOrder => {
                    assert(spans_words(f, tokens, i, i + 2));
                },
                GrammarRule::DativeI => {
                    assert(spans_words(f, tokens, i + 1, i + 1));
                },
                GrammarRule::LParticiple => {
                    assert(spans_words(f, tokens, i, i + 1));
                },
            }
        },
        None => {},
    }
    if nothing_analysed(tokens, m) {
        assert(m.analyses_of(tokens[i].text).len() == 0);
        assert(m.analyses_of(tokens[i + 1].text).len() == 0);
        if window_width(rule) == 3 {
            assert(m.analyses_of(tokens[i + 2].text).len() == 0);
        }
    }
}

/// Each finding `rule` gathers spans adjacent words, and there is none where
/// no word has a reading.
proof fn lemma_gather_words(rule: GrammarRule, tokens: Seq<TokenView>, m: Morphology, n: int)
    requires
        n <= tokens.len() - window_width(rule) + 1,
    ensures
        forall|k: int|
            0 <= k < gather(rule, tokens, m, n).len() ==> on_adjacent_words(
                #[trigger] gather(rule, tokens, m, n)[k],
                tokens,
            ) && grammar_rule_name(gather(rule, tokens, m, n)[k].rule),
        nothing_analysed(tokens, m) ==> gather(rule, tokens, m, n).len() == 0,
    decreases n,
{
    if n > 0 {
        lemma_gather_words(rule, tokens, m, n - 1);
        lemma_finding_at_words(rule, tokens, m, n - 1);
        let rest = gather(rule, tokens, m, n - 1);
        let g = gather(rule, tokens, m, n);
        match finding_at(rule, tokens, m, n - 1) {
            Some(f) => {
                assert forall|k: int| 0 <= k < g.len() implies on_adjacent_words(#[trigger] g[k], tokens)
                    && grammar_rule_name(g[k].rule) by {
                    if k < rest.len() {
                        assert(g[k] == rest[k]);
                    } else {
                        assert(g[k] == f);
                    }
                }
            },
            None => {
                assert(g == rest);
            },
        }
    }
}

/// Law: every grammar finding spans one to three adjacent tokens that are
/// all words, so no rule reaches across punctuation: it starts where the
/// first of them starts and ends where the last ends. Each is reported under
/// one of the grammar rules. Where no word of the text has a reading, nothing
/// is found.
pub proof fn lemma_grammar_findings_adjacent(tokens: Seq<TokenView>, m: Morphology)
    ensures
        forall|k: int|
            0 <= k < grammar_findings(tokens, m).len() ==> on_adjacent_words(
                #[trigger] grammar_findings(tokens, m)[k],
                tokens,
            ) && grammar_rule_name(grammar_findings(tokens, m)[k].rule),
        nothing_analysed(tokens, m) ==> grammar_findings(tokens, m).len() == 0,
{
    let n = tokens.len() as int;
    assert(window_width(GrammarRule::DoubleDefinite) == 2);
    assert(window_width(GrammarRule::CliticOrder) == 3);
    assert(window_width(GrammarRule::DativeI) == 3);
    assert(window_width(GrammarRule::LParticiple) == 2);
    let a = gather(GrammarRule::DoubleDefinite, tokens, m, n - 1);
    let b = gather(GrammarRule::CliticOrder, tokens, m, n - 2);
    let c = gather(GrammarRule::DativeI, tokens, m, n - 2);
    let d = gather(GrammarRule::LParticiple, tokens, m, n - 1);
    lemma_gather_words(GrammarRule::DoubleDefinite, tokens, m, n - 1);
    lemma_gather_words(GrammarRule::CliticOrder, tokens, m, n - 2);
    lemma_gather_words(GrammarRule::DativeI, tokens, m, n - 2);
    lemma_gather_words(GrammarRule::LParticiple, tokens, m, n - 1);
    let all = grammar_findings(tokens, m);
    assert(all == a + b + c + d);
    assert forall|k: int| 0 <= k < all.len() implies on_adjacent_words(#[trigger] all[k], tokens)
        && grammar_rule_name(all[k].rule) by {
        if k < a.len() {
            assert(all[k] == a[k]);
        } else if k < a.len() + b.len() {
            assert(all[k] == b[k - a.len()]);
        } else if k < a.len() + b.len() + c.len() {
            assert(all[k] == c[k - a.len() - b.len()]);
        } else {
            assert(all[k] == d[k - a.len() - b.len() - c.len()]);
        }
    }
}

/// Law: a rule fires only when every reading supports it. A doubled article
/// is reported only when every adjective reading of the first word and every
/// noun reading of the second is definite; an л-participle is reported only
/// when no subject reading agrees with any participle reading.
pub proof fn lemma_rules_need_every_reading(first: TokenView, second: TokenView, m: Morphology)
    ensures
        double_definite_pair(first, second, m) is Some ==> all_definite(m.analyses_of(first.text), Pos::Adjective)
            && all_definite(m.analyses_of(second.text), Pos::Noun),
        l_participle_pair(first, second, m) is Some ==> {
            let subjects = subject_forms(m.analyses_of(first.text));
            let parts = participle_forms(m.analyses_of(second.text));
            forall|a: int, b: int|
                0 <= a < subjects.len() && 0 <= b < parts.len() ==> !#[trigger] agree_at(subjects, parts, a, b)
        },
{
}

/// Law: the л-participle rule reports a subject word followed by a
/// participle word exactly when the subject has pronoun readings with a
/// gender and number, the participle has л-participle readings with both,
/// and no pair of them agrees. The finding spans both words, and its
/// suggestion is either none or the subject followed by a stored, agreeing
/// participle form of the participle's first lemma: never an invented one.
pub proof fn lemma_l_participle_iff(subj: TokenView, part: TokenView, m: Morphology)
    ensures
        ({
            let subjects = subject_forms(m.analyses_of(subj.text));
            let parts = participle_forms(m.analyses_of(part.text));
            l_participle_pair(subj, part, m) is Some <==> is_word(subj) && is_word(part) && subjects.len() > 0
                && parts.len() > 0 && forall|a: int, b: int|
                0 <= a < subjects.len() && 0 <= b < parts.len() ==> !#[trigger] agree_at(subjects, parts, a, b)
        }),
        l_participle_pair(subj, part, m) matches Some(f) ==> {
            let subjects = subject_forms(m.analyses_of(subj.text));
            let parts = participle_forms(m.analyses_of(part.text));
            &&& f.char_start == subj.start
            &&& f.char_end == part.end
            &&& f.text == joined(subj.text, part.text)
            &&& f.suggestions.len() == 0 || exists|form: Seq<char>|
                #![trigger m.participles_of(parts[0].2).contains(form)]
                f.suggestions == seq![joined(subj.text, form)] && m.participles_of(parts[0].2).contains(form)
                    && some_agreeing_participle(m.analyses_of(form), subjects[0].0, subjects[0].1)
        },
{
    let sr = m.analyses_of(subj.text);
    let pr = m.analyses_of(part.text);
    let subjects = subject_forms(sr);
    let parts = participle_forms(pr);
    if sr.len() == 0 {
        assert(subjects.len() == 0);
    }
    if pr.len() == 0 {
        assert(parts.len() == 0);
    }
    if subjects.len() > 0 && parts.len() > 0 {
        lemma_participle_never_invented(m, parts[0].2, subjects[0].0, subjects[0].1);
        match best_participle(m, parts[0].2, subjects[0].0, subjects[0].1) {
            Some(form) => {
                assert(m.participles_of(parts[0].2).contains(form));
            },
            None => {},
        }
    }
}

/// Law: after each of the eight personal subject pronouns (`јас`, `ти`,
/// `тој`, `таа`, `тоа`, `ние`, `вие`, `тие`, in any case), a bare `и` that
/// can be the dative pronoun, followed by a word that can be an accusative
/// pronoun, is reported under the dative-`и` rule, on the `и` alone.
pub proof fn lemma_dative_i_after_subjects(subj: TokenView, maybe_i: TokenView, acc: TokenView, m: Morphology)
    requires
        is_word(subj),
        is_word(maybe_i),
        is_word(acc),
        ({
            let p = unicode_lower(subj.text);
            ||| p == "јас"@
            ||| p == "ти"@
            ||| p == "тој"@
            ||| p == "таа"@
            ||| p == "тоа"@
            ||| p == "ние"@
            ||| p == "вие"@
            ||| p == "тие"@
        }),
        unicode_lower(maybe_i.text) == "и"@,
        some_pronoun_in(m.analyses_of(maybe_i.text), "dat"@),
        some_pronoun_in(m.analyses_of(acc.text), "acc"@),
    ensures
        dative_i_triple(subj, maybe_i, acc, m) matches Some(f) && f.rule == rule::DATIVE_I@ && f.char_start
            == maybe_i.start && f.char_end == maybe_i.end && f.text == maybe_i.text,
{
    let all = subject_pronouns();
    let p = unicode_lower(subj.text);
    assert(all[0] == "јас"@ && all[1] == "ти"@ && all[2] == "тој"@ && all[3] == "таа"@);
    assert(all[4] == "тоа"@ && all[5] == "ние"@ && all[6] == "вие"@ && all[7] == "тие"@);
    assert(all.contains(p)) by {
        if p == "јас"@ {
            assert(all[0] == p);
        } else if p == "ти"@ {
            assert(all[1] == p);
        } else if p == "тој"@ {
            assert(all[2] == p);
        } else if p == "таа"@ {
            assert(all[3] == p);
        } else if p == "тоа"@ {
            assert(all[4] == p);
        } else if p == "ние"@ {
            assert(all[5] == p);
        } else if p == "вие"@ {
            assert(all[6] == p);
        } else {
            assert(all[7] == p);
        }
    }
    let k = choose|k: int| 0 <= k < m.analyses_of(acc.text).len() && pronoun_in(
        #[trigger] m.analyses_of(acc.text)[k],
        "acc"@,
    );
    assert(m.analyses_of(acc.text).len() > 0);
}

} // verus!
