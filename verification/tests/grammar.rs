use std::collections::BTreeMap;

use mk_core::grammar::check;
use mk_core::morphology::Morphology;
use mk_core::{rule, tokenize, Diagnostic, Severity};

fn tags(list: &[&str]) -> Vec<String> {
    list.iter().map(|s| s.to_string()).collect()
}

fn morphology() -> Morphology {
    let mut e: BTreeMap<String, Vec<(String, Vec<String>)>> = BTreeMap::new();
    let mut add = |form: &str, lemma: &str, t: &[&str]| {
        e.entry(form.to_string()).or_default().push((lemma.to_string(), tags(t)));
    };
    add("книга", "книга", &["n", "f", "sg", "nom", "ind"]);
    add("книгата", "книга", &["n", "f", "sg", "nom", "def"]);
    add("книги", "книга", &["n", "f", "pl", "nom", "ind"]);
    add("книгите", "книга", &["n", "f", "pl", "nom", "def"]);
    add("убава", "убав", &["adj", "f", "sg", "nom", "ind"]);
    add("убавата", "убав", &["adj", "f", "sg", "nom", "def"]);
    add("убавите", "убав", &["adj", "mfn", "pl", "nom", "def"]);
    add("убавиот", "убав", &["adj", "m", "sg", "nom", "def"]);
    add("градот", "град", &["n", "m", "sg", "nom", "def"]);
    add("град", "град", &["n", "m", "sg", "nom", "ind"]);
    add("новата", "нов", &["adj", "f", "sg", "nom", "def"]);
    add("куќата", "куќа", &["n", "f", "sg", "nom", "def"]);
    add("куќа", "куќа", &["n", "f", "sg", "nom", "ind"]);
    add("ми", "ми", &["prn", "pers", "clt", "p1", "mfn", "sg", "dat"]);
    add("го", "clitic", &["prn", "pers", "clt", "p3", "m", "sg", "acc"]);
    add("даде", "даде", &["vblex", "perf", "tv", "aor", "p3", "sg"]);
    add("таа", "таа", &["prn", "pers", "p3", "f", "sg", "nom"]);
    add("тој", "тој", &["prn", "pers", "p3", "m", "sg", "nom"]);
    add("тоа", "тоа", &["prn", "pers", "p3", "nt", "sg", "nom"]);
    add("тие", "free", &["prn", "pers", "p3", "mfn", "pl", "nom"]);
    add("дошол", "дојде", &["vblex", "perf", "lp", "m", "sg"]);
    add("дошла", "дојде", &["vblex", "perf", "lp", "f", "sg"]);
    add("дошле", "дојде", &["vblex", "perf", "lp", "mfn", "pl"]);
    add("ѝ", "clitic", &["prn", "pers", "clt", "p3", "f", "sg", "dat"]);
    add("и", "clitic", &["prn", "pers", "clt", "p3", "f", "sg", "dat"]);
    add("и", "и", &["cnjcoo"]);
    let list: Vec<(String, Vec<(String, Vec<String>)>)> = e.into_iter().collect();
    Morphology::from_bytes(&Morphology::build(&list).unwrap()).unwrap()
}

fn run(text: &str) -> Vec<Diagnostic> {
    check(&tokenize(text), &morphology())
}

#[test]
fn flags_the_article_marked_twice() {
    let found = run("убавата книгата");
    assert_eq!(found.len(), 1, "{found:?}");
    assert_eq!(found[0].rule, rule::DOUBLE_DEFINITE);
    assert_eq!(found[0].text, "убавата книгата");
    assert_eq!(found[0].suggestions, vec!["убавата книга".to_string()]);
}

#[test]
fn accepts_the_article_on_the_adjective_only() {
    assert!(run("убавата книга").is_empty());
}

#[test]
fn accepts_the_article_on_the_noun_only() {
    assert!(run("убава книгата").is_empty());
}

#[test]
fn flags_plurals_but_offers_no_guess_it_cannot_make() {
    let found = run("убавите книгите");
    assert_eq!(found.len(), 1, "{found:?}");
    assert!(found[0].suggestions.is_empty(), "{:?}", found[0].suggestions);
}

#[test]
fn ignores_a_pair_that_does_not_agree() {
    assert!(run("убавата градот").is_empty());
}

#[test]
fn does_not_reach_across_punctuation() {
    assert!(run("Ја видов убавата. Книгата беше таму.").is_empty());
    assert!(run("убавата, книгата").is_empty());
}

#[test]
fn stays_silent_on_unanalysed_words() {
    assert!(run("непознатата непознатата").is_empty());
}

#[test]
fn finds_more_than_one_occurrence() {
    let found = run("убавата книгата и новата куќата");
    assert_eq!(found.len(), 2, "{found:?}");
    assert_eq!(found[1].suggestions, vec!["новата куќа".to_string()]);
}

#[test]
fn spans_cover_both_words() {
    let text = "убавата книгата";
    let found = run(text);
    let sliced: String =
        text.chars().skip(found[0].char_start).take(found[0].char_end - found[0].char_start).collect();
    assert_eq!(sliced, "убавата книгата");
}

#[test]
fn flags_reversed_clitics_before_a_verb() {
    assert!(run("тој ми го даде").is_empty());
    let found = run("тој го ми даде");
    assert_eq!(found.len(), 1, "{found:?}");
    assert_eq!(found[0].rule, rule::CLITIC_ORDER);
    assert_eq!(found[0].text, "го ми даде");
    assert_eq!(found[0].suggestions, vec!["ми го даде".to_string()]);
}

#[test]
fn clitic_order_stays_silent_without_a_verb() {
    assert!(run("тој го ми").is_empty());
}

#[test]
fn flags_bare_i_in_a_dative_slot() {
    assert!(run("таа ѝ го даде").is_empty());
    let found = run("таа и го даде");
    assert_eq!(found.len(), 1, "{found:?}");
    assert_eq!(found[0].rule, rule::DATIVE_I);
    assert_eq!(found[0].text, "и");
    assert_eq!(found[0].suggestions, vec!["ѝ".to_string()]);
}

#[test]
fn dative_i_stays_silent_after_a_verb() {
    assert!(run("таа пее и го даде").is_empty());
}

#[test]
fn flags_wrong_participle_gender() {
    assert!(run("таа дошла").is_empty());
    assert!(run("тој дошол").is_empty());
    assert!(run("тие дошле").is_empty());
    let found = run("таа дошол");
    assert_eq!(found.len(), 1, "{found:?}");
    assert_eq!(found[0].rule, rule::L_PARTICIPLE);
    assert_eq!(found[0].suggestions, vec!["таа дошла".to_string()]);
}

#[test]
fn flags_wrong_participle_number_without_a_guess_it_cannot_make() {
    let found = run("тоа дошол");
    assert_eq!(found.len(), 1, "{found:?}");
    assert_eq!(found[0].rule, rule::L_PARTICIPLE);
    assert!(found[0].suggestions.is_empty(), "{:?}", found[0].suggestions);
}

#[test]
fn a_capital_bare_i_gets_a_capital_fix() {
    let found = run("Таа И го даде");
    assert_eq!(found.len(), 1, "{found:?}");
    assert_eq!(found[0].suggestions, vec!["Ѝ".to_string()]);
    assert_eq!((found[0].char_start, found[0].char_end), (4, 5));
}

#[test]
fn grammar_findings_are_errors_with_their_messages() {
    let found = run("убавата книгата");
    assert_eq!(found[0].severity, Severity::Error);
    assert_eq!(found[0].message, "Членот се пишува само на првиот збор во именската група.");
    assert_eq!((found[0].char_start, found[0].char_end), (0, 15));
}

#[test]
fn rules_report_in_rule_order_then_text_order() {
    // A doubled article and a participle disagreement in one text: the
    // article rule's findings come first.
    let found = run("таа дошол убавата книгата");
    let rules: Vec<&str> = found.iter().map(|d| d.rule.as_str()).collect();
    assert_eq!(rules, vec![rule::DOUBLE_DEFINITE, rule::L_PARTICIPLE]);
}

#[test]
fn an_empty_morphology_finds_nothing() {
    let m = Morphology::from_bytes(&Morphology::build(&[]).unwrap()).unwrap();
    assert!(check(&tokenize("убавата книгата"), &m).is_empty());
    assert!(m.is_empty());
}

#[test]
fn findings_lie_on_adjacent_words() {
    let m = morphology();
    let text = "убавата книгата. Таа дошол, го ми даде. тој и го даде. убавата, книгата";
    let toks = tokenize(text);
    for d in check(&toks, &m) {
        let found = (0..toks.len()).any(|i| {
            (i..toks.len().min(i + 3)).any(|j| {
                toks[i..=j].iter().all(|t| t.kind == mk_core::TokenKind::Word)
                    && toks[i].char_start == d.char_start
                    && toks[j].char_end == d.char_end
            })
        });
        assert!(found, "{d:?}");
    }
    assert!(!check(&tokenize("убавата, книгата"), &m).iter().any(|d| d.rule == rule::DOUBLE_DEFINITE));
}

#[test]
fn nothing_is_found_where_no_word_has_a_reading() {
    let m = morphology();
    let toks = tokenize("зелената масата, ги ни донесе");
    assert!(check(&toks, &m).is_empty());
}
