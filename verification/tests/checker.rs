use mk_core::bigram::Bigram;
use mk_core::frequency::Frequency;
use mk_core::{rule, Checker, Lexicon, Severity};

fn checker() -> Checker {
    let words = [
        "македонски", "книга", "книгата", "книги", "коњ", "коњот", "здраво", "жена", "човек", "ѓавол",
        "ѓубре", "скопје", "цел", "црно", "бел", "тој", "оди", "дома", "ја", "виде", "и", "во", "како",
        "денес", "убав", "многу",
    ];
    Checker::new(Lexicon::build_from_unsorted(&words).unwrap()).unwrap()
}

fn rules(text: &str) -> Vec<String> {
    checker().check(text).into_iter().map(|d| d.rule).collect()
}

#[test]
fn frequency_table_promotes_the_common_word() {
    let words = ["книга", "книги", "книгата"];
    let base = Checker::new(Lexicon::build_from_unsorted(&words).unwrap()).unwrap();
    let freq = Frequency::from_bytes(&Frequency::build(&[("книги", 900), ("книга", 1)]).unwrap()).unwrap();
    let ranked = base.with_frequency(freq);
    let got = ranked.check("книгаи");
    assert_eq!(got.len(), 1);
    assert_eq!(got[0].suggestions.first().map(String::as_str), Some("книги"));
}

#[test]
fn frequency_ties_fall_back_to_confusion_cost() {
    let base = Checker::new(Lexicon::build_from_unsorted(&["ќак", "мак"]).unwrap()).unwrap();
    let freq = Frequency::from_bytes(&Frequency::build(&[("некојдруг", 7)]).unwrap()).unwrap();
    let got = base.with_frequency(freq).check("как");
    assert_eq!(got.len(), 1);
    assert_eq!(got[0].suggestions.first().map(String::as_str), Some("ќак"));
}

#[test]
fn clean_text_produces_nothing() {
    assert!(checker().check("Тој оди дома.").is_empty());
}

#[test]
fn flags_an_unknown_word_and_suggests_a_fix() {
    let found = checker().check("книгаа");
    assert_eq!(found.len(), 1);
    assert_eq!(found[0].rule, rule::SPELL);
    assert!(found[0].suggestions.contains(&"книга".to_string()), "{:?}", found[0].suggestions);
}

#[test]
fn catches_latin_lookalikes_inside_a_cyrillic_word() {
    let found = checker().check("мaкeдoнски");
    assert_eq!(found.len(), 1);
    assert_eq!(found[0].rule, rule::HOMOGLYPH);
    assert_eq!(found[0].severity, Severity::Error);
    assert_eq!(found[0].suggestions, vec!["македонски".to_string()]);
}

#[test]
fn catches_serbian_letters() {
    let found = checker().check("ђубре");
    assert_eq!(found[0].rule, rule::FOREIGN_CYRILLIC);
    assert_eq!(found[0].suggestions, vec!["ѓубре".to_string()]);
}

#[test]
fn offers_cyrillic_for_latin_typed_macedonian() {
    let found = checker().check("zdravo kako si denes");
    assert!(!found.is_empty());
    assert!(found.iter().all(|d| d.rule == rule::LATIN_TEXT), "{found:?}");
    assert!(found[0].suggestions.contains(&"здраво".to_string()));
}

#[test]
fn ambiguous_transliteration_is_resolved_by_the_lexicon() {
    let found = checker().check("konj konj");
    assert_eq!(found[0].suggestions, vec!["коњ".to_string()]);
}

#[test]
fn an_isolated_latin_word_among_cyrillic_is_a_name_not_a_typo() {
    assert!(checker().check("Тој оди во Skopje дома").is_empty());
}

#[test]
fn acronyms_are_not_transliterated() {
    assert!(checker().check("BBC CNN").is_empty());
    assert!(checker().check("XIV III").is_empty());
}

#[test]
fn genuine_foreign_words_are_left_alone() {
    assert!(checker().check("Wikipedia github").is_empty());
}

#[test]
fn hyphenated_compounds_of_known_words_are_accepted() {
    assert!(checker().check("црно-бел").is_empty());
}

#[test]
fn acronyms_are_not_reported() {
    assert!(checker().check("МПЦ и ДДВ").is_empty());
}

#[test]
fn suffixed_ordinals_are_skipped() {
    assert!(checker().check("1-ви").is_empty());
}

#[test]
fn offsets_locate_the_word_in_the_original_text() {
    let text = "Тој ја видe книгата.";
    let found = checker().check(text);
    assert_eq!(found.len(), 1, "{found:?}");
    let d = &found[0];
    let sliced: String = text.chars().skip(d.char_start).take(d.char_end - d.char_start).collect();
    assert_eq!(sliced, d.text);
    assert_eq!(d.text, "видe");
}

#[test]
fn several_problems_are_reported_in_document_order() {
    let got = rules("zdravo kako, мaкeдoнски книгаа");
    assert_eq!(got, vec![rule::LATIN_TEXT, rule::LATIN_TEXT, rule::HOMOGLYPH, rule::SPELL]);
}

#[test]
fn an_unconfirmed_repair_is_only_a_warning() {
    // The repaired spelling is not a known word, so the mixed script is
    // reported more quietly.
    let found = checker().check("мaсa");
    assert_eq!(found.len(), 1);
    assert_eq!(found[0].rule, rule::HOMOGLYPH);
    assert_eq!(found[0].severity, Severity::Warning);
    assert_eq!(found[0].suggestions, vec!["маса".to_string()]);
}

#[test]
fn a_lone_letter_is_not_a_typo() {
    assert!(checker().check("ж.").is_empty());
}

#[test]
fn a_compound_with_an_unknown_part_is_still_checked() {
    let found = checker().check("црно-зелен");
    assert_eq!(found.len(), 1);
    assert_eq!(found[0].rule, rule::SPELL);
    assert!(checker().check("црно-").is_empty());
}

#[test]
fn short_latin_runs_are_left_alone() {
    assert!(checker().check("si si").is_empty());
}

#[test]
fn spelling_suggestions_are_capped_at_five() {
    let words = ["дом", "дим", "дам", "дум", "дем", "том", "ком", "сом"];
    let c = Checker::new(Lexicon::build_from_unsorted(&words).unwrap()).unwrap();
    let found = c.check("дoм");
    assert_eq!(found[0].rule, rule::HOMOGLYPH);
    let found = c.check("дмо");
    assert_eq!(found[0].rule, rule::SPELL);
    assert_eq!(found[0].suggestions.len(), 5, "{:?}", found[0].suggestions);
    assert_eq!(found[0].suggestions[0], "дом");
}

#[test]
fn the_checker_reports_its_tables() {
    let c = checker();
    assert!(c.morphology().is_none());
    assert!(c.lexicon().contains("книга"));
    assert!(Checker::new(vec![0, 1, 2]).is_err());
}

#[test]
fn next_word_completions_come_from_the_bigram_table() {
    let mut c = checker();
    assert!(c.suggest_next("тој", "оди", 5).is_empty());
    let bytes = Bigram::build(&[("тој", "оди", 9), ("тој", "одидома", 1)]).unwrap();
    c.set_bigram(Bigram::from_bytes(&bytes).unwrap());
    assert_eq!(c.suggest_next("тој", "оди", 5), vec!["оди".to_string(), "одидома".to_string()]);
    assert_eq!(c.suggest_next("Тој", "од", 1), vec!["оди".to_string()]);
}

#[test]
fn set_frequency_replaces_the_table() {
    let mut c = Checker::new(Lexicon::build_from_unsorted(&["книга", "книги"]).unwrap()).unwrap();
    c.set_frequency(Frequency::from_bytes(&Frequency::build(&[("книга", 5)]).unwrap()).unwrap());
    let got = c.check("книгх");
    assert_eq!(got[0].suggestions.first().map(String::as_str), Some("книга"));
    c.set_frequency(Frequency::from_bytes(&Frequency::build(&[("книги", 5)]).unwrap()).unwrap());
    let got = c.check("книгх");
    assert_eq!(got[0].suggestions.first().map(String::as_str), Some("книги"));
}

#[test]
fn every_proposal_is_backed_by_the_lexicon() {
    let c = checker();
    let text = "книгаа мaкeдoнски ѓаvol zdravo denes kniga коwа";
    for d in c.check(text) {
        if d.rule == rule::SPELL || d.rule == rule::LATIN_TEXT {
            assert!(d.suggestions.len() <= 5);
            let mut seen = d.suggestions.clone();
            seen.sort();
            seen.dedup();
            assert_eq!(seen.len(), d.suggestions.len());
            for s in &d.suggestions {
                assert!(c.lexicon().contains(s), "{} offered {s}", d.rule);
            }
        }
        if d.rule == rule::HOMOGLYPH && d.severity == Severity::Error {
            assert!(c.lexicon().contains(&d.suggestions[0]));
        }
    }
}

#[test]
fn word_findings_quote_the_text_at_their_span() {
    let text = "  книгаа,  мaкeдoнски\tѓаvol zdravo denes — коwа ђак";
    let found = checker().check(text);
    assert!(!found.is_empty());
    for w in found.windows(2) {
        assert!((w[0].char_start, w[0].char_end) <= (w[1].char_start, w[1].char_end));
    }
    for d in &found {
        let slice: String = text.chars().skip(d.char_start).take(d.char_end - d.char_start).collect();
        assert_eq!(slice, d.text, "{}", d.rule);
    }
}
