use mk_core::lexicon::{confusion_cost, weighted_cost};
use mk_core::Lexicon;

fn lexicon(words: &[&str]) -> Lexicon {
    Lexicon::from_bytes(Lexicon::build_from_unsorted(words).unwrap()).unwrap()
}

#[test]
fn single_insertion_or_deletion_costs_like_single_substitution() {
    let q: Vec<char> = "женна".chars().collect();
    let del: Vec<char> = "жена".chars().collect();
    assert_eq!(weighted_cost(&q, &del), 2);
    assert_eq!(weighted_cost(&del, &q), 2);
    let kb: Vec<char> = "книг".chars().collect();
    let kba: Vec<char> = "книга".chars().collect();
    assert_eq!(weighted_cost(&kb, &kba), 2);
}

#[test]
fn single_deletion_survives_a_dense_crowd() {
    let lex = lexicon(&["жедна", "желна", "женеа", "женка", "желба", "жена"]);
    let got = lex.suggest("женна", 5);
    assert!(got.contains(&"жена".to_string()), "got {got:?}");
}

#[test]
fn membership_is_case_insensitive() {
    let lex = lexicon(&["книга", "скопје"]);
    assert!(lex.contains("книга"));
    assert!(lex.contains("Книга"));
    assert!(lex.contains("Скопје"));
    assert!(!lex.contains("книгаа"));
}

#[test]
fn builder_sorts_and_deduplicates() {
    let lex = lexicon(&["јаболко", "книга", "книга", "автобус"]);
    assert_eq!(lex.len(), 3);
}

#[test]
fn suggests_a_single_character_typo() {
    let lex = lexicon(&["книга", "книги", "книгата", "автобус"]);
    let got = lex.suggest("книгa", 5);
    assert!(got.contains(&"книга".to_string()), "got {got:?}");
}

#[test]
fn suggestions_exclude_the_query_itself() {
    let lex = lexicon(&["книга", "книги"]);
    assert!(!lex.suggest("книга", 5).contains(&"книга".to_string()));
}

#[test]
fn ranking_prefers_the_same_first_letter() {
    let lex = lexicon(&["дом", "том", "дим"]);
    let got = lex.suggest("дом", 3);
    assert_eq!(got.first().map(String::as_str), Some("дим"), "got {got:?}");
}

#[test]
fn confusion_pair_outranks_distant_word() {
    assert_eq!(confusion_cost('к', 'ќ'), 1);
    assert_eq!(confusion_cost('к', 'м'), 2);
    assert_eq!(confusion_cost('е', 'ѐ'), 1);
}

#[test]
fn ranking_prefers_the_confusable_letter() {
    let lex = lexicon(&["ќак", "мак", "как"]);
    let got = lex.suggest("как", 3);
    assert_eq!(got.first().map(String::as_str), Some("ќак"), "got {got:?}");
}

#[test]
fn transposed_letters_outrank_a_distant_word() {
    let lex = lexicon(&["книга", "книах"]);
    let got = lex.suggest("книаг", 3);
    assert_eq!(got.first().map(String::as_str), Some("книга"), "got {got:?}");
}

#[test]
fn transposed_target_survives_a_full_distance1_cap() {
    let lex = lexicon(&["буб", "вуб", "губ", "дуб", "жуб", "зуб", "ѕуб", "ќуб", "ааб", "уаб"]);
    let got = lex.suggest("ауб", 1);
    assert_eq!(got, vec!["уаб".to_string()], "got {got:?}");
}

#[test]
fn unknown_word_far_from_everything_yields_nothing() {
    let lex = lexicon(&["книга"]);
    assert!(lex.suggest("автомобилите", 5).is_empty());
}

#[test]
fn sorted_builder_refuses_words_out_of_order() {
    assert!(Lexicon::build_sorted(&["б", "а"]).is_err());
    let bytes = Lexicon::build_sorted(&["а", "Б"]).unwrap();
    let lex = Lexicon::from_bytes(bytes).unwrap();
    assert!(lex.contains("б"));
    assert_eq!(lex.len(), 2);
}

#[test]
fn lexicon_round_trip_holds_exactly_the_words_built() {
    let lex = lexicon(&["Книга", "маса", "книга"]);
    assert_eq!(lex.len(), 2);
    assert!(lex.contains("КНИГА") && lex.contains("маса"));
    assert!(!lex.contains("стол"));
    assert!(!lex.is_empty());
}

#[test]
fn from_bytes_refuses_garbage() {
    assert!(Lexicon::from_bytes(vec![1, 2, 3]).is_err());
}

#[test]
fn cost_of_a_transposition_is_one() {
    let a: Vec<char> = "книаг".chars().collect();
    let b: Vec<char> = "книга".chars().collect();
    assert_eq!(weighted_cost(&a, &b), 1);
    assert_eq!(weighted_cost(&b, &b), 0);
    let c: Vec<char> = "кнмга".chars().collect();
    assert_eq!(weighted_cost(&c, &b), 2);
    let d: Vec<char> = "кнѓга".chars().collect();
    assert_eq!(weighted_cost(&d, &b), 2);
}

#[test]
fn weighted_cost_is_symmetric_zero_only_for_equal_and_two_per_insertion() {
    let w = |s: &str| s.chars().collect::<Vec<char>>();
    let pairs = [("книга", "кнgига"), ("как", "ќак"), ("жена", "жнеа"), ("дом", "домови"), ("а", "")];
    for (a, b) in pairs {
        assert_eq!(
            mk_core::lexicon::weighted_cost(&w(a), &w(b)),
            mk_core::lexicon::weighted_cost(&w(b), &w(a)),
            "{a} {b}"
        );
        assert_ne!(mk_core::lexicon::weighted_cost(&w(a), &w(b)), 0);
        assert_eq!(mk_core::lexicon::weighted_cost(&w(a), &w(a)), 0);
    }
    assert_eq!(mk_core::lexicon::weighted_cost(&w("жена"), &w("женна")), 2);
    assert_eq!(mk_core::lexicon::weighted_cost(&w("жена"), &w("жеана")), 2);
    assert_eq!(mk_core::lexicon::weighted_cost(&w("жена"), &w("ажена")), 2);
}
