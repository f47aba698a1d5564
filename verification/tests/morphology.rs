use std::collections::BTreeMap;

use mk_core::morphology::{Definiteness, Gender, MorphError, Morphology, Number, Pos};

fn tags(list: &[&str]) -> Vec<String> {
    list.iter().map(|s| s.to_string()).collect()
}

type Entries = BTreeMap<String, Vec<(String, Vec<String>)>>;

fn build(entries: Entries) -> Vec<u8> {
    let list: Vec<(String, Vec<(String, Vec<String>)>)> = entries.into_iter().collect();
    Morphology::build(&list).unwrap()
}

fn sample() -> Morphology {
    let mut entries: Entries = BTreeMap::new();
    entries.insert("книга".into(), vec![("книга".into(), tags(&["n", "f", "sg", "nom", "ind"]))]);
    entries.insert("книгата".into(), vec![("книга".into(), tags(&["n", "f", "sg", "nom", "def"]))]);
    entries.insert("книгава".into(), vec![("книга".into(), tags(&["n", "f", "sg", "nom", "prx"]))]);
    entries.insert("дошла".into(), vec![("дојде".into(), tags(&["vblex", "perf", "lp", "f", "sg"]))]);
    entries.insert("дошол".into(), vec![("дојде".into(), tags(&["vblex", "perf", "lp", "m", "sg"]))]);
    entries.insert(
        "жени".into(),
        vec![
            ("жена".into(), tags(&["n", "f", "pl", "nom", "ind"])),
            ("жени".into(), tags(&["vblex", "impf", "pres", "p3", "sg"])),
        ],
    );
    Morphology::from_bytes(&build(entries)).unwrap()
}

#[test]
fn round_trips_through_the_binary_format() {
    let m = sample();
    assert_eq!(m.len(), 6);
    assert_eq!(m.lemma_count(), 4);
}

#[test]
fn reads_features_off_a_definite_noun() {
    let m = sample();
    let a = m.analyze("книгата");
    assert_eq!(a.len(), 1);
    assert_eq!(a[0].lemma(), "книга");
    assert_eq!(a[0].pos(), Some(Pos::Noun));
    assert_eq!(a[0].gender(), Some(Gender::Feminine));
    assert_eq!(a[0].number(), Some(Number::Singular));
    assert_eq!(a[0].definiteness(), Some(Definiteness::Definite));
    assert!(a[0].is_definite());
}

#[test]
fn distinguishes_the_three_deictic_series() {
    let m = sample();
    assert_eq!(m.analyze("книга")[0].definiteness(), Some(Definiteness::Indefinite));
    assert_eq!(m.analyze("книгата")[0].definiteness(), Some(Definiteness::Definite));
    assert_eq!(m.analyze("книгава")[0].definiteness(), Some(Definiteness::Proximate));
    assert!(!m.analyze("книга")[0].is_definite());
    assert!(m.analyze("книгава")[0].is_definite());
}

#[test]
fn identifies_l_participles_and_their_gender() {
    let m = sample();
    let f = m.analyze("дошла");
    assert!(f[0].is_l_participle());
    assert_eq!(f[0].gender(), Some(Gender::Feminine));
    let masc = m.analyze("дошол");
    assert!(masc[0].is_l_participle());
    assert_eq!(masc[0].gender(), Some(Gender::Masculine));
    assert_eq!(masc[0].lemma(), "дојде");
}

#[test]
fn keeps_every_reading_of_an_ambiguous_form() {
    let m = sample();
    let a = m.analyze("жени");
    assert_eq!(a.len(), 2);
    assert!(a.iter().any(|x| x.pos() == Some(Pos::Noun)));
    assert!(a.iter().any(|x| x.pos() == Some(Pos::Verb)));
}

#[test]
fn lookup_is_case_insensitive() {
    let m = sample();
    assert!(!m.analyze("Книгата").is_empty());
    assert!(m.contains("КНИГАТА"));
}

#[test]
fn unknown_forms_analyse_to_nothing() {
    let m = sample();
    assert!(m.analyze("непостоечки").is_empty());
    assert!(!m.contains("непостоечки"));
}

#[test]
fn raw_tags_are_reachable() {
    let m = sample();
    let a = m.analyze("дошла");
    assert!(a[0].has("perf"));
    assert!(!a[0].has("impf"));
    assert_eq!(a[0].tags(), vec!["vblex", "perf", "lp", "f", "sg"]);
}

#[test]
fn reverse_lookup_lists_a_lemmas_participles() {
    let m = sample();
    let mut forms = m.participle_forms("дојде");
    forms.sort_unstable();
    assert_eq!(forms, vec!["дошла", "дошол"]);
    assert!(m.participle_forms("книга").is_empty());
    assert!(m.participle_forms("непостоечка").is_empty());
}

#[test]
fn rejects_the_previous_format_version() {
    let mut entries: Entries = BTreeMap::new();
    entries.insert("книга".to_string(), vec![("книга".to_string(), tags(&["n"]))]);
    let mut bytes = build(entries);
    bytes[..8].copy_from_slice(b"MKMORPH1");
    assert!(matches!(Morphology::from_bytes(&bytes), Err(MorphError::BadMagic)));
}

#[test]
fn rejects_corrupt_input() {
    assert!(matches!(Morphology::from_bytes(b"not a morph file"), Err(MorphError::BadMagic)));
    assert!(matches!(Morphology::from_bytes(b"MKMORPH1"), Err(MorphError::BadMagic)));
}

#[test]
fn truncated_tables_are_reported() {
    let mut entries: Entries = BTreeMap::new();
    entries.insert("книга".to_string(), vec![("книга".to_string(), tags(&["n"]))]);
    let bytes = build(entries);
    assert!(matches!(Morphology::from_bytes(&bytes[..bytes.len() - 1]), Err(MorphError::Truncated)));
    assert!(matches!(Morphology::from_bytes(&bytes[..10]), Err(MorphError::Truncated)));
}

#[test]
fn error_messages_name_the_fault() {
    assert_eq!(MorphError::BadMagic.message(), "not a morphology file");
    assert_eq!(MorphError::Truncated.message(), "morphology data ends unexpectedly");
}

#[test]
fn features_come_from_the_first_tag_that_names_them() {
    let mut entries: Entries = BTreeMap::new();
    entries.insert("x".to_string(), vec![("x".to_string(), tags(&["adj", "n", "m", "f", "pl", "sg"]))]);
    let m = Morphology::from_bytes(&build(entries)).unwrap();
    let a = m.analyze("x");
    assert_eq!(a[0].pos(), Some(Pos::Adjective));
    assert_eq!(a[0].gender(), Some(Gender::Masculine));
    assert_eq!(a[0].number(), Some(Number::Plural));
    assert_eq!(a[0].definiteness(), None);
    assert!(!a[0].is_definite());
}

#[test]
fn unsorted_surfaces_are_refused_by_the_fst() {
    let list: Vec<(String, Vec<(String, Vec<String>)>)> = vec![
        ("маса".to_string(), vec![("маса".to_string(), tags(&["n"]))]),
        ("книга".to_string(), vec![("книга".to_string(), tags(&["n"]))]),
    ];
    let err = Morphology::build(&list).unwrap_err();
    assert!(matches!(err, MorphError::Fst(_)));
    assert!(err.message().starts_with("fst: "));
    assert!(err.message().len() > "fst: ".len());
    assert_eq!(MorphError::BadIndex.message(), "morphology data has an out-of-range index");
    assert_eq!(MorphError::BadUtf8.message(), "morphology data has invalid UTF-8");
}

#[test]
fn fst_errors_convert_into_morph_errors() {
    let e = fst::Set::new(vec![0u8; 3]).unwrap_err();
    let m = MorphError::from(e);
    assert!(matches!(m, MorphError::Fst(_)));
    assert!(m.message().starts_with("fst: "));
}

#[test]
fn a_form_with_more_than_255_readings_loads_with_the_first_255() {
    let readings: Vec<(String, Vec<String>)> =
        (0..300).map(|i| (format!("лема{i}"), tags(&["n", "f", "sg"]))).collect();
    let list = vec![("збор".to_string(), readings), ("маса".to_string(), vec![("маса".to_string(), tags(&["n"]))])];
    let bytes = Morphology::build(&list).unwrap();
    assert_eq!(&bytes[..8], b"MKMORPH2");
    let m = Morphology::from_bytes(&bytes).unwrap();
    assert_eq!(m.len(), 2);
    assert_eq!(m.lemma_count(), 301);
    let got = m.analyze("збор");
    assert_eq!(got.len(), 255);
    assert_eq!(got[254].lemma(), "лема254");
    assert_eq!(m.analyze("маса").len(), 1);
}
