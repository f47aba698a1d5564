use mk_core::translit::{candidates, transliterate, MAX_CANDIDATES};

#[test]
fn converts_plain_words() {
    assert_eq!(transliterate("makedonski"), "македонски");
    assert_eq!(transliterate("zdravo"), "здраво");
    assert_eq!(transliterate("kniga"), "книга");
}

#[test]
fn handles_macedonian_specific_digraphs() {
    assert_eq!(transliterate("kje"), "ќе");
    assert_eq!(transliterate("gjavol"), "ѓавол");
    assert_eq!(transliterate("zhena"), "жена");
    assert_eq!(transliterate("chovek"), "човек");
    assert_eq!(transliterate("shema"), "шема");
    assert_eq!(transliterate("njiva"), "њива");
    assert_eq!(transliterate("ljubov"), "љубов");
}

#[test]
fn accepts_diacritics_as_well_as_digraphs() {
    assert_eq!(transliterate("žena"), "жена");
    assert_eq!(transliterate("čovek"), "човек");
    assert_eq!(transliterate("šema"), "шема");
}

#[test]
fn candidates_cover_both_readings_of_an_ambiguous_digraph() {
    let konj = candidates("konj");
    assert!(konj.contains(&"коњ".to_string()), "got {konj:?}");
    assert!(konj.contains(&"конј".to_string()), "got {konj:?}");
}

#[test]
fn candidates_offer_both_readings_of_c() {
    let got = candidates("cel");
    assert!(got.contains(&"цел".to_string()), "got {got:?}");
    assert!(got.contains(&"кел".to_string()), "got {got:?}");
}

#[test]
fn longest_match_reading_comes_first() {
    assert_eq!(candidates("konj").first().map(String::as_str), Some("коњ"));
}

#[test]
fn capitalisation_is_preserved() {
    assert_eq!(transliterate("Skopje"), "Скопје");
    assert_eq!(transliterate("Makedonija"), "Македонија");
}

#[test]
fn candidate_count_stays_bounded() {
    assert!(candidates("cjcjcjcjcjcjcj").len() <= MAX_CANDIDATES);
}

#[test]
fn candidates_have_no_repeats() {
    let got = candidates("cjcjcj");
    for (i, a) in got.iter().enumerate() {
        assert!(!got[i + 1..].contains(a), "{a} repeated in {got:?}");
    }
}

#[test]
fn characters_outside_the_table_pass_through() {
    assert_eq!(transliterate("a1-b"), "а1-б");
    assert_eq!(transliterate(""), "");
}
