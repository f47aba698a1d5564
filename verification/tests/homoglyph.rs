use mk_core::homoglyph::{analyze, normalize, IssueKind};

#[test]
fn catches_latin_letters_hidden_in_a_cyrillic_word() {
    // 'a', 'e' and 'o' here are Latin, the rest Cyrillic.
    let word = "мaкeдoнски";
    let issue = analyze(word).expect("should flag mixed script");
    assert_eq!(issue.kind, IssueKind::Homoglyph);
    assert_eq!(issue.normalized, "македонски");
}

#[test]
fn clean_macedonian_is_left_alone() {
    assert_eq!(analyze("македонски"), None);
    assert_eq!(analyze("ѓаволот"), None);
    assert_eq!(analyze("џезот"), None);
}

#[test]
fn all_latin_words_are_not_our_problem() {
    // Transliteration handles these; flagging them here would double-report.
    assert_eq!(analyze("makedonski"), None);
    assert_eq!(analyze("hello"), None);
}

#[test]
fn maps_serbian_letters_to_macedonian() {
    let issue = analyze("ђубре").expect("Serbian đ is not Macedonian");
    assert_eq!(issue.kind, IssueKind::ForeignCyrillic);
    assert_eq!(issue.normalized, "ѓубре");
    assert_eq!(normalize("ћирилица"), "ќирилица");
}

#[test]
fn maps_bulgarian_sht_and_russian_signs() {
    assert_eq!(normalize("щастие"), "штастие");
    assert_eq!(normalize("градъ"), "град");
    assert_eq!(normalize("язик"), "јазик");
}

#[test]
fn preserves_case_when_repairing() {
    // Latin capital 'C' and 'K' standing in for Cyrillic 'С' and 'К'.
    assert_eq!(normalize("CKОПЈЕ"), "СКОПЈЕ");
}

#[test]
fn repairs_latin_grave_accents_to_cyrillic() {
    let issue = analyze("сè").expect("Latin è in a Cyrillic word");
    assert_eq!(issue.kind, IssueKind::Homoglyph);
    assert_eq!(issue.normalized, "сѐ");
    assert_eq!(normalize("Сè"), "Сѐ");
}

#[test]
fn correctly_accented_words_are_left_alone() {
    assert_eq!(analyze("сѐ"), None);
    assert_eq!(analyze("ѝ"), None);
}

#[test]
fn normalize_is_identity_for_clean_words() {
    for w in ["книга", "ѕвезда", "љубов", "њива", "џамија"] {
        assert_eq!(normalize(w), w);
    }
}

#[test]
fn foreign_cyrillic_wins_over_a_homoglyph() {
    // Both a Latin 'a' and a Serbian 'ђ': the foreign letter decides the kind.
    let issue = analyze("ђa").expect("mixed word");
    assert_eq!(issue.kind, IssueKind::ForeignCyrillic);
    assert_eq!(issue.normalized, "ѓа");
}

#[test]
fn words_without_letters_have_no_issue() {
    assert_eq!(analyze("123"), None);
    assert_eq!(analyze(""), None);
}

#[test]
fn normalizing_twice_changes_nothing() {
    for w in ["мaкeдoнски", "сè", "ђак", "Щука", "yes", "книга", "ѕвезда"] {
        let once = mk_core::homoglyph::normalize(w);
        assert_eq!(mk_core::homoglyph::normalize(&once), once, "{w}");
    }
}
