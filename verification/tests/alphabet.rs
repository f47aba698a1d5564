use mk_core::alphabet::{is_cyrillic, script_of, Script, MK_LETTERS};

#[test]
fn macedonian_letters_are_recognised() {
    for c in MK_LETTERS {
        assert_eq!(script_of(c), Script::Macedonian, "lowercase {c}");
        let upper = c.to_uppercase().next().unwrap();
        assert_eq!(script_of(upper), Script::Macedonian, "uppercase {upper}");
    }
}

#[test]
fn accented_vowels_count_as_macedonian() {
    // сѐ / ѝ are correct Macedonian, not foreign contamination.
    for c in ['ѐ', 'ѝ', 'Ѐ', 'Ѝ'] {
        assert_eq!(script_of(c), Script::Macedonian, "{c} U+{:04X}", c as u32);
    }
}

#[test]
fn latin_lookalikes_of_the_accented_vowels_stay_foreign() {
    // è U+00E8 and ì U+00EC are Latin and remain errors.
    assert_eq!(script_of('è'), Script::Latin);
    assert_eq!(script_of('ì'), Script::Latin);
}

#[test]
fn foreign_cyrillic_is_separated_from_macedonian() {
    for c in ['ъ', 'ы', 'э', 'я', 'ю', 'щ', 'ё', 'ђ', 'ћ', 'і', 'ї'] {
        assert_eq!(script_of(c), Script::ForeignCyrillic, "{c}");
    }
}

#[test]
fn latin_and_digits_are_classified() {
    assert_eq!(script_of('a'), Script::Latin);
    assert_eq!(script_of('Z'), Script::Latin);
    assert_eq!(script_of('ž'), Script::Latin);
    assert_eq!(script_of('7'), Script::Digit);
    assert_eq!(script_of(' '), Script::Other);
    assert_eq!(script_of('.'), Script::Other);
}

#[test]
fn cyrillic_outside_the_main_block_is_foreign() {
    // Cyrillic Supplement (U+0500..U+052F) and Extended-B (U+A640..U+A69F).
    assert_eq!(script_of('\u{0500}'), Script::ForeignCyrillic);
    assert_eq!(script_of('\u{A640}'), Script::ForeignCyrillic);
}

#[test]
fn other_scripts_and_non_decimal_numbers_are_other() {
    assert_eq!(script_of('α'), Script::Other);
    assert_eq!(script_of('中'), Script::Other);
    assert_eq!(script_of('½'), Script::Other);
    assert_eq!(script_of('è'), Script::Latin);
    assert_eq!(script_of('ḱ'), Script::Latin);
    assert_eq!(script_of('0'), Script::Digit);
}

#[test]
fn every_cyrillic_block_counts() {
    assert!(is_cyrillic('\u{1C80}'));
    assert!(is_cyrillic('\u{1E030}'));
    assert!(is_cyrillic('д'));
    assert!(!is_cyrillic('a'));
    assert_eq!(script_of('\u{1C80}'), Script::ForeignCyrillic);
}
