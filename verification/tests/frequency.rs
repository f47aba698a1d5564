use mk_core::frequency::Frequency;

#[test]
fn common_word_outranks_rare_word() {
    let bytes = Frequency::build(&[("книга", 1000), ("книги", 2)]).unwrap();
    let f = Frequency::from_bytes(&bytes).unwrap();
    assert!(f.get("книга") > f.get("книги"));
    assert_eq!(f.get("непостоечка"), 0);
}

#[test]
fn frequency_round_trip_gives_back_every_count() {
    let bytes = Frequency::build(&[("а", 1), ("бб", 70000), ("ввв", 0)]).unwrap();
    let f = Frequency::from_bytes(&bytes).unwrap();
    assert_eq!(f.get("а"), 1);
    assert_eq!(f.get("бб"), 70000);
    assert_eq!(f.get("ввв"), 0);
}

#[test]
fn a_later_entry_for_the_same_word_wins() {
    let bytes = Frequency::build(&[("а", 1), ("а", 9)]).unwrap();
    assert_eq!(Frequency::from_bytes(&bytes).unwrap().get("а"), 9);
}

#[test]
fn frequency_rejects_foreign_and_truncated_bytes() {
    assert_eq!(Frequency::from_bytes(b"MKBIGR01").err(), Some("not a freq file".to_string()));
    let bytes = Frequency::build(&[("книга", 5)]).unwrap();
    assert_eq!(Frequency::from_bytes(&bytes[..bytes.len() - 1]).err(), Some("truncated".to_string()));
    assert_eq!(Frequency::from_bytes(&bytes[..9]).err(), Some("truncated".to_string()));
}
