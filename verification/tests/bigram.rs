use mk_core::bigram::Bigram;

fn table() -> Bigram {
    let bytes = Bigram::build(&[("тој", "оди", 900), ("тој", "одидома", 1), ("таа", "оди", 700)]).unwrap();
    Bigram::from_bytes(&bytes).unwrap()
}

#[test]
fn known_pair_returns_its_count() {
    assert_eq!(table().get("тој", "оди"), 900);
}

#[test]
fn lookup_is_case_insensitive_and_zero_when_unseen() {
    let t = table();
    assert_eq!(t.get("Тој", "Оди"), 900);
    assert_eq!(t.get("тој", "непостоечка"), 0);
    assert_eq!(t.get("непостоечка", "оди"), 0);
}

#[test]
fn top_next_ranks_completions_after_prev() {
    let got = table().top_next("тој", "оди", 5);
    assert_eq!(got.first().map(|(w, _)| w.as_str()), Some("оди"));
    assert!(got.iter().any(|(w, _)| w == "одидома"));
}

#[test]
fn top_next_respects_prefix_and_limit() {
    let t = table();
    assert!(t.top_next("тој", "одид", 5).iter().all(|(w, _)| w.starts_with("одид")));
    assert_eq!(t.top_next("тој", "оди", 1).len(), 1);
    assert!(t.top_next("тој", "zzz", 5).is_empty());
}

#[test]
fn rejects_a_bad_magic() {
    assert!(Bigram::from_bytes(b"NOPE").is_err());
}

#[test]
fn build_rejects_word_over_u16_bytes() {
    let big = "а".repeat(40_000); // 80,000 bytes in UTF-8
    assert!(Bigram::build(&[("тој", &big, 5)]).is_err());
    assert!(Bigram::build(&[(&big, "оди", 5)]).is_err());
}

#[test]
fn from_bytes_rejects_trailing_garbage() {
    let mut bytes = Bigram::build(&[("тој", "оди", 900)]).unwrap();
    bytes.push(b'X');
    assert!(Bigram::from_bytes(&bytes).is_err());
}

#[test]
fn build_lowercases_keys() {
    let bytes = Bigram::build(&[("ТОЈ", "ОДИ", 5)]).unwrap();
    let t = Bigram::from_bytes(&bytes).unwrap();
    assert_eq!(t.get("тој", "оди"), 5);
    assert_eq!(t.top_next("тој", "од", 5).len(), 1);
}

#[test]
fn bigram_errors_carry_their_messages() {
    assert_eq!(Bigram::from_bytes(b"NOPE").err(), Some("not a bigram file".to_string()));
    let mut bytes = Bigram::build(&[("тој", "оди", 900)]).unwrap();
    bytes.truncate(bytes.len() - 1);
    assert_eq!(Bigram::from_bytes(&bytes).err(), Some("truncated".to_string()));
    bytes = Bigram::build(&[("тој", "оди", 900)]).unwrap();
    bytes.push(0);
    assert_eq!(Bigram::from_bytes(&bytes).err(), Some("trailing bytes".to_string()));
    let big = "а".repeat(40_000);
    assert_eq!(Bigram::build(&[("тој", &big, 5)]).err(), Some("word over u16::MAX bytes".to_string()));
}

#[test]
fn bigram_round_trip_keeps_every_pair() {
    let bytes = Bigram::build(&[("а", "б", 1), ("в", "г", 2), ("а", "д", 3)]).unwrap();
    let t = Bigram::from_bytes(&bytes).unwrap();
    assert_eq!(t.get("а", "б"), 1);
    assert_eq!(t.get("в", "г"), 2);
    assert_eq!(t.get("а", "д"), 3);
    let next: Vec<(String, u32)> = t.top_next("а", "", 5);
    assert_eq!(next, vec![("д".to_string(), 3), ("б".to_string(), 1)]);
}

#[test]
fn completions_are_ranked_prefixed_and_capped() {
    let bytes = Bigram::build(&[
        ("тој", "оди", 9),
        ("тој", "одам", 9),
        ("тој", "оде", 20),
        ("тој", "спие", 50),
        ("таа", "оди", 70),
    ])
    .unwrap();
    let b = Bigram::from_bytes(&bytes).unwrap();
    let all = b.top_next("Тој", "од", 10);
    assert_eq!(
        all,
        vec![("оде".to_string(), 20), ("одам".to_string(), 9), ("оди".to_string(), 9)]
    );
    let two = b.top_next("тој", "од", 2);
    assert_eq!(two, all[..2].to_vec());
    assert!(b.top_next("тој", "x", 5).is_empty());
}

#[test]
fn a_table_loads_exactly_when_it_is_magic_count_and_records() {
    let mut bytes = b"MKBIGR01".to_vec();
    bytes.extend_from_slice(&1u32.to_le_bytes());
    for w in ["тој", "оди"] {
        bytes.extend_from_slice(&(w.len() as u16).to_le_bytes());
        bytes.extend_from_slice(w.as_bytes());
    }
    bytes.extend_from_slice(&7u32.to_le_bytes());
    let b = Bigram::from_bytes(&bytes).unwrap();
    assert_eq!(b.get("тој", "оди"), 7);
    let mut longer = bytes.clone();
    longer.push(b'X');
    assert!(Bigram::from_bytes(&longer).is_err());
    assert!(Bigram::from_bytes(&bytes[..bytes.len() - 1]).is_err());
    assert!(Bigram::from_bytes(b"NOPE").is_err());
}
