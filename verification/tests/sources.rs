use mk_core::morphology::Morphology;
use mk_core::sources::{lines, morph_table, split_char, trim, word_list};
use mk_core::Lexicon;

#[test]
fn split_keeps_empty_pieces() {
    assert_eq!(split_char("a,,b,", ','), vec!["a", "", "b", ""]);
    assert_eq!(split_char("", ','), vec![""]);
    assert_eq!(split_char("црно-бел", '-'), vec!["црно", "бел"]);
}

#[test]
fn lines_follow_str_lines() {
    for text in ["", "a", "a\n", "a\nb", "a\r\nb\r\n", "\n", "a\n\nb", "x\r", "x\r\ny\r"] {
        let expected: Vec<String> = text.lines().map(str::to_string).collect();
        assert_eq!(lines(text), expected, "{text:?}");
    }
}

#[test]
fn trim_follows_str_trim() {
    for text in ["", "  ", " книга ", "\tмаса\u{a0}", "a b", "\u{2003}x"] {
        assert_eq!(trim(text), text.trim(), "{text:?}");
    }
}

#[test]
fn word_list_skips_blanks_and_comments() {
    let text = "# речник\nкнига\n\n  маса  \r\n#коментар\nтој\n   \n";
    assert_eq!(word_list(text), vec!["книга", "маса", "тој"]);
}

#[test]
fn word_list_feeds_the_lexicon() {
    let words = word_list("тој\nкнига\nмаса\nкнига\n");
    let refs: Vec<&str> = words.iter().map(String::as_str).collect();
    let bytes = Lexicon::build_from_unsorted(&refs).unwrap();
    let lex = Lexicon::from_bytes(bytes).unwrap();
    assert_eq!(lex.len(), 3);
    assert!(lex.contains("книга"));
}

#[test]
fn morph_table_groups_sorts_and_dedups() {
    let text = "жени\tжена\tn,f,pl\n\
                книга\tкнига\tn,f,sg\n\
                жени\tжени\tvblex,,pres\n\
                жени\tжена\tn,f,pl\n\
                \tбез\tn\n\
                кратко\tред\n\
                книга\tкнига\tn,f,sg\textra\n";
    let (table, rows) = morph_table(text);
    assert_eq!(rows, 5);
    let surfaces: Vec<&str> = table.iter().map(|e| e.0.as_str()).collect();
    assert_eq!(surfaces, vec!["жени", "книга"]);
    let zheni = &table[0].1;
    assert_eq!(zheni.len(), 2);
    assert_eq!(zheni[0], ("жена".to_string(), vec!["n".to_string(), "f".to_string(), "pl".to_string()]));
    assert_eq!(zheni[1], ("жени".to_string(), vec!["vblex".to_string(), "pres".to_string()]));
    assert_eq!(table[1].1.len(), 1);
}

#[test]
fn morph_table_is_accepted_by_the_builder() {
    let text = "маса\tмаса\tn,f,sg\nкнигата\tкнига\tn,f,sg,def\nа\tа\tcnjcoo\nкнига\tкнига\tn,f,sg\n";
    let (table, rows) = morph_table(text);
    assert_eq!(rows, 4);
    let bytes = Morphology::build(&table).unwrap();
    let m = Morphology::from_bytes(&bytes).unwrap();
    assert_eq!(m.len(), 4);
    assert_eq!(m.lemma_count(), 3);
    let readings = m.analyze("книгата");
    assert_eq!(readings.len(), 1);
    assert_eq!(readings[0].lemma(), "книга");
    assert_eq!(readings[0].tags(), vec!["n", "f", "sg", "def"]);
}

#[test]
fn empty_listing_gives_empty_table() {
    let (table, rows) = morph_table("");
    assert!(table.is_empty());
    assert_eq!(rows, 0);
}
