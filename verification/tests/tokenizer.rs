use mk_core::{tokenize, TokenKind};

fn words(text: &str) -> Vec<&str> {
    tokenize(text).into_iter().filter(|t| t.kind == TokenKind::Word).map(|t| t.text).collect()
}

#[test]
fn splits_a_plain_sentence() {
    assert_eq!(words("Тој оди дома."), vec!["Тој", "оди", "дома"]);
}

#[test]
fn keeps_apostrophe_inside_words() {
    assert_eq!(words("к'смет"), vec!["к'смет"]);
    assert_eq!(words("с'нце и к'смет"), vec!["с'нце", "и", "к'смет"]);
}

#[test]
fn keeps_word_initial_apostrophe() {
    assert_eq!(words("'рж и 'рбет"), vec!["'рж", "и", "'рбет"]);
}

#[test]
fn keeps_hyphenated_compounds_and_abbreviations() {
    assert_eq!(words("црно-бел"), vec!["црно-бел"]);
    assert_eq!(words("д-р Петар"), vec!["д-р", "Петар"]);
    assert_eq!(words("1-ви мај"), vec!["1-ви", "мај"]);
}

#[test]
fn trailing_punctuation_is_not_glued_to_the_word() {
    let toks = tokenize("здраво!");
    assert_eq!(toks[0].text, "здраво");
    assert_eq!(toks[0].kind, TokenKind::Word);
    assert_eq!(toks[1].text, "!");
    assert_eq!(toks[1].kind, TokenKind::Punct);
}

#[test]
fn dash_between_words_is_punctuation_not_a_compound() {
    assert_eq!(words("сакам — не сакам"), vec!["сакам", "не", "сакам"]);
}

#[test]
fn offsets_point_back_at_the_source() {
    let text = "Тој оди";
    for t in tokenize(text) {
        assert_eq!(&text[t.byte_start..t.byte_end], t.text);
        assert_eq!(t.text.chars().count(), t.char_end - t.char_start);
    }
}

#[test]
fn numbers_are_tagged_separately() {
    let toks = tokenize("во 2026 година");
    assert_eq!(toks[1].kind, TokenKind::Number);
    assert_eq!(toks[1].text, "2026");
}

#[test]
fn every_token_is_its_slice_of_the_text() {
    let text = "Тој, рече: „к'смет“ — 1-ви!";
    let chars: Vec<char> = text.chars().collect();
    for t in tokenize(text) {
        let slice: String = chars[t.char_start..t.char_end].iter().collect();
        assert_eq!(slice, t.text);
        assert_eq!(&text[t.byte_start..t.byte_end], t.text);
    }
}

#[test]
fn whitespace_alone_has_no_tokens() {
    assert!(tokenize("  \t\n ").is_empty());
    assert!(tokenize("").is_empty());
}

#[test]
fn trailing_apostrophe_and_hyphen_stay_outside_the_word() {
    let toks = tokenize("збор- збор'");
    let kinds: Vec<TokenKind> = toks.iter().map(|t| t.kind).collect();
    assert_eq!(kinds, vec![TokenKind::Word, TokenKind::Punct, TokenKind::Word, TokenKind::Punct]);
}

#[test]
fn only_an_apostrophe_starts_a_word() {
    let toks = tokenize("сакам -не 'рж");
    let got: Vec<(&str, TokenKind)> = toks.iter().map(|t| (t.text, t.kind)).collect();
    assert_eq!(
        got,
        vec![
            ("сакам", TokenKind::Word),
            ("-", TokenKind::Punct),
            ("не", TokenKind::Word),
            ("'рж", TokenKind::Word),
        ]
    );
}

#[test]
fn tokens_cover_every_non_space_character_in_order() {
    for text in ["Тој ја виде книгата.", "  црно-бел, д-р 1-ви 'рж -не!", "a\tб\n1,5 %", ""] {
        let toks = tokenize(text);
        let joined: String = toks.iter().map(|t| t.text).collect();
        let expected: String = text.chars().filter(|c| !c.is_whitespace()).collect();
        assert_eq!(joined, expected, "{text:?}");
        for w in toks.windows(2) {
            assert!(w[0].byte_end <= w[1].byte_start);
        }
        for t in &toks {
            assert!(!t.text.is_empty());
            assert_eq!(t.kind == TokenKind::Word, t.text.chars().any(char::is_alphabetic));
            if t.kind == TokenKind::Punct {
                assert_eq!(t.text.chars().count(), 1);
            }
        }
    }
}
