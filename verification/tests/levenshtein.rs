use fst::{IntoStreamer, SetBuilder, Streamer};
use mk_core::levenshtein::{Levenshtein, MAX_QUERY_CHARS};

fn build(words: &[&str]) -> fst::Set<Vec<u8>> {
    let mut sorted: Vec<&str> = words.to_vec();
    sorted.sort_unstable();
    let mut b = SetBuilder::memory();
    for w in sorted {
        b.insert(w).unwrap();
    }
    fst::Set::new(b.into_inner().unwrap()).unwrap()
}

fn search(set: &fst::Set<Vec<u8>>, query: &str, dist: u32) -> Vec<String> {
    let aut = Levenshtein::new(query, dist).expect("valid query");
    let mut stream = set.search(&aut).into_stream();
    let mut out = Vec::new();
    while let Some(k) = stream.next() {
        out.push(String::from_utf8(k.to_vec()).unwrap());
    }
    out.sort();
    out
}

#[test]
fn cyrillic_substitutions_are_all_found() {
    let set = build(&["дом", "том", "дим", "дома"]);
    assert_eq!(search(&set, "дом", 1), vec!["дим", "дом", "дома", "том"]);
}

#[test]
fn a_wider_budget_never_returns_less() {
    let set = build(&["дом", "том", "дим", "книга", "книги", "книгата"]);
    for query in ["дом", "книга", "том"] {
        let d1 = search(&set, query, 1);
        let d2 = search(&set, query, 2);
        for hit in &d1 {
            assert!(d2.contains(hit), "{query:?}: d=2 lost {hit:?} (d1={d1:?}, d2={d2:?})");
        }
    }
}

#[test]
fn matches_a_latin_for_cyrillic_substitution() {
    let set = build(&["книга", "книги", "автобус"]);
    assert!(search(&set, "книгa", 1).contains(&"книга".to_string()));
}

#[test]
fn handles_insertion_and_deletion() {
    let set = build(&["книга"]);
    assert_eq!(search(&set, "книгаа", 1), vec!["книга"]);
    assert_eq!(search(&set, "книг", 1), vec!["книга"]);
}

#[test]
fn respects_the_distance_budget() {
    let set = build(&["книга"]);
    assert!(search(&set, "кнштв", 1).is_empty());
}

#[test]
fn ascii_still_behaves() {
    let set = build(&["dom", "tom", "dim", "book"]);
    assert_eq!(search(&set, "dom", 1), vec!["dim", "dom", "tom"]);
}

#[test]
fn mixed_width_characters_work_together() {
    let set = build(&["ab", "аб", "a🎉", "аж"]);
    assert!(search(&set, "аб", 1).contains(&"аж".to_string()));
    assert!(search(&set, "a🎉", 0).contains(&"a🎉".to_string()));
}

#[test]
fn distance_zero_is_exact_match() {
    let set = build(&["дом", "том"]);
    assert_eq!(search(&set, "дом", 0), vec!["дом"]);
}

#[test]
fn rejects_unusable_queries() {
    assert!(Levenshtein::new("", 1).is_none());
    assert!(Levenshtein::new(&"а".repeat(MAX_QUERY_CHARS + 1), 1).is_none());
    assert!(Levenshtein::new(&"а".repeat(MAX_QUERY_CHARS), 1).is_some());
}

#[test]
fn exactly_the_words_within_budget_are_accepted() {
    // Distance 2 from "книга": "книгата" (2 insertions) yes, "кни" (2
    // deletions) yes, "к" (4 deletions) no.
    let set = build(&["книгата", "кни", "к", "книги"]);
    assert_eq!(search(&set, "книга", 2), vec!["кни", "книгата", "книги"]);
}

#[test]
fn the_largest_budget_below_the_limit_matches_everything() {
    let set = build(&["дом", "куќа", "x"]);
    assert_eq!(search(&set, "дом", u32::MAX - 1), vec!["x", "дом", "куќа"]);
    assert!(Levenshtein::new("", 1).is_none());
    assert!(Levenshtein::new(&"а".repeat(33), 1).is_none());
    assert!(Levenshtein::new(&"а".repeat(32), 1).is_some());
}
