//! The word lexicon, stored as a finite-state transducer.
//!
//! Macedonian inflects heavily, so the surface-form list is large and highly
//! prefix-redundant. An FST shares those prefixes and suffixes, which keeps
//! the lexicon small, and lets a Levenshtein automaton run against the whole
//! set at once for suggestions.
//!
//! A lexicon's content is the set of its keys: the UTF-8 bytes of lowercased
//! words. Its reads are stated for a lexicon loaded from bytes that the
//! builder wrote (`loaded`); `fst` does not check other bytes.

use vstd::prelude::*;
use vstd::utf8::{valid_utf8, decode_utf8, encode_utf8, encode_utf8_valid_utf8, encode_utf8_decode_utf8, decode_utf8_encode_utf8};
use crate::text::{to_lowercase, utf8_decode, str_eq, chars_of, unicode_lower};
use crate::translit::{views as string_views, take_at_most};
use crate::fst_store::{
    keys_ascending, keys_strictly_ascending, set_builder_keys, set_encoding, set_source, set_keys, set_loads,
    set_holds, set_intact, reached_keys, set_builder_memory, set_builder_insert,
    set_builder_finish, set_from_bytes, set_contains, set_len, set_search, set_count,
};
use crate::order::{
    lex_lt, lemma_lex_total, lemma_lex_transitive, lemma_lex_irreflexive, lemma_lex_strict_total,
    strictly_sorted, strict_total_on, listing, ascending, lemma_listing_of, views, sort_dedup_keys,
    RankKey, KeyView, key_lt, key_order, key_views, sort_keys, lemma_key_irreflexive,
    lemma_key_transitive, lemma_key_total, lemma_lex_asymmetric, lemma_listing_exists,
};
use crate::levenshtein::{Levenshtein, MAX_QUERY_CHARS, edit_distance};
use crate::levenshtein_laws::{lemma_accepts_iff_within_budget, lemma_reaches_iff_accepts};
pub use crate::cost::{confusion_cost, weighted_cost};
use crate::cost::correction_cost;

verus! {

broadcast use vstd::seq_lib::group_seq_properties;

/// The key a word is stored under: the UTF-8 bytes of its lowercase.
pub open spec fn word_key(w: Seq<char>) -> Seq<u8> {
    encode_utf8(unicode_lower(w))
}

/// The characters of each word.
pub open spec fn texts(words: Seq<&str>) -> Seq<Seq<char>> {
    words.map_values(|w: &str| w@)
}

/// The keys of a list of words, in order.
pub open spec fn word_keys(words: Seq<Seq<char>>) -> Seq<Seq<u8>> {
    words.map_values(|w: Seq<char>| word_key(w))
}

/// The bytes [`Lexicon::build_from_unsorted`] writes for `words`: the set
/// encoding of their distinct keys in ascending order.
pub open spec fn unsorted_encoding(words: Seq<Seq<char>>) -> Seq<u8> {
    set_encoding(ascending(word_keys(words).to_set()))
}

/// The keys of `keys` that decode to words within `d` edits of `q`.
pub open spec fn near_keys(keys: Set<Seq<u8>>, q: Seq<char>, d: nat) -> Set<Seq<u8>> {
    keys.filter(|k: Seq<u8>| valid_utf8(k) && edit_distance(decode_utf8(k), q) <= d)
}

/// The words of `all` other than `q`, in order.
pub open spec fn others(all: Seq<Seq<char>>, q: Seq<char>) -> Seq<Seq<char>>
    decreases all.len(),
{
    if all.len() == 0 {
        Seq::empty()
    } else {
        let rest = others(all.drop_last(), q);
        if all.last() == q {
            rest
        } else {
            rest.push(all.last())
        }
    }
}

/// What a search for words within `d` edits of `q` yields, in ascending
/// byte order, without `q` itself: at most `cap` of them, and when `cap` is 0
/// only what the first key found gives. No word at all when `q` is empty or
/// longer than [`MAX_QUERY_CHARS`].
pub open spec fn search_hits(keys: Set<Seq<u8>>, q: Seq<char>, d: nat, cap: nat) -> Seq<Seq<char>> {
    if 1 <= q.len() <= MAX_QUERY_CHARS {
        let all = ascending(near_keys(keys, q, d)).map_values(|k: Seq<u8>| decode_utf8(k));
        if cap == 0 {
            others(take_at_most(all, 1), q)
        } else {
            take_at_most(others(all, q), cap as int)
        }
    } else {
        Seq::empty()
    }
}

/// `acc` followed by each word of `more` that is not already there.
pub open spec fn add_new(acc: Seq<Seq<char>>, more: Seq<Seq<char>>) -> Seq<Seq<char>>
    decreases more.len(),
{
    if more.len() == 0 {
        acc
    } else {
        let m = add_new(acc, more.drop_last());
        if m.contains(more.last()) {
            m
        } else {
            m.push(more.last())
        }
    }
}

/// The first character of `s`, if any.
pub open spec fn first_char(s: Seq<char>) -> Option<char> {
    if s.len() > 0 {
        Some(s[0])
    } else {
        None
    }
}

/// How a candidate ranks as a correction of `q`: its correction cost, then
/// whether its first letter differs from the query's, then how far its length
/// is from the query's, then its bytes.
pub open spec fn rank_key(q: Seq<char>, c: Seq<char>) -> KeyView {
    (
        correction_cost(q, c) as int,
        if first_char(c) != first_char(q) {
            1int
        } else {
            0int
        },
        if c.len() >= q.len() {
            c.len() - q.len()
        } else {
            q.len() - c.len()
        },
        encode_utf8(c),
    )
}

/// The rank key of each candidate as a correction of `q`.
pub open spec fn rank_keys(q: Seq<char>) -> spec_fn(Seq<char>) -> KeyView {
    |c: Seq<char>| rank_key(q, c)
}

/// Texts ordered by the keys `kf` gives them.
pub open spec fn keyed_order(kf: spec_fn(Seq<char>) -> KeyView) -> spec_fn(Seq<char>, Seq<char>) -> bool {
    |a: Seq<char>, b: Seq<char>| key_lt(kf(a), kf(b))
}

/// Candidates ordered by their rank key.
pub open spec fn rank_order(q: Seq<char>) -> spec_fn(Seq<char>, Seq<char>) -> bool {
    keyed_order(rank_keys(q))
}

/// The candidates, best first.
pub open spec fn ranked(q: Seq<char>, candidates: Seq<Seq<char>>) -> Seq<Seq<char>> {
    listing(candidates.to_set(), rank_order(q))
}

/// What [`Lexicon::suggest`] returns: the distance-1 hits, then the new
/// distance-2 hits, each search capped at `8 * limit`, ranked, and the first
/// `limit` of them.
pub open spec fn suggestions(keys: Set<Seq<u8>>, word: Seq<char>, limit: nat) -> Seq<Seq<char>> {
    let q = unicode_lower(word);
    if q.len() == 0 {
        Seq::empty()
    } else {
        let pool = add_new(search_hits(keys, q, 1, 8 * limit), search_hits(keys, q, 2, 8 * limit));
        take_at_most(ranked(q, pool), limit as int)
    }
}

/// A compiled Macedonian word list.
pub struct Lexicon {
    set: fst::Set<Vec<u8>>,
}

impl View for Lexicon {
    type V = Set<Seq<u8>>;

    /// The keys the lexicon holds.
    closed spec fn view(&self) -> Set<Seq<u8>> {
        set_keys(self.set)
    }
}

impl Lexicon {
    /// Loaded from bytes that a set builder wrote, so that reads answer for
    /// the keys written.
    pub closed spec fn loaded(&self) -> bool {
        set_intact(self.set)
    }

    /// A loaded lexicon holds finitely many keys.
    pub proof fn lemma_loaded_finite(&self)
        requires
            self.loaded(),
        ensures
            self@.finite(),
    {
        let ks = choose|ks: Seq<Seq<u8>>| set_holds(self.set, ks);
        vstd::seq_lib::seq_to_set_is_finite(ks);
    }

    /// The number of keys the FST's header records; for a loaded lexicon,
    /// the number of keys it holds.
    pub closed spec fn count(&self) -> nat {
        set_count(self.set)
    }

    /// The bytes the lexicon was loaded from.
    pub closed spec fn source(&self) -> Seq<u8> {
        set_source(self.set)
    }

    /// What [`Lexicon::from_bytes`] returns for `bytes`: a lexicon over those
    /// bytes, which holds exactly the keys written whenever a builder wrote
    /// them.
    pub open spec fn loads(bytes: Seq<u8>, r: Result<Lexicon, fst::Error>) -> bool {
        &&& (r is Ok <==> set_loads(bytes))
        &&& (r is Ok ==> r->Ok_0.source() == bytes)
        &&& forall|ks: Seq<Seq<u8>>|
            keys_ascending(ks) && #[trigger] set_encoding(ks) == bytes ==> r is Ok
                && r->Ok_0.loaded() && r->Ok_0@ == ks.to_set()
    }

    /// Load a lexicon from a previously built FST.
    pub fn from_bytes(bytes: Vec<u8>) -> (r: Result<Self, fst::Error>)
        ensures
            Self::loads(bytes@, r),
    {
        match set_from_bytes(bytes) {
            Ok(set) => Ok(Self { set }),
            Err(e) => Err(e),
        }
    }

    /// Build an FST from keys given in ascending order.
    fn build_keys(keys: &Vec<Vec<u8>>) -> (r: Result<Vec<u8>, fst::Error>)
        ensures
            r is Ok <==> keys_ascending(views(keys@)),
            r is Ok ==> r->Ok_0@ == set_encoding(views(keys@)),
    {
        let mut builder = set_builder_memory();
        let mut i: usize = 0;
        while i < keys.len()
            invariant
                0 <= i <= keys@.len(),
                set_builder_keys(builder) == views(keys@).take(i as int),
                keys_ascending(views(keys@).take(i as int)),
            decreases keys.len() - i,
        {
            let ghost ks = views(keys@);
            match set_builder_insert(&mut builder, keys[i].as_slice()) {
                Err(e) => {
                    proof {
                        assert(lex_lt(ks[i as int], ks[i - 1]));
                    }
                    return Err(e);
                },
                Ok(()) => {},
            }
            proof {
                assert(ks.take(i + 1) =~= ks.take(i as int).push(ks[i as int]));
                assert forall|a: int, b: int| 0 <= a < b < i + 1 implies !lex_lt(
                    #[trigger] ks.take(i + 1)[b],
                    #[trigger] ks.take(i + 1)[a],
                ) by {
                    if b == i && a < i - 1 {
                        let t = ks.take(i as int);
                        assert(t[i - 1] == ks[i - 1] && t[a] == ks[a]);
                        assert(!lex_lt(t[i - 1], t[a]));
                        assert(!lex_lt(ks[i as int], ks[i - 1]));
                        lemma_lex_total(ks[i - 1], ks[a]);
                        lemma_lex_total(ks[i as int], ks[i - 1]);
                        if lex_lt(ks[i as int], ks[a]) {
                            if ks[a] != ks[i - 1] {
                                lemma_lex_transitive(ks[i as int], ks[a], ks[i - 1]);
                            }
                        }
                    } else if b < i {
                        assert(ks.take(i + 1)[b] == ks.take(i as int)[b]);
                        assert(ks.take(i + 1)[a] == ks.take(i as int)[a]);
                    }
                }
            }
            i = i + 1;
        }
        proof {
            assert(views(keys@).take(i as int) =~= views(keys@));
        }
        set_builder_finish(builder)
    }

    /// The key of each word: the bytes of its lowercase.
    fn keys_of(words: &[&str]) -> (r: Vec<Vec<u8>>)
        ensures
            views(r@) == word_keys(texts(words@)),
    {
        let mut keys: Vec<Vec<u8>> = Vec::new();
        let mut i: usize = 0;
        while i < words.len()
            invariant
                0 <= i <= words@.len(),
                views(keys@) == word_keys(texts(words@)).take(i as int),
            decreases words.len() - i,
        {
            let lower = to_lowercase(words[i]);
            let key = vstd::slice::slice_to_vec(lower.as_str().as_bytes());
            let ghost old_keys = views(keys@);
            proof {
                assert(key@ == word_key(words@[i as int]@));
                assert(texts(words@)[i as int] == words@[i as int]@);
                assert(word_keys(texts(words@))[i as int] == key@);
            }
            keys.push(key);
            proof {
                assert(views(keys@) =~= old_keys.push(key@));
                assert(word_keys(texts(words@)).take(i + 1) =~= word_keys(texts(words@)).take(
                    i as int,
                ).push(key@));
            }
            i = i + 1;
        }
        proof {
            assert(word_keys(texts(words@)).take(i as int) =~= word_keys(texts(words@)));
        }
        keys
    }

    /// Build an FST from words.
    ///
    /// Words are lowercased and must be supplied in ascending lexicographic
    /// order *after* lowercasing; a word below the one before it is refused.
    /// [`Lexicon::build_from_unsorted`] handles the order for you.
    pub fn build_sorted(words: &[&str]) -> (r: Result<Vec<u8>, fst::Error>)
        ensures
            r is Ok <==> keys_ascending(word_keys(texts(words@))),
            r is Ok ==> r->Ok_0@ == set_encoding(word_keys(texts(words@))),
    {
        let keys = Self::keys_of(words);
        Self::build_keys(&keys)
    }

    /// Sort, deduplicate and lowercase `words`, then build the FST.
    pub fn build_from_unsorted(words: &[&str]) -> (r: Result<Vec<u8>, fst::Error>)
        ensures
            r is Ok,
            r->Ok_0@ == unsorted_encoding(texts(words@)),
            keys_strictly_ascending(ascending(word_keys(texts(words@)).to_set())),
            ascending(word_keys(texts(words@)).to_set()).to_set() == word_keys(
                texts(words@),
            ).to_set(),
    {
        let keys = Self::keys_of(words);
        let sorted = sort_dedup_keys(keys);
        proof {
            let ks = views(sorted@);
            lemma_lex_strict_total(ks.to_set());
            lemma_listing_of(ks, |a: Seq<u8>, b: Seq<u8>| lex_lt(a, b));
            assert forall|a: int, b: int| 0 <= a < b < ks.len() implies !lex_lt(
                #[trigger] ks[b],
                #[trigger] ks[a],
            ) by {
                assert((|x: Seq<u8>, y: Seq<u8>| lex_lt(x, y))(ks[a], ks[b]));
                lemma_lex_asymmetric(ks[a], ks[b]);
            }
            assert forall|a: int, b: int| 0 <= a < b < ks.len() implies lex_lt(
                #[trigger] ks[a],
                #[trigger] ks[b],
            ) by {
                assert((|x: Seq<u8>, y: Seq<u8>| lex_lt(x, y))(ks[a], ks[b]));
            }
        }
        Self::build_keys(&sorted)
    }

    /// Number of words in the lexicon.
    pub fn len(&self) -> (r: usize)
        ensures
            r == self.count(),
            self.loaded() ==> r == self@.len(),
    {
        set_len(&self.set)
    }

    /// True when the lexicon holds no words.
    pub fn is_empty(&self) -> (r: bool)
        ensures
            r == (self.count() == 0),
            self.loaded() ==> r == (self@.len() == 0),
    {
        set_len(&self.set) == 0
    }

    /// Is `word` a known Macedonian form? Case-insensitive.
    ///
    /// The lexicon must have been loaded from bytes a builder wrote: `fst`
    /// can panic walking other bytes.
    pub fn contains(&self, word: &str) -> (r: bool)
        requires
            self.loaded(),
        ensures
            r == self@.contains(word_key(word@)),
    {
        let lower = to_lowercase(word);
        set_contains(&self.set, lower.as_str().as_bytes())
    }

    /// The words within `distance` edits of `query`, in ascending order,
    /// other than `query` itself, stopping once `cap` are found.
    fn search_within(&self, query: &str, distance: u32, cap: usize) -> (r: Vec<String>)
        requires
            self.loaded(),
            distance <= 2,
        ensures
            string_views(r@) == search_hits(self@, query@, distance as nat, cap as nat),
            forall|j: int| 0 <= j < r@.len() ==> edit_distance(#[trigger] r@[j]@, query@) <= distance,
            r@.len() > 0 ==> 1 <= query@.len() <= MAX_QUERY_CHARS,
    {
        let automaton = match Levenshtein::new(query, distance) {
            Some(a) => a,
            None => {
                proof {
                    assert(string_views(Seq::<String>::empty()) =~= Seq::<Seq<char>>::empty());
                }
                return Vec::new();
            },
        };
        let found = set_search(&self.set, &automaton);
        let ghost q = query@;
        let ghost d = distance as nat;
        let ghost near = near_keys(self@, q, d);
        let ghost all = views(found@).map_values(|k: Seq<u8>| decode_utf8(k));
        proof {
            if self.loaded() {
                lemma_found_in_order(self@, automaton, views(found@));
            }
        }
        let mut out: Vec<String> = Vec::new();
        let mut i: usize = 0;
        while i < found.len() && (i == 0 || out.len() < cap)
            invariant
                0 <= i <= found@.len(),
                all == views(found@).map_values(|k: Seq<u8>| decode_utf8(k)),
                q == query@,
                d == distance as nat,
                near == near_keys(self@, q, d),
                self.loaded() ==> views(found@).to_set() == near,
                self.loaded() ==> string_views(out@) == others(all.take(i as int), q),
                forall|j: int| 0 <= j < out@.len() ==> edit_distance(#[trigger] out@[j]@, q) <= d,
                forall|j: int| 0 <= j < found@.len() ==> automaton.reaches(#[trigger] found@[j]@),
                automaton.wf(),
                automaton.query() == q,
                automaton.budget() == d,
                cap > 0 && i > 0 ==> out@.len() <= cap,
                cap == 0 ==> i <= 1,
                out@.len() <= i,
            decreases found.len() - i,
        {
            let ghost before = string_views(out@);
            proof {
                let k = found@[i as int]@;
                lemma_reaches_iff_accepts(automaton, k);
                lemma_accepts_iff_within_budget(automaton, k);
            }
            match utf8_decode(found[i].as_slice()) {
                Ok(s) => {
                    if !str_eq(s, query) {
                        out.push(String::from_str(s));
                    }
                },
                Err(_) => {},
            }
            proof {
                if self.loaded() {
                    let k = views(found@)[i as int];
                    assert(views(found@).to_set().contains(k));
                    assert(near.contains(k));
                    assert(all.take(i + 1).drop_last() =~= all.take(i as int));
                    assert(all.take(i + 1).last() == decode_utf8(k));
                    assert(string_views(out@) =~= others(all.take(i + 1), q));
                }
            }
            i = i + 1;
        }
        proof {
            if self.loaded() {
                lemma_capped_result(all, q, cap as nat, i as int, string_views(out@));
            }
        }
        out
    }

    /// Spelling suggestions for `word`, best first.
    ///
    /// Searches edit distance 1 and 2, merges the hits and ranks them, so a
    /// near-miss never gets buried under more distant candidates while a
    /// transposition (Levenshtein distance 2, one finger-slip) still gets
    /// ranked alongside true distance-1 hits.
    ///
    /// The lexicon must have been loaded from bytes a builder wrote: `fst`
    /// can panic walking other bytes.
    pub fn suggest(&self, word: &str, limit: usize) -> (r: Vec<String>)
        requires
            self.loaded(),
            limit <= usize::MAX / 8,
        ensures
            string_views(r@) == suggestions(self@, word@, limit as nat),
            forall|j: int| 0 <= j < r@.len() ==> #[trigger] r@[j]@.len() <= unicode_lower(word@).len() + 2,
            r@.len() > 0 ==> unicode_lower(word@).len() <= MAX_QUERY_CHARS,
    {
        let query = to_lowercase(word);
        if query.as_str().is_empty() {
            proof {
                assert(string_views(Seq::<String>::empty()) =~= Seq::<Seq<char>>::empty());
            }
            return Vec::new();
        }
        let cap = limit * 8;
        let mut hits = self.search_within(query.as_str(), 1, cap);
        let second = self.search_within(query.as_str(), 2, cap);
        let ghost q = query@;
        let ghost h1 = string_views(hits@);
        let ghost h2 = string_views(second@);
        let mut i: usize = 0;
        while i < second.len()
            invariant
                0 <= i <= second@.len(),
                q == query@,
                h2 == string_views(second@),
                self.loaded() ==> string_views(hits@) == add_new(h1, h2.take(i as int)),
                forall|j: int| 0 <= j < hits@.len() ==> edit_distance(#[trigger] hits@[j]@, q) <= 2,
                forall|j: int| 0 <= j < second@.len() ==> edit_distance(#[trigger] second@[j]@, q) <= 2,
                hits@.len() > 0 ==> 1 <= q.len() <= MAX_QUERY_CHARS,
                second@.len() > 0 ==> 1 <= q.len() <= MAX_QUERY_CHARS,
            decreases second.len() - i,
        {
            if !contains_word(&hits, second[i].as_str()) {
                hits.push(String::from_str(second[i].as_str()));
            }
            proof {
                assert(h2.take(i + 1).drop_last() =~= h2.take(i as int));
                assert(h2.take(i + 1).last() == h2[i as int]);
            }
            i = i + 1;
        }
        proof {
            assert(h2.take(i as int) =~= h2);
            assert forall|j: int| 0 <= j < hits@.len() implies #[trigger] hits@[j]@.len()
                <= q.len() + 2 by {
                lemma_distance_covers_length(hits@[j]@, q);
            }
        }
        let ranked_hits = rank(query.as_str(), &hits);
        let mut out = ranked_hits;
        out.truncate(limit);
        proof {
            assert forall|j: int| 0 <= j < out@.len() implies #[trigger] out@[j]@.len() <= q.len() + 2 by {
                assert(out@[j] == ranked_hits@[j]);
            }
            if self.loaded() {
                let rv = string_views(ranked_hits@);
                if limit <= rv.len() {
                    assert(string_views(out@) =~= rv.take(limit as int));
                } else {
                    assert(string_views(out@) =~= rv);
                }
            }
        }
        out
    }
}

/// What a search with `aut` yields from a loaded lexicon, in the order it
/// yields it, is the ascending listing of the keys near the query.
proof fn lemma_found_in_order(keys: Set<Seq<u8>>, aut: Levenshtein, ks: Seq<Seq<u8>>)
    requires
        aut.wf(),
        keys_strictly_ascending(ks),
        ks.to_set() == reached_keys(keys, aut),
    ensures
        ascending(near_keys(keys, aut.query(), aut.budget())) == ks,
        ks.to_set() == near_keys(keys, aut.query(), aut.budget()),
{
    let near = near_keys(keys, aut.query(), aut.budget());
    assert forall|k: Seq<u8>| #[trigger] ks.to_set().contains(k) <==> near.contains(k) by {
        lemma_reaches_iff_accepts(aut, k);
        lemma_accepts_iff_within_budget(aut, k);
    }
    assert(ks.to_set() =~= near);
    let lt = |a: Seq<u8>, b: Seq<u8>| lex_lt(a, b);
    assert forall|a: int, b: int| 0 <= a < b < ks.len() implies #[trigger] lt(ks[a], ks[b]) by {
        assert(lex_lt(ks[a], ks[b]));
    }
    lemma_lex_strict_total(ks.to_set());
    lemma_listing_of(ks, lt);
}

/// The loop of `search_within` stops with the capped result.
proof fn lemma_capped_result(all: Seq<Seq<char>>, q: Seq<char>, cap: nat, i: int, out: Seq<Seq<char>>)
    requires
        0 <= i <= all.len(),
        out == others(all.take(i), q),
        !(i < all.len() && (i == 0 || out.len() < cap)),
        cap > 0 && i > 0 ==> out.len() <= cap,
        cap == 0 ==> i <= 1,
    ensures
        out == (if cap == 0 {
            others(take_at_most(all, 1), q)
        } else {
            take_at_most(others(all, q), cap as int)
        }),
{
    lemma_others_prefix(all, q, i);
    assert(all.take(all.len() as int) =~= all);
    if cap == 0 {
        if all.len() > 0 {
            assert(i == 1);
        } else {
            assert(all.take(0) =~= all);
        }
    } else if i < all.len() {
        assert(out.len() == cap);
        assert(others(all, q).take(cap as int) =~= others(all.take(i), q));
    }
}

/// Filtering a prefix keeps a prefix of the filtered whole.
proof fn lemma_others_prefix(all: Seq<Seq<char>>, q: Seq<char>, i: int)
    requires
        0 <= i <= all.len(),
    ensures
        others(all.take(i), q).len() <= others(all, q).len(),
        others(all, q).take(others(all.take(i), q).len() as int) == others(all.take(i), q),
    decreases all.len() - i,
{
    if i == all.len() {
        assert(all.take(i) =~= all);
        assert(others(all, q).take(others(all, q).len() as int) =~= others(all, q));
    } else {
        lemma_others_prefix(all.drop_last(), q, i);
        assert(all.drop_last().take(i) =~= all.take(i));
        let a = others(all.take(i), q);
        let m = others(all.drop_last(), q);
        assert(m.take(a.len() as int) == a);
        if all.last() != q {
            assert(m.push(all.last()).take(a.len() as int) =~= m.take(a.len() as int));
        }
    }
}

/// A word within `d` edits of `q` is at most `d` letters longer.
proof fn lemma_distance_covers_length(a: Seq<char>, b: Seq<char>)
    ensures
        edit_distance(a, b) >= a.len() - b.len(),
    decreases a.len() + b.len(),
{
    if a.len() > 0 && b.len() > 0 {
        lemma_distance_covers_length(a.drop_last(), b.drop_last());
        lemma_distance_covers_length(a.drop_last(), b);
        lemma_distance_covers_length(a, b.drop_last());
    }
}

/// Whether `word` is among `words`.
fn contains_word(words: &Vec<String>, word: &str) -> (r: bool)
    ensures
        r == string_views(words@).contains(word@),
{
    let mut i: usize = 0;
    while i < words.len()
        invariant
            0 <= i <= words@.len(),
            forall|k: int| 0 <= k < i ==> words@[k]@ != word@,
        decreases words.len() - i,
    {
        if str_eq(words[i].as_str(), word) {
            proof {
                assert(string_views(words@)[i as int] == word@);
            }
            return true;
        }
        i = i + 1;
    }
    proof {
        if string_views(words@).contains(word@) {
            let k = choose|k: int| 0 <= k < string_views(words@).len() && string_views(words@)[k] == word@;
            assert(words@[k]@ == word@);
        }
    }
    false
}

/// An order by keys that end in a text's bytes orders any set of texts
/// strictly and totally.
pub proof fn lemma_keyed_strict_total(kf: spec_fn(Seq<char>) -> KeyView, s: Set<Seq<char>>)
    requires
        forall|c: Seq<char>| #[trigger] kf(c).3 == encode_utf8(c),
    ensures
        strict_total_on(s, keyed_order(kf)),
{
    let lt = keyed_order(kf);
    assert forall|a: Seq<char>| #[trigger] s.contains(a) implies !lt(a, a) by {
        lemma_key_irreflexive(kf(a));
    }
    assert forall|a: Seq<char>, b: Seq<char>, c: Seq<char>|
        s.contains(a) && s.contains(b) && s.contains(c) && #[trigger] lt(a, b) && #[trigger] lt(
            b,
            c,
        ) implies lt(a, c) by {
        lemma_key_transitive(kf(a), kf(b), kf(c));
    }
    assert forall|a: Seq<char>, b: Seq<char>| s.contains(a) && s.contains(b) && a != b implies #[trigger] lt(
        a,
        b,
    ) || lt(b, a) by {
        encode_utf8_decode_utf8(a);
        encode_utf8_decode_utf8(b);
        assert(kf(a).3 != kf(b).3);
        lemma_key_total(kf(a), kf(b));
    }
}

/// The texts whose keys `keys` holds, in increasing key order: the listing
/// of `cands` under the order of `kf`, given that `keys` are the keys of
/// `cands`.
pub(crate) fn listed_texts(
    keys: &Vec<RankKey>,
    Ghost(cands): Ghost<Seq<Seq<char>>>,
    Ghost(kf): Ghost<spec_fn(Seq<char>) -> KeyView>,
) -> (r: Vec<String>)
    requires
        key_views(keys@) == cands.map_values(kf),
        forall|c: Seq<char>| #[trigger] kf(c).3 == encode_utf8(c),
    ensures
        string_views(r@) == listing(cands.to_set(), keyed_order(kf)),
        string_views(r@).to_set() == cands.to_set(),
{
    let sorted = sort_keys(keys);
    let ghost kset = key_views(keys@).to_set();
    let mut out: Vec<String> = Vec::new();
    let mut j: usize = 0;
    while j < sorted.len()
        invariant
            0 <= j <= sorted@.len(),
            kset == key_views(keys@).to_set(),
            key_views(sorted@).to_set() == kset,
            key_views(keys@) == cands.map_values(kf),
            forall|c: Seq<char>| #[trigger] kf(c).3 == encode_utf8(c),
            string_views(out@) == key_views(sorted@).take(j as int).map_values(
                |k: KeyView| decode_utf8(k.3),
            ),
        decreases sorted.len() - j,
    {
        let ghost kv = sorted@[j as int]@;
        proof {
            assert(key_views(sorted@)[j as int] == kv);
            assert(kset.contains(kv));
            let m = choose|m: int| 0 <= m < key_views(keys@).len() && key_views(keys@)[m] == kv;
            assert(kv.3 == encode_utf8(cands[m]));
            encode_utf8_valid_utf8(cands[m]);
        }
        let ghost old_out = string_views(out@);
        proof {
            assert(sorted@[j as int].text@ == kv.3);
        }
        match utf8_decode(sorted[j].text.as_slice()) {
            Ok(s) => {
                out.push(String::from_str(s));
            },
            Err(_) => {},
        }
        proof {
            assert(string_views(out@) =~= old_out.push(decode_utf8(kv.3)));
            assert(key_views(sorted@).take(j + 1) =~= key_views(sorted@).take(j as int).push(kv));
            assert(string_views(out@) =~= key_views(sorted@).take(j + 1).map_values(
                |k: KeyView| decode_utf8(k.3),
            ));
        }
        j = j + 1;
    }
    proof {
        let sv = key_views(sorted@);
        let m = string_views(out@);
        assert(sv.take(j as int) =~= sv);
        assert forall|a: int| 0 <= a < m.len() implies kf(#[trigger] m[a]) == sv[a] by {
            assert(kset.contains(sv[a]));
            let t = choose|t: int| 0 <= t < key_views(keys@).len() && key_views(keys@)[t] == sv[a];
            assert(sv[a].3 == encode_utf8(cands[t]));
            encode_utf8_decode_utf8(cands[t]);
        }
        let lt = keyed_order(kf);
        assert forall|a: int, b: int| 0 <= a < b < m.len() implies #[trigger] lt(m[a], m[b]) by {
            assert(key_order()(sv[a], sv[b]));
            assert(kf(m[a]) == sv[a]);
            assert(kf(m[b]) == sv[b]);
        }
        assert forall|w: Seq<char>| m.to_set().contains(w) <==> cands.to_set().contains(w) by {
            if m.to_set().contains(w) {
                let a = choose|a: int| 0 <= a < m.len() && m[a] == w;
                assert(kset.contains(sv[a]));
                let t = choose|t: int| 0 <= t < key_views(keys@).len() && key_views(keys@)[t] == sv[a];
                assert(sv[a].3 == encode_utf8(cands[t]));
                encode_utf8_decode_utf8(cands[t]);
                assert(cands[t] == w);
            }
            if cands.to_set().contains(w) {
                let t = choose|t: int| 0 <= t < cands.len() && cands[t] == w;
                assert(key_views(keys@)[t] == kf(w));
                assert(key_views(keys@).to_set().contains(kf(w)));
                let a = choose|a: int| 0 <= a < sv.len() && sv[a] == kf(w);
                assert(sv[a].3 == encode_utf8(w));
                encode_utf8_decode_utf8(w);
                assert(m[a] == w);
            }
        }
        assert(m.to_set() =~= cands.to_set());
        lemma_keyed_strict_total(kf, m.to_set());
        lemma_listing_of(m, lt);
    }
    out
}

/// The rank key of one candidate.
fn rank_key_of(qchars: &Vec<char>, candidate: &str) -> (r: RankKey)
    requires
        qchars@.len() <= MAX_QUERY_CHARS,
        candidate@.len() <= qchars@.len() + 2,
    ensures
        r@ == rank_key(qchars@, candidate@),
{
    let cchars = chars_of(candidate);
    let cost = weighted_cost(qchars.as_slice(), cchars.as_slice());
    let same_first = if cchars.len() == 0 || qchars.len() == 0 {
        cchars.len() == qchars.len()
    } else {
        cchars[0] == qchars[0]
    };
    let delta = if cchars.len() >= qchars.len() {
        cchars.len() - qchars.len()
    } else {
        qchars.len() - cchars.len()
    };
    let text = vstd::slice::slice_to_vec(candidate.as_bytes());
    RankKey {
        first: cost as u64,
        second: if same_first {
            0
        } else {
            1
        },
        third: delta as u64,
        text,
    }
}

/// Order candidates so the most plausible correction comes first.
///
/// Typing errors preserve the first letter far more often than not, and a
/// correction close in length is likelier than a much longer or shorter word.
/// Confusable Macedonian letters (к/ќ, е/ѐ) sort before distant ones.
fn rank(query: &str, candidates: &Vec<String>) -> (r: Vec<String>)
    requires
        candidates@.len() > 0 ==> query@.len() <= MAX_QUERY_CHARS,
        forall|j: int| 0 <= j < candidates@.len() ==> #[trigger] candidates@[j]@.len() <= query@.len() + 2,
    ensures
        string_views(r@) == ranked(query@, string_views(candidates@)),
        forall|j: int| 0 <= j < r@.len() ==> #[trigger] r@[j]@.len() <= query@.len() + 2,
        r@.len() > 0 ==> candidates@.len() > 0,
{
    let ghost q = query@;
    let ghost cands = string_views(candidates@);
    let qchars = chars_of(query);
    let mut keys: Vec<RankKey> = Vec::new();
    let mut i: usize = 0;
    while i < candidates.len()
        invariant
            0 <= i <= candidates@.len(),
            qchars@ == q,
            q == query@,
            cands == string_views(candidates@),
            candidates@.len() > 0 ==> q.len() <= MAX_QUERY_CHARS,
            forall|j: int| 0 <= j < candidates@.len() ==> #[trigger] candidates@[j]@.len() <= q.len() + 2,
            key_views(keys@) == cands.take(i as int).map_values(rank_keys(q)),
        decreases candidates.len() - i,
    {
        let k = rank_key_of(&qchars, candidates[i].as_str());
        let ghost old_keys = key_views(keys@);
        keys.push(k);
        proof {
            assert(cands[i as int] == candidates@[i as int]@);
            assert(key_views(keys@) =~= old_keys.push(k@));
            assert(cands.take(i + 1) =~= cands.take(i as int).push(cands[i as int]));
            assert(key_views(keys@) =~= cands.take(i + 1).map_values(rank_keys(q)));
        }
        i = i + 1;
    }
    proof {
        assert(cands.take(i as int) =~= cands);
        assert(key_views(keys@) =~= cands.map_values(rank_keys(q)));
    }
    let out = listed_texts(&keys, Ghost(cands), Ghost(rank_keys(q)));
    proof {
        let m = string_views(out@);
        assert forall|j: int| 0 <= j < out@.len() implies #[trigger] out@[j]@.len() <= q.len() + 2 by {
            assert(m[j] == out@[j]@);
            assert(m.to_set().contains(m[j]));
            let t = choose|t: int| 0 <= t < cands.len() && cands[t] == m[j];
            assert(cands[t] == candidates@[t]@);
        }
        if out@.len() > 0 {
            assert(m.to_set().contains(m[0]));
        }
    }
    out
}

/// The byte strings of a finite set in ascending order are strictly
/// ascending and hold exactly that set.
pub proof fn lemma_ascending_listing(s: Set<Seq<u8>>)
    requires
        s.finite(),
    ensures
        keys_strictly_ascending(ascending(s)),
        keys_ascending(ascending(s)),
        ascending(s).to_set() == s,
{
    let lt = |a: Seq<u8>, b: Seq<u8>| lex_lt(a, b);
    lemma_lex_strict_total(s);
    lemma_listing_exists(s, lt);
    let ks = ascending(s);
    assert forall|a: int, b: int| 0 <= a < b < ks.len() implies lex_lt(#[trigger] ks[a], #[trigger] ks[b]) by {
        assert(lt(ks[a], ks[b]));
    }
    assert forall|a: int, b: int| 0 <= a < b < ks.len() implies !lex_lt(#[trigger] ks[b], #[trigger] ks[a]) by {
        assert(lt(ks[a], ks[b]));
        lemma_lex_asymmetric(ks[a], ks[b]);
    }
}

/// Law: a lexicon loaded from what [`Lexicon::build_from_unsorted`] writes
/// for `words` loads, and holds exactly the keys of those words: their
/// lowercase, as UTF-8, each once.
pub proof fn lemma_lexicon_round_trip(words: Seq<Seq<char>>, r: Result<Lexicon, fst::Error>)
    requires
        Lexicon::loads(unsorted_encoding(words), r),
    ensures
        r is Ok,
        r->Ok_0.loaded(),
        r->Ok_0@ == word_keys(words).to_set(),
        forall|i: int| 0 <= i < words.len() ==> r->Ok_0@.contains(#[trigger] word_key(words[i])),
{
    let set = word_keys(words).to_set();
    let ks = ascending(set);
    lemma_ascending_listing(set);
    assert(set_encoding(ks) == unsorted_encoding(words));
    assert forall|i: int| 0 <= i < words.len() implies r->Ok_0@.contains(#[trigger] word_key(words[i])) by {
        assert(word_keys(words)[i] == word_key(words[i]));
    }
}

/// A word that may be offered for `q`: the lexicon holds it, it is within
/// two edits of `q`, and it is not `q` itself.
pub open spec fn offerable(keys: Set<Seq<u8>>, q: Seq<char>, w: Seq<char>) -> bool {
    &&& keys.contains(encode_utf8(w))
    &&& edit_distance(w, q) <= 2
    &&& w != q
}

/// The words `others` keeps are words of `all` other than `q`.
proof fn lemma_others_members(all: Seq<Seq<char>>, q: Seq<char>)
    ensures
        forall|k: int| 0 <= k < others(all, q).len() ==> #[trigger] others(all, q)[k] != q && all.contains(
            others(all, q)[k],
        ),
    decreases all.len(),
{
    if all.len() > 0 {
        lemma_others_members(all.drop_last(), q);
        let rest = others(all.drop_last(), q);
        assert forall|k: int| 0 <= k < rest.len() implies all.contains(#[trigger] rest[k]) by {
            let j = choose|j: int| 0 <= j < all.drop_last().len() && all.drop_last()[j] == rest[k];
            assert(all[j] == rest[k]);
        }
        assert(all[all.len() - 1] == all.last());
    }
}

/// The words `add_new` keeps come from one list or the other.
proof fn lemma_add_new_members(acc: Seq<Seq<char>>, more: Seq<Seq<char>>, p: spec_fn(Seq<char>) -> bool)
    requires
        forall|k: int| 0 <= k < acc.len() ==> #[trigger] p(acc[k]),
        forall|k: int| 0 <= k < more.len() ==> #[trigger] p(more[k]),
    ensures
        forall|k: int| 0 <= k < add_new(acc, more).len() ==> #[trigger] p(add_new(acc, more)[k]),
    decreases more.len(),
{
    if more.len() > 0 {
        assert forall|k: int| 0 <= k < more.drop_last().len() implies #[trigger] p(more.drop_last()[k]) by {
            assert(more.drop_last()[k] == more[k]);
        }
        lemma_add_new_members(acc, more.drop_last(), p);
        let m = add_new(acc, more.drop_last());
        let x = more.last();
        assert(p(more[more.len() - 1]));
        if !m.contains(x) {
            assert forall|k: int| 0 <= k < m.push(x).len() implies #[trigger] p(m.push(x)[k]) by {
                if k < m.len() {
                    assert(m.push(x)[k] == m[k]);
                }
            }
        }
    }
}

/// Every hit of a search within `d <= 2` edits may be offered.
proof fn lemma_search_hits_offerable(keys: Set<Seq<u8>>, q: Seq<char>, d: nat, cap: nat)
    requires
        keys.finite(),
        d <= 2,
    ensures
        forall|k: int| 0 <= k < search_hits(keys, q, d, cap).len() ==> #[trigger] offerable(
            keys,
            q,
            search_hits(keys, q, d, cap)[k],
        ),
{
    if 1 <= q.len() <= MAX_QUERY_CHARS {
        let near = near_keys(keys, q, d);
        keys.lemma_len_filter(|k: Seq<u8>| valid_utf8(k) && edit_distance(decode_utf8(k), q) <= d);
        lemma_ascending_listing(near);
        let asc = ascending(near);
        let all = asc.map_values(|k: Seq<u8>| decode_utf8(k));
        assert forall|k: int| 0 <= k < all.len() implies #[trigger] keys.contains(encode_utf8(all[k]))
            && edit_distance(all[k], q) <= 2 by {
            assert(asc.to_set().contains(asc[k]));
            assert(near.contains(asc[k]));
            decode_utf8_encode_utf8(asc[k]);
        }
        let firsts = take_at_most(all, 1);
        let picked = if cap == 0 {
            others(firsts, q)
        } else {
            take_at_most(others(all, q), cap as int)
        };
        lemma_others_members(all, q);
        lemma_others_members(firsts, q);
        assert forall|k: int| 0 <= k < picked.len() implies #[trigger] offerable(keys, q, picked[k]) by {
            if cap == 0 {
                let j = choose|j: int| 0 <= j < firsts.len() && firsts[j] == picked[k];
                assert(all[j] == picked[k]);
            } else {
                let o = others(all, q);
                assert(picked[k] == o[k]);
                let j = choose|j: int| 0 <= j < all.len() && all[j] == o[k];
            }
        }
    }
}

/// Law: every spelling suggestion is a word the lexicon holds, within two
/// edits of the lowercased query, and never the query itself; suggestions
/// are never invented. They come best first, each once: strictly ascending
/// in rank, so a nearer candidate never comes after a more distant one. At
/// most `limit` are offered, and none for an empty word.
pub proof fn lemma_suggestions_are_offerable(keys: Set<Seq<u8>>, word: Seq<char>, limit: nat)
    requires
        keys.finite(),
    ensures
        forall|k: int| 0 <= k < suggestions(keys, word, limit).len() ==> #[trigger] offerable(
            keys,
            unicode_lower(word),
            suggestions(keys, word, limit)[k],
        ),
        strictly_sorted(suggestions(keys, word, limit), rank_order(unicode_lower(word))),
        forall|i: int, j: int|
            0 <= i < j < suggestions(keys, word, limit).len() ==> correction_cost(
                unicode_lower(word),
                #[trigger] suggestions(keys, word, limit)[i],
            ) <= correction_cost(unicode_lower(word), #[trigger] suggestions(keys, word, limit)[j]),
        suggestions(keys, word, limit).len() <= limit,
        suggestions(keys, word, limit).no_duplicates(),
        unicode_lower(word).len() == 0 ==> suggestions(keys, word, limit).len() == 0,
{
    let q = unicode_lower(word);
    if q.len() > 0 {
        let h1 = search_hits(keys, q, 1, 8 * limit);
        let h2 = search_hits(keys, q, 2, 8 * limit);
        lemma_search_hits_offerable(keys, q, 1, 8 * limit);
        lemma_search_hits_offerable(keys, q, 2, 8 * limit);
        let p = |w: Seq<char>| offerable(keys, q, w);
        assert forall|k: int| 0 <= k < h1.len() implies #[trigger] p(h1[k]) by {
            assert(offerable(keys, q, h1[k]));
        }
        assert forall|k: int| 0 <= k < h2.len() implies #[trigger] p(h2[k]) by {
            assert(offerable(keys, q, h2[k]));
        }
        lemma_add_new_members(h1, h2, p);
        let pool = add_new(h1, h2);
        lemma_keyed_strict_total(rank_keys(q), pool.to_set());
        lemma_listing_exists(pool.to_set(), rank_order(q));
        let r = ranked(q, pool);
        let out = take_at_most(r, limit as int);
        assert forall|k: int| 0 <= k < out.len() implies #[trigger] offerable(keys, q, out[k]) by {
            assert(out[k] == r[k]);
            assert(r.to_set().contains(r[k]));
            let j = choose|j: int| 0 <= j < pool.len() && pool[j] == r[k];
            assert(p(pool[j]));
        }
        let lt = rank_order(q);
        assert forall|a: int, b: int| 0 <= a < b < out.len() implies #[trigger] lt(out[a], out[b]) by {
            assert(out[a] == r[a] && out[b] == r[b]);
            assert(lt(r[a], r[b]));
        }
        assert forall|a: int, b: int| 0 <= a < b < out.len() implies correction_cost(q, #[trigger] out[a])
            <= correction_cost(q, #[trigger] out[b]) by {
            assert(lt(out[a], out[b]));
            assert(key_lt(rank_key(q, out[a]), rank_key(q, out[b])));
        }
        assert forall|a: int, b: int| 0 <= a < out.len() && 0 <= b < out.len() && a != b implies out[a] != out[b] by {
            let (x, y) = if a < b { (a, b) } else { (b, a) };
            assert(lt(out[x], out[y]));
            lemma_key_irreflexive(rank_key(q, out[x]));
        }
    }
}

} // verus!
