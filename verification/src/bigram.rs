//! Bigram counts: (previous word, word) → occurrences in Wikipedia.
//! Built offline like the frequency table; optional at runtime.
//!
//! Format: `MKBIGR01`, a `u32` count, then per entry a `u16` byte length and
//! the UTF-8 bytes of the previous word, the same for the word, and a `u32`
//! count; integers little-endian. Keys are lowercased on the way in; lookup
//! lowercases its inputs.
//!
//! The table is a map from word pairs to counts. It is held as a hash map
//! from a pair's key (the previous word's length in two characters, then both
//! words) to its count, beside the list of distinct pairs that the
//! completion scan walks.

use vstd::prelude::*;
use vstd::hash_map::StringHashMap;
use vstd::utf8::{valid_utf8, decode_utf8, encode_utf8, encode_utf8_valid_utf8, encode_utf8_decode_utf8, decode_utf8_encode_utf8};
use crate::codec::{
    le16, le32, u16_bytes, u32_bytes, low16, low32, text_field, lemma_le16, lemma_le32, read_u16,
    read_u32, read_text, push_u32, push_text, TextRead, lemma_text_field, lemma_le16_bytes,
    lemma_le32_bytes,
};
use crate::text::{utf8_error_text, to_lowercase, unicode_lower, chars_of, str_eq, push_char, utf8_decode};
use crate::frequency::{starts_with_magic, prepend};
use crate::translit::take_at_most;
use crate::order::{lex_lt, lemma_listing_exists};
use crate::order::{
    RankKey, KeyView, key_lt, key_order, key_views, sort_keys, listing, strictly_sorted,
    strict_total_on, lemma_listing_of, lemma_key_irreflexive, lemma_key_transitive, lemma_key_total,
};

verus! {

broadcast use vstd::seq_lib::group_seq_properties;

/// A word pair and its count.
pub type PairCount = (Seq<char>, Seq<char>, u32);

/// The first eight bytes of a bigram table: `MKBIGR01` in ASCII.
pub open spec fn bigram_magic() -> Seq<u8> {
    seq![0x4Du8, 0x4B, 0x42, 0x49, 0x47, 0x52, 0x30, 0x31]
}

/// The bytes of one entry.
pub open spec fn bigram_record(e: PairCount) -> Seq<u8> {
    text_field(e.0) + text_field(e.1) + u32_bytes(e.2)
}

/// The bytes of a run of entries, in order.
pub open spec fn bigram_records(es: Seq<PairCount>) -> Seq<u8>
    decreases es.len(),
{
    if es.len() == 0 {
        Seq::empty()
    } else {
        bigram_records(es.drop_last()) + bigram_record(es.last())
    }
}

/// Each pair lowercased.
pub open spec fn lowered(es: Seq<PairCount>) -> Seq<PairCount> {
    es.map_values(|e: PairCount| (unicode_lower(e.0), unicode_lower(e.1), e.2))
}

/// Both words of every entry fit a 16-bit byte length.
pub open spec fn pair_lengths_fit(es: Seq<PairCount>) -> bool {
    forall|i: int|
        0 <= i < es.len() ==> encode_utf8(#[trigger] es[i].0).len() <= 0xFFFF && encode_utf8(
            es[i].1,
        ).len() <= 0xFFFF
}

/// What [`Bigram::build`] returns for `es`: the table of the lowercased
/// entries, or the message refusing them.
pub open spec fn bigram_build(es: Seq<PairCount>) -> Result<Seq<u8>, Seq<char>> {
    if es.len() > u32::MAX {
        Err("too many entries"@)
    } else if !pair_lengths_fit(lowered(es)) {
        Err("word over u16::MAX bytes"@)
    } else {
        Ok(bigram_magic() + u32_bytes(es.len() as u32) + bigram_records(lowered(es)))
    }
}

/// A whole table: the magic, the number of entries, then their records.
pub open spec fn bigram_file(es: Seq<PairCount>) -> Seq<u8> {
    bigram_magic() + u32_bytes(es.len() as u32) + bigram_records(es)
}

/// The `n` entries starting at `pos` and the position after them, or the
/// message of the first problem.
pub open spec fn bigram_entries(b: Seq<u8>, pos: int, n: nat) -> Result<(Seq<PairCount>, int), Seq<char>>
    decreases n,
{
    if n == 0 {
        Ok((Seq::empty(), pos))
    } else if pos + 2 > b.len() {
        Err("truncated"@)
    } else {
        let la = le16(b, pos);
        let sa = pos + 2;
        if sa + la > b.len() {
            Err("truncated"@)
        } else if !valid_utf8(b.subrange(sa, sa + la)) {
            Err(utf8_error_text(b.subrange(sa, sa + la)))
        } else if sa + la + 2 > b.len() {
            Err("truncated"@)
        } else {
            let lb = le16(b, sa + la);
            let sb = sa + la + 2;
            if sb + lb > b.len() {
                Err("truncated"@)
            } else if !valid_utf8(b.subrange(sb, sb + lb)) {
                Err(utf8_error_text(b.subrange(sb, sb + lb)))
            } else if sb + lb + 4 > b.len() {
                Err("truncated"@)
            } else {
                let entry = (
                    decode_utf8(b.subrange(sa, sa + la)),
                    decode_utf8(b.subrange(sb, sb + lb)),
                    le32(b, sb + lb) as u32,
                );
                match bigram_entries(b, sb + lb + 4, (n - 1) as nat) {
                    Ok(rest) => Ok((seq![entry] + rest.0, rest.1)),
                    Err(m) => Err(m),
                }
            }
        }
    }
}

/// What [`Bigram::from_bytes`] reads from `b`: its entries, or the message of
/// the first problem, trailing bytes included.
pub open spec fn bigram_parse(b: Seq<u8>) -> Result<Seq<PairCount>, Seq<char>> {
    if b.len() < 8 || b.take(8) != bigram_magic() {
        Err("not a bigram file"@)
    } else if b.len() < 12 {
        Err("truncated"@)
    } else {
        match bigram_entries(b, 12, le32(b, 8)) {
            Ok(parsed) => if parsed.1 != b.len() {
                Err("trailing bytes"@)
            } else {
                Ok(parsed.0)
            },
            Err(m) => Err(m),
        }
    }
}

/// Entries as a map; a later entry for the same pair replaces an earlier one.
pub open spec fn pair_counts(es: Seq<PairCount>) -> Map<(Seq<char>, Seq<char>), u32>
    decreases es.len(),
{
    if es.len() == 0 {
        Map::empty()
    } else {
        pair_counts(es.drop_last()).insert((es.last().0, es.last().1), es.last().2)
    }
}

/// The characters and count of each entry.
pub open spec fn pair_views(entries: Seq<(&str, &str, u32)>) -> Seq<PairCount> {
    entries.map_values(|e: (&str, &str, u32)| (e.0@, e.1@, e.2))
}

/// The character standing for `v`, a value below 256.
pub open spec fn small_char(v: nat) -> char {
    (v as u8) as char
}

/// The hash key of a pair: the previous word's length in two characters
/// (high and low byte), then both words.
pub open spec fn pair_key(prev: Seq<char>, word: Seq<char>) -> Seq<char> {
    seq![small_char(prev.len() / 256), small_char(prev.len() % 256)] + prev + word
}

/// Different pairs with short first words have different keys.
proof fn lemma_pair_key_injective(p1: Seq<char>, w1: Seq<char>, p2: Seq<char>, w2: Seq<char>)
    requires
        p1.len() < 65536,
        p2.len() < 65536,
        pair_key(p1, w1) == pair_key(p2, w2),
    ensures
        p1 == p2,
        w1 == w2,
{
    let k1 = pair_key(p1, w1);
    let k2 = pair_key(p2, w2);
    assert(k1[0] == k2[0] && k1[1] == k2[1]);
    let h1 = (p1.len() / 256) as u8;
    let h2 = (p2.len() / 256) as u8;
    let l1 = (p1.len() % 256) as u8;
    let l2 = (p2.len() % 256) as u8;
    assert((h1 as char) == (h2 as char));
    assert((l1 as char) == (l2 as char));
    assert(((h1 as char) as u32) == h1 as u32);
    assert(((h2 as char) as u32) == h2 as u32);
    assert(((l1 as char) as u32) == l1 as u32);
    assert(((l2 as char) as u32) == l2 as u32);
    assert(p1.len() == p2.len());
    assert(p1 =~= k1.subrange(2, 2 + p1.len() as int));
    assert(p2 =~= k2.subrange(2, 2 + p2.len() as int));
    assert(w1 =~= k1.subrange(2 + p1.len() as int, k1.len() as int));
    assert(w2 =~= k2.subrange(2 + p2.len() as int, k2.len() as int));
}

/// A word has at least as many bytes as characters.
proof fn lemma_chars_within_bytes(s: Seq<char>)
    ensures
        s.len() <= encode_utf8(s).len(),
    decreases s.len(),
{
    if s.len() > 0 {
        lemma_chars_within_bytes(s.drop_first());
        vstd::utf8::encode_utf8_first_scalar(s);
    }
}

/// The pairs seen, each once, and a hash map from each pair's key to its
/// count.
struct PairTable {
    counts: StringHashMap<u32>,
    pairs: Vec<(String, String)>,
}

/// The characters of each pair.
pub open spec fn pair_list(pairs: Seq<(String, String)>) -> Seq<(Seq<char>, Seq<char>)> {
    pairs.map_values(|p: (String, String)| (p.0@, p.1@))
}

impl PairTable {
    /// The pairs are distinct, their first words short enough for their keys
    /// to differ, and the hash map holds a count for exactly their keys.
    spec fn wf(&self) -> bool {
        let ps = pair_list(self.pairs@);
        &&& forall|i: int| 0 <= i < ps.len() ==> (#[trigger] ps[i]).0.len() < 65536
        &&& ps.no_duplicates()
        &&& forall|k: Seq<char>|
            #[trigger] self.counts@.contains_key(k) <==> exists|i: int|
                0 <= i < ps.len() && k == pair_key(ps[i].0, ps[i].1)
    }

    /// The count of each pair.
    spec fn counts_view(&self) -> Map<(Seq<char>, Seq<char>), u32> {
        Map::new(
            |k: (Seq<char>, Seq<char>)| pair_list(self.pairs@).contains(k),
            |k: (Seq<char>, Seq<char>)| self.counts@[pair_key(k.0, k.1)],
        )
    }
}

/// Bigram counts: (previous word, word) → occurrences.
pub struct Bigram {
    table: PairTable,
}

impl Bigram {
    #[verifier::type_invariant]
    spec fn inv(&self) -> bool {
        self.table.wf()
    }
}

impl View for Bigram {
    type V = Map<(Seq<char>, Seq<char>), u32>;

    closed spec fn view(&self) -> Map<(Seq<char>, Seq<char>), u32> {
        self.table.counts_view()
    }
}

impl PairTable {
    /// Record `count` for the pair, replacing an earlier count.
    fn record(&mut self, prev: String, word: String, count: u32)
        requires
            prev@.len() < 65536,
            old(self).wf(),
        ensures
            final(self).wf(),
            final(self).counts_view() == old(self).counts_view().insert((prev@, word@), count),
    {
        let key = make_pair_key(prev.as_str(), word.as_str());
        let ghost ps = pair_list(self.pairs@);
        let known = self.counts.contains_key(key.as_str());
        proof {
            if known {
                let i = choose|i: int| 0 <= i < ps.len() && key@ == pair_key(ps[i].0, ps[i].1);
                lemma_pair_key_injective(ps[i].0, ps[i].1, prev@, word@);
                assert(ps.contains((prev@, word@)));
            } else {
                assert(!ps.contains((prev@, word@))) by {
                    if ps.contains((prev@, word@)) {
                        let i = choose|i: int| 0 <= i < ps.len() && ps[i] == (prev@, word@);
                        assert(self.counts@.contains_key(pair_key(ps[i].0, ps[i].1)));
                    }
                }
            }
        }
        let ghost old_counts = self.counts@;
        self.counts.insert(key, count);
        if !known {
            self.pairs.push((prev, word));
        }
        let ghost counts = self.counts;
        proof {
            let nps = pair_list(self.pairs@);
            if !known {
                assert(nps =~= ps.push((prev@, word@)));
            } else {
                assert(nps =~= ps);
            }
            assert forall|i: int| 0 <= i < nps.len() implies (#[trigger] nps[i]).0.len() < 65536 by {
                if i < ps.len() {
                    assert(nps[i] == ps[i]);
                }
            }
            assert forall|k: Seq<char>| #[trigger] counts@.contains_key(k) <==> exists|i: int|
                0 <= i < nps.len() && k == pair_key(nps[i].0, nps[i].1) by {
                if k == key@ {
                    if !known {
                        assert(nps[ps.len() as int] == (prev@, word@));
                    } else {
                        let i = choose|i: int| 0 <= i < ps.len() && ps[i] == (prev@, word@);
                        assert(nps[i] == ps[i]);
                    }
                } else if old_counts.contains_key(k) {
                    let i = choose|i: int| 0 <= i < ps.len() && k == pair_key(ps[i].0, ps[i].1);
                    assert(nps[i] == ps[i]);
                } else if exists|i: int| 0 <= i < nps.len() && k == pair_key(nps[i].0, nps[i].1) {
                    let i = choose|i: int| 0 <= i < nps.len() && k == pair_key(nps[i].0, nps[i].1);
                    if i < ps.len() {
                        assert(nps[i] == ps[i]);
                    }
                }
            }
        }
        proof {
            let nps = pair_list(self.pairs@);
            assert forall|k: (Seq<char>, Seq<char>)| #[trigger] nps.contains(k) implies k.0.len()
                < 65536 by {
                let i = choose|i: int| 0 <= i < nps.len() && nps[i] == k;
                assert(nps[i].0.len() < 65536);
            }
            assert forall|k: (Seq<char>, Seq<char>)| nps.contains(k) && k != (prev@, word@) implies #[trigger] self.counts@[pair_key(
                k.0,
                k.1,
            )] == old(self).counts@[pair_key(k.0, k.1)] by {
                if pair_key(k.0, k.1) == key@ {
                    lemma_pair_key_injective(k.0, k.1, prev@, word@);
                }
            }
            assert(self.counts_view() =~= old(self).counts_view().insert((prev@, word@), count));
        }
    }

}

/// The bytes `MKBIGR01`.
fn bigram_magic_bytes() -> (r: Vec<u8>)
    ensures
        r@ == bigram_magic(),
{
    let r: Vec<u8> = vec![0x4Du8, 0x4B, 0x42, 0x49, 0x47, 0x52, 0x30, 0x31];
    proof {
        assert(r@ =~= bigram_magic());
    }
    r
}

/// The hash key of a pair whose first word is short.
fn make_pair_key(prev: &str, word: &str) -> (r: String)
    requires
        prev@.len() < 65536,
    ensures
        r@ == pair_key(prev@, word@),
{
    let n = chars_of(prev).len();
    let hi: u8 = (n / 256) as u8;
    let lo: u8 = (n % 256) as u8;
    let mut key = String::new();
    push_char(&mut key, hi as char);
    push_char(&mut key, lo as char);
    key.append(prev);
    key.append(word);
    proof {
        assert(key@ =~= pair_key(prev@, word@));
    }
    key
}

/// A completion seen after a word, and its count.
pub type Completion = (Seq<char>, u32);

/// The completions of `prefix` seen after `prev` in `m`.
pub open spec fn completions(m: Map<(Seq<char>, Seq<char>), u32>, prev: Seq<char>, prefix: Seq<char>) -> Set<Completion> {
    Set::new(
        |e: Completion| m.contains_key((prev, e.0)) && m[(prev, e.0)] == e.1 && prefix.is_prefix_of(e.0),
    )
}

/// How a completion ranks: higher count first, then by bytes.
pub open spec fn completion_key(e: Completion) -> KeyView {
    (u32::MAX - e.1, 0, 0, encode_utf8(e.0))
}

/// Completions ordered by their rank key.
pub open spec fn completion_order() -> spec_fn(Completion, Completion) -> bool {
    |a: Completion, b: Completion| key_lt(completion_key(a), completion_key(b))
}

/// What [`Bigram::top_next`] returns: the completions of `prefix` after
/// `prev`, most frequent first, ties by word, at most `limit`.
pub open spec fn top_completions(m: Map<(Seq<char>, Seq<char>), u32>, prev: Seq<char>, prefix: Seq<char>, limit: nat) -> Seq<Completion> {
    take_at_most(listing(completions(m, prev, prefix), completion_order()), limit as int)
}

/// The characters and count of each completion.
pub open spec fn completion_views(v: Seq<(String, u32)>) -> Seq<Completion> {
    v.map_values(|e: (String, u32)| (e.0@, e.1))
}

/// Whether `s` starts with the characters of `prefix`.
fn starts_with_chars(s: &Vec<char>, prefix: &Vec<char>) -> (r: bool)
    ensures
        r == prefix@.is_prefix_of(s@),
{
    if prefix.len() > s.len() {
        return false;
    }
    let mut i: usize = 0;
    while i < prefix.len()
        invariant
            0 <= i <= prefix@.len(),
            prefix@.len() <= s@.len(),
            forall|k: int| 0 <= k < i ==> prefix@[k] == s@[k],
        decreases prefix.len() - i,
    {
        if prefix[i] != s[i] {
            return false;
        }
        i = i + 1;
    }
    proof {
        assert(prefix@ =~= s@.subrange(0, prefix@.len() as int));
    }
    true
}

impl Bigram {
    /// Serialise entries. Format: b"MKBIGR01" + u32 count +
    /// (u16 len + utf8 prev + u16 len + utf8 word + u32 count)*.
    /// Keys are lowercased on the way in; lookup lowercases its inputs.
    /// Words over u16::MAX bytes are rejected rather than wrapped.
    pub fn build(entries: &[(&str, &str, u32)]) -> (r: Result<Vec<u8>, String>)
        ensures
            match bigram_build(pair_views(entries@)) {
                Ok(b) => r is Ok && r->Ok_0@ == b,
                Err(m) => r is Err && r->Err_0@ == m,
            },
    {
        let ghost es = pair_views(entries@);
        let ghost les = lowered(es);
        if entries.len() as u64 > 4294967295u64 {
            return Err(String::from_str("too many entries"));
        }
        let mut out = bigram_magic_bytes();
        push_u32(&mut out, entries.len() as u32);
        proof {
            assert(out@ =~= bigram_magic() + u32_bytes(es.len() as u32) + bigram_records(les.take(0)));
        }
        let mut i: usize = 0;
        while i < entries.len()
            invariant
                0 <= i <= entries@.len(),
                entries@.len() <= u32::MAX,
                es == pair_views(entries@),
                les == lowered(es),
                pair_lengths_fit(les.take(i as int)),
                out@ == bigram_magic() + u32_bytes(es.len() as u32) + bigram_records(les.take(i as int)),
            decreases entries.len() - i,
        {
            let (a0, b0, c) = entries[i];
            let a = to_lowercase(a0);
            let b = to_lowercase(b0);
            proof {
                assert(les[i as int] == (a@, b@, c));
            }
            if a.as_str().as_bytes().len() > 65535 || b.as_str().as_bytes().len() > 65535 {
                proof {
                    assert(les[i as int].0 == a@ && les[i as int].1 == b@);
                    assert(!(encode_utf8(les[i as int].0).len() <= 0xFFFF && encode_utf8(
                        les[i as int].1,
                    ).len() <= 0xFFFF));
                }
                return Err(String::from_str("word over u16::MAX bytes"));
            }
            push_text(&mut out, a.as_str());
            push_text(&mut out, b.as_str());
            push_u32(&mut out, c);
            proof {
                assert(les.take(i + 1).drop_last() =~= les.take(i as int));
                assert(les.take(i + 1).last() == (a@, b@, c));
                assert(out@ =~= bigram_magic() + u32_bytes(es.len() as u32) + bigram_records(
                    les.take(i + 1),
                ));
                assert forall|k: int| 0 <= k < i + 1 implies encode_utf8(
                    #[trigger] les.take(i + 1)[k].0,
                ).len() <= 0xFFFF && encode_utf8(les.take(i + 1)[k].1).len() <= 0xFFFF by {
                    if k < i {
                        assert(les.take(i + 1)[k] == les.take(i as int)[k]);
                        assert(encode_utf8(les.take(i as int)[k].0).len() <= 0xFFFF);
                    } else {
                        assert(les.take(i + 1)[k] == (a@, b@, c));
                        assert(encode_utf8(a@).len() <= 0xFFFF);
                        assert(encode_utf8(b@).len() <= 0xFFFF);
                    }
                }
            }
            i = i + 1;
        }
        proof {
            assert(les.take(i as int) =~= les);
        }
        Ok(out)
    }

    /// Load a table written by [`Bigram::build`].
    pub fn from_bytes(bytes: &[u8]) -> (r: Result<Self, String>)
        ensures
            match bigram_parse(bytes@) {
                Ok(es) => r is Ok && r->Ok_0@ == pair_counts(es),
                Err(m) => r is Err && r->Err_0@ == m,
            },
    {
        let magic = bigram_magic_bytes();
        if !starts_with_magic(bytes, &magic) {
            return Err(String::from_str("not a bigram file"));
        }
        let n = match read_u32(bytes, 8) {
            Some(n) => n,
            None => {
                return Err(String::from_str("truncated"));
            },
        };
        let ghost b = bytes@;
        let total = bytes.len();
        let mut pos: usize = 12;
        let mut table = PairTable { counts: StringHashMap::new(), pairs: Vec::new() };
        proof {
            assert(table.counts_view() =~= pair_counts(Seq::empty()));
            assert(pair_list(table.pairs@) =~= Seq::<(Seq<char>, Seq<char>)>::empty());
        }
        let ghost mut done: Seq<PairCount> = Seq::empty();
        let mut i: u32 = 0;
        while i < n
            invariant
                b == bytes@,
                total == b.len(),
                0 <= i <= n,
                n == le32(b, 8),
                b.len() >= 12,
                b.take(8) == bigram_magic(),
                12 <= pos <= b.len(),
                bigram_entries(b, 12, n as nat) == prepend_pairs(done, bigram_entries(b, pos as int, (n - i) as nat)),
                table.wf(),
                table.counts_view() == pair_counts(done),
            decreases n - i,
        {
            let la_read = read_u16(bytes, pos);
            if la_read.is_none() {
                return Err(String::from_str("truncated"));
            }
            let la = la_read.unwrap();
            assert(pos + 2 <= total);
            let sa = pos + 2;
            let a = match read_text(bytes, sa, la as usize) {
                TextRead::Truncated => {
                    return Err(String::from_str("truncated"));
                },
                TextRead::Invalid(m) => {
                    return Err(m);
                },
                TextRead::Text(s) => s,
            };
            assert(sa + la <= total);
            let lb_read = read_u16(bytes, sa + la as usize);
            if lb_read.is_none() {
                return Err(String::from_str("truncated"));
            }
            let lb = lb_read.unwrap();
            assert(sa + la + 2 <= total);
            let sb = sa + la as usize + 2;
            let w = match read_text(bytes, sb, lb as usize) {
                TextRead::Truncated => {
                    return Err(String::from_str("truncated"));
                },
                TextRead::Invalid(m) => {
                    return Err(m);
                },
                TextRead::Text(s) => s,
            };
            assert(sb + lb <= total);
            let after = sb + lb as usize;
            let count = match read_u32(bytes, after) {
                Some(c) => c,
                None => {
                    return Err(String::from_str("truncated"));
                },
            };
            proof {
                let field = b.subrange(sa as int, sa + la);
                decode_utf8_encode_utf8(field);
                lemma_chars_within_bytes(a@);
                let entry = (a@, w@, count);
                let rest = bigram_entries(b, after + 4, (n - i - 1) as nat);
                match rest {
                    Ok(rs) => {
                        assert(done.push(entry) + rs.0 =~= done + (seq![entry] + rs.0));
                    },
                    Err(_) => {},
                }
                assert(pair_counts(done.push(entry)) == pair_counts(done).insert((a@, w@), count)) by {
                    assert(done.push(entry).drop_last() =~= done);
                }
                done = done.push(entry);
            }
            table.record(a, w, count);
            pos = after + 4;
            i = i + 1;
        }
        if pos != bytes.len() {
            return Err(String::from_str("trailing bytes"));
        }
        proof {
            assert(done + Seq::<PairCount>::empty() =~= done);
        }
        Ok(Bigram { table })
    }

    /// Count for the pair, 0 when unseen. Case-insensitive.
    pub fn get(&self, prev: &str, word: &str) -> (r: u32)
        ensures
            r == (if self@.contains_key((unicode_lower(prev@), unicode_lower(word@))) {
                self@[(unicode_lower(prev@), unicode_lower(word@))]
            } else {
                0
            }),
    {
        proof {
            use_type_invariant(self);
        }
        let p = to_lowercase(prev);
        let w = to_lowercase(word);
        let ghost ps = pair_list(self.table.pairs@);
        if chars_of(p.as_str()).len() >= 65536 {
            proof {
                if ps.contains((p@, w@)) {
                    let i = choose|i: int| 0 <= i < ps.len() && ps[i] == (p@, w@);
                    assert(ps[i].0.len() < 65536);
                }
            }
            return 0;
        }
        let key = make_pair_key(p.as_str(), w.as_str());
        proof {
            if self.table.counts@.contains_key(key@) {
                let i = choose|i: int| 0 <= i < ps.len() && key@ == pair_key(ps[i].0, ps[i].1);
                lemma_pair_key_injective(ps[i].0, ps[i].1, p@, w@);
                assert(ps.contains((p@, w@)));
            }
            if ps.contains((p@, w@)) {
                let i = choose|i: int| 0 <= i < ps.len() && ps[i] == (p@, w@);
                assert(self.table.counts@.contains_key(pair_key(ps[i].0, ps[i].1)));
            }
        }
        match self.table.counts.get(key.as_str()) {
            Some(c) => *c,
            None => 0,
        }
    }

    /// Top completions of `prefix` seen after `prev`, most frequent first.
    pub fn top_next(&self, prev: &str, prefix: &str, limit: usize) -> (r: Vec<(String, u32)>)
        ensures
            completion_views(r@) == top_completions(
                self@,
                unicode_lower(prev@),
                unicode_lower(prefix@),
                limit as nat,
            ),
    {
        proof {
            use_type_invariant(self);
        }
        let p = to_lowercase(prev);
        let pre = to_lowercase(prefix);
        let pchars = chars_of(pre.as_str());
        let ghost ps = pair_list(self.table.pairs@);
        let ghost m = self@;
        let ghost hits = completions(m, p@, pre@);
        let mut keys: Vec<RankKey> = Vec::new();
        let mut i: usize = 0;
        while i < self.table.pairs.len()
            invariant
                0 <= i <= self.table.pairs@.len(),
                ps == pair_list(self.table.pairs@),
                m == self@,
                self.table.wf(),
                pchars@ == pre@,
                hits == completions(m, p@, pre@),
                forall|k: KeyView| key_views(keys@).to_set().contains(k) <==> exists|j: int|
                    0 <= j < i && ps[j].0 == p@ && pre@.is_prefix_of(ps[j].1) && k
                        == completion_key((ps[j].1, m[ps[j]])),
            decreases self.table.pairs.len() - i,
        {
            let ghost old_keys = key_views(keys@);
            let pair = &self.table.pairs[i];
            if str_eq(pair.0.as_str(), p.as_str()) {
                let wchars = chars_of(pair.1.as_str());
                if starts_with_chars(&wchars, &pchars) {
                    proof {
                        assert(ps[i as int] == (pair.0@, pair.1@));
                        assert(ps[i as int].0.len() < 65536);
                        assert(self.table.counts@.contains_key(pair_key(ps[i as int].0, ps[i as int].1)));
                    }
                    let key = make_pair_key(pair.0.as_str(), pair.1.as_str());
                    let count = match self.table.counts.get(key.as_str()) {
                        Some(c) => *c,
                        None => 0,
                    };
                    let text = vstd::slice::slice_to_vec(pair.1.as_str().as_bytes());
                    keys.push(RankKey { first: (4294967295u32 - count) as u64, second: 0, third: 0, text });
                    proof {
                        assert(ps.contains(ps[i as int]));
                        assert(m[ps[i as int]] == count);
                        assert(key_views(keys@) =~= old_keys.push(completion_key((pair.1@, count))));
                        old_keys.lemma_push_to_set_commute(completion_key((pair.1@, count)));
                    }
                }
            }
            i = i + 1;
        }
        let sorted = sort_keys(&keys);
        let mut out: Vec<(String, u32)> = Vec::new();
        let mut j: usize = 0;
        while j < sorted.len()
            invariant
                0 <= j <= sorted@.len(),
                key_views(sorted@).to_set() == key_views(keys@).to_set(),
                forall|k: KeyView| key_views(keys@).to_set().contains(k) ==> exists|c: Completion|
                    #[trigger] completion_key(c) == k,
                completion_views(out@) == key_views(sorted@).take(j as int).map_values(
                    |k: KeyView| (decode_utf8(k.3), (u32::MAX - k.0) as u32),
                ),
            decreases sorted.len() - j,
        {
            let ghost kv = sorted@[j as int]@;
            let ghost old_out = completion_views(out@);
            proof {
                assert(key_views(sorted@)[j as int] == kv);
                assert(key_views(keys@).to_set().contains(kv));
                let c = choose|c: Completion| #[trigger] completion_key(c) == kv;
                encode_utf8_valid_utf8(c.0);
                assert(sorted@[j as int].text@ == kv.3);
            }
            match utf8_decode(sorted[j].text.as_slice()) {
                Ok(s) => {
                    let count = (4294967295u64 - sorted[j].first) as u32;
                    out.push((String::from_str(s), count));
                },
                Err(_) => {},
            }
            proof {
                assert(completion_views(out@) =~= old_out.push((decode_utf8(kv.3), (u32::MAX - kv.0) as u32)));
                assert(key_views(sorted@).take(j + 1) =~= key_views(sorted@).take(j as int).push(kv));
            }
            j = j + 1;
        }
        let ghost all = completion_views(out@);
        proof {
            lemma_completions_listed(m, p@, pre@, ps, key_views(keys@), key_views(sorted@), all);
        }
        out.truncate(limit);
        proof {
            if limit <= all.len() {
                assert(completion_views(out@) =~= all.take(limit as int));
            } else {
                assert(completion_views(out@) =~= all);
            }
        }
        out
    }
}

/// `done` before what `rest` reads, or the message `rest` stopped with.
pub open spec fn prepend_pairs(done: Seq<PairCount>, rest: Result<(Seq<PairCount>, int), Seq<char>>) -> Result<(Seq<PairCount>, int), Seq<char>> {
    match rest {
        Ok(rs) => Ok((done + rs.0, rs.1)),
        Err(m) => Err(m),
    }
}

/// A completion is recovered from its rank key.
proof fn lemma_completion_key_inverse(c: Completion)
    ensures
        decode_utf8(completion_key(c).3) == c.0,
        (u32::MAX - completion_key(c).0) as u32 == c.1,
{
    encode_utf8_decode_utf8(c.0);
}

/// The sorted keys of the completions, turned back into completions, list the
/// completions in order.
proof fn lemma_completions_listed(
    m: Map<(Seq<char>, Seq<char>), u32>,
    p: Seq<char>,
    pre: Seq<char>,
    ps: Seq<(Seq<char>, Seq<char>)>,
    keys: Seq<KeyView>,
    sorted: Seq<KeyView>,
    all: Seq<Completion>,
)
    requires
        forall|k: (Seq<char>, Seq<char>)| m.contains_key(k) <==> ps.contains(k),
        forall|k: KeyView| keys.to_set().contains(k) <==> exists|j: int|
            0 <= j < ps.len() && ps[j].0 == p && pre.is_prefix_of(ps[j].1) && k == completion_key(
                (ps[j].1, m[ps[j]]),
            ),
        strictly_sorted(sorted, key_order()),
        sorted.to_set() == keys.to_set(),
        all == sorted.map_values(|k: KeyView| (decode_utf8(k.3), (u32::MAX - k.0) as u32)),
    ensures
        all == listing(completions(m, p, pre), completion_order()),
{
    let hits = completions(m, p, pre);
    assert forall|a: int| 0 <= a < all.len() implies completion_key(#[trigger] all[a]) == sorted[a] && hits.contains(all[a]) by {
        assert(keys.to_set().contains(sorted[a]));
        let j = choose|j: int|
            0 <= j < ps.len() && ps[j].0 == p && pre.is_prefix_of(ps[j].1) && sorted[a]
                == completion_key((ps[j].1, m[ps[j]]));
        lemma_completion_key_inverse((ps[j].1, m[ps[j]]));
        assert(all[a] == (ps[j].1, m[ps[j]]));
        assert(ps.contains(ps[j]));
        assert(m.contains_key((p, ps[j].1)));
    }
    let lt = completion_order();
    assert forall|a: int, b: int| 0 <= a < b < all.len() implies #[trigger] lt(all[a], all[b]) by {
        assert(key_order()(sorted[a], sorted[b]));
    }
    assert forall|c: Completion| all.to_set().contains(c) <==> hits.contains(c) by {
        if hits.contains(c) {
            let k = (p, c.0);
            assert(ps.contains(k));
            let j = choose|j: int| 0 <= j < ps.len() && ps[j] == k;
            assert(keys.to_set().contains(completion_key(c)));
            let a = choose|a: int| 0 <= a < sorted.len() && sorted[a] == completion_key(c);
            lemma_completion_key_inverse(c);
            assert(all[a] == c);
        }
    }
    assert(all.to_set() =~= hits);
    assert(strict_total_on(hits, lt)) by {
        assert forall|a: Completion| #[trigger] hits.contains(a) implies !lt(a, a) by {
            lemma_key_irreflexive(completion_key(a));
        }
        assert forall|a: Completion, b: Completion, c: Completion|
            hits.contains(a) && hits.contains(b) && hits.contains(c) && #[trigger] lt(a, b)
                && #[trigger] lt(b, c) implies lt(a, c) by {
            lemma_key_transitive(completion_key(a), completion_key(b), completion_key(c));
        }
        assert forall|a: Completion, b: Completion|
            hits.contains(a) && hits.contains(b) && a != b implies #[trigger] lt(a, b) || lt(b, a) by {
            lemma_completion_key_inverse(a);
            lemma_completion_key_inverse(b);
            lemma_key_total(completion_key(a), completion_key(b));
        }
    }
    lemma_listing_of(all, lt);
}

/// The bytes of a run of entries, first entry first.
proof fn lemma_records_front(es: Seq<PairCount>)
    requires
        es.len() > 0,
    ensures
        bigram_records(es) == bigram_record(es[0]) + bigram_records(es.drop_first()),
    decreases es.len(),
{
    if es.len() == 1 {
        assert(es.drop_first() =~= Seq::<PairCount>::empty());
        assert(bigram_records(es.drop_last()) =~= Seq::<u8>::empty());
        assert(bigram_records(es.drop_first()) =~= Seq::<u8>::empty());
        assert(es.last() == es[0]);
        assert(bigram_records(es) =~= bigram_record(es[0]));
    } else {
        lemma_records_front(es.drop_last());
        assert(es.drop_last().drop_first() =~= es.drop_first().drop_last());
        assert(es.drop_first().last() == es.last());
        assert(bigram_records(es) =~= bigram_record(es[0]) + bigram_records(es.drop_first()));
    }
}

/// One record written for `e` reads back as `e`, and reading goes on after
/// it.
proof fn lemma_record_fields(b: Seq<u8>, p: int, e: PairCount, n: nat)
    requires
        0 <= p,
        n >= 1,
        encode_utf8(e.0).len() <= 0xFFFF,
        encode_utf8(e.1).len() <= 0xFFFF,
        p + bigram_record(e).len() <= b.len(),
        b.subrange(p, p + bigram_record(e).len()) == bigram_record(e),
    ensures
        bigram_entries(b, p, n) == prepend_pairs(
            seq![e],
            bigram_entries(b, p + bigram_record(e).len(), (n - 1) as nat),
        ),
{
    let r = bigram_record(e);
    let fa = text_field(e.0);
    let fb = text_field(e.1);
    let q = p + fa.len();
    let t = q + fb.len();
    let w = b.subrange(p, p + r.len());
    assert(w =~= fa + fb + u32_bytes(e.2));
    assert(b.subrange(p, q) =~= w.subrange(0, fa.len() as int));
    assert(w.subrange(0, fa.len() as int) =~= fa);
    assert(b.subrange(q, t) =~= w.subrange(fa.len() as int, (fa.len() + fb.len()) as int));
    assert(w.subrange(fa.len() as int, (fa.len() + fb.len()) as int) =~= fb);
    assert(b.subrange(t, t + 4) =~= w.subrange((fa.len() + fb.len()) as int, r.len() as int));
    assert(w.subrange((fa.len() + fb.len()) as int, r.len() as int) =~= u32_bytes(e.2));
    lemma_text_field(b, p, e.0);
    lemma_text_field(b, q, e.1);
    lemma_le32(e.2, b, t);
    match bigram_entries(b, p + r.len(), (n - 1) as nat) {
        Ok(rest) => {},
        Err(m) => {},
    }
}

/// The records written for `es`, read back between other bytes.
proof fn lemma_parse_records(pre: Seq<u8>, es: Seq<PairCount>, post: Seq<u8>)
    requires
        pair_lengths_fit(es),
    ensures
        bigram_entries(pre + bigram_records(es) + post, pre.len() as int, es.len()) == Ok::<
            (Seq<PairCount>, int),
            Seq<char>,
        >((es, (pre.len() + bigram_records(es).len()) as int)),
    decreases es.len(),
{
    if es.len() == 0 {
        assert(es =~= Seq::<PairCount>::empty());
    } else {
        let b = pre + bigram_records(es) + post;
        let e = es[0];
        let rest = es.drop_first();
        lemma_records_front(es);
        let p = pre.len() as int;
        let pre2 = pre + bigram_record(e);
        assert(b =~= pre2 + bigram_records(rest) + post);
        assert(b.subrange(p, p + bigram_record(e).len()) =~= bigram_record(e));
        lemma_record_fields(b, p, e, es.len());
        assert forall|i: int| 0 <= i < rest.len() implies encode_utf8(#[trigger] rest[i].0).len()
            <= 0xFFFF && encode_utf8(rest[i].1).len() <= 0xFFFF by {
            assert(rest[i] == es[i + 1]);
        }
        lemma_parse_records(pre2, rest, post);
        assert(seq![e] + rest =~= es);
    }
}

/// Law: reading back what [`Bigram::build`] wrote gives the lowercased
/// entries written.
pub proof fn lemma_bigram_round_trip(es: Seq<PairCount>)
    requires
        bigram_build(es) is Ok,
    ensures
        bigram_parse(bigram_build(es)->Ok_0) == Ok::<Seq<PairCount>, Seq<char>>(lowered(es)),
{
    let les = lowered(es);
    let b = bigram_build(es)->Ok_0;
    let pre = bigram_magic() + u32_bytes(es.len() as u32);
    assert(b =~= pre + bigram_records(les) + Seq::<u8>::empty());
    assert(b.take(8) =~= bigram_magic());
    assert(b.subrange(8, 12) =~= u32_bytes(es.len() as u32));
    lemma_le32(es.len() as u32, b, 8);
    assert(les.len() == es.len());
    lemma_parse_records(pre, les, Seq::<u8>::empty());
}

impl Bigram {
    /// A table holds finitely many pairs.
    pub proof fn lemma_finite(&self)
        ensures
            self@.dom().finite(),
    {
        let l = pair_list(self.table.pairs@);
        assert(self@.dom() =~= l.to_set());
        vstd::seq_lib::seq_to_set_is_finite(l);
    }
}

/// Completion `a` ranks before `b`: a higher count, or the same count and a
/// word that sorts first by its bytes.
pub open spec fn ranks_before(a: Completion, b: Completion) -> bool {
    a.1 > b.1 || (a.1 == b.1 && lex_lt(encode_utf8(a.0), encode_utf8(b.0)))
}

/// Law: the completions offered after `prev` are pairs the table holds,
/// with their counts, whose word starts with `prefix`; at most `limit` of
/// them, each ranking before the next (more frequent first, ties by word);
/// and every completion left out ranks after all those offered, which
/// happens only when `limit` of them are offered.
pub proof fn lemma_top_completions(
    m: Map<(Seq<char>, Seq<char>), u32>,
    prev: Seq<char>,
    prefix: Seq<char>,
    limit: nat,
)
    requires
        m.dom().finite(),
    ensures
        ({
            let t = top_completions(m, prev, prefix, limit);
            &&& t.len() <= limit
            &&& forall|k: int|
                0 <= k < t.len() ==> m.contains_key((prev, (#[trigger] t[k]).0)) && m[(prev, t[k].0)] == t[k].1
                    && prefix.is_prefix_of(t[k].0)
            &&& forall|i: int, j: int| 0 <= i < j < t.len() ==> ranks_before(#[trigger] t[i], #[trigger] t[j])
            &&& forall|w: Seq<char>|
                m.contains_key((prev, w)) && prefix.is_prefix_of(w) && !#[trigger] t.contains((w, m[(prev, w)]))
                    ==> t.len() == limit && forall|k: int| 0 <= k < t.len() ==> ranks_before(t[k], (w, m[(prev, w)]))
        }),
{
    let hits = completions(m, prev, prefix);
    let f = |k: (Seq<char>, Seq<char>)| (k.1, m[k]);
    let big = m.dom().map(f);
    m.dom().lemma_map_finite(f);
    assert(hits.subset_of(big)) by {
        assert forall|c: Completion| hits.contains(c) implies big.contains(c) by {
            assert(m.dom().contains((prev, c.0)));
            assert(f((prev, c.0)) == c);
        }
    }
    vstd::set_lib::lemma_set_subset_finite(big, hits);
    let lt = completion_order();
    assert(strict_total_on(hits, lt)) by {
        assert forall|a: Completion| #[trigger] hits.contains(a) implies !lt(a, a) by {
            lemma_key_irreflexive(completion_key(a));
        }
        assert forall|a: Completion, b: Completion, c: Completion|
            hits.contains(a) && hits.contains(b) && hits.contains(c) && #[trigger] lt(a, b)
                && #[trigger] lt(b, c) implies lt(a, c) by {
            lemma_key_transitive(completion_key(a), completion_key(b), completion_key(c));
        }
        assert forall|a: Completion, b: Completion|
            hits.contains(a) && hits.contains(b) && a != b implies #[trigger] lt(a, b) || lt(b, a) by {
            lemma_completion_key_inverse(a);
            lemma_completion_key_inverse(b);
            lemma_key_total(completion_key(a), completion_key(b));
        }
    }
    lemma_listing_exists(hits, lt);
    let l = listing(hits, lt);
    let t = top_completions(m, prev, prefix, limit);
    assert forall|a: Completion, b: Completion| lt(a, b) implies ranks_before(a, b) by {
        lemma_completion_key_inverse(a);
        lemma_completion_key_inverse(b);
    }
    assert forall|k: int| 0 <= k < t.len() implies m.contains_key((prev, (#[trigger] t[k]).0)) && m[(prev, t[k].0)]
        == t[k].1 && prefix.is_prefix_of(t[k].0) by {
        assert(t[k] == l[k]);
        assert(l.to_set().contains(l[k]));
    }
    assert forall|i: int, j: int| 0 <= i < j < t.len() implies ranks_before(#[trigger] t[i], #[trigger] t[j]) by {
        assert(t[i] == l[i] && t[j] == l[j]);
        assert(lt(l[i], l[j]));
    }
    assert forall|w: Seq<char>|
        m.contains_key((prev, w)) && prefix.is_prefix_of(w) && !#[trigger] t.contains((w, m[(prev, w)]))
            implies t.len() == limit && forall|k: int| 0 <= k < t.len() ==> ranks_before(t[k], (w, m[(prev, w)])) by {
        let e = (w, m[(prev, w)]);
        assert(hits.contains(e));
        assert(l.to_set().contains(e));
        let p = choose|p: int| 0 <= p < l.len() && l[p] == e;
        if l.len() <= limit {
            assert(t == l);
            assert(t[p] == e);
        } else {
            if p < limit {
                assert(t[p] == e);
            }
            assert forall|k: int| 0 <= k < t.len() implies ranks_before(t[k], e) by {
                assert(t[k] == l[k]);
                assert(lt(l[k], l[p]));
            }
        }
    }
}

/// The record read at `pos`: its two words and count, and where it ends.
pub open spec fn record_at(b: Seq<u8>, pos: int) -> (PairCount, int) {
    let la = le16(b, pos) as int;
    let sa = pos + 2;
    let lb = le16(b, sa + la) as int;
    let sb = sa + la + 2;
    (
        (decode_utf8(b.subrange(sa, sa + la)), decode_utf8(b.subrange(sb, sb + lb)), le32(b, sb + lb) as u32),
        sb + lb + 4,
    )
}

/// A record that reads well is the bytes written for what it reads as.
#[verifier::spinoff_prover]
#[verifier::rlimit(40)]
proof fn lemma_record_exact(b: Seq<u8>, pos: int)
    requires
        0 <= pos,
        pos + 2 <= b.len(),
        ({
            let la = le16(b, pos) as int;
            let sa = pos + 2;
            &&& sa + la + 2 <= b.len()
            &&& valid_utf8(b.subrange(sa, sa + la))
            &&& {
                let lb = le16(b, sa + la) as int;
                let sb = sa + la + 2;
                &&& sb + lb + 4 <= b.len()
                &&& valid_utf8(b.subrange(sb, sb + lb))
            }
        }),
    ensures
        b.subrange(pos, record_at(b, pos).1) == bigram_record(record_at(b, pos).0),
        encode_utf8(record_at(b, pos).0.0).len() <= 0xFFFF,
        encode_utf8(record_at(b, pos).0.1).len() <= 0xFFFF,
{
    let la = le16(b, pos) as int;
    let sa = pos + 2;
    let lb = le16(b, sa + la) as int;
    let sb = sa + la + 2;
    let xa = b.subrange(sa, sa + la);
    let xb = b.subrange(sb, sb + lb);
    let e = record_at(b, pos).0;
    decode_utf8_encode_utf8(xa);
    decode_utf8_encode_utf8(xb);
    lemma_le16_bytes(b, pos);
    lemma_le16_bytes(b, sa + la);
    lemma_le32_bytes(b, sb + lb);
    assert(encode_utf8(e.0) == xa);
    assert(encode_utf8(e.1) == xb);
    assert(low16(xa.len()) == la);
    assert(low16(xb.len()) == lb);
    assert(b.subrange(pos, sb + lb + 4) =~= text_field(e.0) + text_field(e.1) + u32_bytes(e.2));
}

/// What reading `n` entries from `pos` accepts is exactly the records of the
/// entries read, words no longer than a length field holds.
#[verifier::spinoff_prover]
#[verifier::rlimit(40)]
proof fn lemma_entries_exact(b: Seq<u8>, pos: int, n: nat)
    requires
        0 <= pos <= b.len(),
    ensures
        bigram_entries(b, pos, n) matches Ok(r) ==> {
            &&& r.0.len() == n
            &&& pos <= r.1 <= b.len()
            &&& b.subrange(pos, r.1) == bigram_records(r.0)
            &&& pair_lengths_fit(r.0)
        },
    decreases n,
{
    if n == 0 {
        if pos <= b.len() {
            assert(b.subrange(pos, pos) =~= Seq::<u8>::empty());
        }
        match bigram_entries(b, pos, n) {
            Ok(r) => {
                assert(r.0 =~= Seq::<PairCount>::empty());
                assert(bigram_records(r.0) =~= Seq::<u8>::empty());
            },
            Err(_) => {},
        }
    } else {
        match bigram_entries(b, pos, n) {
            Ok(r) => {
                let (e, next) = record_at(b, pos);
                lemma_record_exact(b, pos);
                lemma_entries_exact(b, next, (n - 1) as nat);
                let rest = bigram_entries(b, next, (n - 1) as nat)->Ok_0;
                assert(r.0 == seq![e] + rest.0);
                assert(r.1 == rest.1);
                lemma_records_front(r.0);
                assert(r.0[0] == e);
                assert(r.0.drop_first() =~= rest.0);
                assert(b.subrange(pos, r.1) =~= b.subrange(pos, next) + b.subrange(next, r.1));
                assert forall|i: int| 0 <= i < r.0.len() implies encode_utf8(#[trigger] r.0[i].0).len() <= 0xFFFF
                    && encode_utf8(r.0[i].1).len() <= 0xFFFF by {
                    if i > 0 {
                        assert(r.0[i] == rest.0[i - 1]);
                    }
                }
            },
            Err(_) => {},
        }
    }
}

/// What loads is a whole table of the entries read.
#[verifier::spinoff_prover]
#[verifier::rlimit(40)]
proof fn lemma_parse_is_file(b: Seq<u8>)
    requires
        bigram_parse(b) is Ok,
    ensures
        b == bigram_file(bigram_parse(b)->Ok_0),
        pair_lengths_fit(bigram_parse(b)->Ok_0),
        bigram_parse(b)->Ok_0.len() <= u32::MAX,
{
    let n = le32(b, 8);
    lemma_entries_exact(b, 12, n);
    let r = bigram_entries(b, 12, n)->Ok_0;
    lemma_le32_bytes(b, 8);
    assert(r.0.len() == n);
    assert(b =~= b.take(8) + b.subrange(8, 12) + b.subrange(12, r.1));
    assert(b == bigram_file(r.0));
}

/// A whole table of entries that fit loads, as those entries.
#[verifier::spinoff_prover]
#[verifier::rlimit(40)]
proof fn lemma_file_parses(es: Seq<PairCount>)
    requires
        pair_lengths_fit(es),
        es.len() <= u32::MAX,
    ensures
        bigram_parse(bigram_file(es)) == Ok::<Seq<PairCount>, Seq<char>>(es),
{
    let b = bigram_file(es);
    let pre = bigram_magic() + u32_bytes(es.len() as u32);
    assert(b =~= pre + bigram_records(es) + Seq::<u8>::empty());
    assert(b.take(8) =~= bigram_magic());
    assert(b.subrange(8, 12) =~= u32_bytes(es.len() as u32));
    lemma_le32(es.len() as u32, b, 8);
    lemma_parse_records(pre, es, Seq::<u8>::empty());
}

/// Law: a bigram table loads exactly when its bytes are the magic, an entry
/// count, and that many records (each word's length and UTF-8 bytes, then
/// the count), with nothing after; and then it holds the entries written.
pub proof fn lemma_bigram_parse_exact(b: Seq<u8>)
    ensures
        bigram_parse(b) is Ok <==> exists|es: Seq<PairCount>|
            pair_lengths_fit(es) && es.len() <= u32::MAX && b == #[trigger] bigram_file(es),
        bigram_parse(b) matches Ok(es) ==> b == bigram_file(es),
{
    if bigram_parse(b) is Ok {
        lemma_parse_is_file(b);
        let es = bigram_parse(b)->Ok_0;
        assert(pair_lengths_fit(es) && es.len() <= u32::MAX && b == bigram_file(es));
    }
    if exists|es: Seq<PairCount>| pair_lengths_fit(es) && es.len() <= u32::MAX && b == #[trigger] bigram_file(es) {
        let es = choose|es: Seq<PairCount>| pair_lengths_fit(es) && es.len() <= u32::MAX && b == #[trigger] bigram_file(es);
        lemma_file_parses(es);
    }
}

} // verus!
