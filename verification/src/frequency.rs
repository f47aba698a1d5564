//! Word → count table, built offline from Wikipedia. Optional at runtime.
//!
//! Format: `MKFREQ01`, a `u32` count, then per entry a `u16` byte length, the
//! word's UTF-8 bytes and a `u32` count; integers little-endian.

use vstd::prelude::*;
use vstd::hash_map::StringHashMap;
use vstd::utf8::{valid_utf8, decode_utf8, encode_utf8, encode_utf8_valid_utf8, encode_utf8_decode_utf8};
use crate::codec::{
    le16, le32, u16_bytes, u32_bytes, low16, low32, text_field, lemma_le16, lemma_le32, read_u16,
    read_u32, read_text, push_u32, push_text, push_bytes, TextRead, lemma_text_field,
};
use crate::text::utf8_error_text;

verus! {

broadcast use vstd::seq_lib::group_seq_properties;

/// The first eight bytes of a frequency table: `MKFREQ01` in ASCII.
pub open spec fn freq_magic() -> Seq<u8> {
    seq![0x4Du8, 0x4B, 0x46, 0x52, 0x45, 0x51, 0x30, 0x31]
}

/// The message for a buffer that is not a frequency table.
pub open spec fn not_freq_message() -> Seq<char> {
    "not a freq file"@
}

/// The message for a buffer that ends inside an entry.
pub open spec fn truncated_message() -> Seq<char> {
    "truncated"@
}

/// The bytes of one entry.
pub open spec fn freq_record(e: (Seq<char>, u32)) -> Seq<u8> {
    text_field(e.0) + u32_bytes(e.1)
}

/// The bytes of a run of entries, in order.
pub open spec fn freq_records(es: Seq<(Seq<char>, u32)>) -> Seq<u8>
    decreases es.len(),
{
    if es.len() == 0 {
        Seq::empty()
    } else {
        freq_records(es.drop_last()) + freq_record(es.last())
    }
}

/// The bytes [`Frequency::build`] writes for `es`.
pub open spec fn freq_file(es: Seq<(Seq<char>, u32)>) -> Seq<u8> {
    freq_magic() + u32_bytes(low32(es.len())) + freq_records(es)
}

/// The `n` entries starting at `pos`, or the message of the first problem.
pub open spec fn freq_entries(b: Seq<u8>, pos: int, n: nat) -> Result<
    Seq<(Seq<char>, u32)>,
    Seq<char>,
>
    decreases n,
{
    if n == 0 {
        Ok(Seq::empty())
    } else if pos + 2 > b.len() {
        Err(truncated_message())
    } else {
        let len = le16(b, pos);
        let start = pos + 2;
        if start + len > b.len() {
            Err(truncated_message())
        } else if !valid_utf8(b.subrange(start, start + len)) {
            Err(utf8_error_text(b.subrange(start, start + len)))
        } else if start + len + 4 > b.len() {
            Err(truncated_message())
        } else {
            let entry = (decode_utf8(b.subrange(start, start + len)), le32(b, start + len) as u32);
            match freq_entries(b, start + len + 4, (n - 1) as nat) {
                Ok(rest) => Ok(seq![entry] + rest),
                Err(m) => Err(m),
            }
        }
    }
}

/// What [`Frequency::from_bytes`] reads from `b`: its entries, or the message
/// of the first problem.
pub open spec fn freq_parse(b: Seq<u8>) -> Result<Seq<(Seq<char>, u32)>, Seq<char>> {
    if b.len() < 8 || b.take(8) != freq_magic() {
        Err(not_freq_message())
    } else if b.len() < 12 {
        Err(truncated_message())
    } else {
        freq_entries(b, 12, le32(b, 8))
    }
}

/// Entries as a map; a later entry for the same word replaces an earlier one.
pub open spec fn last_wins(es: Seq<(Seq<char>, u32)>) -> Map<Seq<char>, u32>
    decreases es.len(),
{
    if es.len() == 0 {
        Map::empty()
    } else {
        last_wins(es.drop_last()).insert(es.last().0, es.last().1)
    }
}

/// The characters and count of each entry.
pub open spec fn entry_views(entries: Seq<(&str, u32)>) -> Seq<(Seq<char>, u32)> {
    entries.map_values(|e: (&str, u32)| (e.0@, e.1))
}

/// Word → count table.
pub struct Frequency {
    map: StringHashMap<u32>,
}

impl View for Frequency {
    type V = Map<Seq<char>, u32>;

    closed spec fn view(&self) -> Map<Seq<char>, u32> {
        self.map@
    }
}

/// The bytes `MKFREQ01`.
fn freq_magic_bytes() -> (r: Vec<u8>)
    ensures
        r@ == freq_magic(),
{
    let r: Vec<u8> = vec![0x4Du8, 0x4B, 0x46, 0x52, 0x45, 0x51, 0x30, 0x31];
    proof {
        assert(r@ =~= freq_magic());
    }
    r
}

/// Whether `b` starts with `magic`.
pub fn starts_with_magic(b: &[u8], magic: &Vec<u8>) -> (r: bool)
    requires
        magic@.len() == 8,
    ensures
        r == (b@.len() >= 8 && b@.take(8) == magic@),
{
    if b.len() < 8 {
        return false;
    }
    let mut i: usize = 0;
    while i < 8
        invariant
            0 <= i <= 8,
            b@.len() >= 8,
            magic@.len() == 8,
            forall|k: int| 0 <= k < i ==> b@[k] == magic@[k],
        decreases 8 - i,
    {
        if b[i] != magic[i] {
            proof {
                assert(b@.take(8)[i as int] != magic@[i as int]);
            }
            return false;
        }
        i = i + 1;
    }
    proof {
        assert(b@.take(8) =~= magic@);
    }
    true
}

impl Frequency {
    /// Serialise entries. Format: b"MKFREQ01" + u32 count + (u16 len + utf8 + u32 count)*.
    ///
    /// The count and each length are written as `as` casts write them, cut to
    /// their low bits.
    pub fn build(entries: &[(&str, u32)]) -> (r: Result<Vec<u8>, String>)
        ensures
            r is Ok,
            r->Ok_0@ == freq_file(entry_views(entries@)),
    {
        let ghost es = entry_views(entries@);
        let mut out: Vec<u8> = freq_magic_bytes();
        let count: u32 = (entries.len() as u64 % 4294967296) as u32;
        push_u32(&mut out, count);
        proof {
            assert(out@ =~= freq_magic() + u32_bytes(low32(es.len())) + freq_records(es.take(0)));
        }
        let mut i: usize = 0;
        while i < entries.len()
            invariant
                0 <= i <= entries@.len(),
                es == entry_views(entries@),
                out@ == freq_magic() + u32_bytes(low32(es.len())) + freq_records(es.take(i as int)),
            decreases entries.len() - i,
        {
            let (w, c) = entries[i];
            push_text(&mut out, w);
            push_u32(&mut out, c);
            proof {
                assert(es.take(i + 1).drop_last() =~= es.take(i as int));
                assert(es.take(i + 1).last() == (w@, c));
                assert(out@ =~= freq_magic() + u32_bytes(low32(es.len())) + freq_records(
                    es.take(i + 1),
                ));
            }
            i = i + 1;
        }
        proof {
            assert(es.take(i as int) =~= es);
        }
        Ok(out)
    }

    /// Load a table written by [`Frequency::build`].
    pub fn from_bytes(bytes: &[u8]) -> (r: Result<Self, String>)
        ensures
            match freq_parse(bytes@) {
                Ok(es) => r is Ok && r->Ok_0@ == last_wins(es),
                Err(m) => r is Err && r->Err_0@ == m,
            },
    {
        let magic = freq_magic_bytes();
        if !starts_with_magic(bytes, &magic) {
            return Err(String::from_str("not a freq file"));
        }
        let n = match read_u32(bytes, 8) {
            Some(n) => n,
            None => {
                return Err(String::from_str("truncated"));
            },
        };
        let ghost b = bytes@;
        let total = bytes.len();
        let mut pos: usize = 12;
        let mut map: StringHashMap<u32> = StringHashMap::new();
        let ghost mut done: Seq<(Seq<char>, u32)> = Seq::empty();
        let mut i: u32 = 0;
        while i < n
            invariant
                b == bytes@,
                total == b.len(),
                0 <= i <= n,
                n == le32(b, 8),
                b.len() >= 12,
                12 <= pos <= b.len(),
                freq_parse(b) == prepend(done, freq_entries(b, pos as int, (n - i) as nat)),
                map@ == last_wins(done),
            decreases n - i,
        {
            let len_read = read_u16(bytes, pos);
            if len_read.is_none() {
                return Err(String::from_str("truncated"));
            }
            let len = len_read.unwrap();
            assert(pos + 2 <= bytes@.len());
            let start = pos + 2;
            let word = match read_text(bytes, start, len as usize) {
                TextRead::Truncated => {
                    return Err(String::from_str("truncated"));
                },
                TextRead::Invalid(m) => {
                    return Err(m);
                },
                TextRead::Text(s) => s,
            };
            assert(start + len <= bytes@.len());
            let after = start + len as usize;
            let count = match read_u32(bytes, after) {
                Some(c) => c,
                None => {
                    return Err(String::from_str("truncated"));
                },
            };
            proof {
                let entry = (word@, count);
                assert(entry == (decode_utf8(b.subrange(start as int, start + len)), le32(b, after as int) as u32));
                let rest = freq_entries(b, after + 4, (n - i - 1) as nat);
                match rest {
                    Ok(rs) => {
                        assert(done.push(entry) + rs =~= done + (seq![entry] + rs));
                    },
                    Err(_) => {},
                }
                assert(last_wins(done.push(entry)) == last_wins(done).insert(word@, count)) by {
                    assert(done.push(entry).drop_last() =~= done);
                }
                done = done.push(entry);
            }
            map.insert(word, count);
            pos = after + 4;
            i = i + 1;
        }
        Ok(Frequency { map })
    }

    /// Count for `word`, 0 when unknown.
    pub fn get(&self, word: &str) -> (r: u32)
        ensures
            r == (if self@.contains_key(word@) {
                self@[word@]
            } else {
                0
            }),
    {
        match self.map.get(word) {
            Some(c) => *c,
            None => 0,
        }
    }
}

/// `done` before what `rest` reads, or the message `rest` stopped with.
pub open spec fn prepend<T>(done: Seq<T>, rest: Result<Seq<T>, Seq<char>>) -> Result<Seq<T>, Seq<char>> {
    match rest {
        Ok(rs) => Ok(done + rs),
        Err(m) => Err(m),
    }
}

/// The bytes of a run of entries, first entry first.
proof fn lemma_records_front(es: Seq<(Seq<char>, u32)>)
    requires
        es.len() > 0,
    ensures
        freq_records(es) == freq_record(es[0]) + freq_records(es.drop_first()),
    decreases es.len(),
{
    if es.len() == 1 {
        assert(es.drop_last() =~= Seq::<(Seq<char>, u32)>::empty());
        assert(es.drop_first() =~= Seq::<(Seq<char>, u32)>::empty());
        assert(freq_records(es.drop_last()) =~= Seq::<u8>::empty());
        assert(freq_records(es.drop_first()) =~= Seq::<u8>::empty());
        assert(es.last() == es[0]);
        assert(freq_records(es) =~= freq_record(es[0]));
    } else {
        lemma_records_front(es.drop_last());
        assert(es.drop_last().drop_first() =~= es.drop_first().drop_last());
        assert(es.drop_first().last() == es.last());
        assert(freq_records(es) =~= freq_record(es[0]) + freq_records(es.drop_first()));
    }
}

/// Entries whose words fit a 16-bit length.
pub open spec fn lengths_fit(es: Seq<(Seq<char>, u32)>) -> bool {
    forall|i: int| 0 <= i < es.len() ==> encode_utf8(#[trigger] es[i].0).len() <= 0xFFFF
}

/// The records written for `es`, read back between other bytes.
proof fn lemma_parse_records(pre: Seq<u8>, es: Seq<(Seq<char>, u32)>, post: Seq<u8>)
    requires
        lengths_fit(es),
    ensures
        freq_entries(pre + freq_records(es) + post, pre.len() as int, es.len()) == Ok::<
            Seq<(Seq<char>, u32)>,
            Seq<char>,
        >(es),
    decreases es.len(),
{
    if es.len() == 0 {
        assert(es =~= Seq::<(Seq<char>, u32)>::empty());
    } else {
        let b = pre + freq_records(es) + post;
        let e = es[0];
        let rest = es.drop_first();
        lemma_records_front(es);
        let p = pre.len() as int;
        let f = text_field(e.0);
        let q = p + f.len();
        let pre2 = pre + freq_record(e);
        assert(b =~= pre2 + freq_records(rest) + post);
        assert(b.subrange(p, q) =~= f);
        assert(b.subrange(q, q + 4) =~= u32_bytes(e.1));
        lemma_text_field(b, p, e.0);
        lemma_le32(e.1, b, q);
        assert forall|i: int| 0 <= i < rest.len() implies encode_utf8(#[trigger] rest[i].0).len() <= 0xFFFF by {
            assert(rest[i] == es[i + 1]);
        }
        lemma_parse_records(pre2, rest, post);
        assert(pre2.len() == q + 4);
        assert(seq![e] + rest =~= es);
    }
}

/// Law: reading back what [`Frequency::build`] wrote gives the entries
/// written, when each word fits a 16-bit length and the count fits 32 bits.
pub proof fn lemma_frequency_round_trip(es: Seq<(Seq<char>, u32)>)
    requires
        lengths_fit(es),
        es.len() <= u32::MAX,
    ensures
        freq_parse(freq_file(es)) == Ok::<Seq<(Seq<char>, u32)>, Seq<char>>(es),
{
    let b = freq_file(es);
    let pre = freq_magic() + u32_bytes(low32(es.len()));
    assert(b =~= pre + freq_records(es) + Seq::<u8>::empty());
    assert(b.take(8) =~= freq_magic());
    assert(b.subrange(8, 12) =~= u32_bytes(low32(es.len())));
    lemma_le32(low32(es.len()), b, 8);
    lemma_parse_records(pre, es, Seq::<u8>::empty());
}

} // verus!
