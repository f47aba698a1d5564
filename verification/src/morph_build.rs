//! Building a morphology blob from surface forms and their readings.
//!
//! Tag names, lemmas and tag combinations are interned in order of first
//! appearance; every reading becomes a (lemma id, tagset id) pair; surface
//! forms go into an FST mapping them to their entry's index; and the
//! л-participle readings are listed, sorted and deduplicated, as the reverse
//! index. Ids and lengths are written as `as` casts write them, cut to the
//! width of their field.

use vstd::prelude::*;
use vstd::hash_map::StringHashMap;
use vstd::utf8::encode_utf8;
use crate::codec::{u16_bytes, u32_bytes, low16, low32, text_field, push_u16, push_u32, push_bytes, push_text};
use crate::fst_store::{
    map_builder_entries, map_encoding, map_builder_memory, map_builder_insert, map_builder_finish,
    keys_strictly_ascending, entry_keys,
};
use crate::order::{
    lex_lt, lemma_lex_transitive, RankKey, KeyView, key_lt, key_views, sort_keys, listing,
    strictly_sorted, key_order, lemma_listing_of, strict_total_on, lemma_key_irreflexive,
    lemma_key_transitive, lemma_key_total,
};
use crate::intern::{first_seen, position, lemma_first_seen, lemma_position, intern_strings};
use crate::morphology::{Morphology, MorphError, morph_magic};
use crate::text::{str_eq, utf8_decode};

verus! {

broadcast use vstd::seq_lib::group_seq_properties;

/// A reading as given to the builder: a lemma and its tag names.
pub type RawReading = (Seq<char>, Seq<Seq<char>>);

/// A surface form and its readings.
pub type RawEntry = (Seq<char>, Seq<RawReading>);

/// The characters of a reading.
pub open spec fn raw_reading(r: (String, Vec<String>)) -> RawReading {
    (r.0@, r.1@.map_values(|t: String| t@))
}

/// The characters of each entry.
pub open spec fn raw_entries(es: Seq<(String, Vec<(String, Vec<String>)>)>) -> Seq<RawEntry> {
    es.map_values(
        |e: (String, Vec<(String, Vec<String>)>)|
            (e.0@, e.1@.map_values(|r: (String, Vec<String>)| raw_reading(r))),
    )
}

/// All readings, entry by entry.
pub open spec fn flat_readings(es: Seq<RawEntry>) -> Seq<RawReading>
    decreases es.len(),
{
    if es.len() == 0 {
        Seq::empty()
    } else {
        flat_readings(es.drop_last()) + es.last().1
    }
}

/// All tag names, reading by reading.
pub open spec fn flat_tags(rs: Seq<RawReading>) -> Seq<Seq<char>>
    decreases rs.len(),
{
    if rs.len() == 0 {
        Seq::empty()
    } else {
        flat_tags(rs.drop_last()) + rs.last().1
    }
}

/// The tag vocabulary: every tag name once, in order of first appearance.
pub open spec fn built_vocab(es: Seq<RawEntry>) -> Seq<Seq<char>> {
    first_seen(flat_tags(flat_readings(es)))
}

/// The lemma table: every lemma once, in order of first appearance.
pub open spec fn built_lemmas(es: Seq<RawEntry>) -> Seq<Seq<char>> {
    first_seen(flat_readings(es).map_values(|r: RawReading| r.0))
}

/// The ids of tag names in the vocabulary, cut to 16 bits.
pub open spec fn tag_ids(vocab: Seq<Seq<char>>, tags: Seq<Seq<char>>) -> Seq<u16> {
    tags.map_values(|t: Seq<char>| low16(position(vocab, t) as nat))
}

/// The tagset table: every combination of tag ids once, in order of first
/// appearance.
pub open spec fn built_tagsets(es: Seq<RawEntry>) -> Seq<Seq<u16>> {
    first_seen(flat_readings(es).map_values(|r: RawReading| tag_ids(built_vocab(es), r.1)))
}

/// The (lemma id, tagset id) pair of a reading, each cut to 32 bits.
pub open spec fn packed(es: Seq<RawEntry>, r: RawReading) -> (u32, u32) {
    (
        low32(position(built_lemmas(es), r.0) as nat),
        low32(position(built_tagsets(es), tag_ids(built_vocab(es), r.1)) as nat),
    )
}

/// The packed readings of each entry.
pub open spec fn built_table(es: Seq<RawEntry>) -> Seq<Seq<(u32, u32)>> {
    es.map_values(|e: RawEntry| e.1.map_values(|r: RawReading| packed(es, r)))
}

/// The tagset of a packed reading names the `lp` tag.
pub open spec fn marks_participle(es: Seq<RawEntry>, p: (u32, u32)) -> bool {
    built_tagsets(es)[p.1 as int].map_values(|t: u16| built_vocab(es)[t as int]).contains("lp"@)
}

/// The participle rows of the entries in `part`, entry by entry.
pub open spec fn participle_rows(es: Seq<RawEntry>, part: Seq<RawEntry>) -> Seq<(u32, Seq<char>)>
    decreases part.len(),
{
    if part.len() == 0 {
        Seq::empty()
    } else {
        let e = part.last();
        participle_rows(es, part.drop_last()) + e.1.map_values(|r: RawReading| packed(es, r)).filter(
            |p: (u32, u32)| marks_participle(es, p),
        ).map_values(|p: (u32, u32)| (p.0, e.0))
    }
}

/// Participle rows ordered by lemma id, then surface bytes.
pub open spec fn row_key(row: (u32, Seq<char>)) -> KeyView {
    (row.0 as int, 0, 0, encode_utf8(row.1))
}

/// `row_key` as an order.
pub open spec fn row_order() -> spec_fn((u32, Seq<char>), (u32, Seq<char>)) -> bool {
    |a: (u32, Seq<char>), b: (u32, Seq<char>)| key_lt(row_key(a), row_key(b))
}

/// The reverse index: the participle rows sorted, without repeats.
pub open spec fn built_participles(es: Seq<RawEntry>) -> Seq<(u32, Seq<char>)> {
    listing(participle_rows(es, es).to_set(), row_order())
}

/// The FST's entries: each surface form's bytes and its entry index.
pub open spec fn fst_entries(es: Seq<RawEntry>) -> Seq<(Seq<u8>, u64)> {
    Seq::new(es.len(), |i: int| (encode_utf8(es[i].0), i as u64))
}

/// The texts of a list, each after its 16-bit length.
pub open spec fn texts_bytes(xs: Seq<Seq<char>>) -> Seq<u8>
    decreases xs.len(),
{
    if xs.len() == 0 {
        Seq::empty()
    } else {
        texts_bytes(xs.drop_last()) + text_field(xs.last())
    }
}

/// The 16-bit values of a list.
pub open spec fn ids_bytes(xs: Seq<u16>) -> Seq<u8>
    decreases xs.len(),
{
    if xs.len() == 0 {
        Seq::empty()
    } else {
        ids_bytes(xs.drop_last()) + u16_bytes(xs.last())
    }
}

/// The tagsets, each after its length cut to 8 bits.
pub open spec fn tagsets_bytes(xs: Seq<Seq<u16>>) -> Seq<u8>
    decreases xs.len(),
{
    if xs.len() == 0 {
        Seq::empty()
    } else {
        tagsets_bytes(xs.drop_last()) + seq![(xs.last().len() % 256) as u8] + ids_bytes(xs.last())
    }
}

/// The pairs of a list.
pub open spec fn pairs_bytes(xs: Seq<(u32, u32)>) -> Seq<u8>
    decreases xs.len(),
{
    if xs.len() == 0 {
        Seq::empty()
    } else {
        pairs_bytes(xs.drop_last()) + u32_bytes(xs.last().0) + u32_bytes(xs.last().1)
    }
}

/// At most 255 of an entry's pairs, after their number.
pub open spec fn row_bytes(row: Seq<(u32, u32)>) -> Seq<u8> {
    let n = if row.len() < 255 {
        row.len()
    } else {
        255
    };
    seq![n as u8] + pairs_bytes(row.take(n as int))
}

/// The entries' rows.
pub open spec fn rows_bytes(xs: Seq<Seq<(u32, u32)>>) -> Seq<u8>
    decreases xs.len(),
{
    if xs.len() == 0 {
        Seq::empty()
    } else {
        rows_bytes(xs.drop_last()) + row_bytes(xs.last())
    }
}

/// The participle rows.
pub open spec fn lp_bytes(xs: Seq<(u32, Seq<char>)>) -> Seq<u8>
    decreases xs.len(),
{
    if xs.len() == 0 {
        Seq::empty()
    } else {
        lp_bytes(xs.drop_last()) + u32_bytes(xs.last().0) + text_field(xs.last().1)
    }
}

/// The blob [`Morphology::build`] writes for `es`, once the FST wrote `fst`.
pub open spec fn morph_blob(es: Seq<RawEntry>, fst: Seq<u8>) -> Seq<u8> {
    let vocab = built_vocab(es);
    let lemmas = built_lemmas(es);
    let tagsets = built_tagsets(es);
    let table = built_table(es);
    let lp = built_participles(es);
    morph_magic() + u32_bytes(low32(fst.len())) + fst + u32_bytes(low32(vocab.len())) + texts_bytes(
        vocab,
    ) + u32_bytes(low32(lemmas.len())) + texts_bytes(lemmas) + u32_bytes(low32(tagsets.len()))
        + tagsets_bytes(tagsets) + u32_bytes(low32(table.len())) + rows_bytes(table) + u32_bytes(
        low32(lp.len()),
    ) + lp_bytes(lp)
}

/// The surface forms, as FST keys, in strictly ascending order.
pub open spec fn surfaces_ascending(es: Seq<RawEntry>) -> bool {
    keys_strictly_ascending(entry_keys(fst_entries(es)))
}

/// What [`Morphology::build`] writes for `es`; nothing when the FST refuses
/// the surface forms because they are not in strictly ascending order.
pub open spec fn morph_build(es: Seq<RawEntry>) -> Option<Seq<u8>> {
    if surfaces_ascending(es) {
        Some(morph_blob(es, map_encoding(fst_entries(es))))
    } else {
        None
    }
}

/// The character standing for a byte value.
pub open spec fn byte_char(v: nat) -> char {
    (v as u8) as char
}

/// The hash key of a tag-id list: two characters (high and low byte) per id.
pub open spec fn ids_key(v: Seq<u16>) -> Seq<char>
    decreases v.len(),
{
    if v.len() == 0 {
        Seq::empty()
    } else {
        ids_key(v.drop_last()) + seq![byte_char(v.last() as nat / 256), byte_char(v.last() as nat % 256)]
    }
}

/// Different id lists have different keys.
proof fn lemma_ids_key_injective(a: Seq<u16>, b: Seq<u16>)
    requires
        ids_key(a) == ids_key(b),
    ensures
        a == b,
    decreases a.len(),
{
    lemma_ids_key_len(a);
    lemma_ids_key_len(b);
    if a.len() > 0 {
        let ka = ids_key(a);
        let kb = ids_key(b);
        let n = ka.len() as int;
        assert(ka[n - 2] == kb[n - 2] && ka[n - 1] == kb[n - 1]);
        let ha = (a.last() as nat / 256) as u8;
        let hb = (b.last() as nat / 256) as u8;
        let la = (a.last() as nat % 256) as u8;
        let lb = (b.last() as nat % 256) as u8;
        assert(((ha as char) as u32) == ha as u32);
        assert(((hb as char) as u32) == hb as u32);
        assert(((la as char) as u32) == la as u32);
        assert(((lb as char) as u32) == lb as u32);
        assert(a.last() == b.last());
        assert(ids_key(a.drop_last()) =~= ka.take(n - 2));
        assert(ids_key(b.drop_last()) =~= kb.take(n - 2));
        lemma_ids_key_injective(a.drop_last(), b.drop_last());
        assert(a =~= a.drop_last().push(a.last()));
        assert(b =~= b.drop_last().push(b.last()));
    } else {
        if b.len() > 0 {
            assert(false);
        }
        assert(a =~= b);
    }
}

/// A key has two characters per id.
proof fn lemma_ids_key_len(a: Seq<u16>)
    ensures
        ids_key(a).len() == 2 * a.len(),
    decreases a.len(),
{
    if a.len() > 0 {
        lemma_ids_key_len(a.drop_last());
    }
}

/// The hash key of a tag-id list.
fn ids_key_of(ids: &Vec<u16>) -> (r: String)
    ensures
        r@ == ids_key(ids@),
{
    let mut key = String::new();
    let mut i: usize = 0;
    while i < ids.len()
        invariant
            0 <= i <= ids@.len(),
            key@ == ids_key(ids@.take(i as int)),
        decreases ids.len() - i,
    {
        let hi: u8 = (ids[i] / 256) as u8;
        let lo: u8 = (ids[i] % 256) as u8;
        crate::text::push_char(&mut key, hi as char);
        crate::text::push_char(&mut key, lo as char);
        proof {
            assert(ids@.take(i + 1).drop_last() =~= ids@.take(i as int));
            assert(key@ =~= ids_key(ids@.take(i + 1)));
        }
        i = i + 1;
    }
    proof {
        assert(ids@.take(i as int) =~= ids@);
    }
    key
}

/// The view of a reading reference.
pub open spec fn reading_view(r: &(String, Vec<String>)) -> RawReading {
    raw_reading(*r)
}

/// All readings of all entries, in order.
fn all_readings<'a>(entries: &'a [(String, Vec<(String, Vec<String>)>)]) -> (r: Vec<&'a (String, Vec<String>)>)
    ensures
        r@.map_values(|x: &(String, Vec<String>)| reading_view(x)) == flat_readings(raw_entries(entries@)),
{
    let ghost es = raw_entries(entries@);
    let mut out: Vec<&'a (String, Vec<String>)> = Vec::new();
    let mut i: usize = 0;
    while i < entries.len()
        invariant
            0 <= i <= entries@.len(),
            es == raw_entries(entries@),
            out@.map_values(|x: &(String, Vec<String>)| reading_view(x)) == flat_readings(es.take(i as int)),
        decreases entries.len() - i,
    {
        let readings = &entries[i].1;
        let ghost base = flat_readings(es.take(i as int));
        let mut j: usize = 0;
        while j < readings.len()
            invariant
                0 <= j <= readings@.len(),
                readings@.map_values(|r: (String, Vec<String>)| raw_reading(r)) == es[i as int].1,
                out@.map_values(|x: &(String, Vec<String>)| reading_view(x)) == base + es[i as int].1.take(j as int),
            decreases readings.len() - j,
        {
            let ghost before = out@.map_values(|x: &(String, Vec<String>)| reading_view(x));
            out.push(&readings[j]);
            proof {
                assert(out@.map_values(|x: &(String, Vec<String>)| reading_view(x)) =~= before.push(es[i as int].1[j as int]));
                assert(es[i as int].1.take(j + 1) =~= es[i as int].1.take(j as int).push(es[i as int].1[j as int]));
            }
            j = j + 1;
        }
        proof {
            assert(es[i as int].1.take(j as int) =~= es[i as int].1);
            assert(es.take(i + 1).drop_last() =~= es.take(i as int));
            assert(es.take(i + 1).last() == es[i as int]);
        }
        i = i + 1;
    }
    proof {
        assert(es.take(i as int) =~= es);
    }
    out
}

/// All tag names of all readings, in order.
fn all_tags<'a>(readings: &Vec<&'a (String, Vec<String>)>) -> (r: Vec<&'a String>)
    ensures
        r@.map_values(|t: &String| t@) == flat_tags(readings@.map_values(|x: &(String, Vec<String>)| reading_view(x))),
{
    let ghost rs = readings@.map_values(|x: &(String, Vec<String>)| reading_view(x));
    let mut out: Vec<&'a String> = Vec::new();
    let mut i: usize = 0;
    while i < readings.len()
        invariant
            0 <= i <= readings@.len(),
            rs == readings@.map_values(|x: &(String, Vec<String>)| reading_view(x)),
            out@.map_values(|t: &String| t@) == flat_tags(rs.take(i as int)),
        decreases readings.len() - i,
    {
        let tags = &readings[i].1;
        let ghost base = flat_tags(rs.take(i as int));
        let mut j: usize = 0;
        while j < tags.len()
            invariant
                0 <= j <= tags@.len(),
                tags@.map_values(|t: String| t@) == rs[i as int].1,
                out@.map_values(|t: &String| t@) == base + rs[i as int].1.take(j as int),
            decreases tags.len() - j,
        {
            let ghost before = out@.map_values(|t: &String| t@);
            out.push(&tags[j]);
            proof {
                assert(out@.map_values(|t: &String| t@) =~= before.push(rs[i as int].1[j as int]));
                assert(rs[i as int].1.take(j + 1) =~= rs[i as int].1.take(j as int).push(rs[i as int].1[j as int]));
            }
            j = j + 1;
        }
        proof {
            assert(rs[i as int].1.take(j as int) =~= rs[i as int].1);
            assert(rs.take(i + 1).drop_last() =~= rs.take(i as int));
        }
        i = i + 1;
    }
    proof {
        assert(rs.take(i as int) =~= rs);
    }
    out
}

/// The lemma of each reading, in order.
fn all_lemmas<'a>(readings: &Vec<&'a (String, Vec<String>)>) -> (r: Vec<&'a String>)
    ensures
        r@.map_values(|t: &String| t@) == readings@.map_values(|x: &(String, Vec<String>)| reading_view(x)).map_values(|r: RawReading| r.0),
{
    let mut out: Vec<&'a String> = Vec::new();
    let mut i: usize = 0;
    while i < readings.len()
        invariant
            0 <= i <= readings@.len(),
            out@.map_values(|t: &String| t@) == readings@.map_values(|x: &(String, Vec<String>)| reading_view(x)).map_values(|r: RawReading| r.0).take(i as int),
        decreases readings.len() - i,
    {
        let ghost before = out@.map_values(|t: &String| t@);
        let ghost all = readings@.map_values(|x: &(String, Vec<String>)| reading_view(x)).map_values(|r: RawReading| r.0);
        out.push(&readings[i].0);
        proof {
            assert(all[i as int] == readings@[i as int].0@);
            assert(out@.map_values(|t: &String| t@) =~= before.push(all[i as int]));
            assert(all.take(i + 1) =~= all.take(i as int).push(all[i as int]));
        }
        i = i + 1;
    }
    proof {
        let all = readings@.map_values(|x: &(String, Vec<String>)| reading_view(x)).map_values(|r: RawReading| r.0);
        assert(all.take(i as int) =~= all);
    }
    out
}

/// The interned position of a name known to the table, cut to 16 bits.
fn tag_ids_of(tags: &Vec<String>, positions: &StringHashMap<usize>, vocab: Ghost<Seq<Seq<char>>>) -> (r: Vec<u16>)
    requires
        forall|k: int| 0 <= k < tags@.len() ==> positions@.contains_key(#[trigger] tags@[k]@),
        forall|x: Seq<char>| positions@.contains_key(x) ==> #[trigger] positions@[x] == position(vocab@, x),
    ensures
        r@ == tag_ids(vocab@, tags@.map_values(|t: String| t@)),
{
    let mut out: Vec<u16> = Vec::new();
    let mut k: usize = 0;
    while k < tags.len()
        invariant
            0 <= k <= tags@.len(),
            forall|k: int| 0 <= k < tags@.len() ==> positions@.contains_key(#[trigger] tags@[k]@),
            forall|x: Seq<char>| positions@.contains_key(x) ==> #[trigger] positions@[x] == position(vocab@, x),
            out@ == tag_ids(vocab@, tags@.map_values(|t: String| t@)).take(k as int),
        decreases tags.len() - k,
    {
        let p = match positions.get(tags[k].as_str()) {
            Some(p) => *p,
            None => 0,
        };
        let id: u16 = (p % 65536) as u16;
        out.push(id);
        proof {
            assert(out@ =~= tag_ids(vocab@, tags@.map_values(|t: String| t@)).take(k + 1));
        }
        k = k + 1;
    }
    proof {
        assert(out@ =~= tag_ids(vocab@, tags@.map_values(|t: String| t@)));
    }
    out
}

/// Every reading of every entry is among the flattened readings.
pub(crate) proof fn lemma_reading_flattened(es: Seq<RawEntry>, i: int, j: int)
    requires
        0 <= i < es.len(),
        0 <= j < es[i].1.len(),
    ensures
        flat_readings(es).contains(es[i].1[j]),
    decreases es.len(),
{
    if i == es.len() - 1 {
        let base = flat_readings(es.drop_last());
        assert(flat_readings(es)[base.len() + j] == es[i].1[j]);
    } else {
        lemma_reading_flattened(es.drop_last(), i, j);
        let k = choose|k: int| 0 <= k < flat_readings(es.drop_last()).len() && flat_readings(es.drop_last())[k] == es[i].1[j];
        assert(flat_readings(es)[k] == es[i].1[j]);
    }
}

/// Every tag of every reading is among the flattened tags.
pub(crate) proof fn lemma_tag_flattened(rs: Seq<RawReading>, i: int, k: int)
    requires
        0 <= i < rs.len(),
        0 <= k < rs[i].1.len(),
    ensures
        flat_tags(rs).contains(rs[i].1[k]),
    decreases rs.len(),
{
    if i == rs.len() - 1 {
        let base = flat_tags(rs.drop_last());
        assert(flat_tags(rs)[base.len() + k] == rs[i].1[k]);
    } else {
        lemma_tag_flattened(rs.drop_last(), i, k);
        let m = choose|m: int| 0 <= m < flat_tags(rs.drop_last()).len() && flat_tags(rs.drop_last())[m] == rs[i].1[k];
        assert(flat_tags(rs)[m] == rs[i].1[k]);
    }
}

/// A reading among the flattened ones has its lemma in the lemma table, its
/// tags in the vocabulary and its tag ids in the tagset table.
pub(crate) proof fn lemma_reading_interned(es: Seq<RawEntry>, r: RawReading)
    requires
        flat_readings(es).contains(r),
    ensures
        built_lemmas(es).contains(r.0),
        forall|k: int| 0 <= k < r.1.len() ==> built_vocab(es).contains(#[trigger] r.1[k]),
        built_tagsets(es).contains(tag_ids(built_vocab(es), r.1)),
{
    let rs = flat_readings(es);
    let i = choose|i: int| 0 <= i < rs.len() && rs[i] == r;
    let lemmas = rs.map_values(|x: RawReading| x.0);
    assert(lemmas[i] == r.0);
    lemma_first_seen(lemmas);
    lemma_first_seen(flat_tags(rs));
    assert forall|k: int| 0 <= k < r.1.len() implies built_vocab(es).contains(#[trigger] r.1[k]) by {
        lemma_tag_flattened(rs, i, k);
    }
    let vecs = rs.map_values(|x: RawReading| tag_ids(built_vocab(es), x.1));
    assert(vecs[i] == tag_ids(built_vocab(es), r.1));
    lemma_first_seen(vecs);
}

/// The tag-id lists of all readings, interned.
fn intern_tagsets(
    readings: &Vec<&(String, Vec<String>)>,
    positions: &StringHashMap<usize>,
    vocab: Ghost<Seq<Seq<char>>>,
) -> (r: (Vec<Vec<u16>>, StringHashMap<usize>))
    requires
        forall|i: int, k: int|
            0 <= i < readings@.len() && 0 <= k < readings@[i].1@.len() ==> positions@.contains_key(
                #[trigger] readings@[i].1@[k]@,
            ),
        forall|x: Seq<char>| positions@.contains_key(x) ==> #[trigger] positions@[x] == position(vocab@, x),
    ensures
        ({
            let f = first_seen(
                readings@.map_values(|x: &(String, Vec<String>)| tag_ids(vocab@, reading_view(x).1)),
            );
            &&& r.0@.map_values(|v: Vec<u16>| v@) == f
            &&& forall|v: Seq<u16>| #[trigger] r.1@.contains_key(ids_key(v)) <==> f.contains(v)
            &&& forall|v: Seq<u16>| f.contains(v) ==> #[trigger] r.1@[ids_key(v)] == position(f, v)
        }),
{
    let ghost xs = readings@.map_values(|x: &(String, Vec<String>)| tag_ids(vocab@, reading_view(x).1));
    let mut list: Vec<Vec<u16>> = Vec::new();
    let mut ids: StringHashMap<usize> = StringHashMap::new();
    let mut i: usize = 0;
    while i < readings.len()
        invariant
            0 <= i <= readings@.len(),
            xs == readings@.map_values(|x: &(String, Vec<String>)| tag_ids(vocab@, reading_view(x).1)),
            forall|i: int, k: int|
                0 <= i < readings@.len() && 0 <= k < readings@[i].1@.len() ==> positions@.contains_key(
                    #[trigger] readings@[i].1@[k]@,
                ),
            forall|x: Seq<char>| positions@.contains_key(x) ==> #[trigger] positions@[x] == position(vocab@, x),
            list@.map_values(|v: Vec<u16>| v@) == first_seen(xs.take(i as int)),
            list@.len() <= i,
            forall|v: Seq<u16>| #[trigger] ids@.contains_key(ids_key(v)) <==> first_seen(xs.take(i as int)).contains(v),
            forall|v: Seq<u16>| first_seen(xs.take(i as int)).contains(v) ==> #[trigger] ids@[ids_key(v)] == position(first_seen(xs.take(i as int)), v),
        decreases readings.len() - i,
    {
        let tags = &readings[i].1;
        proof {
            assert forall|k: int| 0 <= k < tags@.len() implies positions@.contains_key(#[trigger] tags@[k]@) by {
                assert(readings@[i as int].1@[k] == tags@[k]);
            }
        }
        let set = tag_ids_of(tags, positions, vocab);
        let key = ids_key_of(&set);
        let ghost f = first_seen(xs.take(i as int));
        proof {
            lemma_first_seen(xs.take(i as int));
            assert(set@ == xs[i as int]);
            if !f.contains(set@) {
                crate::intern::lemma_position_push(f, set@);
            }
            assert(xs.take(i + 1).drop_last() =~= xs.take(i as int));
            assert(xs.take(i + 1).last() == set@);
        }
        if !ids.contains_key(key.as_str()) {
            let n = list.len();
            let ghost old_ids = ids@;
            ids.insert(key, n);
            let ghost before = list@.map_values(|v: Vec<u16>| v@);
            list.push(set);
            proof {
                assert(!f.contains(set@));
                assert(list@.map_values(|v: Vec<u16>| v@) =~= before.push(set@));
                assert forall|v: Seq<u16>| #[trigger] ids@.contains_key(ids_key(v)) <==> first_seen(xs.take(i + 1)).contains(v) by {
                    if ids_key(v) == ids_key(set@) {
                        lemma_ids_key_injective(v, set@);
                    }
                }
                assert forall|v: Seq<u16>| first_seen(xs.take(i + 1)).contains(v) implies #[trigger] ids@[ids_key(v)] == position(first_seen(xs.take(i + 1)), v) by {
                    if ids_key(v) == ids_key(set@) {
                        lemma_ids_key_injective(v, set@);
                    }
                }
            }
        }
        i = i + 1;
    }
    proof {
        assert(xs.take(i as int) =~= xs);
    }
    (list, ids)
}

/// Whether a tagset names the `lp` tag.
fn names_participle(tagset: &Vec<u16>, vocab: &Vec<String>) -> (r: bool)
    requires
        forall|k: int| 0 <= k < tagset@.len() ==> (#[trigger] tagset@[k]) < vocab@.len(),
    ensures
        r == tagset@.map_values(|t: u16| vocab@[t as int]@).contains("lp"@),
{
    let ghost names = tagset@.map_values(|t: u16| vocab@[t as int]@);
    let mut k: usize = 0;
    while k < tagset.len()
        invariant
            0 <= k <= tagset@.len(),
            names == tagset@.map_values(|t: u16| vocab@[t as int]@),
            forall|k: int| 0 <= k < tagset@.len() ==> (#[trigger] tagset@[k]) < vocab@.len(),
            forall|m: int| 0 <= m < k ==> names[m] != "lp"@,
        decreases tagset.len() - k,
    {
        if str_eq(vocab[tagset[k] as usize].as_str(), "lp") {
            proof {
                assert(names[k as int] == "lp"@);
            }
            return true;
        }
        k = k + 1;
    }
    false
}

/// `n` cut to its low 32 bits.
fn cut32(n: usize) -> (r: u32)
    ensures
        r == low32(n as nat),
{
    (n as u64 % 4294967296) as u32
}

/// What the interning maps hold for the entries `es`.
pub open spec fn interned(
    es: Seq<RawEntry>,
    lemma_pos: Map<Seq<char>, usize>,
    vocab_pos: Map<Seq<char>, usize>,
    tagset_pos: Map<Seq<char>, usize>,
) -> bool {
    &&& forall|x: Seq<char>| #[trigger] lemma_pos.contains_key(x) <==> built_lemmas(es).contains(x)
    &&& forall|x: Seq<char>| lemma_pos.contains_key(x) ==> #[trigger] lemma_pos[x] == position(built_lemmas(es), x)
    &&& forall|x: Seq<char>| #[trigger] vocab_pos.contains_key(x) <==> built_vocab(es).contains(x)
    &&& forall|x: Seq<char>| vocab_pos.contains_key(x) ==> #[trigger] vocab_pos[x] == position(built_vocab(es), x)
    &&& forall|v: Seq<u16>| #[trigger] tagset_pos.contains_key(ids_key(v)) <==> built_tagsets(es).contains(v)
    &&& forall|v: Seq<u16>| built_tagsets(es).contains(v) ==> #[trigger] tagset_pos[ids_key(v)] == position(built_tagsets(es), v)
}

/// The packed readings of entry `i`.
fn pack_row(
    readings: &Vec<(String, Vec<String>)>,
    lemma_pos: &StringHashMap<usize>,
    vocab_pos: &StringHashMap<usize>,
    tagset_pos: &StringHashMap<usize>,
    es: Ghost<Seq<RawEntry>>,
    i: Ghost<int>,
) -> (r: Vec<(u32, u32)>)
    requires
        0 <= i@ < es@.len(),
        readings@.map_values(|r: (String, Vec<String>)| raw_reading(r)) == es@[i@].1,
        interned(es@, lemma_pos@, vocab_pos@, tagset_pos@),
    ensures
        r@ == es@[i@].1.map_values(|x: RawReading| packed(es@, x)),
{
    let ghost e = es@[i@].1;
    let mut out: Vec<(u32, u32)> = Vec::new();
    let mut j: usize = 0;
    while j < readings.len()
        invariant
            0 <= j <= readings@.len(),
            0 <= i@ < es@.len(),
            e == es@[i@].1,
            readings@.map_values(|r: (String, Vec<String>)| raw_reading(r)) == e,
            interned(es@, lemma_pos@, vocab_pos@, tagset_pos@),
            out@ == e.take(j as int).map_values(|x: RawReading| packed(es@, x)),
        decreases readings.len() - j,
    {
        let reading = &readings[j];
        let ghost rv = raw_reading(*reading);
        proof {
            assert(e[j as int] == rv);
            lemma_reading_flattened(es@, i@, j as int);
            lemma_reading_interned(es@, rv);
            assert forall|k: int| 0 <= k < reading.1@.len() implies vocab_pos@.contains_key(#[trigger] reading.1@[k]@) by {
                assert(rv.1[k] == reading.1@[k]@);
            }
        }
        let lp = match lemma_pos.get(reading.0.as_str()) {
            Some(p) => *p,
            None => 0,
        };
        let set = tag_ids_of(&reading.1, vocab_pos, Ghost(built_vocab(es@)));
        let key = ids_key_of(&set);
        let tp = match tagset_pos.get(key.as_str()) {
            Some(p) => *p,
            None => 0,
        };
        let pair = (cut32(lp), cut32(tp));
        proof {
            assert(set@ == tag_ids(built_vocab(es@), rv.1));
            assert(pair == packed(es@, rv));
        }
        out.push(pair);
        proof {
            assert(e.take(j + 1) =~= e.take(j as int).push(e[j as int]));
            assert(out@ =~= e.take(j + 1).map_values(|x: RawReading| packed(es@, x)));
        }
        j = j + 1;
    }
    proof {
        assert(e.take(j as int) =~= e);
    }
    out
}

/// A `u32` count, then each text after its 16-bit length.
fn push_texts_block(out: &mut Vec<u8>, xs: &Vec<String>)
    ensures
        final(out)@ == old(out)@ + u32_bytes(low32(xs@.len())) + texts_bytes(xs@.map_values(|s: String| s@)),
{
    let ghost views = xs@.map_values(|s: String| s@);
    push_u32(out, cut32(xs.len()));
    let ghost start = out@;
    let mut i: usize = 0;
    while i < xs.len()
        invariant
            0 <= i <= xs@.len(),
            views == xs@.map_values(|s: String| s@),
            out@ == start + texts_bytes(views.take(i as int)),
        decreases xs.len() - i,
    {
        push_text(out, xs[i].as_str());
        proof {
            assert(views.take(i + 1).drop_last() =~= views.take(i as int));
            assert(out@ =~= start + texts_bytes(views.take(i + 1)));
        }
        i = i + 1;
    }
    proof {
        assert(views.take(i as int) =~= views);
    }
}

/// A `u32` count, then each tagset after its length cut to 8 bits.
fn push_tagsets_block(out: &mut Vec<u8>, xs: &Vec<Vec<u16>>)
    ensures
        final(out)@ == old(out)@ + u32_bytes(low32(xs@.len())) + tagsets_bytes(xs@.map_values(|v: Vec<u16>| v@)),
{
    let ghost views = xs@.map_values(|v: Vec<u16>| v@);
    push_u32(out, cut32(xs.len()));
    let ghost start = out@;
    let mut i: usize = 0;
    while i < xs.len()
        invariant
            0 <= i <= xs@.len(),
            views == xs@.map_values(|v: Vec<u16>| v@),
            out@ == start + tagsets_bytes(views.take(i as int)),
        decreases xs.len() - i,
    {
        let set = &xs[i];
        out.push((set.len() % 256) as u8);
        let ghost mid = out@;
        let mut k: usize = 0;
        while k < set.len()
            invariant
                0 <= k <= set@.len(),
                out@ == mid + ids_bytes(set@.take(k as int)),
            decreases set.len() - k,
        {
            push_u16(out, set[k]);
            proof {
                assert(set@.take(k + 1).drop_last() =~= set@.take(k as int));
                assert(out@ =~= mid + ids_bytes(set@.take(k + 1)));
            }
            k = k + 1;
        }
        proof {
            assert(set@.take(k as int) =~= set@);
            assert(views.take(i + 1).drop_last() =~= views.take(i as int));
            assert(views[i as int] == set@);
            assert(out@ =~= start + tagsets_bytes(views.take(i + 1)));
        }
        i = i + 1;
    }
    proof {
        assert(views.take(i as int) =~= views);
    }
}

/// A `u32` count, then each entry's row of at most 255 pairs.
fn push_rows_block(out: &mut Vec<u8>, xs: &Vec<Vec<(u32, u32)>>)
    ensures
        final(out)@ == old(out)@ + u32_bytes(low32(xs@.len())) + rows_bytes(xs@.map_values(|v: Vec<(u32, u32)>| v@)),
{
    let ghost views = xs@.map_values(|v: Vec<(u32, u32)>| v@);
    push_u32(out, cut32(xs.len()));
    let ghost start = out@;
    let mut i: usize = 0;
    while i < xs.len()
        invariant
            0 <= i <= xs@.len(),
            views == xs@.map_values(|v: Vec<(u32, u32)>| v@),
            out@ == start + rows_bytes(views.take(i as int)),
        decreases xs.len() - i,
    {
        let row = &xs[i];
        let n: usize = if row.len() < 255 {
            row.len()
        } else {
            255
        };
        out.push(n as u8);
        let ghost mid = out@;
        let mut k: usize = 0;
        while k < n
            invariant
                0 <= k <= n,
                n <= row@.len(),
                out@ == mid + pairs_bytes(row@.take(k as int)),
            decreases n - k,
        {
            push_u32(out, row[k].0);
            push_u32(out, row[k].1);
            proof {
                assert(row@.take(k + 1).drop_last() =~= row@.take(k as int));
                assert(out@ =~= mid + pairs_bytes(row@.take(k + 1)));
            }
            k = k + 1;
        }
        proof {
            assert(views.take(i + 1).drop_last() =~= views.take(i as int));
            assert(views[i as int] == row@);
            assert(out@ =~= start + rows_bytes(views.take(i + 1)));
        }
        i = i + 1;
    }
    proof {
        assert(views.take(i as int) =~= views);
    }
}

/// A `u32` count, then each participle row.
fn push_lp_block(out: &mut Vec<u8>, xs: &Vec<(u32, String)>)
    ensures
        final(out)@ == old(out)@ + u32_bytes(low32(xs@.len())) + lp_bytes(xs@.map_values(|x: (u32, String)| (x.0, x.1@))),
{
    let ghost views = xs@.map_values(|x: (u32, String)| (x.0, x.1@));
    push_u32(out, cut32(xs.len()));
    let ghost start = out@;
    let mut i: usize = 0;
    while i < xs.len()
        invariant
            0 <= i <= xs@.len(),
            views == xs@.map_values(|x: (u32, String)| (x.0, x.1@)),
            out@ == start + lp_bytes(views.take(i as int)),
        decreases xs.len() - i,
    {
        push_u32(out, xs[i].0);
        push_text(out, xs[i].1.as_str());
        proof {
            assert(views.take(i + 1).drop_last() =~= views.take(i as int));
            assert(out@ =~= start + lp_bytes(views.take(i + 1)));
        }
        i = i + 1;
    }
    proof {
        assert(views.take(i as int) =~= views);
    }
}

/// A row is recovered from its key.
pub(crate) proof fn lemma_row_key_inverse(row: (u32, Seq<char>))
    ensures
        vstd::utf8::decode_utf8(row_key(row).3) == row.1,
        row_key(row).0 as u32 == row.0,
{
    vstd::utf8::encode_utf8_decode_utf8(row.1);
}

/// Participle rows sorted by lemma id, then surface bytes, without repeats.
fn sort_rows(rows: &Vec<(u32, String)>) -> (r: Vec<(u32, String)>)
    ensures
        r@.map_values(|x: (u32, String)| (x.0, x.1@)) == listing(
            rows@.map_values(|x: (u32, String)| (x.0, x.1@)).to_set(),
            row_order(),
        ),
{
    let ghost views = rows@.map_values(|x: (u32, String)| (x.0, x.1@));
    let mut keys: Vec<RankKey> = Vec::new();
    let mut i: usize = 0;
    while i < rows.len()
        invariant
            0 <= i <= rows@.len(),
            views == rows@.map_values(|x: (u32, String)| (x.0, x.1@)),
            key_views(keys@) == views.take(i as int).map_values(|x: (u32, Seq<char>)| row_key(x)),
        decreases rows.len() - i,
    {
        let text = vstd::slice::slice_to_vec(rows[i].1.as_str().as_bytes());
        let ghost before = key_views(keys@);
        let k = RankKey { first: rows[i].0 as u64, second: 0, third: 0, text };
        keys.push(k);
        proof {
            assert(k@ == row_key(views[i as int]));
            assert(key_views(keys@) =~= before.push(k@));
            assert(views.take(i + 1) =~= views.take(i as int).push(views[i as int]));
            assert(key_views(keys@) =~= views.take(i + 1).map_values(|x: (u32, Seq<char>)| row_key(x)));
        }
        i = i + 1;
    }
    proof {
        assert(views.take(i as int) =~= views);
    }
    let sorted = sort_keys(&keys);
    let ghost kset = key_views(keys@).to_set();
    let mut out: Vec<(u32, String)> = Vec::new();
    let mut j: usize = 0;
    while j < sorted.len()
        invariant
            0 <= j <= sorted@.len(),
            key_views(sorted@).to_set() == kset,
            kset == key_views(keys@).to_set(),
            key_views(keys@) == views.map_values(|x: (u32, Seq<char>)| row_key(x)),
            out@.map_values(|x: (u32, String)| (x.0, x.1@)) == key_views(sorted@).take(j as int).map_values(
                |k: KeyView| (k.0 as u32, vstd::utf8::decode_utf8(k.3)),
            ),
        decreases sorted.len() - j,
    {
        let ghost kv = sorted@[j as int]@;
        let ghost before = out@.map_values(|x: (u32, String)| (x.0, x.1@));
        proof {
            assert(key_views(sorted@)[j as int] == kv);
            assert(kset.contains(kv));
            let m = choose|m: int| 0 <= m < key_views(keys@).len() && key_views(keys@)[m] == kv;
            vstd::utf8::encode_utf8_valid_utf8(views[m].1);
            assert(sorted@[j as int].text@ == kv.3);
            assert(kv.0 < 4294967296);
        }
        match utf8_decode(sorted[j].text.as_slice()) {
            Ok(s) => {
                let row = (sorted[j].first as u32, String::from_str(s));
                out.push(row);
            },
            Err(_) => {},
        }
        proof {
            assert(out@.map_values(|x: (u32, String)| (x.0, x.1@)) =~= before.push((kv.0 as u32, vstd::utf8::decode_utf8(kv.3))));
            assert(key_views(sorted@).take(j + 1) =~= key_views(sorted@).take(j as int).push(kv));
        }
        j = j + 1;
    }
    proof {
        let sv = key_views(sorted@);
        let m = out@.map_values(|x: (u32, String)| (x.0, x.1@));
        assert(sv.take(j as int) =~= sv);
        let lt = row_order();
        assert forall|a: int| 0 <= a < m.len() implies row_key(#[trigger] m[a]) == sv[a] && views.to_set().contains(m[a]) by {
            assert(kset.contains(sv[a]));
            let t = choose|t: int| 0 <= t < key_views(keys@).len() && key_views(keys@)[t] == sv[a];
            lemma_row_key_inverse(views[t]);
            assert(m[a] == views[t]);
        }
        assert forall|a: int, b: int| 0 <= a < b < m.len() implies #[trigger] lt(m[a], m[b]) by {
            assert(key_order()(sv[a], sv[b]));
        }
        assert forall|x: (u32, Seq<char>)| m.to_set().contains(x) <==> views.to_set().contains(x) by {
            if views.to_set().contains(x) {
                let t = choose|t: int| 0 <= t < views.len() && views[t] == x;
                assert(key_views(keys@)[t] == row_key(x));
                assert(kset.contains(row_key(x)));
                let a = choose|a: int| 0 <= a < sv.len() && sv[a] == row_key(x);
                lemma_row_key_inverse(x);
                assert(m[a] == x);
            }
        }
        assert(m.to_set() =~= views.to_set());
        assert(strict_total_on(m.to_set(), lt)) by {
            assert forall|a: (u32, Seq<char>)| #[trigger] m.to_set().contains(a) implies !lt(a, a) by {
                lemma_key_irreflexive(row_key(a));
            }
            assert forall|a: (u32, Seq<char>), b: (u32, Seq<char>), c: (u32, Seq<char>)|
                m.to_set().contains(a) && m.to_set().contains(b) && m.to_set().contains(c) && #[trigger] lt(a, b)
                    && #[trigger] lt(b, c) implies lt(a, c) by {
                lemma_key_transitive(row_key(a), row_key(b), row_key(c));
            }
            assert forall|a: (u32, Seq<char>), b: (u32, Seq<char>)|
                m.to_set().contains(a) && m.to_set().contains(b) && a != b implies #[trigger] lt(a, b) || lt(b, a) by {
                lemma_row_key_inverse(a);
                lemma_row_key_inverse(b);
                lemma_key_total(row_key(a), row_key(b));
            }
        }
        lemma_listing_of(m, lt);
    }
    out
}

impl Morphology {
    /// Serialise a morphology table.
    ///
    /// `entries` pairs each surface form with its readings, a reading being a
    /// lemma and its list of tags. The surface forms must come in ascending
    /// order without repeats, because the FST requires sorted keys; otherwise
    /// the FST's error is returned.
    pub fn build(entries: &[(String, Vec<(String, Vec<String>)>)]) -> (r: Result<Vec<u8>, MorphError>)
        ensures
            match morph_build(raw_entries(entries@)) {
                Some(b) => r is Ok && r->Ok_0@ == b,
                None => r is Err && r->Err_0 is Fst,
            },
    {
        let ghost es = raw_entries(entries@);
        let readings = all_readings(entries);
        let tags = all_tags(&readings);
        let (vocab, vocab_pos) = intern_strings(&tags);
        let lemma_refs = all_lemmas(&readings);
        let (lemmas, lemma_pos) = intern_strings(&lemma_refs);
        let ghost rs = readings@.map_values(|x: &(String, Vec<String>)| reading_view(x));
        proof {
            lemma_first_seen(flat_tags(rs));
            assert forall|i: int, k: int|
                0 <= i < readings@.len() && 0 <= k < readings@[i].1@.len() implies vocab_pos@.contains_key(
                    #[trigger] readings@[i].1@[k]@,
                ) by {
                assert(rs[i].1[k] == readings@[i].1@[k]@);
                lemma_tag_flattened(rs, i, k);
            }
        }
        let (tagsets, tagset_pos) = intern_tagsets(&readings, &vocab_pos, Ghost(built_vocab(es)));
        proof {
            assert(rs.map_values(|x: RawReading| tag_ids(built_vocab(es), x.1)) =~= readings@.map_values(
                |x: &(String, Vec<String>)| tag_ids(built_vocab(es), reading_view(x).1),
            ));
            assert(interned(es, lemma_pos@, vocab_pos@, tagset_pos@));
        }
        let mut table: Vec<Vec<(u32, u32)>> = Vec::new();
        let mut lp_raw: Vec<(u32, String)> = Vec::new();
        let mut fst_builder = map_builder_memory();
        let mut i: usize = 0;
        while i < entries.len()
            invariant
                0 <= i <= entries@.len(),
                es == raw_entries(entries@),
                interned(es, lemma_pos@, vocab_pos@, tagset_pos@),
                vocab@.map_values(|s: String| s@) == built_vocab(es),
                tagsets@.map_values(|v: Vec<u16>| v@) == built_tagsets(es),
                table@.map_values(|v: Vec<(u32, u32)>| v@) == built_table(es).take(i as int),
                lp_raw@.map_values(|x: (u32, String)| (x.0, x.1@)) == participle_rows(es, es.take(i as int)),
                map_builder_entries(fst_builder) == fst_entries(es).take(i as int),
                keys_strictly_ascending(entry_keys(fst_entries(es).take(i as int))),
            decreases entries.len() - i,
        {
            let surface = &entries[i].0;
            let row = pack_row(&entries[i].1, &lemma_pos, &vocab_pos, &tagset_pos, Ghost(es), Ghost(i as int));
            let ghost lp_before = lp_raw@.map_values(|x: (u32, String)| (x.0, x.1@));
            let ghost marks = |p: (u32, u32)| marks_participle(es, p);
            let mut k: usize = 0;
            while k < row.len()
                invariant
                    0 <= k <= row@.len(),
                    es == raw_entries(entries@),
                    marks == (|p: (u32, u32)| marks_participle(es, p)),
                    vocab@.map_values(|s: String| s@) == built_vocab(es),
                    tagsets@.map_values(|v: Vec<u16>| v@) == built_tagsets(es),
                    row@ == es[i as int].1.map_values(|x: RawReading| packed(es, x)),
                    surface@ == es[i as int].0,
                    0 <= i < entries@.len(),
                    es.len() == entries@.len(),
                    lp_raw@.map_values(|x: (u32, String)| (x.0, x.1@)) == lp_before + row@.take(k as int).filter(
                        marks,
                    ).map_values(|p: (u32, u32)| (p.0, es[i as int].0)),
                decreases row.len() - k,
            {
                let (lemma_id, tagset_id) = row[k];
                proof {
                    lemma_reading_flattened(es, i as int, k as int);
                    lemma_packed_in_range(es, es[i as int].1[k as int]);
                }
                let set = &tagsets[tagset_id as usize];
                proof {
                    assert(set@ == built_tagsets(es)[tagset_id as int]);
                    lemma_tagset_ids_in_range(es, tagset_id as int);
                }
                let ghost before = lp_raw@.map_values(|x: (u32, String)| (x.0, x.1@));
                proof {
                    assert(set@.map_values(|t: u16| vocab@[t as int]@) =~= built_tagsets(es)[tagset_id as int].map_values(|t: u16| built_vocab(es)[t as int]));
                    assert(marks((lemma_id, tagset_id)) == marks_participle(es, (lemma_id, tagset_id)));
                    assert(row@.take(k + 1).drop_last() =~= row@.take(k as int));
                    assert(row@.take(k + 1).last() == (lemma_id, tagset_id));
                }
                if names_participle(set, &vocab) {
                    lp_raw.push((lemma_id, String::from_str(surface.as_str())));
                    proof {
                        assert(set@.map_values(|t: u16| vocab@[t as int]@) =~= built_tagsets(es)[tagset_id as int].map_values(|t: u16| built_vocab(es)[t as int]));
                        assert(lp_raw@.map_values(|x: (u32, String)| (x.0, x.1@)) =~= before.push((lemma_id, surface@)));
                    }
                } else {
                    proof {
                        assert(set@.map_values(|t: u16| vocab@[t as int]@) =~= built_tagsets(es)[tagset_id as int].map_values(|t: u16| built_vocab(es)[t as int]));
                    }
                }
                proof {
                    let f0 = row@.take(k as int).filter(marks);
                    let f1 = row@.take(k + 1).filter(marks);
                    assert(row@.take(k + 1) =~= row@.take(k as int).push((lemma_id, tagset_id)));
                    row@.take(k as int).lemma_filter_push((lemma_id, tagset_id), marks);
                    if marks((lemma_id, tagset_id)) {
                        assert(f1 == f0.push((lemma_id, tagset_id)));
                        assert(f1.map_values(|p: (u32, u32)| (p.0, es[i as int].0)) =~= f0.map_values(|p: (u32, u32)| (p.0, es[i as int].0)).push((lemma_id, es[i as int].0)));
                    } else {
                        assert(f1 == f0);
                    }
                    assert(lp_raw@.map_values(|x: (u32, String)| (x.0, x.1@)) =~= lp_before + row@.take(k + 1).filter(marks).map_values(|p: (u32, u32)| (p.0, es[i as int].0)));
                }
                k = k + 1;
            }
            proof {
                assert(row@.take(k as int) =~= row@);
                assert(es.take(i + 1).drop_last() =~= es.take(i as int));
                assert(es.take(i + 1).last() == es[i as int]);
            }
            let ghost old_entries = map_builder_entries(fst_builder);
            match map_builder_insert(&mut fst_builder, surface.as_str().as_bytes(), i as u64) {
                Err(e) => {
                    proof {
                        let ks = entry_keys(fst_entries(es));
                        assert(ks[i - 1] == old_entries.last().0);
                        assert(ks[i as int] == encode_utf8(es[i as int].0));
                        assert(!lex_lt(ks[i - 1], ks[i as int]));
                    }
                    return Err(MorphError::Fst(e));
                },
                Ok(()) => {},
            }
            proof {
                let ks = entry_keys(fst_entries(es).take(i + 1));
                assert(fst_entries(es).take(i + 1) =~= fst_entries(es).take(i as int).push((encode_utf8(es[i as int].0), i as u64)));
                assert forall|a: int, b: int| 0 <= a < b < ks.len() implies lex_lt(#[trigger] ks[a], #[trigger] ks[b]) by {
                    let ks0 = entry_keys(fst_entries(es).take(i as int));
                    if b == i && a < i - 1 {
                        assert(ks0[a] == ks[a] && ks0[i - 1] == ks[i - 1]);
                        lemma_lex_transitive(ks[a], ks[i - 1], ks[b]);
                    } else if b < i {
                        assert(ks0[a] == ks[a] && ks0[b] == ks[b]);
                    }
                }
            }
            let ghost before_table = table@.map_values(|v: Vec<(u32, u32)>| v@);
            table.push(row);
            proof {
                assert(table@.map_values(|v: Vec<(u32, u32)>| v@) =~= before_table.push(built_table(es)[i as int]));
                assert(built_table(es).take(i + 1) =~= built_table(es).take(i as int).push(built_table(es)[i as int]));
            }
            i = i + 1;
        }
        proof {
            assert(fst_entries(es).take(i as int) =~= fst_entries(es));
            assert(built_table(es).take(i as int) =~= built_table(es));
            assert(es.take(i as int) =~= es);
        }
        let fst_bytes = match map_builder_finish(fst_builder) {
            Ok(b) => b,
            Err(e) => {
                return Err(MorphError::Fst(e));
            },
        };
        let lp_forms = sort_rows(&lp_raw);
        let mut out: Vec<u8> = vec![0x4Du8, 0x4B, 0x4D, 0x4F, 0x52, 0x50, 0x48, 0x32];
        proof {
            assert(out@ =~= morph_magic());
        }
        push_u32(&mut out, cut32(fst_bytes.len()));
        push_bytes(&mut out, fst_bytes.as_slice());
        push_texts_block(&mut out, &vocab);
        push_texts_block(&mut out, &lemmas);
        push_tagsets_block(&mut out, &tagsets);
        push_rows_block(&mut out, &table);
        push_lp_block(&mut out, &lp_forms);
        proof {
            assert(out@ =~= morph_blob(es, map_encoding(fst_entries(es))));
        }
        Ok(out)
    }
}

/// A packed reading's ids point inside the tables.
pub(crate) proof fn lemma_packed_in_range(es: Seq<RawEntry>, r: RawReading)
    requires
        flat_readings(es).contains(r),
    ensures
        (packed(es, r).1 as int) < built_tagsets(es).len(),
{
    lemma_reading_interned(es, r);
    let t = built_tagsets(es);
    let v = tag_ids(built_vocab(es), r.1);
    let i = choose|i: int| 0 <= i < t.len() && t[i] == v;
    lemma_first_seen(flat_readings(es).map_values(|x: RawReading| tag_ids(built_vocab(es), x.1)));
    lemma_position(t, v, i);
}

/// The ids of a tagset point inside the vocabulary.
pub(crate) proof fn lemma_tagset_ids_in_range(es: Seq<RawEntry>, i: int)
    requires
        0 <= i < built_tagsets(es).len(),
    ensures
        forall|k: int| 0 <= k < built_tagsets(es)[i].len() ==> (#[trigger] built_tagsets(es)[i][k]) < built_vocab(es).len(),
{
    let rs = flat_readings(es);
    let vecs = rs.map_values(|x: RawReading| tag_ids(built_vocab(es), x.1));
    lemma_first_seen(vecs);
    let v = built_tagsets(es)[i];
    assert(built_tagsets(es).contains(v));
    let j = choose|j: int| 0 <= j < vecs.len() && vecs[j] == v;
    lemma_first_seen(flat_tags(rs));
    assert forall|k: int| 0 <= k < v.len() implies (#[trigger] v[k]) < built_vocab(es).len() by {
        assert(v.len() == rs[j].1.len());
        lemma_tag_flattened(rs, j, k);
        let name = rs[j].1[k];
        let vocab = built_vocab(es);
        assert(vocab.contains(name));
        let p = choose|p: int| 0 <= p < vocab.len() && vocab[p] == name;
        lemma_position(vocab, name, p);
        assert(v[k] == low16(position(vocab, name) as nat));
    }
}

} // verus!
