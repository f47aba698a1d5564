//! What reading a morphology blob gives back of what building it wrote.
//!
//! Each block of the blob is written back to front (a list's bytes are the
//! bytes of all but its last item, then the last item's) and read front to
//! back; the lemmas here connect the two, block by block, and then for the
//! whole blob.

use vstd::prelude::*;
use vstd::utf8::{valid_utf8, decode_utf8, encode_utf8};
use crate::codec::{le16, le32, u16_bytes, u32_bytes, low16, low32, text_field, lemma_le16, lemma_le32, lemma_text_field};
use crate::fst_store::{map_loads, map_encoding, entries_map, entry_keys, keys_strictly_ascending};
use crate::morph_build::{
    morph_blob, morph_build, fst_entries, surfaces_ascending,
    texts_bytes, ids_bytes, tagsets_bytes, pairs_bytes, row_bytes, rows_bytes, lp_bytes, RawEntry,
    RawReading, flat_readings, flat_tags, built_vocab, built_lemmas, built_tagsets, built_table,
    built_participles, participle_rows, packed, marks_participle, tag_ids, row_key, row_order,
    lemma_reading_flattened, lemma_reading_interned, lemma_packed_in_range,
    lemma_tagset_ids_in_range, lemma_row_key_inverse,
};
use crate::translit::take_at_most;
use crate::intern::{first_seen, position, lemma_first_seen, lemma_position};
use crate::order::{lex_lt, lemma_lex_irreflexive, listing, strict_total_on, strictly_sorted, lemma_listing_exists, key_lt, lemma_key_irreflexive, lemma_key_transitive, lemma_key_total};
use crate::morphology::{
    Morphology, MorphError, lookup, header_ok, fst_field, Reading, reading_of, readings_at, MorphTables, Fault, morph_magic, morph_parse, sp_text_block, Step, sp_u8, sp_u16, sp_u32, sp_text, sp_texts, sp_ids, sp_tagsets, sp_pairs, sp_entries,
    sp_lp,
};

verus! {

/// The texts of a list, the first one first.
proof fn lemma_texts_front(xs: Seq<Seq<char>>)
    requires
        xs.len() > 0,
    ensures
        texts_bytes(xs) == text_field(xs[0]) + texts_bytes(xs.drop_first()),
    decreases xs.len(),
{
    if xs.len() == 1 {
        assert(xs.drop_first() =~= Seq::<Seq<char>>::empty());
        assert(xs.drop_last() =~= Seq::<Seq<char>>::empty());
        assert(texts_bytes(xs.drop_last()) =~= Seq::<u8>::empty());
        assert(xs.last() == xs[0]);
        assert(texts_bytes(xs) =~= text_field(xs[0]));
    } else {
        lemma_texts_front(xs.drop_last());
        assert(xs.drop_last().drop_first() =~= xs.drop_first().drop_last());
        assert(xs.drop_first().last() == xs.last());
        assert(texts_bytes(xs) =~= text_field(xs[0]) + texts_bytes(xs.drop_first()));
    }
}

/// The ids of a list, the first one first.
proof fn lemma_ids_front(xs: Seq<u16>)
    requires
        xs.len() > 0,
    ensures
        ids_bytes(xs) == u16_bytes(xs[0]) + ids_bytes(xs.drop_first()),
    decreases xs.len(),
{
    if xs.len() == 1 {
        assert(xs.drop_first() =~= Seq::<u16>::empty());
        assert(xs.drop_last() =~= Seq::<u16>::empty());
        assert(ids_bytes(xs.drop_last()) =~= Seq::<u8>::empty());
        assert(xs.last() == xs[0]);
        assert(ids_bytes(xs) =~= u16_bytes(xs[0]));
    } else {
        lemma_ids_front(xs.drop_last());
        assert(xs.drop_last().drop_first() =~= xs.drop_first().drop_last());
        assert(xs.drop_first().last() == xs.last());
        assert(ids_bytes(xs) =~= u16_bytes(xs[0]) + ids_bytes(xs.drop_first()));
    }
}

/// The tagsets of a list, the first one first.
proof fn lemma_tagsets_front(xs: Seq<Seq<u16>>)
    requires
        xs.len() > 0,
    ensures
        tagsets_bytes(xs) == seq![(xs[0].len() % 256) as u8] + ids_bytes(xs[0]) + tagsets_bytes(
            xs.drop_first(),
        ),
    decreases xs.len(),
{
    if xs.len() == 1 {
        assert(xs.drop_first() =~= Seq::<Seq<u16>>::empty());
        assert(xs.drop_last() =~= Seq::<Seq<u16>>::empty());
        assert(tagsets_bytes(xs.drop_last()) =~= Seq::<u8>::empty());
        assert(xs.last() == xs[0]);
        assert(tagsets_bytes(xs) =~= seq![(xs[0].len() % 256) as u8] + ids_bytes(xs[0]));
    } else {
        lemma_tagsets_front(xs.drop_last());
        assert(xs.drop_last().drop_first() =~= xs.drop_first().drop_last());
        assert(xs.drop_first().last() == xs.last());
        assert(tagsets_bytes(xs) =~= seq![(xs[0].len() % 256) as u8] + ids_bytes(xs[0]) + tagsets_bytes(
            xs.drop_first(),
        ));
    }
}

/// The pairs of a list, the first one first.
proof fn lemma_pairs_front(xs: Seq<(u32, u32)>)
    requires
        xs.len() > 0,
    ensures
        pairs_bytes(xs) == u32_bytes(xs[0].0) + u32_bytes(xs[0].1) + pairs_bytes(xs.drop_first()),
    decreases xs.len(),
{
    if xs.len() == 1 {
        assert(xs.drop_first() =~= Seq::<(u32, u32)>::empty());
        assert(xs.drop_last() =~= Seq::<(u32, u32)>::empty());
        assert(pairs_bytes(xs.drop_last()) =~= Seq::<u8>::empty());
        assert(xs.last() == xs[0]);
        assert(pairs_bytes(xs) =~= u32_bytes(xs[0].0) + u32_bytes(xs[0].1));
    } else {
        lemma_pairs_front(xs.drop_last());
        assert(xs.drop_last().drop_first() =~= xs.drop_first().drop_last());
        assert(xs.drop_first().last() == xs.last());
        assert(pairs_bytes(xs) =~= u32_bytes(xs[0].0) + u32_bytes(xs[0].1) + pairs_bytes(xs.drop_first()));
    }
}

/// The rows of a list, the first one first.
proof fn lemma_rows_front(xs: Seq<Seq<(u32, u32)>>)
    requires
        xs.len() > 0,
    ensures
        rows_bytes(xs) == row_bytes(xs[0]) + rows_bytes(xs.drop_first()),
    decreases xs.len(),
{
    if xs.len() == 1 {
        assert(xs.drop_first() =~= Seq::<Seq<(u32, u32)>>::empty());
        assert(xs.drop_last() =~= Seq::<Seq<(u32, u32)>>::empty());
        assert(rows_bytes(xs.drop_last()) =~= Seq::<u8>::empty());
        assert(xs.last() == xs[0]);
        assert(rows_bytes(xs) =~= row_bytes(xs[0]));
    } else {
        lemma_rows_front(xs.drop_last());
        assert(xs.drop_last().drop_first() =~= xs.drop_first().drop_last());
        assert(xs.drop_first().last() == xs.last());
        assert(rows_bytes(xs) =~= row_bytes(xs[0]) + rows_bytes(xs.drop_first()));
    }
}

/// The participle rows of a list, the first one first.
proof fn lemma_lp_front(xs: Seq<(u32, Seq<char>)>)
    requires
        xs.len() > 0,
    ensures
        lp_bytes(xs) == u32_bytes(xs[0].0) + text_field(xs[0].1) + lp_bytes(xs.drop_first()),
    decreases xs.len(),
{
    if xs.len() == 1 {
        assert(xs.drop_first() =~= Seq::<(u32, Seq<char>)>::empty());
        assert(xs.drop_last() =~= Seq::<(u32, Seq<char>)>::empty());
        assert(lp_bytes(xs.drop_last()) =~= Seq::<u8>::empty());
        assert(xs.last() == xs[0]);
        assert(lp_bytes(xs) =~= u32_bytes(xs[0].0) + text_field(xs[0].1));
    } else {
        lemma_lp_front(xs.drop_last());
        assert(xs.drop_last().drop_first() =~= xs.drop_first().drop_last());
        assert(xs.drop_first().last() == xs.last());
        assert(lp_bytes(xs) =~= u32_bytes(xs[0].0) + text_field(xs[0].1) + lp_bytes(xs.drop_first()));
    }
}

/// Texts that fit a 16-bit length read back from between other bytes.
proof fn lemma_parse_texts(pre: Seq<u8>, xs: Seq<Seq<char>>, post: Seq<u8>)
    requires
        forall|i: int| 0 <= i < xs.len() ==> encode_utf8(#[trigger] xs[i]).len() <= 0xFFFF,
    ensures
        sp_texts(pre + texts_bytes(xs) + post, pre.len() as int, xs.len()) == Ok::<(Seq<Seq<char>>, int), Fault>(
            (xs, (pre.len() + texts_bytes(xs).len()) as int),
        ),
    decreases xs.len(),
{
    if xs.len() == 0 {
        assert(xs =~= Seq::<Seq<char>>::empty());
    } else {
        let b = pre + texts_bytes(xs) + post;
        lemma_texts_front(xs);
        let x = xs[0];
        let rest = xs.drop_first();
        let p = pre.len() as int;
        let f = text_field(x);
        let pre2 = pre + f;
        assert(b =~= pre2 + texts_bytes(rest) + post);
        assert(b.subrange(p, p + f.len()) =~= f);
        lemma_text_field(b, p, x);
        assert(sp_text(b, p) == Ok::<(Seq<char>, int), Fault>((x, p + f.len())));
        assert forall|i: int| 0 <= i < rest.len() implies encode_utf8(#[trigger] rest[i]).len() <= 0xFFFF by {
            assert(rest[i] == xs[i + 1]);
        }
        lemma_parse_texts(pre2, rest, post);
        assert(seq![x] + rest =~= xs);
    }
}

/// Ids below `bound` read back from between other bytes.
proof fn lemma_parse_ids(pre: Seq<u8>, xs: Seq<u16>, post: Seq<u8>, bound: nat)
    requires
        forall|i: int| 0 <= i < xs.len() ==> (#[trigger] xs[i]) < bound,
    ensures
        sp_ids(pre + ids_bytes(xs) + post, pre.len() as int, xs.len(), bound) == Ok::<(Seq<u16>, int), Fault>(
            (xs, (pre.len() + ids_bytes(xs).len()) as int),
        ),
    decreases xs.len(),
{
    if xs.len() == 0 {
        assert(xs =~= Seq::<u16>::empty());
    } else {
        let b = pre + ids_bytes(xs) + post;
        lemma_ids_front(xs);
        let x = xs[0];
        let rest = xs.drop_first();
        let p = pre.len() as int;
        let pre2 = pre + u16_bytes(x);
        assert(b =~= pre2 + ids_bytes(rest) + post);
        assert(b.subrange(p, p + 2) =~= u16_bytes(x));
        lemma_le16(x, b, p);
        assert(sp_u16(b, p) == Ok::<(u16, int), Fault>((x, p + 2)));
        assert forall|i: int| 0 <= i < rest.len() implies (#[trigger] rest[i]) < bound by {
            assert(rest[i] == xs[i + 1]);
        }
        lemma_parse_ids(pre2, rest, post, bound);
        assert(seq![x] + rest =~= xs);
    }
}

/// Tagsets of fewer than 256 ids below `bound` read back from between other
/// bytes.
proof fn lemma_parse_tagsets(pre: Seq<u8>, xs: Seq<Seq<u16>>, post: Seq<u8>, bound: nat)
    requires
        forall|i: int| 0 <= i < xs.len() ==> (#[trigger] xs[i]).len() < 256,
        forall|i: int, k: int| 0 <= i < xs.len() && 0 <= k < xs[i].len() ==> (#[trigger] xs[i][k]) < bound,
    ensures
        sp_tagsets(pre + tagsets_bytes(xs) + post, pre.len() as int, xs.len(), bound) == Ok::<
            (Seq<Seq<u16>>, int),
            Fault,
        >((xs, (pre.len() + tagsets_bytes(xs).len()) as int)),
    decreases xs.len(),
{
    if xs.len() == 0 {
        assert(xs =~= Seq::<Seq<u16>>::empty());
    } else {
        let b = pre + tagsets_bytes(xs) + post;
        lemma_tagsets_front(xs);
        let x = xs[0];
        let rest = xs.drop_first();
        let p = pre.len() as int;
        let head = seq![(x.len() % 256) as u8];
        let pre1 = pre + head;
        let pre2 = pre1 + ids_bytes(x);
        assert(b =~= pre1 + ids_bytes(x) + (tagsets_bytes(rest) + post));
        assert(b =~= pre2 + tagsets_bytes(rest) + post);
        assert(b[p] == (x.len() % 256) as u8);
        assert(sp_u8(b, p) == Ok::<(u8, int), Fault>((x.len() as u8, p + 1)));
        assert forall|k: int| 0 <= k < x.len() implies (#[trigger] x[k]) < bound by {
            assert(xs[0][k] == x[k]);
        }
        lemma_parse_ids(pre1, x, tagsets_bytes(rest) + post, bound);
        assert forall|i: int| 0 <= i < rest.len() implies (#[trigger] rest[i]).len() < 256 by {
            assert(rest[i] == xs[i + 1]);
        }
        assert forall|i: int, k: int| 0 <= i < rest.len() && 0 <= k < rest[i].len() implies (#[trigger] rest[i][k])
            < bound by {
            assert(rest[i] == xs[i + 1]);
            assert(xs[i + 1][k] == rest[i][k]);
        }
        lemma_parse_tagsets(pre2, rest, post, bound);
        assert(seq![x] + rest =~= xs);
    }
}

/// Pairs with ids below their bounds read back from between other bytes.
proof fn lemma_parse_pairs(pre: Seq<u8>, xs: Seq<(u32, u32)>, post: Seq<u8>, lemmas: nat, tagsets: nat)
    requires
        forall|i: int| 0 <= i < xs.len() ==> (#[trigger] xs[i]).0 < lemmas && xs[i].1 < tagsets,
    ensures
        sp_pairs(pre + pairs_bytes(xs) + post, pre.len() as int, xs.len(), lemmas, tagsets) == Ok::<
            (Seq<(u32, u32)>, int),
            Fault,
        >((xs, (pre.len() + pairs_bytes(xs).len()) as int)),
    decreases xs.len(),
{
    if xs.len() == 0 {
        assert(xs =~= Seq::<(u32, u32)>::empty());
    } else {
        let b = pre + pairs_bytes(xs) + post;
        lemma_pairs_front(xs);
        let x = xs[0];
        let rest = xs.drop_first();
        let p = pre.len() as int;
        let pre2 = pre + u32_bytes(x.0) + u32_bytes(x.1);
        assert(b =~= pre2 + pairs_bytes(rest) + post);
        assert(b.subrange(p, p + 4) =~= u32_bytes(x.0));
        assert(b.subrange(p + 4, p + 8) =~= u32_bytes(x.1));
        lemma_le32(x.0, b, p);
        lemma_le32(x.1, b, p + 4);
        assert forall|i: int| 0 <= i < rest.len() implies (#[trigger] rest[i]).0 < lemmas && rest[i].1 < tagsets by {
            assert(rest[i] == xs[i + 1]);
        }
        lemma_parse_pairs(pre2, rest, post, lemmas, tagsets);
        assert(seq![x] + rest =~= xs);
    }
}

/// A row of at most 255 pairs is written whole, after its length.
proof fn lemma_row_bytes_short(x: Seq<(u32, u32)>)
    requires
        x.len() <= 255,
    ensures
        row_bytes(x) == seq![x.len() as u8] + pairs_bytes(x),
{
    assert(x.take(x.len() as int) =~= x);
}

/// Entries of at most 255 pairs read back from between other bytes.
#[verifier::spinoff_prover]
#[verifier::rlimit(100)]
proof fn lemma_parse_entries(pre: Seq<u8>, xs: Seq<Seq<(u32, u32)>>, post: Seq<u8>, lemmas: nat, tagsets: nat)
    requires
        forall|i: int| 0 <= i < xs.len() ==> (#[trigger] xs[i]).len() <= 255,
        forall|i: int, k: int|
            0 <= i < xs.len() && 0 <= k < xs[i].len() ==> (#[trigger] xs[i][k]).0 < lemmas && xs[i][k].1 < tagsets,
    ensures
        sp_entries(pre + rows_bytes(xs) + post, pre.len() as int, xs.len(), lemmas, tagsets) == Ok::<
            (Seq<Seq<(u32, u32)>>, int),
            Fault,
        >((xs, (pre.len() + rows_bytes(xs).len()) as int)),
    decreases xs.len(),
{
    if xs.len() == 0 {
        assert(xs =~= Seq::<Seq<(u32, u32)>>::empty());
    } else {
        let b = pre + rows_bytes(xs) + post;
        lemma_rows_front(xs);
        let x = xs[0];
        let rest = xs.drop_first();
        let p = pre.len() as int;
        lemma_row_bytes_short(x);
        let pre1 = pre + seq![x.len() as u8];
        let pre2 = pre1 + pairs_bytes(x);
        assert(b =~= pre1 + pairs_bytes(x) + (rows_bytes(rest) + post));
        assert(b =~= pre2 + rows_bytes(rest) + post);
        assert(b[p] == x.len() as u8);
        assert(sp_u8(b, p) == Ok::<(u8, int), Fault>((x.len() as u8, p + 1)));
        assert forall|k: int| 0 <= k < x.len() implies (#[trigger] x[k]).0 < lemmas && x[k].1 < tagsets by {
            assert(xs[0][k] == x[k]);
        }
        lemma_parse_pairs(pre1, x, rows_bytes(rest) + post, lemmas, tagsets);
        assert forall|i: int| 0 <= i < rest.len() implies (#[trigger] rest[i]).len() <= 255 by {
            assert(rest[i] == xs[i + 1]);
        }
        assert forall|i: int, k: int| 0 <= i < rest.len() && 0 <= k < rest[i].len() implies (#[trigger] rest[i][k]).0
            < lemmas && rest[i][k].1 < tagsets by {
            assert(rest[i] == xs[i + 1]);
            assert(xs[i + 1][k] == rest[i][k]);
        }
        lemma_parse_entries(pre2, rest, post, lemmas, tagsets);
        assert(seq![x] + rest =~= xs);
    }
}

/// Participle rows with lemma ids below `lemmas` and short surfaces read
/// back from between other bytes.
#[verifier::spinoff_prover]
#[verifier::rlimit(100)]
proof fn lemma_parse_lp(pre: Seq<u8>, xs: Seq<(u32, Seq<char>)>, post: Seq<u8>, lemmas: nat)
    requires
        forall|i: int| 0 <= i < xs.len() ==> (#[trigger] xs[i]).0 < lemmas && encode_utf8(xs[i].1).len() <= 0xFFFF,
    ensures
        sp_lp(pre + lp_bytes(xs) + post, pre.len() as int, xs.len(), lemmas) == Ok::<
            (Seq<(u32, Seq<char>)>, int),
            Fault,
        >((xs, (pre.len() + lp_bytes(xs).len()) as int)),
    decreases xs.len(),
{
    if xs.len() == 0 {
        assert(xs =~= Seq::<(u32, Seq<char>)>::empty());
    } else {
        let b = pre + lp_bytes(xs) + post;
        lemma_lp_front(xs);
        let x = xs[0];
        let rest = xs.drop_first();
        let p = pre.len() as int;
        let f = text_field(x.1);
        let pre2 = pre + u32_bytes(x.0) + f;
        assert(b =~= pre2 + lp_bytes(rest) + post);
        assert(b.subrange(p, p + 4) =~= u32_bytes(x.0));
        lemma_le32(x.0, b, p);
        assert(b.subrange(p + 4, p + 4 + f.len()) =~= f);
        lemma_text_field(b, p + 4, x.1);
        assert(sp_text(b, p + 4) == Ok::<(Seq<char>, int), Fault>((x.1, p + 4 + f.len())));
        assert forall|i: int| 0 <= i < rest.len() implies (#[trigger] rest[i]).0 < lemmas && encode_utf8(rest[i].1).len()
            <= 0xFFFF by {
            assert(rest[i] == xs[i + 1]);
        }
        lemma_parse_lp(pre2, rest, post, lemmas);
        assert(seq![x] + rest =~= xs);
    }
}

/// The readings of each entry as the blob keeps them: the first 255.
pub open spec fn kept_table(es: Seq<RawEntry>) -> Seq<Seq<(u32, u32)>> {
    built_table(es).map_values(|row: Seq<(u32, u32)>| take_at_most(row, 255))
}

/// The tables [`Morphology::build`] writes for `es`.
pub open spec fn built_tables(es: Seq<RawEntry>) -> MorphTables {
    MorphTables {
        vocab: built_vocab(es),
        lemmas: built_lemmas(es),
        tagsets: built_tagsets(es),
        entries: kept_table(es),
        lp_forms: built_participles(es),
    }
}

/// A row is written as its first 255 pairs would be.
proof fn lemma_rows_kept(xs: Seq<Seq<(u32, u32)>>)
    ensures
        rows_bytes(xs) == rows_bytes(xs.map_values(|row: Seq<(u32, u32)>| take_at_most(row, 255))),
    decreases xs.len(),
{
    let ks = xs.map_values(|row: Seq<(u32, u32)>| take_at_most(row, 255));
    if xs.len() > 0 {
        lemma_rows_kept(xs.drop_last());
        assert(ks.drop_last() =~= xs.drop_last().map_values(|row: Seq<(u32, u32)>| take_at_most(row, 255)));
        let x = xs.last();
        assert(ks.last() == take_at_most(x, 255));
        if x.len() > 255 {
            assert(x.take(255).take(255) =~= x.take(255));
        }
        assert(row_bytes(x) == row_bytes(take_at_most(x, 255)));
    }
}

/// `es` fits the fields of the blob: every surface form, tag name and lemma
/// fits a 16-bit byte length, a reading has fewer than 256 tags, there are
/// at most 65536 tag names, and every count fits 32 bits. (A form may have
/// any number of readings; the blob keeps the first 255.)
#[verifier::opaque]
pub open spec fn fits_format(es: Seq<RawEntry>) -> bool {
    &&& es.len() < 0x1_0000_0000
    &&& forall|i: int| 0 <= i < es.len() ==> encode_utf8((#[trigger] es[i]).0).len() <= 0xFFFF
    &&& forall|r: RawReading| #[trigger] flat_readings(es).contains(r) ==> r.1.len() < 256
    &&& forall|k: int| 0 <= k < built_vocab(es).len() ==> encode_utf8(#[trigger] built_vocab(es)[k]).len() <= 0xFFFF
    &&& forall|k: int| 0 <= k < built_lemmas(es).len() ==> encode_utf8(#[trigger] built_lemmas(es)[k]).len() <= 0xFFFF
    &&& built_vocab(es).len() <= 0x10000
    &&& built_lemmas(es).len() < 0x1_0000_0000
    &&& built_tagsets(es).len() < 0x1_0000_0000
    &&& built_participles(es).len() < 0x1_0000_0000
}

/// The tagsets have fewer than 256 ids, each naming a tag.
proof fn lemma_tagsets_fit(es: Seq<RawEntry>)
    requires
        fits_format(es),
    ensures
        forall|i: int| 0 <= i < built_tagsets(es).len() ==> (#[trigger] built_tagsets(es)[i]).len() < 256,
        forall|i: int, k: int|
            0 <= i < built_tagsets(es).len() && 0 <= k < built_tagsets(es)[i].len() ==> (#[trigger] built_tagsets(
                es,
            )[i][k]) < built_vocab(es).len(),
{
    reveal(fits_format);
    let rs = flat_readings(es);
    let vecs = rs.map_values(|x: RawReading| tag_ids(built_vocab(es), x.1));
    lemma_first_seen(vecs);
    assert forall|i: int| 0 <= i < built_tagsets(es).len() implies (#[trigger] built_tagsets(es)[i]).len() < 256 by {
        let v = built_tagsets(es)[i];
        assert(built_tagsets(es).contains(v));
        let j = choose|j: int| 0 <= j < vecs.len() && vecs[j] == v;
        assert(rs.contains(rs[j]));
    }
    assert forall|i: int, k: int|
        0 <= i < built_tagsets(es).len() && 0 <= k < built_tagsets(es)[i].len() implies (#[trigger] built_tagsets(
            es,
        )[i][k]) < built_vocab(es).len() by {
        lemma_tagset_ids_in_range(es, i);
    }
}

/// A packed reading's lemma id is the lemma's position.
proof fn lemma_packed_lemma(es: Seq<RawEntry>, r: RawReading)
    requires
        fits_format(es),
        flat_readings(es).contains(r),
    ensures
        packed(es, r).0 as int == position(built_lemmas(es), r.0),
        0 <= position(built_lemmas(es), r.0) < built_lemmas(es).len(),
        built_lemmas(es)[position(built_lemmas(es), r.0)] == r.0,
{
    reveal(fits_format);
    lemma_reading_interned(es, r);
    let l = built_lemmas(es);
    let i = choose|i: int| 0 <= i < l.len() && l[i] == r.0;
    assert(0 <= position(l, r.0) < l.len() && l[position(l, r.0)] == r.0);
}

/// The rows have at most 255 pairs, each pointing inside the tables.
proof fn lemma_table_fits(es: Seq<RawEntry>)
    requires
        fits_format(es),
    ensures
        kept_table(es).len() == built_table(es).len(),
        forall|i: int| 0 <= i < kept_table(es).len() ==> (#[trigger] kept_table(es)[i]).len() <= 255,
        forall|i: int, k: int|
            0 <= i < kept_table(es).len() && 0 <= k < kept_table(es)[i].len() ==> (#[trigger] kept_table(es)[i][k]).0
                < built_lemmas(es).len() && kept_table(es)[i][k].1 < built_tagsets(es).len(),
{
    reveal(fits_format);
    assert forall|i: int, k: int|
        0 <= i < kept_table(es).len() && 0 <= k < kept_table(es)[i].len() implies (#[trigger] kept_table(es)[i][k]).0
            < built_lemmas(es).len() && kept_table(es)[i][k].1 < built_tagsets(es).len() by {
        let r = es[i].1[k];
        assert(kept_table(es)[i] == take_at_most(built_table(es)[i], 255));
        assert(kept_table(es)[i][k] == built_table(es)[i][k]);
        assert(built_table(es)[i][k] == packed(es, r));
        lemma_reading_flattened(es, i, k);
        lemma_packed_in_range(es, r);
        lemma_packed_lemma(es, r);
    }
}

/// Every participle row comes from a reading of some entry of `part`, and
/// carries that entry's surface form.
proof fn lemma_participle_rows_members(es: Seq<RawEntry>, part: Seq<RawEntry>, x: (u32, Seq<char>))
    requires
        participle_rows(es, part).contains(x),
    ensures
        exists|i: int, j: int|
            0 <= i < part.len() && 0 <= j < part[i].1.len() && x == (packed(es, #[trigger] part[i].1[j]).0, part[i].0),
    decreases part.len(),
{
    let e = part.last();
    let rest = participle_rows(es, part.drop_last());
    let packs = e.1.map_values(|r: RawReading| packed(es, r));
    let f = packs.filter(|p: (u32, u32)| marks_participle(es, p));
    let m = f.map_values(|p: (u32, u32)| (p.0, e.0));
    assert(participle_rows(es, part) == rest + m);
    let k = choose|k: int| 0 <= k < (rest + m).len() && (rest + m)[k] == x;
    if k < rest.len() {
        assert(rest.contains(x));
        lemma_participle_rows_members(es, part.drop_last(), x);
        let (i, j) = choose|i: int, j: int|
            0 <= i < part.drop_last().len() && 0 <= j < part.drop_last()[i].1.len() && x == (packed(
                es,
                #[trigger] part.drop_last()[i].1[j],
            ).0, part.drop_last()[i].0);
        assert(part[i] == part.drop_last()[i]);
        assert(x == (packed(es, part[i].1[j]).0, part[i].0));
    } else {
        let n = k - rest.len();
        assert(m[n] == x);
        assert(f.contains(f[n]));
        packs.lemma_filter_contains_rev(|p: (u32, u32)| marks_participle(es, p), f[n]);
        let j = choose|j: int| 0 <= j < packs.len() && packs[j] == f[n];
        let i = part.len() - 1;
        assert(part[i] == e);
        assert(x == (packed(es, part[i].1[j]).0, part[i].0));
    }
}

/// `row_order` orders any set of rows strictly and totally.
proof fn lemma_row_order_strict_total(s: Set<(u32, Seq<char>)>)
    ensures
        strict_total_on(s, row_order()),
{
    let lt = row_order();
    assert forall|a: (u32, Seq<char>)| #[trigger] s.contains(a) implies !lt(a, a) by {
        lemma_key_irreflexive(row_key(a));
    }
    assert forall|a: (u32, Seq<char>), b: (u32, Seq<char>), c: (u32, Seq<char>)|
        s.contains(a) && s.contains(b) && s.contains(c) && #[trigger] lt(a, b) && #[trigger] lt(b, c) implies lt(
        a,
        c,
    ) by {
        lemma_key_transitive(row_key(a), row_key(b), row_key(c));
    }
    assert forall|a: (u32, Seq<char>), b: (u32, Seq<char>)| s.contains(a) && s.contains(b) && a != b implies #[trigger] lt(
        a,
        b,
    ) || lt(b, a) by {
        lemma_row_key_inverse(a);
        lemma_row_key_inverse(b);
        assert(row_key(a) != row_key(b));
        lemma_key_total(row_key(a), row_key(b));
    }
}

/// The participle rows point inside the lemma table and carry short surface
/// forms.
proof fn lemma_lp_fits(es: Seq<RawEntry>)
    requires
        fits_format(es),
    ensures
        forall|i: int| 0 <= i < built_participles(es).len() ==> (#[trigger] built_participles(es)[i]).0
            < built_lemmas(es).len() && encode_utf8(built_participles(es)[i].1).len() <= 0xFFFF,
{
    reveal(fits_format);
    let rows = participle_rows(es, es);
    lemma_row_order_strict_total(rows.to_set());
    lemma_listing_exists(rows.to_set(), row_order());
    let lp = built_participles(es);
    assert forall|i: int| 0 <= i < lp.len() implies (#[trigger] lp[i]).0 < built_lemmas(es).len() && encode_utf8(
        lp[i].1,
    ).len() <= 0xFFFF by {
        assert(lp.to_set().contains(lp[i]));
        assert(rows.to_set().contains(lp[i]));
        lemma_participle_rows_members(es, es, lp[i]);
        let (a, b) = choose|a: int, b: int|
            0 <= a < es.len() && 0 <= b < es[a].1.len() && lp[i] == (packed(es, #[trigger] es[a].1[b]).0, es[a].0);
        lemma_reading_flattened(es, a, b);
        lemma_packed_lemma(es, es[a].1[b]);
    }
}

/// The counts the blob writes fit 32 bits.
proof fn lemma_fits_counts(es: Seq<RawEntry>)
    requires
        fits_format(es),
    ensures
        es.len() < 0x1_0000_0000,
        built_vocab(es).len() <= 0x10000,
        built_lemmas(es).len() < 0x1_0000_0000,
        built_tagsets(es).len() < 0x1_0000_0000,
        built_table(es).len() < 0x1_0000_0000,
        built_participles(es).len() < 0x1_0000_0000,
        forall|k: int| 0 <= k < built_vocab(es).len() ==> encode_utf8(#[trigger] built_vocab(es)[k]).len() <= 0xFFFF,
        forall|k: int| 0 <= k < built_lemmas(es).len() ==> encode_utf8(#[trigger] built_lemmas(es)[k]).len() <= 0xFFFF,
{
    reveal(fits_format);
}

/// Reading a blob whose pieces each read back as given.
proof fn lemma_parse_from_pieces(
    b: Seq<u8>,
    fst: Seq<u8>,
    t: MorphTables,
    p2: int,
    p3: int,
    p5: int,
    p7: int,
)
    requires
        b.len() >= 8,
        b.take(8) == morph_magic(),
        sp_u32(b, 8) == Ok::<(u32, int), Fault>((fst.len() as u32, 12)),
        fst.len() < 0x1_0000_0000,
        12 + fst.len() <= b.len(),
        b.subrange(12, 12 + fst.len() as int) == fst,
        map_loads(fst),
        sp_text_block(b, 12 + fst.len() as int) == Ok::<(Seq<Seq<char>>, int), Fault>((t.vocab, p2)),
        sp_text_block(b, p2) == Ok::<(Seq<Seq<char>>, int), Fault>((t.lemmas, p3)),
        sp_u32(b, p3) == Ok::<(u32, int), Fault>((t.tagsets.len() as u32, p3 + 4)),
        t.tagsets.len() < 0x1_0000_0000,
        sp_tagsets(b, p3 + 4, t.tagsets.len(), t.vocab.len()) == Ok::<(Seq<Seq<u16>>, int), Fault>((t.tagsets, p5)),
        sp_u32(b, p5) == Ok::<(u32, int), Fault>((t.entries.len() as u32, p5 + 4)),
        t.entries.len() < 0x1_0000_0000,
        sp_entries(b, p5 + 4, t.entries.len(), t.lemmas.len(), t.tagsets.len()) == Ok::<
            (Seq<Seq<(u32, u32)>>, int),
            Fault,
        >((t.entries, p7)),
        sp_u32(b, p7) == Ok::<(u32, int), Fault>((t.lp_forms.len() as u32, p7 + 4)),
        t.lp_forms.len() < 0x1_0000_0000,
        sp_lp(b, p7 + 4, t.lp_forms.len(), t.lemmas.len()) matches Ok((lp, _)) && lp == t.lp_forms,
    ensures
        morph_parse(b) == Ok::<(Seq<u8>, MorphTables), Fault>((fst, t)),
{
}

/// The blob [`Morphology::build`] writes, as an opaque value.
#[verifier::opaque]
spec fn blob(es: Seq<RawEntry>, fst: Seq<u8>) -> Seq<u8> {
    morph_blob(es, fst)
}

/// Where the vocabulary's count stands in the blob.
spec fn at_vocab(fst: Seq<u8>) -> int {
    12 + fst.len() as int
}

/// Where the lemmas' count stands in the blob.
spec fn at_lemmas(es: Seq<RawEntry>, fst: Seq<u8>) -> int {
    at_vocab(fst) + 4 + texts_bytes(built_vocab(es)).len()
}

/// Where the tagsets' count stands in the blob.
spec fn at_tagsets(es: Seq<RawEntry>, fst: Seq<u8>) -> int {
    at_lemmas(es, fst) + 4 + texts_bytes(built_lemmas(es)).len()
}

/// Where the entries' count stands in the blob.
spec fn at_entries(es: Seq<RawEntry>, fst: Seq<u8>) -> int {
    at_tagsets(es, fst) + 4 + tagsets_bytes(built_tagsets(es)).len()
}

/// Where the participle rows' count stands in the blob.
spec fn at_lp(es: Seq<RawEntry>, fst: Seq<u8>) -> int {
    at_entries(es, fst) + 4 + rows_bytes(built_table(es)).len()
}

/// The participle block stands at the end of the blob.
#[verifier::spinoff_prover]
#[verifier::rlimit(100)]
proof fn lemma_window_lp(es: Seq<RawEntry>, fst: Seq<u8>)
    ensures
        blob(es, fst).len() == at_lp(es, fst) + 4 + lp_bytes(built_participles(es)).len(),
        blob(es, fst).subrange(at_lp(es, fst) + 4, blob(es, fst).len() as int) == lp_bytes(built_participles(es)),
        blob(es, fst).subrange(at_lp(es, fst), at_lp(es, fst) + 4) == u32_bytes(low32(built_participles(es).len())),
{
    reveal(blob);
    let lp = built_participles(es);
    let c5 = u32_bytes(low32(lp.len()));
    let lb = lp_bytes(lp);
    let b = blob(es, fst);
    let q10 = b.subrange(0, at_lp(es, fst));
    assert(b.len() == at_lp(es, fst) + 4 + lb.len());
    assert(b.subrange(at_lp(es, fst) + 4, b.len() as int) =~= lb);
    assert(b.subrange(at_lp(es, fst), at_lp(es, fst) + 4) =~= c5);
}

/// The magic stands at the head of the blob.
#[verifier::spinoff_prover]
#[verifier::rlimit(100)]
proof fn lemma_window_magic(es: Seq<RawEntry>, fst: Seq<u8>)
    ensures
        blob(es, fst).len() >= at_vocab(fst),
        blob(es, fst).subrange(0, 8) == morph_magic(),
{
    reveal(blob);
    assert(blob(es, fst).subrange(0, 8) =~= morph_magic());
}

/// The FST's length follows the magic.
#[verifier::spinoff_prover]
#[verifier::rlimit(100)]
proof fn lemma_window_fst_len(es: Seq<RawEntry>, fst: Seq<u8>)
    ensures
        blob(es, fst).len() >= at_vocab(fst),
        blob(es, fst).subrange(8, 12) == u32_bytes(low32(fst.len())),
{
    reveal(blob);
    assert(blob(es, fst).subrange(8, 12) =~= u32_bytes(low32(fst.len())));
}

/// The FST bytes follow their length.
#[verifier::spinoff_prover]
#[verifier::rlimit(100)]
proof fn lemma_window_fst(es: Seq<RawEntry>, fst: Seq<u8>)
    ensures
        blob(es, fst).len() >= at_vocab(fst),
        blob(es, fst).subrange(12, at_vocab(fst)) == fst,
{
    reveal(blob);
    assert(blob(es, fst).subrange(12, at_vocab(fst)) =~= fst);
}

/// The magic, the FST's length and the FST bytes stand at the head of the
/// blob.
proof fn lemma_window_head(es: Seq<RawEntry>, fst: Seq<u8>)
    ensures
        blob(es, fst).len() >= at_vocab(fst),
        blob(es, fst).subrange(0, 8) == morph_magic(),
        blob(es, fst).subrange(8, 12) == u32_bytes(low32(fst.len())),
        blob(es, fst).subrange(12, at_vocab(fst)) == fst,
{
    lemma_window_magic(es, fst);
    lemma_window_fst_len(es, fst);
    lemma_window_fst(es, fst);
}

/// The vocabulary block stands in its window of the blob.
#[verifier::spinoff_prover]
#[verifier::rlimit(100)]
proof fn lemma_window_vocab(es: Seq<RawEntry>, fst: Seq<u8>)
    ensures
        blob(es, fst).len() >= at_lemmas(es, fst),
        blob(es, fst).subrange(at_vocab(fst), at_vocab(fst) + 4) == u32_bytes(low32(built_vocab(es).len())),
        blob(es, fst).subrange(at_vocab(fst) + 4, at_lemmas(es, fst)) == texts_bytes(built_vocab(es)),
{
    reveal(blob);
    let b = blob(es, fst);
    assert(b.subrange(at_vocab(fst), at_vocab(fst) + 4) =~= u32_bytes(low32(built_vocab(es).len())));
    assert(b.subrange(at_vocab(fst) + 4, at_lemmas(es, fst)) =~= texts_bytes(built_vocab(es)));
}

/// The lemma block stands in its window of the blob.
#[verifier::spinoff_prover]
#[verifier::rlimit(100)]
proof fn lemma_window_lemmas(es: Seq<RawEntry>, fst: Seq<u8>)
    ensures
        blob(es, fst).len() >= at_tagsets(es, fst),
        blob(es, fst).subrange(at_lemmas(es, fst), at_lemmas(es, fst) + 4) == u32_bytes(low32(built_lemmas(es).len())),
        blob(es, fst).subrange(at_lemmas(es, fst) + 4, at_tagsets(es, fst)) == texts_bytes(built_lemmas(es)),
{
    reveal(blob);
    let b = blob(es, fst);
    assert(b.subrange(at_lemmas(es, fst), at_lemmas(es, fst) + 4) =~= u32_bytes(low32(built_lemmas(es).len())));
    assert(b.subrange(at_lemmas(es, fst) + 4, at_tagsets(es, fst)) =~= texts_bytes(built_lemmas(es)));
}

/// The tagset block stands in its window of the blob.
#[verifier::spinoff_prover]
#[verifier::rlimit(100)]
proof fn lemma_window_tagsets(es: Seq<RawEntry>, fst: Seq<u8>)
    ensures
        blob(es, fst).len() >= at_entries(es, fst),
        blob(es, fst).subrange(at_tagsets(es, fst), at_tagsets(es, fst) + 4) == u32_bytes(low32(built_tagsets(es).len())),
        blob(es, fst).subrange(at_tagsets(es, fst) + 4, at_entries(es, fst)) == tagsets_bytes(built_tagsets(es)),
{
    reveal(blob);
    let b = blob(es, fst);
    assert(b.subrange(at_tagsets(es, fst), at_tagsets(es, fst) + 4) =~= u32_bytes(low32(built_tagsets(es).len())));
    assert(b.subrange(at_tagsets(es, fst) + 4, at_entries(es, fst)) =~= tagsets_bytes(built_tagsets(es)));
}

/// The entry block stands in its window of the blob.
#[verifier::spinoff_prover]
#[verifier::rlimit(100)]
proof fn lemma_window_entries(es: Seq<RawEntry>, fst: Seq<u8>)
    ensures
        blob(es, fst).len() >= at_lp(es, fst),
        blob(es, fst).subrange(at_entries(es, fst), at_entries(es, fst) + 4) == u32_bytes(low32(built_table(es).len())),
        blob(es, fst).subrange(at_entries(es, fst) + 4, at_lp(es, fst)) == rows_bytes(built_table(es)),
{
    reveal(blob);
    let b = blob(es, fst);
    assert(b.subrange(at_entries(es, fst), at_entries(es, fst) + 4) =~= u32_bytes(low32(built_table(es).len())));
    assert(b.subrange(at_entries(es, fst) + 4, at_lp(es, fst)) =~= rows_bytes(built_table(es)));
}

/// A 32-bit value read from its window.
proof fn lemma_u32_window(b: Seq<u8>, pos: int, v: u32)
    requires
        0 <= pos,
        pos + 4 <= b.len(),
        b.subrange(pos, pos + 4) == u32_bytes(v),
    ensures
        sp_u32(b, pos) == Ok::<(u32, int), Fault>((v, pos + 4)),
{
    lemma_le32(v, b, pos);
}

/// Texts read from their window.
proof fn lemma_texts_window(b: Seq<u8>, pos: int, end: int, xs: Seq<Seq<char>>)
    requires
        0 <= pos <= end <= b.len(),
        b.subrange(pos, end) == texts_bytes(xs),
        forall|i: int| 0 <= i < xs.len() ==> encode_utf8(#[trigger] xs[i]).len() <= 0xFFFF,
    ensures
        sp_texts(b, pos, xs.len()) == Ok::<(Seq<Seq<char>>, int), Fault>((xs, end)),
{
    let pre = b.subrange(0, pos);
    let post = b.subrange(end, b.len() as int);
    assert(b =~= pre + texts_bytes(xs) + post);
    lemma_parse_texts(pre, xs, post);
}

/// Tagsets read from their window.
proof fn lemma_tagsets_window(b: Seq<u8>, pos: int, end: int, xs: Seq<Seq<u16>>, bound: nat)
    requires
        0 <= pos <= end <= b.len(),
        b.subrange(pos, end) == tagsets_bytes(xs),
        forall|i: int| 0 <= i < xs.len() ==> (#[trigger] xs[i]).len() < 256,
        forall|i: int, k: int| 0 <= i < xs.len() && 0 <= k < xs[i].len() ==> (#[trigger] xs[i][k]) < bound,
    ensures
        sp_tagsets(b, pos, xs.len(), bound) == Ok::<(Seq<Seq<u16>>, int), Fault>((xs, end)),
{
    let pre = b.subrange(0, pos);
    let post = b.subrange(end, b.len() as int);
    assert(b =~= pre + tagsets_bytes(xs) + post);
    lemma_parse_tagsets(pre, xs, post, bound);
}

/// Entries read from their window.
proof fn lemma_entries_window(b: Seq<u8>, pos: int, end: int, xs: Seq<Seq<(u32, u32)>>, lemmas: nat, tagsets: nat)
    requires
        0 <= pos <= end <= b.len(),
        b.subrange(pos, end) == rows_bytes(xs),
        forall|i: int| 0 <= i < xs.len() ==> (#[trigger] xs[i]).len() <= 255,
        forall|i: int, k: int|
            0 <= i < xs.len() && 0 <= k < xs[i].len() ==> (#[trigger] xs[i][k]).0 < lemmas && xs[i][k].1 < tagsets,
    ensures
        sp_entries(b, pos, xs.len(), lemmas, tagsets) == Ok::<(Seq<Seq<(u32, u32)>>, int), Fault>((xs, end)),
{
    let pre = b.subrange(0, pos);
    let post = b.subrange(end, b.len() as int);
    assert(b =~= pre + rows_bytes(xs) + post);
    lemma_parse_entries(pre, xs, post, lemmas, tagsets);
}

/// Participle rows read from their window.
proof fn lemma_lp_window(b: Seq<u8>, pos: int, end: int, xs: Seq<(u32, Seq<char>)>, lemmas: nat)
    requires
        0 <= pos <= end <= b.len(),
        b.subrange(pos, end) == lp_bytes(xs),
        forall|i: int| 0 <= i < xs.len() ==> (#[trigger] xs[i]).0 < lemmas && encode_utf8(xs[i].1).len() <= 0xFFFF,
    ensures
        sp_lp(b, pos, xs.len(), lemmas) == Ok::<(Seq<(u32, Seq<char>)>, int), Fault>((xs, end)),
{
    let pre = b.subrange(0, pos);
    let post = b.subrange(end, b.len() as int);
    assert(b =~= pre + lp_bytes(xs) + post);
    lemma_parse_lp(pre, xs, post, lemmas);
}

/// The head piece of the blob reads back.
#[verifier::spinoff_prover]
#[verifier::rlimit(100)]
proof fn lemma_read_head(es: Seq<RawEntry>, fst: Seq<u8>)
    requires
        fits_format(es),
        fst.len() < 0x1_0000_0000,
    ensures
        ({
            let b = blob(es, fst);
            let t = built_tables(es);
            let av = at_vocab(fst);
            let al = at_lemmas(es, fst);
            let at = at_tagsets(es, fst);
            let ae = at_entries(es, fst);
            let ap = at_lp(es, fst);
            b.len() >= 8 && b.take(8) == morph_magic() && 12 + fst.len() <= b.len() && b.subrange(
        12,
        12 + fst.len() as int,
    ) == fst && sp_u32(b, 8) == Ok::<(u32, int), Fault>((fst.len() as u32, 12))
        }),
{
    let b = blob(es, fst);
    let t = built_tables(es);
    let av = at_vocab(fst);
    let al = at_lemmas(es, fst);
    let at = at_tagsets(es, fst);
    let ae = at_entries(es, fst);
    let ap = at_lp(es, fst);
    lemma_fits_counts(es);
        lemma_window_head(es, fst);
        assert(b.take(8) =~= b.subrange(0, 8));
        lemma_u32_window(b, 8, low32(fst.len()));
}

/// The vocab piece of the blob reads back.
#[verifier::spinoff_prover]
#[verifier::rlimit(100)]
proof fn lemma_read_vocab(es: Seq<RawEntry>, fst: Seq<u8>)
    requires
        fits_format(es),
        fst.len() < 0x1_0000_0000,
    ensures
        ({
            let b = blob(es, fst);
            let t = built_tables(es);
            let av = at_vocab(fst);
            let al = at_lemmas(es, fst);
            let at = at_tagsets(es, fst);
            let ae = at_entries(es, fst);
            let ap = at_lp(es, fst);
            sp_text_block(b, 12 + fst.len() as int) == Ok::<(Seq<Seq<char>>, int), Fault>((t.vocab, al))
        }),
{
    let b = blob(es, fst);
    let t = built_tables(es);
    let av = at_vocab(fst);
    let al = at_lemmas(es, fst);
    let at = at_tagsets(es, fst);
    let ae = at_entries(es, fst);
    let ap = at_lp(es, fst);
    lemma_fits_counts(es);
        lemma_window_vocab(es, fst);
        lemma_u32_window(b, av, low32(t.vocab.len()));
        lemma_texts_window(b, av + 4, al, t.vocab);
}

/// The lemmas piece of the blob reads back.
#[verifier::spinoff_prover]
#[verifier::rlimit(100)]
proof fn lemma_read_lemmas(es: Seq<RawEntry>, fst: Seq<u8>)
    requires
        fits_format(es),
        fst.len() < 0x1_0000_0000,
    ensures
        ({
            let b = blob(es, fst);
            let t = built_tables(es);
            let av = at_vocab(fst);
            let al = at_lemmas(es, fst);
            let at = at_tagsets(es, fst);
            let ae = at_entries(es, fst);
            let ap = at_lp(es, fst);
            sp_text_block(b, al) == Ok::<(Seq<Seq<char>>, int), Fault>((t.lemmas, at))
        }),
{
    let b = blob(es, fst);
    let t = built_tables(es);
    let av = at_vocab(fst);
    let al = at_lemmas(es, fst);
    let at = at_tagsets(es, fst);
    let ae = at_entries(es, fst);
    let ap = at_lp(es, fst);
    lemma_fits_counts(es);
        lemma_window_lemmas(es, fst);
        lemma_u32_window(b, al, low32(t.lemmas.len()));
        lemma_texts_window(b, al + 4, at, t.lemmas);
}

/// The tagsets piece of the blob reads back.
#[verifier::spinoff_prover]
#[verifier::rlimit(100)]
proof fn lemma_read_tagsets(es: Seq<RawEntry>, fst: Seq<u8>)
    requires
        fits_format(es),
        fst.len() < 0x1_0000_0000,
    ensures
        ({
            let b = blob(es, fst);
            let t = built_tables(es);
            let av = at_vocab(fst);
            let al = at_lemmas(es, fst);
            let at = at_tagsets(es, fst);
            let ae = at_entries(es, fst);
            let ap = at_lp(es, fst);
            sp_u32(b, at) == Ok::<(u32, int), Fault>((t.tagsets.len() as u32, at + 4)) && sp_tagsets(
        b,
        at + 4,
        t.tagsets.len(),
        t.vocab.len(),
    ) == Ok::<(Seq<Seq<u16>>, int), Fault>((t.tagsets, ae))
        }),
{
    let b = blob(es, fst);
    let t = built_tables(es);
    let av = at_vocab(fst);
    let al = at_lemmas(es, fst);
    let at = at_tagsets(es, fst);
    let ae = at_entries(es, fst);
    let ap = at_lp(es, fst);
    lemma_fits_counts(es);
        lemma_window_tagsets(es, fst);
        lemma_u32_window(b, at, low32(t.tagsets.len()));
        lemma_tagsets_fit(es);
        lemma_tagsets_window(b, at + 4, ae, t.tagsets, t.vocab.len());
}

/// The entries piece of the blob reads back.
#[verifier::spinoff_prover]
#[verifier::rlimit(100)]
proof fn lemma_read_entries(es: Seq<RawEntry>, fst: Seq<u8>)
    requires
        fits_format(es),
        fst.len() < 0x1_0000_0000,
    ensures
        ({
            let b = blob(es, fst);
            let t = built_tables(es);
            let av = at_vocab(fst);
            let al = at_lemmas(es, fst);
            let at = at_tagsets(es, fst);
            let ae = at_entries(es, fst);
            let ap = at_lp(es, fst);
            sp_u32(b, ae) == Ok::<(u32, int), Fault>((t.entries.len() as u32, ae + 4)) && sp_entries(
        b,
        ae + 4,
        t.entries.len(),
        t.lemmas.len(),
        t.tagsets.len(),
    ) == Ok::<(Seq<Seq<(u32, u32)>>, int), Fault>((t.entries, ap))
        }),
{
    let b = blob(es, fst);
    let t = built_tables(es);
    let av = at_vocab(fst);
    let al = at_lemmas(es, fst);
    let at = at_tagsets(es, fst);
    let ae = at_entries(es, fst);
    let ap = at_lp(es, fst);
    lemma_fits_counts(es);
        lemma_window_entries(es, fst);
        lemma_u32_window(b, ae, low32(t.entries.len()));
        lemma_table_fits(es);
        lemma_rows_kept(built_table(es));
        assert(kept_table(es) == built_table(es).map_values(|row: Seq<(u32, u32)>| take_at_most(row, 255)));
        lemma_entries_window(b, ae + 4, ap, t.entries, t.lemmas.len(), t.tagsets.len());
}

/// The lp piece of the blob reads back.
#[verifier::spinoff_prover]
#[verifier::rlimit(100)]
proof fn lemma_read_lp(es: Seq<RawEntry>, fst: Seq<u8>)
    requires
        fits_format(es),
        fst.len() < 0x1_0000_0000,
    ensures
        ({
            let b = blob(es, fst);
            let t = built_tables(es);
            let av = at_vocab(fst);
            let al = at_lemmas(es, fst);
            let at = at_tagsets(es, fst);
            let ae = at_entries(es, fst);
            let ap = at_lp(es, fst);
            sp_u32(b, ap) == Ok::<(u32, int), Fault>((t.lp_forms.len() as u32, ap + 4)) && sp_lp(
        b,
        ap + 4,
        t.lp_forms.len(),
        t.lemmas.len(),
    ) == Ok::<(Seq<(u32, Seq<char>)>, int), Fault>((t.lp_forms, b.len() as int))
        }),
{
    let b = blob(es, fst);
    let t = built_tables(es);
    let av = at_vocab(fst);
    let al = at_lemmas(es, fst);
    let at = at_tagsets(es, fst);
    let ae = at_entries(es, fst);
    let ap = at_lp(es, fst);
    lemma_fits_counts(es);
        lemma_window_lp(es, fst);
        lemma_u32_window(b, ap, low32(t.lp_forms.len()));
        lemma_lp_fits(es);
        lemma_lp_window(b, ap + 4, b.len() as int, t.lp_forms, t.lemmas.len());
}

/// Law: reading a blob that [`Morphology::build`] wrote, around FST bytes
/// that `fst` accepts, gives back those FST bytes and exactly the tables
/// built, whenever the entries fit the blob's fields.
pub proof fn lemma_blob_parses(es: Seq<RawEntry>, fst: Seq<u8>)
    requires
        fits_format(es),
        map_loads(fst),
        fst.len() < 0x1_0000_0000,
    ensures
        morph_parse(morph_blob(es, fst)) == Ok::<(Seq<u8>, MorphTables), Fault>((fst, built_tables(es))),
{
    let b = blob(es, fst);
    let t = built_tables(es);
    let av = at_vocab(fst);
    let al = at_lemmas(es, fst);
    let at = at_tagsets(es, fst);
    let ae = at_entries(es, fst);
    let ap = at_lp(es, fst);
    lemma_fits_counts(es);
    lemma_read_head(es, fst);
    lemma_read_vocab(es, fst);
    lemma_read_lemmas(es, fst);
    lemma_read_tagsets(es, fst);
    lemma_read_entries(es, fst);
    lemma_read_lp(es, fst);
    lemma_parse_from_pieces(b, fst, t, al, at, ae, ap);
    lemma_blob_is(es, fst);
}

/// The opaque blob is the blob.
proof fn lemma_blob_is(es: Seq<RawEntry>, fst: Seq<u8>)
    ensures
        blob(es, fst) == morph_blob(es, fst),
{
    reveal(blob);
}

/// The readings given for a form, as readings.
pub open spec fn given_readings(rs: Seq<RawReading>) -> Seq<Reading> {
    rs.map_values(|r: RawReading| Reading { lemma: r.0, tags: r.1 })
}

/// A packed reading unpacks to the reading packed.
proof fn lemma_unpack(es: Seq<RawEntry>, r: RawReading)
    requires
        fits_format(es),
        flat_readings(es).contains(r),
    ensures
        reading_of(built_tables(es), packed(es, r)) == (Reading { lemma: r.0, tags: r.1 }),
{
    lemma_fits_counts(es);
    lemma_packed_lemma(es, r);
    lemma_reading_interned(es, r);
    let vocab = built_vocab(es);
    let tagsets = built_tagsets(es);
    let ids = tag_ids(vocab, r.1);
    let p = position(tagsets, ids);
    assert(0 <= p < tagsets.len() && tagsets[p] == ids);
    assert(packed(es, r).1 as int == p);
    let tags = tagsets[p].map_values(|id: u16| vocab[id as int]);
    assert forall|k: int| 0 <= k < r.1.len() implies tags[k] == r.1[k] by {
        assert(vocab.contains(r.1[k]));
        let q = position(vocab, r.1[k]);
        assert(0 <= q < vocab.len() && vocab[q] == r.1[k]);
        assert(ids[k] == low16(q as nat));
        assert(ids[k] as int == q);
    }
    assert(tags =~= r.1);
}

/// Law: the readings stored for the form of entry `i` are exactly the
/// readings given for it, in order, whenever the entries fit the blob's
/// fields.
pub proof fn lemma_built_readings(es: Seq<RawEntry>, i: int)
    requires
        fits_format(es),
        0 <= i < es.len(),
    ensures
        readings_at(built_tables(es), i) == given_readings(take_at_most(es[i].1, 255)),
{
    let t = built_tables(es);
    assert(t.entries.len() == es.len());
    let got = readings_at(t, i);
    let want = given_readings(take_at_most(es[i].1, 255));
    assert(t.entries[i] == take_at_most(built_table(es)[i], 255));
    assert forall|j: int| 0 <= j < take_at_most(es[i].1, 255).len() implies got[j] == want[j] by {
        lemma_reading_flattened(es, i, j);
        lemma_unpack(es, es[i].1[j]);
        assert(t.entries[i][j] == packed(es, es[i].1[j]));
    }
    assert(got =~= want);
}

/// Entries with strictly ascending keys map each key to its own value.
proof fn lemma_entries_map_at(es: Seq<(Seq<u8>, u64)>, i: int)
    requires
        keys_strictly_ascending(entry_keys(es)),
        0 <= i < es.len(),
    ensures
        entries_map(es).contains_key(es[i].0),
        entries_map(es)[es[i].0] == es[i].1,
{
    let k = es[i].0;
    assert(entry_keys(es)[i] == k);
    assert forall|j: int| 0 <= j < es.len() && es[j].0 == k implies j == i by {
        if j != i {
            assert(entry_keys(es)[j] == k);
            lemma_lex_irreflexive(k);
            if j < i {
                assert(lex_lt(entry_keys(es)[j], entry_keys(es)[i]));
            } else {
                assert(lex_lt(entry_keys(es)[i], entry_keys(es)[j]));
            }
        }
    }
}

/// A morphology loaded from what [`Morphology::build`] writes loads, with
/// the tables built and the FST's entries.
#[verifier::spinoff_prover]
#[verifier::rlimit(100)]
proof fn lemma_round_trip_loads(es: Seq<RawEntry>, r: Result<Morphology, MorphError>)
    requires
        morph_build(es) is Some,
        fits_format(es),
        map_encoding(fst_entries(es)).len() < 0x1_0000_0000,
        Morphology::loads(morph_build(es)->Some_0, r),
    ensures
        r is Ok,
        r->Ok_0.loaded(),
        r->Ok_0.tables() == built_tables(es),
        r->Ok_0.forms() == entries_map(fst_entries(es)),
{
    let f = map_encoding(fst_entries(es));
    let b = morph_blob(es, f);
    lemma_read_head(es, f);
    lemma_blob_is(es, f);
    assert(le32(b, 8) == f.len()) by {
        assert(sp_u32(b, 8) == Ok::<(u32, int), Fault>((f.len() as u32, 12)));
        assert(le32(b, 8) < 0x1_0000_0000);
    }
    assert(header_ok(b));
    assert(fst_field(b) == f);
    assert(map_loads(f));
    lemma_blob_parses(es, f);
}

/// The written surface form of entry `i` looks up entry `i`.
proof fn lemma_lookup_entry(es: Seq<RawEntry>, forms: Map<Seq<u8>, u64>, i: int)
    requires
        surfaces_ascending(es),
        forms == entries_map(fst_entries(es)),
        0 <= i < es.len(),
    ensures
        lookup(forms, es[i].0) == Some(i as u64),
{
    let fe = fst_entries(es);
    lemma_entries_map_at(fe, i);
    assert(fe[i].0 == encode_utf8(es[i].0));
}

/// The written surface form of entry `i` analyses to the readings given
/// for it.
proof fn lemma_form_analyses(es: Seq<RawEntry>, m: Morphology, i: int)
    requires
        morph_build(es) is Some,
        fits_format(es),
        m.tables() == built_tables(es),
        m.forms() == entries_map(fst_entries(es)),
        0 <= i < es.len(),
    ensures
        m.analyses_of(es[i].0) == given_readings(take_at_most(es[i].1, 255)),
{
    lemma_fits_counts(es);
    lemma_lookup_entry(es, m.forms(), i);
    lemma_built_readings(es, i);
    assert((i as u64) as int == i);
    assert(m.analyses_of(es[i].0) == readings_at(m.tables(), i));
}

/// Each written surface form analyses to the readings given for it.
proof fn lemma_forms_analyse(es: Seq<RawEntry>, m: Morphology)
    requires
        morph_build(es) is Some,
        fits_format(es),
        m.tables() == built_tables(es),
        m.forms() == entries_map(fst_entries(es)),
    ensures
        forall|i: int| 0 <= i < es.len() ==> m.analyses_of(#[trigger] es[i].0) == given_readings(
            take_at_most(es[i].1, 255),
        ),
{
    assert forall|i: int| 0 <= i < es.len() implies m.analyses_of(#[trigger] es[i].0) == given_readings(
        take_at_most(es[i].1, 255),
    ) by {
        lemma_form_analyses(es, m, i);
    }
}

/// Law: a morphology loaded from what [`Morphology::build`] writes loads,
/// holds the tables built, and gives back, for the surface form of every
/// entry written, exactly the readings given for it, in order, up to the
/// first 255, which is as many as the blob keeps; it knows one
/// form per entry and as many lemmas as the entries name distinct ones;
/// whenever the entries fit the blob's fields.
pub proof fn lemma_morphology_round_trip(es: Seq<RawEntry>, r: Result<Morphology, MorphError>)
    requires
        morph_build(es) is Some,
        fits_format(es),
        map_encoding(fst_entries(es)).len() < 0x1_0000_0000,
        Morphology::loads(morph_build(es)->Some_0, r),
    ensures
        r is Ok,
        r->Ok_0.loaded(),
        r->Ok_0.tables() == built_tables(es),
        forall|i: int| 0 <= i < es.len() ==> r->Ok_0.analyses_of(#[trigger] es[i].0) == given_readings(
            take_at_most(es[i].1, 255),
        ),
        r->Ok_0.forms().len() == es.len(),
        r->Ok_0.tables().lemmas.len() == flat_readings(es).map_values(|x: RawReading| x.0).to_set().len(),
        morph_build(es)->Some_0.take(8) == morph_magic(),
{
    let f = map_encoding(fst_entries(es));
    lemma_read_head(es, f);
    lemma_blob_is(es, f);
    lemma_round_trip_loads(es, r);
    lemma_forms_analyse(es, r->Ok_0);
    lemma_forms_count(es);
    let ls = flat_readings(es).map_values(|x: RawReading| x.0);
    lemma_first_seen(ls);
    first_seen(ls).unique_seq_to_set();
    assert(first_seen(ls).to_set() =~= ls.to_set());
}

/// One form per entry: the surface forms are distinct.
proof fn lemma_forms_count(es: Seq<RawEntry>)
    requires
        surfaces_ascending(es),
    ensures
        entries_map(fst_entries(es)).len() == es.len(),
{
    let xs = fst_entries(es);
    let ks = entry_keys(xs);
    assert(ks.no_duplicates()) by {
        assert forall|i: int, j: int| 0 <= i < ks.len() && 0 <= j < ks.len() && i != j implies ks[i] != ks[j] by {
            if i < j {
                assert(lex_lt(ks[i], ks[j]));
                lemma_lex_irreflexive(ks[i]);
            } else {
                assert(lex_lt(ks[j], ks[i]));
                lemma_lex_irreflexive(ks[j]);
            }
        }
    }
    ks.unique_seq_to_set();
    assert(entries_map(xs).dom() =~= ks.to_set()) by {
        assert forall|k: Seq<u8>| entries_map(xs).dom().contains(k) <==> ks.to_set().contains(k) by {
            if ks.to_set().contains(k) {
                let i = choose|i: int| 0 <= i < ks.len() && ks[i] == k;
                assert(xs[i].0 == k);
            }
            if entries_map(xs).dom().contains(k) {
                let i = choose|i: int| 0 <= i < xs.len() && xs[i].0 == k;
                assert(ks[i] == k);
            }
        }
    }
}

} // verus!
