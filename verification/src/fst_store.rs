//! The finite-state-transducer storage used by the lexicon and the
//! morphology table, as far as this library relies on it.
//!
//! Everything here is a declaration of the `fst` crate's types, names for what
//! they hold, and thin wrappers whose contracts restate what `fst` documents:
//! a builder takes keys in order, the bytes it writes load back into a set or
//! map holding exactly those keys, and a search yields, in order, the keys an
//! automaton accepts.
//!
//! `fst` loads bytes without checking them beyond a header ("no verification
//! on the integrity of the FST is performed"), and a lookup or search in a
//! set or map loaded from other bytes can panic. So the wrappers that walk
//! the transducer (`set_contains`, `set_search`, `map_get`) require a set or
//! map whose bytes a builder wrote (`set_intact`, `map_intact`); the counts
//! read from the header promise their answer only for such a set or map.

use vstd::prelude::*;
use crate::levenshtein::Levenshtein;
use crate::order::lex_lt;
use fst::IntoStreamer;

verus! {

#[verifier::external_type_specification]
#[verifier::external_body]
#[verifier::reject_recursive_types(D)]
pub struct ExFstSet<D>(fst::Set<D>);

#[verifier::external_type_specification]
#[verifier::external_body]
#[verifier::reject_recursive_types(W)]
pub struct ExFstSetBuilder<W>(fst::SetBuilder<W>);

#[verifier::external_type_specification]
#[verifier::external_body]
#[verifier::reject_recursive_types(D)]
pub struct ExFstMap<D>(fst::Map<D>);

#[verifier::external_type_specification]
#[verifier::external_body]
#[verifier::reject_recursive_types(W)]
pub struct ExFstMapBuilder<W>(fst::MapBuilder<W>);

#[verifier::external_type_specification]
#[verifier::external_body]
pub struct ExFstError(fst::Error);

/// Keys in non-decreasing order, as a set builder accepts them.
pub open spec fn keys_ascending(ks: Seq<Seq<u8>>) -> bool {
    forall|i: int, j: int| 0 <= i < j < ks.len() ==> !lex_lt(#[trigger] ks[j], #[trigger] ks[i])
}

/// Keys in strictly increasing order, as a map builder accepts them.
pub open spec fn keys_strictly_ascending(ks: Seq<Seq<u8>>) -> bool {
    forall|i: int, j: int| 0 <= i < j < ks.len() ==> lex_lt(#[trigger] ks[i], #[trigger] ks[j])
}

/// The keys a set builder has accepted so far, in insertion order.
pub uninterp spec fn set_builder_keys(builder: fst::SetBuilder<Vec<u8>>) -> Seq<Seq<u8>>;

/// The bytes a set builder writes for the keys it accepted.
pub uninterp spec fn set_encoding(keys: Seq<Seq<u8>>) -> Seq<u8>;

/// Whether `fst::Set::new` accepts `bytes` (their header checks out).
pub uninterp spec fn set_loads(bytes: Seq<u8>) -> bool;

/// The bytes a set was loaded from.
pub uninterp spec fn set_source(set: fst::Set<Vec<u8>>) -> Seq<u8>;

/// The keys a set holds.
pub uninterp spec fn set_keys(set: fst::Set<Vec<u8>>) -> Set<Seq<u8>>;

/// A set loaded from bytes that a set builder wrote for `ks`.
pub open spec fn set_holds(set: fst::Set<Vec<u8>>, ks: Seq<Seq<u8>>) -> bool {
    &&& keys_ascending(ks)
    &&& set_source(set) == set_encoding(ks)
    &&& set_keys(set) == ks.to_set()
}

/// A set loaded from bytes that some set builder wrote.
pub open spec fn set_intact(set: fst::Set<Vec<u8>>) -> bool {
    exists|ks: Seq<Seq<u8>>| set_holds(set, ks)
}

/// The entries a map builder has accepted so far, in insertion order.
pub uninterp spec fn map_builder_entries(builder: fst::MapBuilder<Vec<u8>>) -> Seq<(Seq<u8>, u64)>;

/// The bytes a map builder writes for the entries it accepted.
pub uninterp spec fn map_encoding(entries: Seq<(Seq<u8>, u64)>) -> Seq<u8>;

/// Whether `fst::Map::new` accepts `bytes` (their header checks out).
pub uninterp spec fn map_loads(bytes: Seq<u8>) -> bool;

/// The bytes a map was loaded from.
pub uninterp spec fn map_source(map: fst::Map<Vec<u8>>) -> Seq<u8>;

/// The entries a map holds.
pub uninterp spec fn map_entries(map: fst::Map<Vec<u8>>) -> Map<Seq<u8>, u64>;

/// The keys of a sequence of entries.
pub open spec fn entry_keys(es: Seq<(Seq<u8>, u64)>) -> Seq<Seq<u8>> {
    es.map_values(|e: (Seq<u8>, u64)| e.0)
}

/// A sequence of entries with distinct keys, read as a map.
pub open spec fn entries_map(es: Seq<(Seq<u8>, u64)>) -> Map<Seq<u8>, u64> {
    Map::new(
        |k: Seq<u8>| exists|i: int| 0 <= i < es.len() && es[i].0 == k,
        |k: Seq<u8>| es[choose|i: int| 0 <= i < es.len() && es[i].0 == k].1,
    )
}

/// A map loaded from bytes that a map builder wrote for `es`.
pub open spec fn map_holds(map: fst::Map<Vec<u8>>, es: Seq<(Seq<u8>, u64)>) -> bool {
    &&& keys_strictly_ascending(entry_keys(es))
    &&& map_source(map) == map_encoding(es)
    &&& map_entries(map) == entries_map(es)
}

/// A map loaded from bytes that some map builder wrote.
pub open spec fn map_intact(map: fst::Map<Vec<u8>>) -> bool {
    exists|es: Seq<(Seq<u8>, u64)>| map_holds(map, es)
}

/// `fst::SetBuilder::memory`: a builder writing into memory, holding no key.
#[verifier::external_body]
pub(crate) fn set_builder_memory() -> (r: fst::SetBuilder<Vec<u8>>)
    ensures
        set_builder_keys(r) == Seq::<Seq<u8>>::empty(),
{
    fst::SetBuilder::memory()
}

/// `fst::SetBuilder::insert`: refuses a key below the previous one, and
/// otherwise records it (a repeat of the previous key is accepted). Writing
/// into memory cannot fail otherwise.
#[verifier::external_body]
pub(crate) fn set_builder_insert(builder: &mut fst::SetBuilder<Vec<u8>>, key: &[u8]) -> (r: Result<(), fst::Error>)
    ensures
        r is Err <==> (set_builder_keys(*old(builder)).len() > 0 && lex_lt(
            key@,
            set_builder_keys(*old(builder)).last(),
        )),
        r is Ok ==> set_builder_keys(*final(builder)) == set_builder_keys(*old(builder)).push(key@),
        r is Err ==> set_builder_keys(*final(builder)) == set_builder_keys(*old(builder)),
{
    builder.insert(key)
}

/// `fst::SetBuilder::into_inner`: the bytes of the finished set. Only a
/// failing writer makes it fail, and a `Vec` never fails.
#[verifier::external_body]
pub(crate) fn set_builder_finish(builder: fst::SetBuilder<Vec<u8>>) -> (r: Result<Vec<u8>, fst::Error>)
    ensures
        r is Ok,
        r is Ok ==> r->Ok_0@ == set_encoding(set_builder_keys(builder)),
{
    builder.into_inner()
}

/// `fst::Set::new`: loads the bytes after checking their header. Bytes a set
/// builder wrote always load, into a set holding exactly the keys written.
#[verifier::external_body]
pub(crate) fn set_from_bytes(bytes: Vec<u8>) -> (r: Result<fst::Set<Vec<u8>>, fst::Error>)
    ensures
        r is Ok <==> set_loads(bytes@),
        r is Ok ==> set_source(r->Ok_0) == bytes@,
        forall|ks: Seq<Seq<u8>>|
            keys_ascending(ks) && #[trigger] set_encoding(ks) == bytes@ ==> r is Ok,
        forall|ks: Seq<Seq<u8>>|
            keys_ascending(ks) && #[trigger] set_encoding(ks) == bytes@ && r is Ok ==> set_holds(
                r->Ok_0,
                ks,
            ),
{
    fst::Set::new(bytes)
}

/// `fst::Set::contains`: membership of `key`.
#[verifier::external_body]
pub(crate) fn set_contains(set: &fst::Set<Vec<u8>>, key: &[u8]) -> (r: bool)
    requires
        set_intact(*set),
    ensures
        r == set_keys(*set).contains(key@),
{
    set.contains(key)
}

/// The number of keys a set's header records.
pub uninterp spec fn set_count(set: fst::Set<Vec<u8>>) -> nat;

/// `fst::Set::len`: the number of keys its header records, which is the
/// number of keys written for a set a builder wrote.
#[verifier::external_body]
pub(crate) fn set_len(set: &fst::Set<Vec<u8>>) -> (r: usize)
    ensures
        r == set_count(*set),
        set_intact(*set) ==> r == set_keys(*set).len(),
{
    set.len()
}

/// `fst::Set::search` with a [`Levenshtein`] automaton, drained with
/// `into_bytes`: every key the search reaches, in ascending order. `fst`
/// walks the keys depth first with transitions in byte order, skips the
/// subtree below any state the automaton says cannot match, and yields a key
/// when the state after its last byte matches. The automaton is run on the
/// bytes of each key yielded, so every key yielded is reached.
#[verifier::external_body]
pub(crate) fn set_search(set: &fst::Set<Vec<u8>>, aut: &Levenshtein) -> (r: Vec<Vec<u8>>)
    requires
        set_intact(*set),
    ensures
        forall|i: int| 0 <= i < r@.len() ==> aut.reaches(#[trigger] r@[i]@),
        keys_strictly_ascending(r@.map_values(|k: Vec<u8>| k@)),
        r@.map_values(|k: Vec<u8>| k@).to_set() == reached_keys(
            set_keys(*set),
            *aut,
        ),
{
    set.search(aut).into_stream().into_bytes()
}

/// The keys of `keys` that a search with `aut` reaches.
pub open spec fn reached_keys(keys: Set<Seq<u8>>, aut: Levenshtein) -> Set<Seq<u8>> {
    keys.filter(|k: Seq<u8>| aut.reaches(k))
}

/// `fst::MapBuilder::memory`: a builder writing into memory, holding nothing.
#[verifier::external_body]
pub(crate) fn map_builder_memory() -> (r: fst::MapBuilder<Vec<u8>>)
    ensures
        map_builder_entries(r) == Seq::<(Seq<u8>, u64)>::empty(),
{
    fst::MapBuilder::memory()
}

/// `fst::MapBuilder::insert`: refuses a key not above the previous one, and
/// otherwise records the entry. Writing into memory cannot fail otherwise.
#[verifier::external_body]
pub(crate) fn map_builder_insert(builder: &mut fst::MapBuilder<Vec<u8>>, key: &[u8], value: u64) -> (r: Result<(), fst::Error>)
    ensures
        r is Err <==> (map_builder_entries(*old(builder)).len() > 0 && !lex_lt(
            map_builder_entries(*old(builder)).last().0,
            key@,
        )),
        r is Ok ==> map_builder_entries(*final(builder)) == map_builder_entries(*old(builder)).push(
            (key@, value),
        ),
        r is Err ==> map_builder_entries(*final(builder)) == map_builder_entries(*old(builder)),
{
    builder.insert(key, value)
}

/// `fst::MapBuilder::into_inner`: the bytes of the finished map. Only a
/// failing writer makes it fail, and a `Vec` never fails.
#[verifier::external_body]
pub(crate) fn map_builder_finish(builder: fst::MapBuilder<Vec<u8>>) -> (r: Result<Vec<u8>, fst::Error>)
    ensures
        r is Ok,
        r is Ok ==> r->Ok_0@ == map_encoding(map_builder_entries(builder)),
{
    builder.into_inner()
}

/// `fst::Map::new`: loads the bytes after checking their header. Bytes a map
/// builder wrote always load, into a map holding exactly the entries written.
#[verifier::external_body]
pub(crate) fn map_from_bytes(bytes: Vec<u8>) -> (r: Result<fst::Map<Vec<u8>>, fst::Error>)
    ensures
        r is Ok <==> map_loads(bytes@),
        r is Ok ==> map_source(r->Ok_0) == bytes@,
        forall|es: Seq<(Seq<u8>, u64)>|
            keys_strictly_ascending(entry_keys(es)) && #[trigger] map_encoding(es) == bytes@ ==> r is Ok,
        forall|es: Seq<(Seq<u8>, u64)>|
            keys_strictly_ascending(entry_keys(es)) && #[trigger] map_encoding(es) == bytes@ && r is Ok
                ==> map_holds(r->Ok_0, es),
{
    fst::Map::new(bytes)
}

/// `fst::Map::get`: the value stored under `key`.
#[verifier::external_body]
pub(crate) fn map_get(map: &fst::Map<Vec<u8>>, key: &[u8]) -> (r: Option<u64>)
    requires
        map_intact(*map),
    ensures
        r == (if map_entries(*map).contains_key(key@) {
            Some(map_entries(*map)[key@])
        } else {
            None
        }),
{
    map.get(key)
}

/// The number of keys a map's header records.
pub uninterp spec fn map_count(map: fst::Map<Vec<u8>>) -> nat;

/// `fst::Map::len`: the number of keys its header records, which is the
/// number of keys written for a map a builder wrote.
#[verifier::external_body]
pub(crate) fn map_len(map: &fst::Map<Vec<u8>>) -> (r: usize)
    ensures
        r == map_count(*map),
        map_intact(*map) ==> r == map_entries(*map).len(),
{
    map.len()
}

} // verus!
