//! The term dictionary: an ordered map from user names to `u64` payloads,
//! stored as a finite-state transducer of the `fst` crate.

use vstd::prelude::*;

use crate::codec::lex_less;

verus! {

#[verifier::external_type_specification]
#[verifier::external_body]
#[verifier::reject_recursive_types(D)]
pub struct ExFstMap<D>(fst::Map<D>);

#[verifier::external_type_specification]
#[verifier::external_body]
#[verifier::reject_recursive_types(W)]
pub struct ExFstMapBuilder<W>(fst::MapBuilder<W>);

#[verifier::external_type_specification]
#[verifier::external_body]
pub struct ExFstError(fst::Error);

/// One dictionary entry: a key and its payload.
pub type Entry = (Seq<u8>, u64);

/// The bytes that a map was opened from.
pub uninterp spec fn map_source(m: fst::Map<Vec<u8>>) -> Seq<u8>;

/// The entries inserted so far into a builder, in insertion order.
pub uninterp spec fn builder_entries(b: fst::MapBuilder<Vec<u8>>) -> Seq<(Seq<u8>, u64)>;

/// The bytes that a builder writes for the given entries.
pub uninterp spec fn fst_bytes(entries: Seq<(Seq<u8>, u64)>) -> Seq<u8>;

/// Keys strictly increase along `entries`.
pub open spec fn keys_increasing(entries: Seq<Entry>) -> bool {
    forall|i: int, j: int| 0 <= i < j < entries.len() ==> lex_less(entries[i].0, entries[j].0)
}

/// The bytes are what a dictionary builder wrote for entries with increasing
/// keys: the maps that `fst` can open and walk.
pub open spec fn written_by_builder(bytes: Seq<u8>) -> bool {
    exists|e: Seq<Entry>| keys_increasing(e) && bytes == fst_bytes(e)
}

/// The entries that a builder was given to write these bytes.
pub open spec fn dictionary_content(bytes: Seq<u8>) -> Seq<Entry> {
    choose|e: Seq<Entry>| keys_increasing(e) && bytes == fst_bytes(e)
}

/// The payload of the first entry with key `key`, if there is one.
pub open spec fn entry_lookup(entries: Seq<Entry>, key: Seq<u8>) -> Option<u64>
    decreases entries.len(),
{
    if entries.len() == 0 {
        None
    } else if entries[0].0 == key {
        Some(entries[0].1)
    } else {
        entry_lookup(entries.drop_first(), key)
    }
}

/// With increasing keys, the payload found for a key is that of its entry.
pub proof fn lemma_lookup_at(entries: Seq<Entry>, key: Seq<u8>, x: int)
    requires
        keys_increasing(entries),
        0 <= x < entries.len(),
        entries[x].0 == key,
    ensures
        entry_lookup(entries, key) == Some(entries[x].1),
    decreases x,
{
    if x > 0 {
        assert(lex_less(entries[0].0, entries[x].0));
        crate::codec::lemma_lex_irreflexive(key, 0);
        let rest = entries.drop_first();
        assert forall|i: int, j: int| 0 <= i < j < rest.len() implies lex_less(rest[i].0, rest[j].0) by {
            assert(lex_less(entries[i + 1].0, entries[j + 1].0));
        }
        lemma_lookup_at(rest, key, x - 1);
    }
}

/// Relies on fst::MapBuilder::memory: a builder that writes to memory and
/// holds no entry yet.
#[verifier::external_body]
pub(crate) fn new_builder() -> (r: fst::MapBuilder<Vec<u8>>)
    ensures
        builder_entries(r) == Seq::<Entry>::empty(),
{
    fst::MapBuilder::memory()
}

/// Relies on fst::MapBuilder::insert: a key greater than every key inserted
/// before is accepted and appended; writing to memory cannot fail.
#[verifier::external_body]
pub(crate) fn builder_insert(b: &mut fst::MapBuilder<Vec<u8>>, key: &[u8], value: u64) -> (r:
    Result<(), fst::Error>)
    ensures
        ({
            let old_entries = builder_entries(*old(b));
            (old_entries.len() == 0 || lex_less(old_entries.last().0, key@)) ==> (r is Ok
                && builder_entries(*final(b)) == old_entries.push((key@, value)))
        }),
{
    b.insert(key, value)
}

/// Relies on fst::MapBuilder::into_inner: the finished map's bytes, which
/// depend on the inserted entries alone; writing to memory cannot fail.
#[verifier::external_body]
pub(crate) fn builder_finish(b: fst::MapBuilder<Vec<u8>>) -> (r: Result<Vec<u8>, fst::Error>)
    ensures
        r is Ok,
        r matches Ok(bytes) ==> bytes@ == fst_bytes(builder_entries(b)),
{
    b.into_inner()
}

/// Relies on fst::Map::new and fst::raw::Fst::verify: the bytes are opened as
/// a map, which keeps them, and their checksum is checked; bytes that a
/// builder wrote for increasing keys always open. Neither check makes other
/// bytes safe to walk.
#[verifier::external_body]
pub(crate) fn open_map(bytes: Vec<u8>) -> (r: Option<fst::Map<Vec<u8>>>)
    ensures
        r is Some ==> map_source(r->Some_0) == bytes@,
        written_by_builder(bytes@) ==> r is Some,
{
    match fst::Map::new(bytes) {
        Ok(m) => match m.as_fst().verify() {
            Ok(()) => Some(m),
            Err(_) => None,
        },
        Err(_) => None,
    }
}

/// Relies on fst::Map::get: on a map that a builder wrote, the payload of
/// the key if the builder was given it. Walking other bytes can panic.
#[verifier::external_body]
pub(crate) fn map_get(m: &fst::Map<Vec<u8>>, key: &[u8]) -> (r: Option<u64>)
    requires
        written_by_builder(map_source(*m)),
    ensures
        forall|e: Seq<Entry>|
            keys_increasing(e) && map_source(*m) == #[trigger] fst_bytes(e) ==> r == entry_lookup(
                e,
                key@,
            ),
{
    m.get(key)
}

/// Relies on fst::Map::stream and fst::map::Stream::into_byte_vec: on a map
/// that a builder wrote, the entries that the builder was given, in key
/// order. Walking other bytes can panic.
#[verifier::external_body]
pub(crate) fn map_entry_list(m: &fst::Map<Vec<u8>>) -> (r: Vec<(Vec<u8>, u64)>)
    requires
        written_by_builder(map_source(*m)),
    ensures
        forall|e: Seq<Entry>|
            keys_increasing(e) && map_source(*m) == #[trigger] fst_bytes(e) ==> {
                &&& r@.len() == e.len()
                &&& forall|i: int|
                    0 <= i < r@.len() ==> (#[trigger] r@[i]).0@ == e[i].0 && r@[i].1 == e[i].1
            },
{
    m.stream().into_byte_vec()
}

} // verus!
