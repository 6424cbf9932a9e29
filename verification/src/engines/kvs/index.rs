//! The in-memory index: a `SkipMap` of crossbeam-skiplist from key to locator.
//!
//! Verus does not look inside the map. What it holds is named by [`index_entries`], and
//! each operation on it goes through a function below whose contract is taken on trust
//! from the map's documentation. The map itself can be changed through a shared
//! reference; the functions here that change it take it by `&mut`, so that the store has
//! one owner of the index and every change is one that the verifier sees.

use crate::engines::kvs::record::EntryPos;
use crossbeam_skiplist::SkipMap;
use vstd::prelude::*;
use vstd::utf8::encode_utf8;

verus! {

/// `SkipMap` of crossbeam-skiplist, as a type that is carried and not looked into.
#[verifier::external_type_specification]
#[verifier::external_body]
#[verifier::reject_recursive_types(K)]
#[verifier::reject_recursive_types(V)]
pub struct ExSkipMap<K, V>(SkipMap<K, V>);

/// What the index holds: for each key, its locator.
pub uninterp spec fn index_entries(index: SkipMap<String, EntryPos>) -> Map<Seq<char>, EntryPos>;

/// Lexicographic order of byte strings.
pub open spec fn bytes_lt(a: Seq<u8>, b: Seq<u8>) -> bool
    decreases a.len(),
{
    if b.len() == 0 {
        false
    } else if a.len() == 0 {
        true
    } else if a[0] != b[0] {
        a[0] < b[0]
    } else {
        bytes_lt(a.drop_first(), b.drop_first())
    }
}

/// The order of keys in the index: that of their UTF-8 bytes, which is how `String`s
/// compare.
#[verifier::opaque]
pub open spec fn key_lt(a: Seq<char>, b: Seq<char>) -> bool {
    bytes_lt(encode_utf8(a), encode_utf8(b))
}

/// No key is below itself.
pub proof fn lemma_key_lt_irreflexive(a: Seq<char>)
    ensures
        !key_lt(a, a),
{
    reveal(key_lt);
    lemma_bytes_lt_irreflexive(encode_utf8(a));
}

/// Of two keys not both are below the other.
pub proof fn lemma_key_lt_asymmetric(a: Seq<char>, b: Seq<char>)
    requires
        key_lt(a, b),
    ensures
        !key_lt(b, a),
{
    reveal(key_lt);
    lemma_bytes_lt_asymmetric(encode_utf8(a), encode_utf8(b));
}

/// No byte string is below itself.
pub proof fn lemma_bytes_lt_irreflexive(a: Seq<u8>)
    ensures
        !bytes_lt(a, a),
    decreases a.len(),
{
    if a.len() > 0 {
        lemma_bytes_lt_irreflexive(a.drop_first());
    }
}

/// Of two byte strings not both are below the other.
pub proof fn lemma_bytes_lt_asymmetric(a: Seq<u8>, b: Seq<u8>)
    requires
        bytes_lt(a, b),
    ensures
        !bytes_lt(b, a),
    decreases a.len(),
{
    if a.len() > 0 && b.len() > 0 && a[0] == b[0] {
        lemma_bytes_lt_asymmetric(a.drop_first(), b.drop_first());
    }
}

/// The entries are listed once each, by ascending key.
pub open spec fn lists(entries: Seq<(Seq<char>, EntryPos)>, map: Map<Seq<char>, EntryPos>) -> bool {
    &&& forall|i: int|
        0 <= i < entries.len() ==> map.contains_key(#[trigger] entries[i].0) && map[entries[i].0]
            == entries[i].1
    &&& forall|k: Seq<char>| #[trigger]
        map.contains_key(k) ==> exists|i: int| 0 <= i < entries.len() && entries[i].0 == k
    &&& forall|i: int, j: int|
        0 <= i < j < entries.len() ==> key_lt(#[trigger] entries[i].0, #[trigger] entries[j].0)
}

/// The keys and locators of a snapshot, as mathematical values.
pub open spec fn snapshot_view(entries: Seq<(String, EntryPos)>) -> Seq<(Seq<char>, EntryPos)> {
    Seq::new(entries.len(), |i: int| (entries[i].0@, entries[i].1))
}

/// `SkipMap::new`: an empty map.
#[verifier::external_body]
pub(crate) fn index_new() -> (r: SkipMap<String, EntryPos>)
    ensures
        index_entries(r) =~= Map::empty(),
{
    SkipMap::new()
}

/// `SkipMap::get`: the locator stored under the key, if there is one.
#[verifier::external_body]
pub(crate) fn index_get(index: &SkipMap<String, EntryPos>, key: &String) -> (r: Option<EntryPos>)
    ensures
        r == if index_entries(*index).contains_key(key@) {
            Some(index_entries(*index)[key@])
        } else {
            None
        },
{
    index.get(key).map(|e| *e.value())
}

/// `SkipMap::contains_key`: whether the key has an entry.
#[verifier::external_body]
pub(crate) fn index_contains_key(index: &SkipMap<String, EntryPos>, key: &String) -> (b: bool)
    ensures
        b == index_entries(*index).contains_key(key@),
{
    index.contains_key(key)
}

/// `SkipMap::insert`: the key's entry is the new locator, whether or not it had one; the
/// other entries stay.
#[verifier::external_body]
pub(crate) fn index_insert(index: &mut SkipMap<String, EntryPos>, key: String, pos: EntryPos)
    ensures
        index_entries(*final(index)) == index_entries(*old(index)).insert(key@, pos),
{
    index.insert(key, pos);
}

/// `SkipMap::remove`: the key has no entry afterwards; the other entries stay.
#[verifier::external_body]
pub(crate) fn index_remove(index: &mut SkipMap<String, EntryPos>, key: &String)
    ensures
        index_entries(*final(index)) == index_entries(*old(index)).remove(key@),
{
    index.remove(key);
}

/// `SkipMap::iter`: every entry once, by ascending key; keys and locators are copied out.
#[verifier::external_body]
pub(crate) fn index_snapshot(index: &SkipMap<String, EntryPos>) -> (entries: Vec<(String, EntryPos)>)
    ensures
        lists(snapshot_view(entries@), index_entries(*index)),
{
    index.iter().map(|e| (e.key().clone(), *e.value())).collect()
}

} // verus!
