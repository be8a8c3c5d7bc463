//! Hash maps with the `rustc_hash` hasher, keyed by integers.
//!
//! A map is seen through its view, a mathematical map. The functions here are
//! the only ones that touch the maps. A pair of identifiers is packed into one
//! key by [`pair_key`].

use rustc_hash::{FxBuildHasher, FxHashMap, FxHashSet};
use vstd::prelude::*;

verus! {

/// The hasher state of `rustc_hash`, carried as an opaque type parameter.
#[verifier::external_type_specification]
#[verifier::external_body]
pub struct ExFxBuildHasher(FxBuildHasher);

/// `FxHashMap::default`: a map without entries.
#[verifier::external_body]
pub(crate) fn fx_new<V>() -> (m: FxHashMap<u64, V>)
    ensures
        forall|k: u64| !m@.contains_key(k),
{
    FxHashMap::default()
}

/// `HashMap::get`: the value of `key`, if there is an entry for it.
#[verifier::external_body]
pub(crate) fn fx_get<'a, V>(m: &'a FxHashMap<u64, V>, key: u64) -> (r: Option<&'a V>)
    ensures
        match r {
            Some(v) => m@.contains_key(key) && m@[key] == *v,
            None => !m@.contains_key(key),
        },
{
    m.get(&key)
}

/// `HashMap::insert`: `key` now has the value `value`, every other entry stays.
#[verifier::external_body]
pub(crate) fn fx_insert<V>(m: &mut FxHashMap<u64, V>, key: u64, value: V)
    ensures
        final(m)@ == old(m)@.insert(key, value),
{
    m.insert(key, value);
}

/// `HashMap::remove`: the entry of `key` is gone and its value is handed out.
#[verifier::external_body]
pub(crate) fn fx_remove<V>(m: &mut FxHashMap<u64, V>, key: u64) -> (r: Option<V>)
    ensures
        final(m)@ == old(m)@.remove(key),
        match r {
            Some(v) => old(m)@.contains_key(key) && old(m)@[key] == v,
            None => !old(m)@.contains_key(key),
        },
{
    m.remove(&key)
}

/// `HashMap::is_empty`: whether there is no entry.
#[verifier::external_body]
pub(crate) fn fx_is_empty<V>(m: &FxHashMap<u64, V>) -> (r: bool)
    ensures
        r <==> (forall|k: u64| !m@.contains_key(k)),
{
    m.is_empty()
}

/// `HashMap::keys`: every key once, in no particular order.
#[verifier::external_body]
pub(crate) fn fx_keys<V>(m: &FxHashMap<u64, V>) -> (r: Vec<u64>)
    ensures
        r@.no_duplicates(),
        forall|k: u64| #[trigger] r@.contains(k) <==> m@.contains_key(k),
{
    m.keys().copied().collect()
}

/// One key for a pair of identifiers.
pub open spec fn spec_pair_key(first: u32, second: u32) -> u64 {
    (first * 0x1_0000_0000 + second) as u64
}

/// The first identifier of a packed pair.
pub open spec fn key_first(key: u64) -> u32 {
    (key / 0x1_0000_0000) as u32
}

/// The second identifier of a packed pair.
pub open spec fn key_second(key: u64) -> u32 {
    (key % 0x1_0000_0000) as u32
}

/// Packing loses nothing, in either direction.
pub broadcast proof fn lemma_pair_key(first: u32, second: u32)
    ensures
        key_first(#[trigger] spec_pair_key(first, second)) == first,
        key_second(spec_pair_key(first, second)) == second,
{
}

pub broadcast proof fn lemma_key_pair(key: u64)
    ensures
        #![trigger key_first(key)]
        #![trigger key_second(key)]
        spec_pair_key(key_first(key), key_second(key)) == key,
{
}

#[verifier::when_used_as_spec(spec_pair_key)]
pub fn pair_key(first: u32, second: u32) -> (key: u64)
    ensures
        key == spec_pair_key(first, second),
{
    first as u64 * 0x1_0000_0000 + second as u64
}

pub fn unpack_key(key: u64) -> (r: (u32, u32))
    ensures
        r == (key_first(key), key_second(key)),
{
    ((key / 0x1_0000_0000) as u32, (key % 0x1_0000_0000) as u32)
}

// --- Maps keyed by rows ----------------------------------------------------------

/// The entries of a map from rows to numbers.
pub uninterp spec fn row_map(m: FxHashMap<Vec<u32>, usize>) -> Map<Seq<u32>, usize>;

/// `FxHashMap::default`: a map without entries.
#[verifier::external_body]
pub(crate) fn rows_new() -> (m: FxHashMap<Vec<u32>, usize>)
    ensures
        forall|k: Seq<u32>| !row_map(m).contains_key(k),
{
    FxHashMap::default()
}

/// `HashMap::get`: the number of a row, if there is an entry for it.
#[verifier::external_body]
pub(crate) fn rows_get(m: &FxHashMap<Vec<u32>, usize>, key: &[u32]) -> (r: Option<usize>)
    ensures
        match r {
            Some(v) => row_map(*m).contains_key(key@) && row_map(*m)[key@] == v,
            None => !row_map(*m).contains_key(key@),
        },
{
    m.get(key).copied()
}

/// `HashMap::insert`: the row now has the number, every other entry stays.
#[verifier::external_body]
pub(crate) fn rows_insert(m: &mut FxHashMap<Vec<u32>, usize>, key: Vec<u32>, value: usize)
    ensures
        row_map(*final(m)) == row_map(*old(m)).insert(key@, value),
{
    m.insert(key, value);
}

// --- Sets of identifiers ------------------------------------------------------------

/// `FxHashSet::default`: a set without members.
#[verifier::external_body]
pub(crate) fn ids_new() -> (s: FxHashSet<u32>)
    ensures
        forall|k: u32| !s@.contains(k),
{
    FxHashSet::default()
}

/// `HashSet::insert`: `id` is a member now, and the answer is whether it was not
/// one before.
#[verifier::external_body]
pub(crate) fn ids_insert(s: &mut FxHashSet<u32>, id: u32) -> (new: bool)
    ensures
        final(s)@ == old(s)@.insert(id),
        new == !old(s)@.contains(id),
{
    s.insert(id)
}

} // verus!
