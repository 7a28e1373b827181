use vstd::prelude::*;
use ahash::AHashMap;
use ahash::RandomState;

verus! {

#[verifier::external_type_specification]
#[verifier::external_body]
#[verifier::reject_recursive_types(K)]
#[verifier::reject_recursive_types(V)]
#[verifier::reject_recursive_types(S)]
pub struct ExAHashMap<K, V, S>(AHashMap<K, V, S>);

#[verifier::external_type_specification]
#[verifier::external_body]
pub struct ExRandomState(RandomState);

/// What an `AHashMap<(u32, u32), u32>` holds.
pub uninterp spec fn pair_table(m: AHashMap<(u32, u32), u32>) -> Map<(u32, u32), u32>;

/// The table with no entries.
pub open spec fn no_pairs() -> Map<(u32, u32), u32> {
    Map::empty()
}

/// `AHashMap::new`: an empty table.
#[verifier::external_body]
pub(crate) fn pair_table_new() -> (table: AHashMap<(u32, u32), u32>)
    ensures
        pair_table(table) == no_pairs(),
{
    AHashMap::new()
}

/// `AHashMap::get`: the value stored under `key`, if any.
#[verifier::external_body]
pub(crate) fn pair_table_get(m: &AHashMap<(u32, u32), u32>, key: (u32, u32)) -> (r: Option<u32>)
    ensures
        r == (if pair_table(*m).contains_key(key) { Some(pair_table(*m)[key]) } else { None }),
{
    m.get(&key).copied()
}

/// `AHashMap::insert`: `key` now maps to `value`.
#[verifier::external_body]
pub(crate) fn pair_table_insert(m: &mut AHashMap<(u32, u32), u32>, key: (u32, u32), value: u32)
    ensures
        pair_table(*final(m)) == pair_table(*old(m)).insert(key, value),
{
    m.insert(key, value);
}

// ---------------------------------------------------------------------------
// Pair counts: AHashMap<(u32, u32), u64>
// ---------------------------------------------------------------------------

/// What an `AHashMap<(u32, u32), u64>` holds.
pub uninterp spec fn count_table(m: AHashMap<(u32, u32), u64>) -> Map<(u32, u32), u64>;

/// The count table with no entries.
pub open spec fn no_counts() -> Map<(u32, u32), u64> {
    Map::empty()
}

/// `AHashMap::new`: an empty table.
#[verifier::external_body]
pub(crate) fn count_table_new() -> (table: AHashMap<(u32, u32), u64>)
    ensures
        count_table(table) == no_counts(),
{
    AHashMap::new()
}

/// `AHashMap::get`: the count stored under `key`, if any.
#[verifier::external_body]
pub(crate) fn count_table_get(m: &AHashMap<(u32, u32), u64>, key: (u32, u32)) -> (r: Option<u64>)
    ensures
        r == (if count_table(*m).contains_key(key) { Some(count_table(*m)[key]) } else { None }),
{
    m.get(&key).copied()
}

/// `AHashMap::insert`: `key` now maps to `value`.
#[verifier::external_body]
pub(crate) fn count_table_insert(m: &mut AHashMap<(u32, u32), u64>, key: (u32, u32), value: u64)
    ensures
        count_table(*final(m)) == count_table(*old(m)).insert(key, value),
{
    m.insert(key, value);
}

/// `AHashMap::iter`, each entry copied out: every entry exactly once, in the
/// map's own (unspecified) order.
#[verifier::external_body]
pub(crate) fn count_table_entries(m: &AHashMap<(u32, u32), u64>) -> (entries: Vec<((u32, u32), u64)>)
    ensures
        forall|i: int, j: int| 0 <= i < j < entries@.len() ==> entries@[i].0 != entries@[j].0,
        forall|i: int|
            0 <= i < entries@.len() ==> count_table(*m).contains_key(#[trigger] entries@[i].0)
                && count_table(*m)[entries@[i].0] == entries@[i].1,
        forall|key: (u32, u32)|
            count_table(*m).contains_key(key) ==> exists|i: int| 0 <= i < entries@.len() && (#[trigger] entries@[i]).0 == key,
{
    m.iter().map(|(k, v)| (*k, *v)).collect()
}

// ---------------------------------------------------------------------------
// Vocabulary by bytes: AHashMap<Vec<u8>, u32>
// ---------------------------------------------------------------------------

/// What an `AHashMap<Vec<u8>, u32>` holds, keys taken by their bytes.
pub uninterp spec fn bytes_table(m: AHashMap<Vec<u8>, u32>) -> Map<Seq<u8>, u32>;

/// The byte table with no entries.
pub open spec fn no_byte_entries() -> Map<Seq<u8>, u32> {
    Map::empty()
}

/// `AHashMap::new`: an empty table.
#[verifier::external_body]
pub(crate) fn bytes_table_new() -> (table: AHashMap<Vec<u8>, u32>)
    ensures
        bytes_table(table) == no_byte_entries(),
{
    AHashMap::new()
}

/// `AHashMap::get`: the value stored under the key with these bytes, if any.
#[verifier::external_body]
pub(crate) fn bytes_table_get(m: &AHashMap<Vec<u8>, u32>, key: &[u8]) -> (r: Option<u32>)
    ensures
        r == (if bytes_table(*m).contains_key(key@) { Some(bytes_table(*m)[key@]) } else { None }),
{
    m.get(key).copied()
}

/// `AHashMap::contains_key`: whether a key with these bytes is present.
#[verifier::external_body]
pub(crate) fn bytes_table_contains(m: &AHashMap<Vec<u8>, u32>, key: &[u8]) -> (r: bool)
    ensures
        r == bytes_table(*m).contains_key(key@),
{
    m.contains_key(key)
}

/// `AHashMap::insert`: the key with these bytes now maps to `value`.
#[verifier::external_body]
pub(crate) fn bytes_table_insert(m: &mut AHashMap<Vec<u8>, u32>, key: Vec<u8>, value: u32)
    ensures
        bytes_table(*final(m)) == bytes_table(*old(m)).insert(key@, value),
{
    m.insert(key, value);
}

} // verus!
