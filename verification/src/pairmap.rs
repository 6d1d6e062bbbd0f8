//! Hash maps keyed by pairs of `u32`, backed by `ahash::AHashMap`.
use vstd::prelude::*;
use ahash::AHashMap;

verus! {

#[verifier::external_type_specification]
#[verifier::external_body]
#[verifier::reject_recursive_types(K)]
#[verifier::reject_recursive_types(V)]
#[verifier::reject_recursive_types(S)]
pub struct ExAHashMap<K, V, S>(AHashMap<K, V, S>);

#[verifier::external_type_specification]
#[verifier::external_body]
pub struct ExRandomState(ahash::RandomState);

/// The map from pairs of arena indices to arena indices, as the library uses it.
pub type PairMap = AHashMap<(u32, u32), u32>;

/// What an `AHashMap<(u32, u32), u32>` holds: its key-value pairs.
pub uninterp spec fn pair_map_contents(m: AHashMap<(u32, u32), u32>) -> Map<(u32, u32), u32>;

/// The map that holds nothing.
pub open spec fn no_pairs() -> Map<(u32, u32), u32> {
    Map::empty()
}

/// Calls `AHashMap::with_capacity`; the map it gives back holds nothing.
#[verifier::external_body]
pub fn pair_map_with_capacity(capacity: usize) -> (m: PairMap)
    ensures
        pair_map_contents(m) == no_pairs(),
{
    AHashMap::with_capacity(capacity)
}

/// Calls `AHashMap::get`: the value stored under `k`, if any.
#[verifier::external_body]
pub fn pair_map_get(m: &PairMap, k: (u32, u32)) -> (r: Option<u32>)
    ensures
        r == (if pair_map_contents(*m).contains_key(k) {
            Some(pair_map_contents(*m)[k])
        } else {
            None::<u32>
        }),
{
    m.get(&k).copied()
}

/// Calls `AHashMap::insert`: afterwards `k` maps to `v` and every other key is unchanged;
/// the value formerly stored under `k`, if any, is returned.
#[verifier::external_body]
pub fn pair_map_insert(m: &mut PairMap, k: (u32, u32), v: u32) -> (r: Option<u32>)
    ensures
        pair_map_contents(*final(m)) == pair_map_contents(*old(m)).insert(k, v),
        r == (if pair_map_contents(*old(m)).contains_key(k) {
            Some(pair_map_contents(*old(m))[k])
        } else {
            None::<u32>
        }),
{
    m.insert(k, v)
}

} // verus!
