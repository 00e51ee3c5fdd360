//! Trusted boundary around `ahash`'s hash map, which backs the preempt tier.
//!
//! Everything the rest of the crate knows about the hash map is stated here,
//! over the abstract contents `map_contents`; the bodies below only forward to
//! `ahash` and are not read by the verifier.
use vstd::prelude::*;

verus! {

#[verifier::external_type_specification]
#[verifier::external_body]
#[verifier::reject_recursive_types(K)]
#[verifier::reject_recursive_types(V)]
#[verifier::reject_recursive_types(S)]
pub struct ExAHashMap<K, V, S>(ahash::AHashMap<K, V, S>);

#[verifier::external_type_specification]
#[verifier::external_body]
pub struct ExRandomState(ahash::RandomState);

/// The entries a preempt-tier hash map holds, as a mathematical map.
pub uninterp spec fn map_contents(m: ahash::AHashMap<u32, u64>) -> Map<u32, u64>;

/// The contents of a map that holds nothing.
pub open spec fn no_entries() -> Map<u32, u64> {
    Map::empty()
}

/// Relies on `ahash::AHashMap::new`: a freshly created map holds no entries.
#[verifier::external_body]
pub fn map_new() -> (m: ahash::AHashMap<u32, u64>)
    ensures
        map_contents(m) == no_entries(),
{
    ahash::AHashMap::new()
}

/// Relies on `ahash::AHashMap::insert` (std's `HashMap::insert` underneath):
/// maps the key to the value and returns the value previously there, if any.
#[verifier::external_body]
pub fn map_insert(m: &mut ahash::AHashMap<u32, u64>, k: u32, v: u64) -> (r: Option<u64>)
    ensures
        map_contents(*final(m)) == map_contents(*old(m)).insert(k, v),
        r == (if map_contents(*old(m)).dom().contains(k) {
            Some(map_contents(*old(m))[k])
        } else {
            None::<u64>
        }),
{
    m.insert(k, v)
}

/// Relies on `ahash::AHashMap::get`: returns the value the key is mapped to,
/// if any.
#[verifier::external_body]
pub fn map_get(m: &ahash::AHashMap<u32, u64>, k: u32) -> (r: Option<u64>)
    ensures
        r == (if map_contents(*m).dom().contains(k) {
            Some(map_contents(*m)[k])
        } else {
            None::<u64>
        }),
{
    m.get(&k).copied()
}

/// Relies on `ahash::AHashMap::remove`: takes the key's entry out of the map
/// and returns its value, if the key was present.
#[verifier::external_body]
pub fn map_remove(m: &mut ahash::AHashMap<u32, u64>, k: u32) -> (r: Option<u64>)
    ensures
        map_contents(*final(m)) == map_contents(*old(m)).remove(k),
        r == (if map_contents(*old(m)).dom().contains(k) {
            Some(map_contents(*old(m))[k])
        } else {
            None::<u64>
        }),
{
    m.remove(&k)
}

/// Relies on `HashMap::len` (reached through `AHashMap`'s `Deref`): the number
/// of entries.
#[verifier::external_body]
pub fn map_len(m: &ahash::AHashMap<u32, u64>) -> (n: usize)
    ensures
        n == map_contents(*m).dom().len(),
{
    m.len()
}

/// Relies on `HashMap::keys` (reached through `AHashMap`'s `Deref`): yields
/// each key exactly once, in no fixed order.
#[verifier::external_body]
pub fn map_keys(m: &ahash::AHashMap<u32, u64>) -> (ks: Vec<u32>)
    ensures
        ks@.no_duplicates(),
        ks@.to_set() == map_contents(*m).dom(),
{
    m.keys().copied().collect()
}

} // verus!
