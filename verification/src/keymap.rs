//! The branch routing table: classification key to child node identifier.
//!
//! The table is a `hashbrown` hash map with an `ahash` hasher, held behind a
//! small trusted boundary. Its logical contents are named by the
//! uninterpreted `key_map_contents`, and each operation the tree calls is a
//! wrapper whose contract states, over that name, what the map does.
use vstd::prelude::*;

verus! {

/// A routing table from classification keys to node identifiers, backed by
/// `hashbrown::HashMap` keyed with the `ahash` hasher.
#[verifier::external_body]
pub struct KeyMap {
    inner: hashbrown::HashMap<u128, usize, std::hash::BuildHasherDefault<ahash::AHasher>>,
}

/// The key-to-identifier association the table currently holds.
pub uninterp spec fn key_map_contents(m: KeyMap) -> Map<u128, usize>;

impl View for KeyMap {
    type V = Map<u128, usize>;

    open spec fn view(&self) -> Map<u128, usize> {
        key_map_contents(*self)
    }
}

/// Relies on `hashbrown::HashMap::default`: the new map is empty.
#[verifier::external_body]
pub(crate) fn km_new() -> (r: KeyMap)
    ensures
        r@ =~= Map::empty(),
{
    KeyMap { inner: hashbrown::HashMap::default() }
}

/// Relies on `hashbrown::HashMap::get`: the identifier stored under a key,
/// or nothing when the key is absent.
#[verifier::external_body]
pub(crate) fn km_get(m: &KeyMap, k: u128) -> (r: Option<usize>)
    ensures
        r == if key_map_contents(*m).dom().contains(k) {
            Some(key_map_contents(*m)[k])
        } else {
            None::<usize>
        },
{
    m.inner.get(&k).copied()
}

/// Relies on `hashbrown::HashMap::insert`: the key now maps to the given
/// identifier; every other association is unchanged.
#[verifier::external_body]
pub(crate) fn km_insert(m: &mut KeyMap, k: u128, v: usize)
    ensures
        key_map_contents(*final(m)) == key_map_contents(*old(m)).insert(k, v),
{
    m.inner.insert(k, v);
}

/// Relies on `hashbrown::HashMap::iter`: it yields each key of the map
/// exactly once, with the identifier stored under it, in some order.
#[verifier::external_body]
pub(crate) fn km_entries(m: &KeyMap) -> (r: Vec<(u128, usize)>)
    ensures
        forall|i: int|
            0 <= i < r@.len() ==> key_map_contents(*m).contains_pair(
                (#[trigger] r@[i]).0,
                r@[i].1,
            ),
        forall|i: int, j: int| 0 <= i < j < r@.len() ==> (#[trigger] r@[i]).0 != (#[trigger] r@[j]).0,
        forall|k: u128|
            key_map_contents(*m).dom().contains(k) ==> exists|i: int|
                0 <= i < r@.len() && (#[trigger] r@[i]).0 == k,
{
    m.inner.iter().map(|(&k, &v)| (k, v)).collect()
}

} // verus!
