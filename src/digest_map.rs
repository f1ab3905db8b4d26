//! A hash map from 64-bit digests to 64-bit values.
use vstd::prelude::*;

verus! {

/// A map from digests to 64-bit values, kept in a `hashbrown` hash map.
///
/// It holds a probability distribution (digest to probability bits), the index
/// of the transition graph (digest to node index) and the registry of known
/// transitions (digest to the order in which it was first seen).
#[verifier::external_body]
pub struct DigestMap {
    map: hashbrown::HashMap<u64, u64>,
}

/// What a `DigestMap` holds.
pub uninterp spec fn digest_map_contents(m: DigestMap) -> Map<u64, u64>;

impl View for DigestMap {
    type V = Map<u64, u64>;

    open spec fn view(&self) -> Map<u64, u64> {
        digest_map_contents(*self)
    }
}

impl DigestMap {
    /// Relies on hashbrown's `HashMap::new`: the new map is empty.
    #[verifier::external_body]
    pub(crate) fn new() -> (r: DigestMap)
        ensures
            digest_map_contents(r).dom().is_empty(),
    {
        DigestMap { map: hashbrown::HashMap::new() }
    }

    /// Relies on hashbrown's `HashMap::get`: the value stored under the key,
    /// if any.
    #[verifier::external_body]
    pub(crate) fn get(&self, key: u64) -> (r: Option<u64>)
        ensures
            r == (if digest_map_contents(*self).contains_key(key) {
                Some(digest_map_contents(*self)[key])
            } else {
                None::<u64>
            }),
    {
        self.map.get(&key).copied()
    }

    /// Relies on hashbrown's `HashMap::insert`: the key is bound to the value,
    /// replacing what it was bound to before; no other key changes.
    #[verifier::external_body]
    pub(crate) fn insert(&mut self, key: u64, value: u64)
        ensures
            digest_map_contents(*final(self)) == digest_map_contents(*old(self)).insert(key, value),
    {
        self.map.insert(key, value);
    }

    /// Relies on hashbrown's `HashMap::len`: the number of keys.
    #[verifier::external_body]
    pub(crate) fn len(&self) -> (r: usize)
        ensures
            r == digest_map_contents(*self).len(),
    {
        self.map.len()
    }

    /// Relies on hashbrown's `HashMap::iter`: each key with its value, each
    /// key once, in an order that the map chooses.
    #[verifier::external_body]
    pub(crate) fn entries(&self) -> (r: Vec<(u64, u64)>)
        ensures
            r@.len() == digest_map_contents(*self).len(),
            forall|i: int, j: int| 0 <= i < j < r@.len() ==> r@[i].0 != r@[j].0,
            forall|i: int|
                0 <= i < r@.len() ==> #[trigger] digest_map_contents(*self).contains_key(r@[i].0)
                    && digest_map_contents(*self)[r@[i].0] == r@[i].1,
            forall|k: u64|
                #[trigger] digest_map_contents(*self).contains_key(k) ==> exists|i: int|
                    0 <= i < r@.len() && r@[i].0 == k,
    {
        self.map.iter().map(|(k, v)| (*k, *v)).collect()
    }

    /// Relies on the `Clone` impl of hashbrown's `HashMap`: the copy holds the
    /// same keys and values.
    #[verifier::external_body]
    pub(crate) fn duplicate(&self) -> (r: DigestMap)
        ensures
            digest_map_contents(r) == digest_map_contents(*self),
    {
        DigestMap { map: self.map.clone() }
    }
}

} // verus!
