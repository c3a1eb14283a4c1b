//! Simple hashmap whose lookups hand out copies of the values

use std::collections::HashMap;
use std::hash::Hash;
use vstd::prelude::*;
use vstd::std_specs::hash::obeys_key_model;

verus! {

/// Hashmap that hands out copies of its values, so that no borrow of the
/// map outlives a lookup.
#[derive(Debug)]
pub struct RwHashMap<K, V> {
    map: HashMap<K, V>,
}

impl<K, V> View for RwHashMap<K, V> {
    type V = Map<K, V>;

    closed spec fn view(&self) -> Map<K, V> {
        self.map@
    }
}

impl<K, V> RwHashMap<K, V> where K: Eq + Hash, V: Clone {
    /// The map holds finitely many keys.
    pub proof fn lemma_finite(&self)
        ensures
            self@.dom().finite(),
    {
        broadcast use vstd::std_specs::hash::group_hash_axioms;

    }

    /// Create new, empty collection
    pub fn new() -> (m: Self)
        ensures
            m@ == Map::<K, V>::empty(),
            m@.dom().finite(),
    {
        broadcast use vstd::std_specs::hash::group_hash_axioms;

        RwHashMap { map: HashMap::new() }
    }

    /// Lookup the key in hashmap
    pub fn get(&self, key: &K) -> (r: Option<V>)
        ensures
            obeys_key_model::<K>() ==> match r {
                Some(value) => self@.contains_key(*key) && cloned(self@[*key], value),
                None => !self@.contains_key(*key),
            },
    {
        broadcast use vstd::std_specs::hash::group_hash_axioms;

        self.map.get(key).cloned()
    }

    /// Insert a key-value pair to the hashmap
    pub fn insert(&mut self, key: K, value: V)
        ensures
            obeys_key_model::<K>() ==> final(self)@ == old(self)@.insert(key, value),
            old(self)@.dom().finite(),
            final(self)@.dom().finite(),
            obeys_key_model::<K>() ==> final(self)@.len() == old(self)@.len() + (if old(
                self,
            )@.contains_key(key) {
                0nat
            } else {
                1nat
            }),
    {
        broadcast use vstd::std_specs::hash::group_hash_axioms;

        self.map.insert(key, value);
    }

    /// Get number of elements in the hashmap
    pub fn len(&self) -> (n: usize)
        ensures
            obeys_key_model::<K>() ==> n == self@.len(),
            self@.dom().finite(),
    {
        broadcast use vstd::std_specs::hash::group_hash_axioms;

        self.map.len()
    }

    /// Remove all elements from hashmap
    pub fn clear(&mut self)
        ensures
            final(self)@ == Map::<K, V>::empty(),
            final(self)@.dom().finite(),
    {
        broadcast use vstd::std_specs::hash::group_hash_axioms;

        self.map.clear();
    }
}

} // verus!
