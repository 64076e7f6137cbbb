use std::collections::hash_map::RandomState;
use std::collections::HashMap;
use std::hash::Hash;
use vstd::prelude::*;
use vstd::std_specs::hash::{builds_valid_hashers, obeys_key_model};

verus! {

broadcast use vstd::std_specs::hash::group_hash_axioms;

/// A thin dictionary over std's hash map.
#[verifier::reject_recursive_types(K)]
#[verifier::reject_recursive_types(V)]
pub struct Dict<K, V> {
    map: HashMap<K, V>,
}

/// The key type hashes and compares as its view says, so that the map's
/// contents are told exactly.
pub open spec fn keys_behave<K>() -> bool {
    obeys_key_model::<K>() && builds_valid_hashers::<RandomState>()
}

/// Relies on `HashMap::keys`, which visits every key of the map, and on the
/// first step of that iterator: it yields a key of the map, and nothing only
/// when the map has no key.
#[verifier::external_body]
fn first_key<K, V>(m: &HashMap<K, V>) -> (r: Option<&K>)
    ensures
        keys_behave::<K>() ==> match r {
            Some(k) => m@.contains_key(*k),
            None => m@.dom() == Set::<K>::empty(),
        },
{
    m.keys().next()
}

impl<K, V> View for Dict<K, V> {
    type V = Map<K, V>;

    closed spec fn view(&self) -> Map<K, V> {
        self.map@
    }
}

impl<K: Eq + Hash, V> Dict<K, V> {
    /// An empty dictionary.
    pub fn new() -> (r: Dict<K, V>)
        ensures
            r@ == Map::<K, V>::empty(),
    {
        Dict { map: HashMap::new() }
    }

    /// Maps `key` to `value`, replacing any earlier value.
    pub fn create(&mut self, key: K, value: V)
        ensures
            keys_behave::<K>() ==> final(self)@ == old(self)@.insert(key, value),
    {
        self.map.insert(key, value);
    }

    /// Maps `key` to `value`, replacing any earlier value.
    pub fn add(&mut self, key: K, value: V)
        ensures
            keys_behave::<K>() ==> final(self)@ == old(self)@.insert(key, value),
    {
        self.map.insert(key, value);
    }

    /// Maps `key` to `value` only where `key` is already present.
    pub fn replace(&mut self, key: K, value: V)
        ensures
            keys_behave::<K>() ==> final(self)@ == (if old(self)@.contains_key(key) {
                old(self)@.insert(key, value)
            } else {
                old(self)@
            }),
    {
        if self.map.contains_key(&key) {
            self.map.insert(key, value);
        }
    }

    /// The value of `key`, if present.
    pub fn fetch_value(&self, key: &K) -> (r: Option<&V>)
        ensures
            keys_behave::<K>() ==> match r {
                Some(v) => self@.contains_key(*key) && self@[*key] == *v,
                None => !self@.contains_key(*key),
            },
    {
        self.map.get(key)
    }

    /// Some key of the dictionary, none when it is empty; which one depends
    /// on the map's hashing.
    pub fn get_random_key(&self) -> (r: Option<&K>)
        ensures
            keys_behave::<K>() ==> match r {
                Some(k) => self@.contains_key(*k),
                None => self@.dom() == Set::<K>::empty(),
            },
    {
        first_key(&self.map)
    }

    /// Removes `key`, if present.
    pub fn delete(&mut self, key: &K)
        ensures
            keys_behave::<K>() ==> final(self)@ == old(self)@.remove(*key),
    {
        self.map.remove(key);
    }

    /// Removes every key.
    pub fn release(&mut self)
        ensures
            final(self)@ == Map::<K, V>::empty(),
    {
        self.map.clear();
    }
}

} // verus!
