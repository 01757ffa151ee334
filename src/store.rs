use dashmap::DashMap;
use std::sync::Arc;
use vstd::prelude::*;

verus! {

#[verifier::external_type_specification]
#[verifier::external_body]
#[verifier::reject_recursive_types(K)]
#[verifier::reject_recursive_types(V)]
#[verifier::reject_recursive_types(S)]
pub struct ExDashMap<K, V, S>(DashMap<K, V, S>);

/// The shared key-value store: a handle to a concurrent map from keys to
/// byte strings. Clones share the same map.
///
/// Every worker holds a handle and the map may change between any two calls,
/// so its contents are not modelled: what a call returns is whatever the map
/// held at that moment, and the callers' contracts hold for every outcome.
#[derive(Clone)]
pub struct Db {
    data: Arc<DashMap<String, Vec<u8>>>,
}

impl Db {
    /// Relies on `dashmap::DashMap::new`: an empty map.
    #[verifier::external_body]
    pub fn new() -> Db {
        Db { data: Arc::new(DashMap::new()) }
    }

    /// Relies on `dashmap::DashMap::get`: a copy of the value stored under
    /// `key`, if there is one.
    #[verifier::external_body]
    pub fn get(&self, key: &str) -> Option<Vec<u8>> {
        self.data.get(key).map(|entry| entry.value().clone())
    }

    /// Relies on `dashmap::DashMap::insert`: stores `value` under `key`,
    /// replacing what was there.
    #[verifier::external_body]
    pub fn set(&self, key: String, value: Vec<u8>) {
        self.data.insert(key, value);
    }

    /// Relies on `dashmap::DashMap::remove`: removes the entry for `key`;
    /// whether there was one.
    #[verifier::external_body]
    pub fn delete(&self, key: &str) -> bool {
        self.data.remove(key).is_some()
    }
}

impl Default for Db {
    /// An empty store, as `new` makes it.
    fn default() -> Db {
        Db::new()
    }
}

} // verus!
