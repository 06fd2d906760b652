use vstd::prelude::*;
use std::collections::HashMap;
use crate::btree::traits::{Index, IndexError};
use crate::storage::CTID;

verus! {

broadcast use vstd::std_specs::hash::group_hash_axioms;

/// An in-memory hash index: exact-match lookups, no range queries.
pub struct HashIndex {
    map: HashMap<i32, CTID>,
}

impl HashIndex {
    /// An empty index.
    pub fn new() -> (r: Self)
        ensures
            r.entries() == Map::<i32, CTID>::empty(),
    {
        HashIndex { map: HashMap::new() }
    }
}

impl Default for HashIndex {
    fn default() -> (r: Self)
        ensures
            r.entries() == Map::<i32, CTID>::empty(),
    {
        Self::new()
    }
}

impl Index for HashIndex {
    closed spec fn entries(&self) -> Map<i32, CTID> {
        self.map@
    }

    fn insert(&mut self, key: i32, ctid: CTID) -> (r: Result<(), IndexError>) {
        if self.map.contains_key(&key) {
            return Err(IndexError::DuplicateKey);
        }
        self.map.insert(key, ctid);
        Ok(())
    }

    fn search(&self, key: i32) -> (r: Result<CTID, IndexError>) {
        match self.map.get(&key) {
            Some(c) => Ok(*c),
            None => Err(IndexError::KeyNotFound),
        }
    }

    /// A hash index keeps no key order: every range query fails.
    fn range_search(&self, start_key: i32, end_key: i32) -> (r: Result<Vec<CTID>, IndexError>)
        ensures
            r matches Err(IndexError::RangeSearchUnsupported),
    {
        Err(IndexError::RangeSearchUnsupported)
    }

    fn delete(&mut self, key: i32) -> (r: Result<(), IndexError>) {
        match self.map.remove(&key) {
            Some(_) => Ok(()),
            None => Err(IndexError::KeyNotFound),
        }
    }
}

} // verus!
