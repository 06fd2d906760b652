use vstd::prelude::*;
use vstd::string::StringExecFns;
use crate::storage::CTID;

verus! {

/// Why an index operation failed.
#[derive(Debug)]
pub enum IndexError {
    /// The key is in the index already.
    DuplicateKey,
    /// The key is not in the index.
    KeyNotFound,
    /// The index does not answer range queries.
    RangeSearchUnsupported,
}

impl IndexError {
    /// A description of the error.
    pub fn message(&self) -> (r: String)
        ensures
            r@ == match self {
                IndexError::DuplicateKey => "Duplicate key"@,
                IndexError::KeyNotFound => "Key not found"@,
                IndexError::RangeSearchUnsupported => "Hash indexes do not support range search efficiently"@,
            },
    {
        match self {
            IndexError::DuplicateKey => String::from_str("Duplicate key"),
            IndexError::KeyNotFound => String::from_str("Key not found"),
            IndexError::RangeSearchUnsupported => String::from_str(
                "Hash indexes do not support range search efficiently",
            ),
        }
    }
}

/// A pluggable index from integer keys to tuple addresses (B+ tree, hash, ...).
pub trait Index {
    /// The keys the index holds, with the address of each.
    spec fn entries(&self) -> Map<i32, CTID>;

    /// Adds `key` with its address; a key already present is refused with
    /// `DuplicateKey` and the index is left as it was.
    fn insert(&mut self, key: i32, ctid: CTID) -> (r: Result<(), IndexError>)
        ensures
            old(self).entries().contains_key(key) ==> (r matches Err(IndexError::DuplicateKey)
                && final(self).entries() == old(self).entries()),
            !old(self).entries().contains_key(key) ==> r is Ok && final(self).entries() == old(
                self,
            ).entries().insert(key, ctid),
    ;

    /// The address of `key`, or `KeyNotFound`.
    fn search(&self, key: i32) -> (r: Result<CTID, IndexError>)
        ensures
            match r {
                Ok(c) => self.entries().contains_key(key) && self.entries()[key] == c,
                Err(e) => e is KeyNotFound && !self.entries().contains_key(key),
            },
    ;

    /// The addresses of the keys from `start_key` to `end_key`, both included.
    fn range_search(&self, start_key: i32, end_key: i32) -> (r: Result<Vec<CTID>, IndexError>)
        ensures
            r matches Ok(v) ==> forall|c: CTID|
                v@.contains(c) <==> exists|k: i32|
                    start_key <= k <= end_key && #[trigger] self.entries().contains_key(k)
                        && self.entries()[k] == c,
    ;

    /// Removes `key`; a key that is not there gives `KeyNotFound`.
    fn delete(&mut self, key: i32) -> (r: Result<(), IndexError>)
        ensures
            old(self).entries().contains_key(key) ==> r is Ok && final(self).entries() == old(
                self,
            ).entries().remove(key),
            !old(self).entries().contains_key(key) ==> (r matches Err(IndexError::KeyNotFound)
                && final(self).entries() == old(self).entries()),
    ;
}

} // verus!
