//! Entries: a key with its hash and value, ready to be put into a PATCH.
use vstd::prelude::*;

use crate::patch::node::{leaf_hash, spec_leaf_hash};

verus! {

/// A key (in key order) with its hash and the value to be stored under it.
pub struct Entry<const KEY_LEN: usize, V> {
    pub key: [u8; KEY_LEN],
    pub hash: u128,
    pub value: V,
}

impl<const KEY_LEN: usize> Entry<KEY_LEN, ()> {
    /// An entry for `key` without a value.
    pub fn new(key: &[u8; KEY_LEN]) -> (r: Self)
        ensures
            r.key == *key,
            r.hash == spec_leaf_hash(key@),
    {
        Entry { key: *key, hash: leaf_hash(key), value: () }
    }
}

impl<const KEY_LEN: usize, V> Entry<KEY_LEN, V> {
    /// An entry for `key` holding `value`.
    pub fn with_value(key: &[u8; KEY_LEN], value: V) -> (r: Self)
        ensures
            r.key == *key,
            r.hash == spec_leaf_hash(key@),
            r.value == value,
    {
        Entry { key: *key, hash: leaf_hash(key), value }
    }
}

} // verus!
