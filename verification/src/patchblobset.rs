//! A set of blobs kept in a PATCH under their hashes.
use vstd::prelude::*;

use crate::patch::entry::Entry;
use crate::patch::{lemma_identity_tree_key, IdentitySchema, PATCH};
use crate::repo::pile::{blake3_hash, spec_blake3};
use crate::value::RawValue;

verus! {

/// Blobs by the 32-byte values they are stored under.
pub struct PATCHBlobSet {
    blobs: PATCH<32, IdentitySchema, Vec<u8>>,
}

/// The blobs of a PATCH of blobs, as byte sequences.
pub open spec fn blob_view(m: Map<Seq<u8>, Vec<u8>>) -> Map<Seq<u8>, Seq<u8>> {
    m.map_values(|v: Vec<u8>| v@)
}

impl PATCHBlobSet {
    /// The blobs, by the value they are stored under.
    pub closed spec fn spec_blobs(&self) -> Map<Seq<u8>, Seq<u8>> {
        blob_view(self.blobs@)
    }

    /// An empty set.
    pub fn new() -> (r: Self)
        ensures
            r.spec_blobs() == Map::<Seq<u8>, Seq<u8>>::empty(),
    {
        let r = PATCHBlobSet { blobs: PATCH::new() };
        proof {
            assert(r.spec_blobs() =~= Map::<Seq<u8>, Seq<u8>>::empty());
        }
        r
    }

    /// Adds the blobs of `other`; where both hold a blob under the same
    /// value, this set's blob stays.
    pub fn union(&mut self, other: Self)
        requires
            old(self).spec_blobs().len() + other.spec_blobs().len() <= u64::MAX,
        ensures
            final(self).spec_blobs() == other.spec_blobs().union_prefer_right(old(self).spec_blobs()),
    {
        proof {
            assert(old(self).spec_blobs().dom() =~= self.blobs@.dom());
            assert(other.spec_blobs().dom() =~= other.blobs@.dom());
        }
        let ghost ob = other.blobs@;
        self.blobs.union(other.blobs);
        proof {
            assert(self.spec_blobs() =~= blob_view(ob).union_prefer_right(old(self).spec_blobs()));
        }
    }

    /// The number of blobs.
    pub fn len(&self) -> (r: u64)
        ensures
            r == self.spec_blobs().len(),
    {
        proof {
            assert(self.spec_blobs().dom() =~= self.blobs@.dom());
        }
        self.blobs.len()
    }

    /// Adds `blob` under its hash, which is handed back; a blob that is there
    /// already stays.
    pub fn insert(&mut self, blob: Vec<u8>) -> (r: RawValue)
        requires
            old(self).spec_blobs().len() < u64::MAX,
        ensures
            r@ == spec_blake3(blob@),
            old(self).spec_blobs().contains_key(r@) ==> final(self).spec_blobs() == old(self).spec_blobs(),
            !old(self).spec_blobs().contains_key(r@) ==> final(self).spec_blobs() == old(self).spec_blobs().insert(r@, blob@),
    {
        let hash = blake3_hash(blob.as_slice());
        self.insert_raw(&hash, blob);
        hash
    }

    /// Adds `blob` under `value`; a blob that is there already stays.
    pub fn insert_raw(&mut self, value: &RawValue, blob: Vec<u8>)
        requires
            old(self).spec_blobs().len() < u64::MAX,
        ensures
            old(self).spec_blobs().contains_key(value@) ==> final(self).spec_blobs() == old(self).spec_blobs(),
            !old(self).spec_blobs().contains_key(value@) ==> final(self).spec_blobs() == old(self).spec_blobs().insert(value@, blob@),
    {
        let ghost bv = blob@;
        proof {
            lemma_identity_tree_key::<32>(value@);
            assert(old(self).spec_blobs().dom() =~= self.blobs@.dom());
        }
        self.blobs.insert(Entry::with_value(value, blob));
        proof {
            if old(self).spec_blobs().contains_key(value@) {
                assert(self.spec_blobs() =~= old(self).spec_blobs());
            } else {
                assert(self.spec_blobs() =~= old(self).spec_blobs().insert(value@, bv));
            }
        }
    }

    /// A copy of the blob whose hash is `handle`.
    pub fn get(&self, handle: &RawValue) -> (r: Option<Vec<u8>>)
        ensures
            r is None <==> !self.spec_blobs().contains_key(handle@),
            r matches Some(v) ==> self.spec_blobs()[handle@] == v@,
    {
        self.get_raw(handle)
    }

    /// A copy of the blob stored under `value`.
    pub fn get_raw(&self, value: &RawValue) -> (r: Option<Vec<u8>>)
        ensures
            r is None <==> !self.spec_blobs().contains_key(value@),
            r matches Some(v) ==> self.spec_blobs()[value@] == v@,
    {
        proof {
            lemma_identity_tree_key::<32>(value@);
        }
        match self.blobs.get(value) {
            Some(b) => {
                let c = b.clone();
                proof {
                    assert(c@ =~= b@);
                }
                Some(c)
            },
            None => None,
        }
    }
}

} // verus!
