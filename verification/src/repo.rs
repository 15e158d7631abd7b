//! Repositories: where blobs and the heads of branches are kept, and the
//! selectors that pick sets of commits out of a repository's history.
pub mod pile;
pub mod reachable;
pub mod workspace;

use vstd::prelude::*;

use crate::id::RawId;
use crate::patch::entry::Entry;
use crate::patch::{lemma_identity_tree_key, IdentitySchema, PATCH};
use crate::repo::pile::{blake3_hash, spec_blake3};
use crate::repo::reachable::{handle_seq, handle_set};
use crate::value::RawValue;

verus! {

/// The handle of a commit: the hash of its metadata blob.
pub type CommitHandle = RawValue;

/// A set of commits.
pub type CommitSet = PATCH<32, IdentitySchema, ()>;

/// The outcome of a compare-and-swap update of a branch head.
#[derive(Debug, Clone, Copy, PartialEq, Eq)]
pub enum PushResult {
    /// The head was the expected one and now is the new one.
    Success(),
    /// The head was not the expected one; it is handed back and left as is.
    Conflict(Option<RawValue>),
}

/// The heads of a branch store, by branch id, as byte sequences.
pub open spec fn heads_of(branches: Map<Seq<u8>, RawValue>) -> Map<Seq<u8>, Seq<u8>> {
    branches.map_values(|v: RawValue| v@)
}

/// Whether two optional heads are the same.
fn same_head(a: Option<RawValue>, b: Option<RawValue>) -> (r: bool)
    ensures
        r == (match (a, b) {
            (None, None) => true,
            (Some(x), Some(y)) => x@ == y@,
            _ => false,
        }),
{
    match (a, b) {
        (None, None) => true,
        (Some(x), Some(y)) => {
            let mut eq = true;
            let mut j: usize = 0;
            while j < 32
                invariant
                    j <= 32,
                    eq <==> forall|i: int| 0 <= i < j ==> x@[i] == y@[i],
                decreases 32 - j,
            {
                if x[j] != y[j] {
                    eq = false;
                }
                j = j + 1;
            }
            proof {
                if eq {
                    assert(x@ =~= y@);
                } else {
                    let i = choose|i: int| 0 <= i < 32 && x@[i] != y@[i];
                }
            }
            eq
        },
        _ => false,
    }
}

/// Sets the head of branch `id` in `branches` to `new` when it is
/// `expected`; otherwise leaves it and answers with the current head.
pub fn compare_and_swap(branches: &mut PATCH<16, IdentitySchema, RawValue>, id: &RawId, expected: Option<RawValue>, new: &RawValue) -> (r: PushResult)
    requires
        old(branches)@.len() < u64::MAX,
    ensures
        ({
            let current = heads_of(old(branches)@).get(id@);
            let want = match expected {
                Some(h) => Some(h@),
                None => None,
            };
            if current == want {
                r == PushResult::Success() && heads_of(final(branches)@) == heads_of(old(branches)@).insert(id@, new@)
            } else {
                &&& r matches PushResult::Conflict(c)
                &&& (c is None <==> current is None)
                &&& (c matches Some(h) ==> current == Some(h@))
                &&& final(branches)@ == old(branches)@
            }
        }),
{
    proof {
        lemma_identity_tree_key::<16>(id@);
    }
    let current = match branches.get(id) {
        Some(h) => Some(*h),
        None => None,
    };
    if !same_head(current, expected) {
        return PushResult::Conflict(current);
    }
    branches.replace(Entry::with_value(id, *new));
    proof {
        assert(heads_of(branches@) =~= heads_of(old(branches)@).insert(id@, new@));
    }
    PushResult::Success()
}

/// The contents of stored blobs, by hash.
pub open spec fn blob_views(blobs: Map<Seq<u8>, Vec<u8>>) -> Map<Seq<u8>, Seq<u8>> {
    blobs.map_values(|v: Vec<u8>| v@)
}

/// An in-memory repository: blobs by their hash, and branch heads.
pub struct MemoryRepo {
    blobs: PATCH<32, IdentitySchema, Vec<u8>>,
    branches: PATCH<16, IdentitySchema, RawValue>,
}

impl MemoryRepo {
    /// The blobs, by hash.
    pub closed spec fn spec_blobs(&self) -> Map<Seq<u8>, Seq<u8>> {
        blob_views(self.blobs@)
    }

    /// The head of each branch, by id.
    pub closed spec fn spec_heads(&self) -> Map<Seq<u8>, Seq<u8>> {
        heads_of(self.branches@)
    }

    /// An empty repository.
    pub fn new() -> (r: Self)
        ensures
            r.spec_blobs() == Map::<Seq<u8>, Seq<u8>>::empty(),
            r.spec_heads() == Map::<Seq<u8>, Seq<u8>>::empty(),
    {
        let r = MemoryRepo { blobs: PATCH::new(), branches: PATCH::new() };
        proof {
            assert(r.spec_blobs() =~= Map::<Seq<u8>, Seq<u8>>::empty());
            assert(r.spec_heads() =~= Map::<Seq<u8>, Seq<u8>>::empty());
        }
        r
    }

    /// The number of blobs.
    pub(crate) fn blob_count(&self) -> (r: u64)
        ensures
            r == self.spec_blobs().len(),
            self.spec_blobs().dom().finite(),
    {
        proof {
            assert(self.spec_blobs().dom() =~= self.blobs@.dom());
        }
        self.blobs.len()
    }

    /// Stores `blob` under its hash, which is handed back; a blob that is
    /// there already stays.
    pub fn put(&mut self, blob: Vec<u8>) -> (r: RawValue)
        requires
            old(self).spec_blobs().len() < u64::MAX,
        ensures
            r@ == spec_blake3(blob@),
            final(self).spec_heads() == old(self).spec_heads(),
            old(self).spec_blobs().contains_key(r@) ==> final(self).spec_blobs() == old(self).spec_blobs(),
            !old(self).spec_blobs().contains_key(r@) ==> final(self).spec_blobs() == old(self).spec_blobs().insert(r@, blob@),
    {
        let hash = blake3_hash(blob.as_slice());
        let ghost bv = blob@;
        proof {
            lemma_identity_tree_key::<32>(hash@);
            assert(old(self).spec_blobs().dom() =~= self.blobs@.dom());
        }
        self.blobs.insert(Entry::with_value(&hash, blob));
        proof {
            if !old(self).spec_blobs().contains_key(hash@) {
                assert(self.spec_blobs() =~= old(self).spec_blobs().insert(hash@, bv));
            } else {
                assert(self.spec_blobs() =~= old(self).spec_blobs());
            }
        }
        hash
    }

    /// The blob stored under `hash`.
    pub fn get(&self, hash: &RawValue) -> (r: Option<&Vec<u8>>)
        ensures
            r is None <==> !self.spec_blobs().contains_key(hash@),
            r matches Some(v) ==> self.spec_blobs()[hash@] == v@,
    {
        proof {
            lemma_identity_tree_key::<32>(hash@);
        }
        self.blobs.get(hash)
    }

    /// Keeps only the blobs whose hashes are among `handles`.
    pub fn keep(&mut self, handles: Vec<RawValue>)
        ensures
            final(self).spec_blobs() == old(self).spec_blobs().restrict(handle_set(handles@)),
            final(self).spec_heads() == old(self).spec_heads(),
    {
        let ghost blobs = self.spec_blobs();
        let n = self.blobs.len();
        let mut kept: PATCH<32, IdentitySchema, Vec<u8>> = PATCH::new();
        let mut i: usize = 0;
        proof {
            assert(blobs.dom() =~= self.blobs@.dom());
            assert(blob_views(kept@) =~= blobs.restrict(handle_set(handles@.subrange(0, 0))));
        }
        while i < handles.len()
            invariant
                i <= handles@.len(),
                blobs == self.spec_blobs(),
                blobs.dom().finite(),
                blobs.len() == n,
                kept@.dom().finite(),
                blob_views(kept@) == blobs.restrict(handle_set(handles@.subrange(0, i as int))),
            decreases handles@.len() - i,
        {
            let h = handles[i];
            let ghost before = handle_set(handles@.subrange(0, i as int));
            proof {
                lemma_identity_tree_key::<32>(h@);
                assert(handle_set(handles@.subrange(0, i + 1)) =~= before.insert(h@)) by {
                    assert forall|x: Seq<u8>| #[trigger] handle_set(handles@.subrange(0, i + 1)).contains(x) <==> before.insert(
                        h@,
                    ).contains(x) by {
                        let s1 = handle_seq(handles@.subrange(0, i + 1));
                        let s0 = handle_seq(handles@.subrange(0, i as int));
                        if s1.contains(x) {
                            let j = choose|j: int| 0 <= j < s1.len() && #[trigger] s1[j] == x;
                            if j < i {
                                assert(s0[j] == x);
                            }
                        }
                        if s0.contains(x) {
                            let j = choose|j: int| 0 <= j < s0.len() && #[trigger] s0[j] == x;
                            assert(s1[j] == x);
                        }
                        if x == h@ {
                            assert(s1[i as int] == x);
                        }
                    }
                }
            }
            match self.blobs.get(&h) {
                Some(b) => {
                    if kept.get(&h).is_none() {
                        proof {
                            assert(kept@.dom() =~= blobs.restrict(before).dom());
                            assert(kept@.dom().subset_of(blobs.dom().remove(h@)));
                            vstd::set_lib::lemma_len_subset(kept@.dom(), blobs.dom().remove(h@));
                        }
                        let ghost k0 = kept@;
                        let c = b.clone();
                        proof {
                            assert(c@ == b@);
                        }
                        kept.insert(Entry::with_value(&h, c));
                        proof {
                            assert(kept@ == k0.insert(h@, c));
                            assert(blobs.contains_key(h@) && blobs[h@] == b@);
                            assert forall|x: Seq<u8>| #[trigger] blob_views(kept@).contains_key(x) <==> blobs.restrict(
                                before.insert(h@),
                            ).contains_key(x) by {
                                if x != h@ {
                                    assert(blob_views(k0).contains_key(x) <==> blobs.restrict(before).contains_key(x));
                                }
                            }
                            assert forall|x: Seq<u8>| #[trigger] blob_views(kept@).contains_key(x) implies blob_views(kept@)[x] == blobs.restrict(before.insert(h@))[x] by {
                                if x != h@ {
                                    assert(blob_views(k0).contains_key(x));
                                    assert(blob_views(k0)[x] == blobs.restrict(before)[x]);
                                }
                            }
                            assert(blob_views(kept@) =~= blobs.restrict(before.insert(h@)));
                        }
                    } else {
                        proof {
                            assert(blobs.restrict(before.insert(h@)) =~= blobs.restrict(before));
                        }
                    }
                },
                None => {
                    proof {
                        assert(blobs.restrict(before.insert(h@)) =~= blobs.restrict(before));
                    }
                },
            }
            i = i + 1;
        }
        proof {
            assert(handles@.subrange(0, handles@.len() as int) =~= handles@);
        }
        self.blobs = kept;
    }

    /// The hashes of the blobs, each once.
    pub fn blobs(&self) -> (r: Vec<RawValue>)
        ensures
            r@.len() == self.spec_blobs().len(),
            forall|i: int| 0 <= i < r@.len() ==> self.spec_blobs().contains_key((#[trigger] r@[i])@),
            forall|h: Seq<u8>| #[trigger] self.spec_blobs().contains_key(h) ==> exists|i: int| 0 <= i < r@.len() && r@[i]@ == h,
    {
        let mut it = self.blobs.iter();
        let ghost all = it@;
        let mut out: Vec<RawValue> = Vec::new();
        proof {
            assert(out@ + it@ =~= all);
        }
        while it.len() > 0
            invariant
                out@ + it@ == all,
            decreases it@.len(),
        {
            let ghost rest = it@;
            match it.next() {
                Some(k) => {
                    out.push(k);
                    proof {
                        assert(out@ + it@ =~= all) by {
                            assert(rest =~= seq![k] + it@);
                        }
                    }
                },
                None => {},
            }
        }
        proof {
            assert(out@ =~= all);
            assert(self.spec_blobs().dom() =~= self.blobs@.dom());
            assert forall|i: int| 0 <= i < out@.len() implies self.spec_blobs().contains_key((#[trigger] out@[i])@) by {
                lemma_identity_tree_key::<32>(out@[i]@);
            }
            assert forall|h: Seq<u8>| #[trigger] self.spec_blobs().contains_key(h) implies exists|i: int|
                0 <= i < out@.len() && out@[i]@ == h by {
                let i = choose|i: int| 0 <= i < all.len() && crate::patch::tree_key::<32, IdentitySchema>(#[trigger] all[i]@) == h;
                lemma_identity_tree_key::<32>(all[i]@);
            }
        }
        out
    }

    /// The ids of the branches, each once.
    pub fn branches(&self) -> (r: Vec<RawId>)
        ensures
            r@.len() == self.spec_heads().len(),
            forall|i: int| 0 <= i < r@.len() ==> self.spec_heads().contains_key((#[trigger] r@[i])@),
            forall|id: Seq<u8>| #[trigger] self.spec_heads().contains_key(id) ==> exists|i: int| 0 <= i < r@.len() && r@[i]@ == id,
    {
        let mut it = self.branches.iter();
        let ghost all = it@;
        let mut out: Vec<RawId> = Vec::new();
        proof {
            assert(out@ + it@ =~= all);
        }
        while it.len() > 0
            invariant
                out@ + it@ == all,
            decreases it@.len(),
        {
            let ghost rest = it@;
            match it.next() {
                Some(k) => {
                    out.push(k);
                    proof {
                        assert(out@ + it@ =~= all) by {
                            assert(rest =~= seq![k] + it@);
                        }
                    }
                },
                None => {},
            }
        }
        proof {
            assert(out@ =~= all);
            assert(self.spec_heads().dom() =~= self.branches@.dom());
            assert forall|i: int| 0 <= i < out@.len() implies self.spec_heads().contains_key((#[trigger] out@[i])@) by {
                lemma_identity_tree_key::<16>(out@[i]@);
            }
            assert forall|id: Seq<u8>| #[trigger] self.spec_heads().contains_key(id) implies exists|i: int|
                0 <= i < out@.len() && out@[i]@ == id by {
                let i = choose|i: int| 0 <= i < all.len() && crate::patch::tree_key::<16, IdentitySchema>(#[trigger] all[i]@) == id;
                lemma_identity_tree_key::<16>(all[i]@);
            }
        }
        out
    }

    /// The head of branch `id`.
    pub fn head(&self, id: &RawId) -> (r: Option<RawValue>)
        ensures
            r is None <==> !self.spec_heads().contains_key(id@),
            r matches Some(h) ==> self.spec_heads()[id@] == h@,
    {
        proof {
            lemma_identity_tree_key::<16>(id@);
        }
        match self.branches.get(id) {
            Some(h) => Some(*h),
            None => None,
        }
    }

    /// Sets the head of branch `id` to `new` when it is `expected`; otherwise
    /// leaves it and answers with the current head.
    pub fn update(&mut self, id: &RawId, expected: Option<RawValue>, new: &RawValue) -> (r: PushResult)
        requires
            old(self).spec_heads().len() < u64::MAX,
        ensures
            final(self).spec_blobs() == old(self).spec_blobs(),
            ({
                let current = old(self).spec_heads().get(id@);
                let want = match expected {
                    Some(h) => Some(h@),
                    None => None,
                };
                if current == want {
                    r == PushResult::Success() && final(self).spec_heads() == old(self).spec_heads().insert(id@, new@)
                } else {
                    &&& r matches PushResult::Conflict(c)
                    &&& (c is None <==> current is None)
                    &&& (c matches Some(h) ==> current == Some(h@))
                    &&& final(self).spec_heads() == old(self).spec_heads()
                }
            }),
    {
        proof {
            assert(old(self).spec_heads().dom() =~= self.branches@.dom());
        }
        compare_and_swap(&mut self.branches, id, expected, new)
    }
}

/// A compare-and-swap update reads back as written: a successful update
/// makes the new head the one that is read, and a refused one changes
/// nothing and hands back the head that is read.
pub proof fn lemma_update_then_head(heads: Map<Seq<u8>, Seq<u8>>, id: Seq<u8>, new: Seq<u8>, other: Seq<u8>)
    ensures
        heads.insert(id, new).get(id) == Some(new),
        other != id ==> heads.insert(id, new).get(other) == heads.get(other),
{
}

/// A store that keeps blobs in one store and branch heads in another.
pub struct HybridStore<B, R> {
    /// Where blobs are kept.
    pub blobs: B,
    /// Where branch heads are kept.
    pub branches: R,
}

impl<B, R> HybridStore<B, R> {
    /// A store of `blobs` and `branches`.
    pub fn new(blobs: B, branches: R) -> (r: Self)
        ensures
            r.blobs == blobs,
            r.branches == branches,
    {
        HybridStore { blobs, branches }
    }
}

/// Selects a commit and all its ancestors.
pub struct Ancestors(pub CommitHandle);

/// Selects a commit and all its ancestors.
pub fn ancestors(commit: CommitHandle) -> (r: Ancestors)
    ensures
        r.0 == commit,
{
    Ancestors(commit)
}

/// Selects the ancestor `n` steps up the first-parent chain of a commit.
pub struct NthAncestor(pub CommitHandle, pub usize);

/// Selects the ancestor `n` steps up the first-parent chain of `commit`.
pub fn nth_ancestor(commit: CommitHandle, n: usize) -> (r: NthAncestor)
    ensures
        r.0 == commit,
        r.1 == n,
{
    NthAncestor(commit, n)
}

/// Selects the direct parents of a commit.
pub struct Parents(pub CommitHandle);

/// Selects the direct parents of `commit`.
pub fn parents(commit: CommitHandle) -> (r: Parents)
    ensures
        r.0 == commit,
{
    Parents(commit)
}

/// Selects the commits reachable from one of two commits but not from both.
pub struct SymmetricDiff(pub CommitHandle, pub CommitHandle);

/// Selects the commits reachable from one of `a` and `b` but not from both.
pub fn symmetric_diff(a: CommitHandle, b: CommitHandle) -> (r: SymmetricDiff)
    ensures
        r.0 == a,
        r.1 == b,
{
    SymmetricDiff(a, b)
}

/// The commits of one of two sets but not of both.
pub fn symmetric_difference(a: CommitSet, b: CommitSet) -> (r: CommitSet)
    requires
        a@.len() + b@.len() <= u64::MAX,
    ensures
        r@.dom() == a@.dom().union(b@.dom()).difference(a@.dom().intersect(b@.dom())),
{
    let inter = a.intersect(&b);
    let mut union = a;
    union.union(b);
    let r = union.difference(&inter);
    proof {
        assert(r@.dom() =~= a@.dom().union(b@.dom()).difference(a@.dom().intersect(b@.dom())));
    }
    r
}

/// Selects the commits of a selection that pass a test.
pub struct Filter<S, F> {
    selector: S,
    filter: F,
}

impl<S, F> Filter<S, F> {
    /// The selection that is tested.
    pub closed spec fn spec_selector(&self) -> S {
        self.selector
    }

    /// The test.
    pub closed spec fn spec_filter(&self) -> F {
        self.filter
    }
}

/// Selects the commits of `selector` that pass `test`.
pub fn filter<S, F>(selector: S, test: F) -> (r: Filter<S, F>)
    ensures
        r.spec_selector() == selector,
        r.spec_filter() == test,
{
    Filter { selector, filter: test }
}

/// Selects the commits that touch an entity.
pub struct HistoryOf(pub RawId);

/// Selects the commits that touch `entity`.
pub fn history_of(entity: RawId) -> (r: HistoryOf)
    ensures
        r.0 == entity,
{
    HistoryOf(entity)
}

} // verus!
