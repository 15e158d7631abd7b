//! Workspaces: the staging area of a branch. New blobs are kept locally
//! until a push copies them into the repository and moves the branch head
//! with a compare-and-swap against the metadata the workspace started from.
use vstd::prelude::*;

use crate::id::RawId;
use crate::repo::pile::spec_blake3;
use crate::repo::reachable::{blobs_hashed, transfer};
use crate::repo::{MemoryRepo, PushResult};
use crate::value::RawValue;

verus! {

/// Why a push failed.
#[derive(Debug, Clone, Copy, PartialEq, Eq)]
pub enum PushError {
    /// The branch metadata is malformed: the workspace has no head to push,
    /// or a conflicting branch has no metadata.
    BadBranchMetadata(),
}

/// The working state of a branch: new blobs not pushed yet, the branch it
/// tracks, the metadata of the branch it started from and its head commit.
pub struct Workspace {
    local_blobs: MemoryRepo,
    base_branch_id: RawId,
    base_branch_meta: RawValue,
    head: Option<RawValue>,
}

/// `blobs` with `blob` stored under its hash, unless a blob is there
/// already.
pub open spec fn with_blob(blobs: Map<Seq<u8>, Seq<u8>>, blob: Seq<u8>) -> Map<Seq<u8>, Seq<u8>> {
    if blobs.contains_key(spec_blake3(blob)) {
        blobs
    } else {
        blobs.insert(spec_blake3(blob), blob)
    }
}

/// What a compare-and-swap of `expected` against the current head `current`
/// answers: success when they agree, else the current head.
pub open spec fn cas_answers(current: Option<Seq<u8>>, expected: Seq<u8>, r: PushResult) -> bool {
    if current == Some(expected) {
        r == PushResult::Success()
    } else {
        &&& r matches PushResult::Conflict(c)
        &&& (c is None <==> current is None)
        &&& (c matches Some(h) ==> current == Some(h@))
    }
}

impl Workspace {
    /// Every local blob is stored under its hash.
    #[verifier::type_invariant]
    spec fn inv(&self) -> bool {
        blobs_hashed(self.local_blobs.spec_blobs())
    }

    /// The blobs added since the workspace was made, by hash.
    pub closed spec fn spec_local_blobs(&self) -> Map<Seq<u8>, Seq<u8>> {
        self.local_blobs.spec_blobs()
    }

    /// The branch the workspace tracks.
    pub closed spec fn spec_branch_id(&self) -> RawId {
        self.base_branch_id
    }

    /// The branch metadata the workspace started from.
    pub closed spec fn spec_base_meta(&self) -> RawValue {
        self.base_branch_meta
    }

    /// The head commit of the workspace.
    pub closed spec fn spec_head(&self) -> Option<RawValue> {
        self.head
    }

    /// A workspace of branch `branch_id`, started from the branch metadata
    /// `base_meta`, whose head is `head`, with no local blobs.
    pub fn new(branch_id: RawId, base_meta: RawValue, head: Option<RawValue>) -> (r: Self)
        ensures
            r.spec_branch_id() == branch_id,
            r.spec_base_meta() == base_meta,
            r.spec_head() == head,
            r.spec_local_blobs() == Map::<Seq<u8>, Seq<u8>>::empty(),
    {
        Workspace { local_blobs: MemoryRepo::new(), base_branch_id: branch_id, base_branch_meta: base_meta, head }
    }

    /// The head commit.
    pub fn head(&self) -> (r: Option<RawValue>)
        ensures
            r == self.spec_head(),
    {
        self.head
    }

    /// Moves the head to `commit`.
    pub fn set_head(&mut self, commit: RawValue)
        ensures
            final(self).spec_head() == Some(commit),
            final(self).spec_local_blobs() == old(self).spec_local_blobs(),
            final(self).spec_branch_id() == old(self).spec_branch_id(),
            final(self).spec_base_meta() == old(self).spec_base_meta(),
    {
        proof {
            use_type_invariant(&*self);
        }
        self.head = Some(commit);
    }

    /// Keeps `blob` locally under its hash, which is handed back.
    pub fn put(&mut self, blob: Vec<u8>) -> (r: RawValue)
        requires
            old(self).spec_local_blobs().len() < u64::MAX,
        ensures
            r@ == spec_blake3(blob@),
            final(self).spec_local_blobs() == with_blob(old(self).spec_local_blobs(), blob@),
            final(self).spec_head() == old(self).spec_head(),
            final(self).spec_branch_id() == old(self).spec_branch_id(),
            final(self).spec_base_meta() == old(self).spec_base_meta(),
    {
        proof {
            use_type_invariant(&*self);
        }
        let ghost bv = blob@;
        let mut local = MemoryRepo::new();
        std::mem::swap(&mut local, &mut self.local_blobs);
        let r = local.put(blob);
        std::mem::swap(&mut local, &mut self.local_blobs);
        proof {
            assert(blobs_hashed(self.local_blobs.spec_blobs())) by {
                assert forall|h: Seq<u8>| #[trigger] self.local_blobs.spec_blobs().contains_key(h) implies h == spec_blake3(
                    self.local_blobs.spec_blobs()[h],
                ) by {
                    if h != r@ {
                        assert(old(self).spec_local_blobs().contains_key(h));
                    } else if !old(self).spec_local_blobs().contains_key(r@) {
                        assert(self.local_blobs.spec_blobs()[h] == bv);
                    }
                }
            }
        }
        r
    }
}

/// What a push leads to once the branch update has answered `cas`: nothing
/// more to do after a success; after a conflict, a fresh workspace on the
/// branch's current metadata, whose head `conflict_head` was read from it,
/// so that the work can be merged and pushed again; and an error when the
/// conflicting branch has no metadata.
pub fn push_outcome(ws: &Workspace, cas: PushResult, conflict_head: Option<RawValue>) -> (r: Result<
    Option<Workspace>,
    PushError,
>)
    ensures
        cas is Success ==> r matches Ok(None),
        cas matches PushResult::Conflict(Some(m)) ==> (r matches Ok(Some(w)) && w.spec_base_meta() == m
            && w.spec_head() == conflict_head && w.spec_branch_id() == ws.spec_branch_id()
            && w.spec_local_blobs() == Map::<Seq<u8>, Seq<u8>>::empty()),
        cas matches PushResult::Conflict(None) ==> r matches Err(PushError::BadBranchMetadata()),
{
    match cas {
        PushResult::Success() => Ok(None),
        PushResult::Conflict(Some(m)) => Ok(Some(Workspace::new(ws.base_branch_id, m, conflict_head))),
        PushResult::Conflict(None) => Err(PushError::BadBranchMetadata()),
    }
}

/// Pushes the workspace to `repo`: its local blobs are copied over, then
/// the signed branch metadata `branch_meta` (which names the workspace's
/// head) is stored, and the branch head is moved to it by a
/// compare-and-swap against the metadata the workspace started from. A
/// workspace without a head is refused, after its blobs were copied. The
/// answer of the compare-and-swap is handed back for `push_outcome`.
pub fn push(repo: &mut MemoryRepo, ws: &Workspace, branch_meta: Vec<u8>) -> (r: Result<PushResult, PushError>)
    requires
        old(repo).spec_blobs().len() + ws.spec_local_blobs().len() + 1 < u64::MAX,
        old(repo).spec_heads().len() < u64::MAX,
    ensures
        ws.spec_head() is None <==> r is Err,
        r matches Err(e) ==> e == PushError::BadBranchMetadata() && final(repo).spec_heads() == old(repo).spec_heads()
            && final(repo).spec_blobs() == ws.spec_local_blobs().union_prefer_right(old(repo).spec_blobs()),
        r matches Ok(cas) ==> {
            &&& final(repo).spec_blobs() == with_blob(
                ws.spec_local_blobs().union_prefer_right(old(repo).spec_blobs()),
                branch_meta@,
            )
            &&& cas_answers(old(repo).spec_heads().get(ws.spec_branch_id()@), ws.spec_base_meta()@, cas)
            &&& cas is Success ==> final(repo).spec_heads() == old(repo).spec_heads().insert(
                ws.spec_branch_id()@,
                spec_blake3(branch_meta@),
            )
            &&& cas is Conflict ==> final(repo).spec_heads() == old(repo).spec_heads()
        },
{
    proof {
        use_type_invariant(ws);
    }
    let ghost bv = branch_meta@;
    // counting the blobs of both sides shows that both are finite
    let _ = ws.local_blobs.blob_count();
    let _ = repo.blob_count();
    transfer(&ws.local_blobs, repo);
    let ghost merged = repo.spec_blobs();
    if ws.head.is_none() {
        return Err(PushError::BadBranchMetadata());
    }
    proof {
        lemma_union_len(ws.spec_local_blobs(), old(repo).spec_blobs());
    }
    let handle = repo.put(branch_meta);
    proof {
        if merged.contains_key(handle@) {
            assert(repo.spec_blobs() == with_blob(merged, bv));
        } else {
            assert(repo.spec_blobs() == with_blob(merged, bv));
        }
    }
    let cas = repo.update(&ws.base_branch_id, Some(ws.base_branch_meta), &handle);
    Ok(cas)
}

/// A union of two finite maps has at most as many keys as both together.
proof fn lemma_union_len(a: Map<Seq<u8>, Seq<u8>>, b: Map<Seq<u8>, Seq<u8>>)
    requires
        a.dom().finite(),
        b.dom().finite(),
    ensures
        a.union_prefer_right(b).len() <= a.len() + b.len(),
{
    assert(a.union_prefer_right(b).dom() =~= a.dom().union(b.dom()));
    vstd::set_lib::lemma_len_union(a.dom(), b.dom());
}

} // verus!
