//! Copying the blobs reachable from some roots: every blob is scanned for
//! 32-byte aligned chunks, and each chunk that names a blob of the source is
//! followed.
use vstd::prelude::*;
use vstd::set_lib::{lemma_len_subset, lemma_len_union};

use crate::patch::entry::Entry;
use crate::patch::{lemma_identity_tree_key, IdentitySchema, PATCH};
use crate::repo::pile::spec_blake3;
use crate::repo::MemoryRepo;
use crate::value::RawValue;

verus! {

/// What `copy_reachable` did.
#[derive(Debug, Clone, Copy, PartialEq, Eq)]
pub struct CopyReachableStats {
    /// The number of distinct handles visited.
    pub visited: usize,
    /// The number of blobs written to the target.
    pub stored: usize,
}

/// Every blob is stored under its hash.
pub open spec fn blobs_hashed(blobs: Map<Seq<u8>, Seq<u8>>) -> bool {
    forall|h: Seq<u8>| #[trigger] blobs.contains_key(h) ==> h == spec_blake3(blobs[h])
}

/// The 32-byte aligned chunks of a blob: the handles it might name.
pub open spec fn blob_chunks(b: Seq<u8>) -> Set<Seq<u8>> {
    Set::new(|c: Seq<u8>| exists|o: int| 0 <= o && o % 32 == 0 && o + 32 <= b.len() && c == #[trigger] b.subrange(o, o + 32))
}

/// The handles in `v`, as byte sequences.
pub open spec fn handle_seq(v: Seq<RawValue>) -> Seq<Seq<u8>> {
    v.map_values(|h: RawValue| h@)
}

/// The handles in `v`, as a set of byte sequences.
pub open spec fn handle_set(v: Seq<RawValue>) -> Set<Seq<u8>> {
    handle_seq(v).to_set()
}

/// `s` holds the roots and, with every handle of a blob of `blobs`, each
/// chunk of that blob that is a handle of `blobs`.
pub open spec fn closed_under_chunks(s: Set<Seq<u8>>, roots: Set<Seq<u8>>, blobs: Map<Seq<u8>, Seq<u8>>) -> bool {
    &&& roots.subset_of(s)
    &&& forall|h: Seq<u8>, c: Seq<u8>|
        #![trigger s.contains(h), s.contains(c)]
        s.contains(h) && blobs.contains_key(h) && blob_chunks(blobs[h]).contains(c) && blobs.contains_key(c) ==> s.contains(c)
}

/// The handles reachable from `roots` through the chunks of the blobs of
/// `blobs`: those in every set closed under chunks.
pub open spec fn reachable_handles(roots: Set<Seq<u8>>, blobs: Map<Seq<u8>, Seq<u8>>) -> Set<Seq<u8>> {
    Set::new(|h: Seq<u8>| forall|s: Set<Seq<u8>>| #[trigger] closed_under_chunks(s, roots, blobs) ==> s.contains(h))
}

/// A set closed under chunks holds every reachable handle.
proof fn lemma_closed_covers(roots: Set<Seq<u8>>, blobs: Map<Seq<u8>, Seq<u8>>, s: Set<Seq<u8>>)
    requires
        closed_under_chunks(s, roots, blobs),
    ensures
        reachable_handles(roots, blobs).subset_of(s),
{
}

/// A chunk of a reachable blob that names a blob is reachable.
proof fn lemma_chunk_reachable(roots: Set<Seq<u8>>, blobs: Map<Seq<u8>, Seq<u8>>, h: Seq<u8>, c: Seq<u8>)
    requires
        reachable_handles(roots, blobs).contains(h),
        blobs.contains_key(h),
        blob_chunks(blobs[h]).contains(c),
        blobs.contains_key(c),
    ensures
        reachable_handles(roots, blobs).contains(c),
{
    assert forall|s: Set<Seq<u8>>| #[trigger] closed_under_chunks(s, roots, blobs) implies s.contains(c) by {
        assert(s.contains(h));
    }
}

/// Reachability follows every 32-byte aligned chunk: for each offset `o`
/// that is a multiple of 32 with `o + 32` within a reachable blob, the 32
/// bytes at `o`, when they are the handle of a blob, are reachable too; and
/// every root that names a blob is reachable.
pub proof fn lemma_aligned_chunks_reachable(roots: Set<Seq<u8>>, blobs: Map<Seq<u8>, Seq<u8>>, h: Seq<u8>, o: int)
    ensures
        roots.contains(h) ==> reachable_handles(roots, blobs).contains(h),
        reachable_handles(roots, blobs).contains(h) && blobs.contains_key(h) && 0 <= o && o % 32 == 0 && o + 32 <= blobs[h].len()
            && blobs.contains_key(blobs[h].subrange(o, o + 32)) ==> reachable_handles(roots, blobs).contains(
            blobs[h].subrange(o, o + 32),
        ),
{
    if reachable_handles(roots, blobs).contains(h) && blobs.contains_key(h) && 0 <= o && o % 32 == 0 && o + 32 <= blobs[h].len()
        && blobs.contains_key(blobs[h].subrange(o, o + 32)) {
        assert(blob_chunks(blobs[h]).contains(blobs[h].subrange(o, o + 32)));
        lemma_chunk_reachable(roots, blobs, h, blobs[h].subrange(o, o + 32));
    }
    if roots.contains(h) {
        assert forall|s: Set<Seq<u8>>| #[trigger] closed_under_chunks(s, roots, blobs) implies s.contains(h) by {}
    }
}

/// The roots are reachable, and every reachable handle is a root or a
/// handle of a blob; so there are at most as many as both together.
proof fn lemma_reachable_bounds(roots: Seq<RawValue>, blobs: Map<Seq<u8>, Seq<u8>>)
    requires
        blobs.dom().finite(),
    ensures
        handle_set(roots).subset_of(reachable_handles(handle_set(roots), blobs)),
        reachable_handles(handle_set(roots), blobs).finite(),
        reachable_handles(handle_set(roots), blobs).len() <= roots.len() + blobs.dom().len(),
{
    let rs = handle_set(roots);
    let reach = reachable_handles(rs, blobs);
    let all = rs.union(blobs.dom());
    assert(closed_under_chunks(all, rs, blobs));
    lemma_closed_covers(rs, blobs, all);
    handle_seq(roots).lemma_cardinality_of_set();
    lemma_len_union(rs, blobs.dom());
    lemma_len_subset(reach, all);
}

/// The handle of `blob` at `o`.
fn chunk_at(blob: &Vec<u8>, o: usize) -> (r: RawValue)
    requires
        o + 32 <= blob@.len(),
    ensures
        r@ == blob@.subrange(o as int, o + 32),
{
    let n = blob.len();
    let mut arr = [0u8; 32];
    let mut j: usize = 0;
    while j < 32
        invariant
            j <= 32,
            n == blob@.len(),
            o + 32 <= blob@.len(),
            forall|x: int| 0 <= x < j ==> arr@[x] == blob@[o + x],
        decreases 32 - j,
    {
        arr[j] = blob[o + j];
        j = j + 1;
    }
    proof {
        assert(arr@ =~= blob@.subrange(o as int, o + 32));
    }
    arr
}

/// Copies into `target` every blob of `source` reachable from `roots`,
/// following each 32-byte aligned chunk of a copied blob that is the handle
/// of a blob of `source`. Roots that name no blob are visited and skipped.
pub fn copy_reachable(source: &MemoryRepo, target: &mut MemoryRepo, roots: Vec<RawValue>) -> (r: CopyReachableStats)
    requires
        blobs_hashed(source.spec_blobs()),
        old(target).spec_blobs().len() + source.spec_blobs().len() < u64::MAX,
        roots@.len() + source.spec_blobs().len() <= usize::MAX,
    ensures
        ({
            let reach = reachable_handles(handle_set(roots@), source.spec_blobs());
            &&& r.visited == reach.len()
            &&& r.stored == reach.intersect(source.spec_blobs().dom()).len()
            &&& final(target).spec_blobs() == source.spec_blobs().restrict(reach).union_prefer_right(old(target).spec_blobs())
            &&& final(target).spec_heads() == old(target).spec_heads()
            &&& forall|h: Seq<u8>| #[trigger] handle_set(roots@).contains(h) && source.spec_blobs().contains_key(h)
                ==> reach.contains(h) && final(target).spec_blobs().contains_key(h)
            &&& forall|h: Seq<u8>, o: int|
                reach.contains(h) && source.spec_blobs().contains_key(h) && 0 <= o && o % 32 == 0 && o + 32 <= source.spec_blobs()[h].len()
                    && source.spec_blobs().contains_key(#[trigger] source.spec_blobs()[h].subrange(o, o + 32))
                    ==> reach.contains(source.spec_blobs()[h].subrange(o, o + 32))
                    && final(target).spec_blobs().contains_key(source.spec_blobs()[h].subrange(o, o + 32))
        }),
{
    let ghost src = source.spec_blobs();
    let ghost rs = handle_set(roots@);
    let ghost reach = reachable_handles(rs, src);
    let ghost old_target = target.spec_blobs();
    let ghost heads = target.spec_heads();
    let n_source = source.blobs.len();
    let n_target = target.blobs.len();
    proof {
        assert(src.dom() =~= source.blobs@.dom());
        assert(old_target.dom() =~= target.blobs@.dom());
        lemma_reachable_bounds(roots@, src);
    }
    let mut visited: PATCH<32, IdentitySchema, ()> = PATCH::new();
    let mut stack: Vec<RawValue> = roots;
    let mut stats = CopyReachableStats { visited: 0, stored: 0 };
    proof {
        assert(src.restrict(visited@.dom()).union_prefer_right(old_target) =~= old_target);
        assert(visited@.dom() =~= Set::<Seq<u8>>::empty());
        assert(visited@.dom().intersect(src.dom()) =~= Set::<Seq<u8>>::empty());
        assert forall|x: Seq<u8>| #[trigger] rs.contains(x) implies handle_seq(stack@).contains(x) by {
        }
        assert forall|i: int| 0 <= i < stack@.len() implies reach.contains((#[trigger] stack@[i])@) by {
            assert(handle_seq(roots@)[i] == roots@[i]@);
            assert(handle_seq(roots@).contains(roots@[i]@));
            assert(rs.contains(roots@[i]@));
        }
    }
    while stack.len() > 0
        invariant
            src == source.spec_blobs(),
            blobs_hashed(src),
            src.dom().finite(),
            n_source == src.len(),
            old_target.len() == n_target,
            old_target.dom().finite(),
            n_target + n_source < u64::MAX,
            reach == reachable_handles(rs, src),
            reach.finite(),
            reach.len() <= usize::MAX,
            visited@.dom().finite(),
            visited@.dom().subset_of(reach),
            forall|i: int| 0 <= i < stack@.len() ==> reach.contains((#[trigger] stack@[i])@),
            forall|x: Seq<u8>| #[trigger] rs.contains(x) ==> visited@.dom().contains(x) || handle_seq(stack@).contains(x),
            forall|h: Seq<u8>, c: Seq<u8>|
                #![trigger visited@.dom().contains(h), blob_chunks(src[h]).contains(c)]
                visited@.dom().contains(h) && src.contains_key(h) && blob_chunks(src[h]).contains(c) && src.contains_key(c)
                    ==> visited@.dom().contains(c) || handle_seq(stack@).contains(c),
            stats.visited == visited@.dom().len(),
            stats.stored == visited@.dom().intersect(src.dom()).len(),
            target.spec_blobs() == src.restrict(visited@.dom()).union_prefer_right(old_target),
            target.spec_heads() == heads,
        decreases reach.difference(visited@.dom()).len(), stack@.len(),
    {
        let ghost before_stack = stack@;
        let h = stack.pop().unwrap();
        proof {
            lemma_identity_tree_key::<32>(h@);
            assert(before_stack == stack@.push(h));
            assert forall|x: Seq<u8>| #[trigger] handle_seq(before_stack).contains(x) implies x == h@
                || handle_seq(stack@).contains(x) by {
                let i = choose|i: int| 0 <= i < before_stack.len() && #[trigger] handle_seq(before_stack)[i] == x;
                if i < stack@.len() {
                    assert(handle_seq(stack@)[i] == x);
                }
            }
            assert(reach.contains(before_stack[before_stack.len() - 1]@));
        }
        if visited.get(&h).is_some() {
            continue;
        }
        let ghost v0 = visited@.dom();
        proof {
            lemma_len_subset(v0, reach);
            assert(v0.subset_of(reach.remove(h@)));
            lemma_len_subset(v0, reach.remove(h@));
        }
        visited.insert(Entry::new(&h));
        stats.visited = stats.visited + 1;
        let ghost v1 = visited@.dom();
        proof {
            assert(v1 =~= v0.insert(h@));
            assert(reach.difference(v1) =~= reach.difference(v0).remove(h@));
            lemma_len_subset(reach.difference(v0), reach);
        }
        match source.get(&h) {
            None => {
                proof {
                    assert(v1.intersect(src.dom()) =~= v0.intersect(src.dom()));
                    assert(src.restrict(v1) =~= src.restrict(v0));
                }
            },
            Some(blob) => {
                proof {
                    assert(v1.intersect(src.dom()) =~= v0.intersect(src.dom()).insert(h@));
                    lemma_len_subset(v0.intersect(src.dom()), src.dom());
                    lemma_len_subset(v0.intersect(src.dom()), v0);
                    assert(v0.intersect(src.dom()).subset_of(src.dom().remove(h@)));
                    lemma_len_subset(v0.intersect(src.dom()), src.dom().remove(h@));
                    assert(target.spec_blobs().dom().subset_of(src.dom().union(old_target.dom())));
                    lemma_len_union(src.dom(), old_target.dom());
                    lemma_len_subset(target.spec_blobs().dom(), src.dom().union(old_target.dom()));
                    assert(spec_blake3(blob@) == h@);
                }
                let ghost t0 = target.spec_blobs();
                target.put(blob.clone());
                stats.stored = stats.stored + 1;
                proof {
                    assert(target.spec_blobs() =~= src.restrict(v1).union_prefer_right(old_target)) by {
                        if t0.contains_key(h@) {
                            assert(!src.restrict(v0).contains_key(h@));
                            assert(old_target.contains_key(h@));
                        }
                    }
                }
                let mut o: usize = 0;
                while o <= blob.len() && 32 <= blob.len() - o
                    invariant
                        o <= blob@.len(),
                        src == source.spec_blobs(),
                        src.contains_key(h@),
                        src[h@] == blob@,
                        reach == reachable_handles(rs, src),
                        reach.contains(h@),
                        visited@.dom() == v1,
                        v1.contains(h@),
                        o % 32 == 0,
                        forall|i: int| 0 <= i < stack@.len() ==> reach.contains((#[trigger] stack@[i])@),
                        forall|x: Seq<u8>| #[trigger] rs.contains(x) ==> v1.contains(x) || handle_seq(stack@).contains(x),
                        forall|hh: Seq<u8>, c: Seq<u8>|
                            #![trigger v0.contains(hh), blob_chunks(src[hh]).contains(c)]
                            v0.contains(hh) && src.contains_key(hh) && blob_chunks(src[hh]).contains(c) && src.contains_key(c)
                                ==> v1.contains(c) || handle_seq(stack@).contains(c),
                        forall|c: Seq<u8>|
                            #![trigger blob_chunks(src[h@]).contains(c)]
                            blob_chunks(src[h@]).contains(c) && src.contains_key(c) && (exists|oo: int|
                                0 <= oo < o && oo % 32 == 0 && oo + 32 <= blob@.len() && c == #[trigger] blob@.subrange(oo, oo + 32))
                                ==> v1.contains(c) || handle_seq(stack@).contains(c),
                    decreases blob@.len() - o,
                {
                    let c = chunk_at(blob, o);
                    let ghost s0 = stack@;
                    if visited.get(&c).is_none() && source.get(&c).is_some() {
                        proof {
                            lemma_identity_tree_key::<32>(c@);
                            assert(blob_chunks(src[h@]).contains(c@));
                            lemma_chunk_reachable(rs, src, h@, c@);
                        }
                        stack.push(c);
                        proof {
                            assert forall|x: Seq<u8>| #[trigger] handle_seq(s0).contains(x) implies handle_seq(stack@).contains(x) by {
                                let i = choose|i: int| 0 <= i < s0.len() && #[trigger] handle_seq(s0)[i] == x;
                                assert(handle_seq(stack@)[i] == x);
                            }
                            assert(handle_seq(stack@)[s0.len() as int] == c@);
                        }
                    } else {
                        proof {
                            lemma_identity_tree_key::<32>(c@);
                        }
                    }
                    proof {
                        assert forall|cc: Seq<u8>|
                            #![trigger blob_chunks(src[h@]).contains(cc)]
                            blob_chunks(src[h@]).contains(cc) && src.contains_key(cc) && (exists|oo: int|
                                0 <= oo < o + 32 && oo % 32 == 0 && oo + 32 <= blob@.len() && cc == #[trigger] blob@.subrange(oo, oo + 32))
                                implies v1.contains(cc) || handle_seq(stack@).contains(cc) by {
                            let oo = choose|oo: int|
                                0 <= oo < o + 32 && oo % 32 == 0 && oo + 32 <= blob@.len() && cc == #[trigger] blob@.subrange(oo, oo + 32);
                            if oo < o {
                            } else {
                                assert(oo == o);
                            }
                        }
                    }
                    o = o + 32;
                }
                proof {
                    assert forall|c: Seq<u8>|
                        #![trigger blob_chunks(src[h@]).contains(c)]
                        blob_chunks(src[h@]).contains(c) && src.contains_key(c)
                            implies v1.contains(c) || handle_seq(stack@).contains(c) by {
                        let oo = choose|oo: int| 0 <= oo && oo % 32 == 0 && oo + 32 <= blob@.len() && c == #[trigger] blob@.subrange(oo, oo + 32);
                        assert(oo < o);
                    }
                }
            },
        }
    }
    proof {
        let v = visited@.dom();
        assert(closed_under_chunks(v, rs, src)) by {
            assert forall|x: Seq<u8>| #[trigger] rs.contains(x) implies v.contains(x) by {
                assert(!handle_seq(stack@).contains(x));
            }
            assert forall|h: Seq<u8>, c: Seq<u8>|
                #![trigger v.contains(h), v.contains(c)]
                v.contains(h) && src.contains_key(h) && blob_chunks(src[h]).contains(c) && src.contains_key(c) implies v.contains(c) by {
                assert(!handle_seq(stack@).contains(c));
            }
        }
        lemma_closed_covers(rs, src, v);
        assert(v =~= reach);
        assert forall|h: Seq<u8>| #[trigger] rs.contains(h) && src.contains_key(h) implies reach.contains(h)
            && src.restrict(reach).union_prefer_right(old_target).contains_key(h) by {
            lemma_aligned_chunks_reachable(rs, src, h, 0);
        }
        assert forall|h: Seq<u8>, o: int|
            reach.contains(h) && src.contains_key(h) && 0 <= o && o % 32 == 0 && o + 32 <= src[h].len() && src.contains_key(
                #[trigger] src[h].subrange(o, o + 32),
            ) implies reach.contains(src[h].subrange(o, o + 32)) && src.restrict(reach).union_prefer_right(old_target).contains_key(
            src[h].subrange(o, o + 32),
        ) by {
            lemma_aligned_chunks_reachable(rs, src, h, o);
        }
    }
    stats
}

/// Copies every blob of `source` into `target`, handing back for each the
/// hash it has in `source` and the hash it is stored under in `target`.
pub fn transfer(source: &MemoryRepo, target: &mut MemoryRepo) -> (r: Vec<(RawValue, RawValue)>)
    requires
        old(target).spec_blobs().len() + source.spec_blobs().len() < u64::MAX,
    ensures
        r@.len() == source.spec_blobs().len(),
        forall|i: int|
            0 <= i < r@.len() ==> source.spec_blobs().contains_key((#[trigger] r@[i]).0@) && r@[i].1@ == spec_blake3(
                source.spec_blobs()[r@[i].0@],
            ),
        forall|h: Seq<u8>| #[trigger] source.spec_blobs().contains_key(h) ==> exists|i: int| 0 <= i < r@.len() && r@[i].0@ == h,
        final(target).spec_heads() == old(target).spec_heads(),
        blobs_hashed(source.spec_blobs()) ==> final(target).spec_blobs() == source.spec_blobs().union_prefer_right(
            old(target).spec_blobs(),
        ),
{
    let ghost src = source.spec_blobs();
    let ghost old_target = target.spec_blobs();
    let handles = source.blobs();
    let n_target = target.blobs.len();
    let n_source = source.blobs.len();
    proof {
        assert(src.dom() =~= source.blobs@.dom());
        assert(old_target.dom() =~= target.blobs@.dom());
        assert(handles@.len() == n_source);
    }
    let mut out: Vec<(RawValue, RawValue)> = Vec::new();
    let mut i: usize = 0;
    let ghost mut copied: Set<Seq<u8>> = Set::empty();
    while i < handles.len()
        invariant
            src == source.spec_blobs(),
            src.dom().finite(),
            handles@.len() == src.len(),
            n_target == old_target.len(),
            old_target.dom().finite(),
            n_target + handles@.len() < u64::MAX,
            forall|j: int| 0 <= j < handles@.len() ==> src.contains_key((#[trigger] handles@[j])@),
            i <= handles@.len(),
            out@.len() == i,
            forall|j: int| 0 <= j < i ==> (#[trigger] out@[j]).0 == handles@[j] && out@[j].1@ == spec_blake3(src[handles@[j]@]),
            copied == Set::new(|h: Seq<u8>| exists|j: int| 0 <= j < i && (#[trigger] handles@[j])@ == h),
            target.spec_heads() == old(target).spec_heads(),
            target.spec_blobs().dom().subset_of(old_target.dom().union(Set::new(|x: Seq<u8>| exists|j: int| 0 <= j < i && x == spec_blake3(src[(#[trigger] handles@[j])@])))),
            blobs_hashed(src) ==> target.spec_blobs() == src.restrict(copied).union_prefer_right(old_target),
        decreases handles@.len() - i,
    {
        let h = handles[i];
        let ghost t0 = target.spec_blobs();
        let blob = match source.get(&h) {
            Some(b) => b,
            None => {
                proof {
                    // every listed hash names a blob of the source
                    assert(src.contains_key(handles@[i as int]@));
                    assert(false);
                }
                return out;
            },
        };
        proof {
            let added = Set::new(|x: Seq<u8>| exists|j: int| 0 <= j < i && x == spec_blake3(src[(#[trigger] handles@[j])@]));
            let hs = handles@.map_values(|v: RawValue| spec_blake3(src[v@]));
            assert(added.subset_of(hs.take(i as int).to_set())) by {
                assert forall|x: Seq<u8>| #[trigger] added.contains(x) implies hs.take(i as int).to_set().contains(x) by {
                    let j = choose|j: int| 0 <= j < i && x == spec_blake3(src[(#[trigger] handles@[j])@]);
                    assert(hs.take(i as int)[j] == x);
                }
            }
            hs.take(i as int).lemma_cardinality_of_set();
            lemma_len_subset(added, hs.take(i as int).to_set());
            lemma_len_union(old_target.dom(), added);
            lemma_len_subset(t0.dom(), old_target.dom().union(added));
        }
        let stored = target.put(blob.clone());
        out.push((h, stored));
        proof {
            let ci = copied.insert(h@);
            assert(ci =~= Set::new(|x: Seq<u8>| exists|j: int| 0 <= j < i + 1 && (#[trigger] handles@[j])@ == x)) by {
                assert forall|x: Seq<u8>| #[trigger] ci.contains(x) <==> exists|j: int| 0 <= j < i + 1 && (#[trigger] handles@[j])@ == x by {
                    if x == h@ {
                        assert(handles@[i as int]@ == x);
                    }
                }
            }
            let added1 = Set::new(|x: Seq<u8>| exists|j: int| 0 <= j < i + 1 && x == spec_blake3(src[(#[trigger] handles@[j])@]));
            assert(target.spec_blobs().dom().subset_of(old_target.dom().union(added1))) by {
                assert forall|x: Seq<u8>| #[trigger] target.spec_blobs().dom().contains(x) implies old_target.dom().union(added1).contains(x) by {
                    if x == stored@ {
                        assert(stored@ == spec_blake3(src[handles@[i as int]@]));
                    } else {
                        assert(t0.dom().contains(x));
                        if !old_target.dom().contains(x) {
                            let j = choose|j: int| 0 <= j < i && x == spec_blake3(src[(#[trigger] handles@[j])@]);
                        }
                    }
                }
            }
            if blobs_hashed(src) {
                assert(spec_blake3(blob@) == h@);
                assert(target.spec_blobs() =~= src.restrict(ci).union_prefer_right(old_target)) by {
                    if t0.contains_key(h@) {
                        if !old_target.contains_key(h@) {
                            assert(src.restrict(copied).contains_key(h@));
                        }
                    }
                }
            }
            copied = ci;
            assert forall|j: int| 0 <= j < i + 1 implies (#[trigger] out@[j]).0 == handles@[j] && out@[j].1@ == spec_blake3(src[handles@[j]@]) by {
            }
        }
        i = i + 1;
    }
    proof {
        assert forall|h: Seq<u8>| #[trigger] src.contains_key(h) implies exists|j: int| 0 <= j < out@.len() && out@[j].0@ == h by {
            let j = choose|j: int| 0 <= j < handles@.len() && handles@[j]@ == h;
            assert(out@[j].0 == handles@[j]);
        }
        if blobs_hashed(src) {
            assert(copied =~= src.dom()) by {
                assert forall|h: Seq<u8>| #[trigger] src.dom().contains(h) implies copied.contains(h) by {
                    let j = choose|j: int| 0 <= j < handles@.len() && handles@[j]@ == h;
                }
            }
            assert(src.restrict(copied) =~= src);
        }
    }
    out
}

} // verus!
