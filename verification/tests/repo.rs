use triblespace::patch::entry::Entry;
use triblespace::patch::{IdentitySchema, PATCH};
use triblespace::patchblobset::PATCHBlobSet;
use triblespace::repo::reachable::{copy_reachable, transfer, CopyReachableStats};
use triblespace::repo::workspace::{push, push_outcome, PushError, Workspace};
use triblespace::repo::{
    ancestors, filter, history_of, nth_ancestor, parents, symmetric_diff, symmetric_difference, HybridStore, MemoryRepo,
    PushResult,
};

#[test]
fn memory_repo_put_get() {
    let mut repo = MemoryRepo::new();
    let h = repo.put(vec![1, 2, 3]);
    assert_eq!(repo.get(&h), Some(&vec![1, 2, 3]));
    let h2 = repo.put(vec![1, 2, 3]);
    assert_eq!(h, h2);
    assert_eq!(repo.get(&[0u8; 32]), None);
    assert_eq!(h, *blake3::hash(&[1, 2, 3]).as_bytes());
}

#[test]
fn memory_repo_compare_and_swap() {
    let mut repo = MemoryRepo::new();
    let id = [1u8; 16];
    assert_eq!(repo.head(&id), None);
    assert_eq!(repo.update(&id, None, &[2u8; 32]), PushResult::Success());
    assert_eq!(repo.head(&id), Some([2u8; 32]));
    assert_eq!(repo.update(&id, None, &[3u8; 32]), PushResult::Conflict(Some([2u8; 32])));
    assert_eq!(repo.head(&id), Some([2u8; 32]));
    assert_eq!(repo.update(&id, Some([2u8; 32]), &[3u8; 32]), PushResult::Success());
    assert_eq!(repo.head(&id), Some([3u8; 32]));
    assert_eq!(repo.update(&[9u8; 16], Some([3u8; 32]), &[4u8; 32]), PushResult::Conflict(None));
}

#[test]
fn symmetric_difference_of_commit_sets() {
    let mut a = PATCH::<32, IdentitySchema, ()>::new();
    let mut b = PATCH::<32, IdentitySchema, ()>::new();
    a.insert(Entry::new(&[1u8; 32]));
    a.insert(Entry::new(&[2u8; 32]));
    b.insert(Entry::new(&[2u8; 32]));
    b.insert(Entry::new(&[3u8; 32]));
    let d = symmetric_difference(a, b);
    assert_eq!(d.len(), 2);
    assert!(d.get(&[1u8; 32]).is_some());
    assert!(d.get(&[3u8; 32]).is_some());
    assert!(d.get(&[2u8; 32]).is_none());
}

#[test]
fn selectors_hold_their_arguments() {
    assert_eq!(ancestors([1u8; 32]).0, [1u8; 32]);
    let n = nth_ancestor([2u8; 32], 3);
    assert_eq!((n.0, n.1), ([2u8; 32], 3));
    assert_eq!(parents([4u8; 32]).0, [4u8; 32]);
    let s = symmetric_diff([5u8; 32], [6u8; 32]);
    assert_eq!((s.0, s.1), ([5u8; 32], [6u8; 32]));
    assert_eq!(history_of([7u8; 16]).0, [7u8; 16]);
    let _f = filter(parents([4u8; 32]), |x: u8| x > 1);
    let h = HybridStore::new(1u8, 2u8);
    assert_eq!((h.blobs, h.branches), (1, 2));
}

#[test]
fn blob_set_insert_get_union() {
    let mut a = PATCHBlobSet::new();
    let h = a.insert(vec![1, 2]);
    assert_eq!(h, *blake3::hash(&[1, 2]).as_bytes());
    assert_eq!(a.get(&h), Some(vec![1, 2]));
    assert_eq!(a.len(), 1);
    let mut b = PATCHBlobSet::new();
    b.insert_raw(&[9u8; 32], vec![7]);
    b.insert_raw(&h, vec![0]);
    a.union(b);
    assert_eq!(a.len(), 2);
    assert_eq!(a.get_raw(&[9u8; 32]), Some(vec![7]));
    assert_eq!(a.get_raw(&h), Some(vec![1, 2]));
    assert_eq!(a.get_raw(&[8u8; 32]), None);
}

#[test]
fn copy_reachable_follows_chunks() {
    let mut source = MemoryRepo::new();
    let a = source.put(vec![1, 2, 3, 4, 5, 6, 7, 8, 9, 10]);
    let mut b_bytes = a.to_vec();
    b_bytes.extend_from_slice(&[42; 8]);
    let b = source.put(b_bytes);
    let mut c_bytes = b.to_vec();
    c_bytes.extend_from_slice(&[0xee; 32]);
    let c = source.put(c_bytes);
    let d = source.put(vec![99; 5]);

    let mut target = MemoryRepo::new();
    let stats = copy_reachable(&source, &mut target, vec![c, [7; 32]]);
    assert_eq!(stats, CopyReachableStats { visited: 4, stored: 3 });
    assert!(target.get(&a).is_some());
    assert!(target.get(&b).is_some());
    assert_eq!(target.get(&c), source.get(&c));
    assert!(target.get(&d).is_none());
    assert!(target.get(&[7; 32]).is_none());
}

#[test]
fn copy_reachable_visits_each_handle_once() {
    let mut source = MemoryRepo::new();
    let a = source.put(vec![5; 3]);
    // A blob naming `a` twice and itself never.
    let mut b_bytes = a.to_vec();
    b_bytes.extend_from_slice(&a);
    let b = source.put(b_bytes);
    let mut target = MemoryRepo::new();
    let stats = copy_reachable(&source, &mut target, vec![b, b, a]);
    assert_eq!(stats, CopyReachableStats { visited: 2, stored: 2 });
}

#[test]
fn copy_reachable_ignores_unaligned_handles() {
    let mut source = MemoryRepo::new();
    let a = source.put(vec![1; 4]);
    let mut b_bytes = vec![0u8];
    b_bytes.extend_from_slice(&a);
    let b = source.put(b_bytes);
    let mut target = MemoryRepo::new();
    let stats = copy_reachable(&source, &mut target, vec![b]);
    assert_eq!(stats, CopyReachableStats { visited: 1, stored: 1 });
    assert!(target.get(&a).is_none());
}

#[test]
fn copy_reachable_with_no_roots_copies_nothing() {
    let mut source = MemoryRepo::new();
    source.put(vec![1; 4]);
    let mut target = MemoryRepo::new();
    let stats = copy_reachable(&source, &mut target, vec![]);
    assert_eq!(stats, CopyReachableStats { visited: 0, stored: 0 });
}

#[test]
fn memory_repo_keep_retains_listed_blobs() {
    let mut repo = MemoryRepo::new();
    let a = repo.put(vec![1]);
    let b = repo.put(vec![2]);
    let c = repo.put(vec![3]);
    repo.keep(vec![a, c, c, [9; 32]]);
    assert_eq!(repo.get(&a), Some(&vec![1]));
    assert_eq!(repo.get(&b), None);
    assert_eq!(repo.get(&c), Some(&vec![3]));
    repo.keep(vec![]);
    assert_eq!(repo.get(&a), None);
}

#[test]
fn memory_repo_lists_branches() {
    let mut repo = MemoryRepo::new();
    assert!(repo.branches().is_empty());
    assert_eq!(repo.update(&[1; 16], None, &[7; 32]), PushResult::Success());
    assert_eq!(repo.update(&[2; 16], None, &[8; 32]), PushResult::Success());
    assert_eq!(repo.update(&[1; 16], Some([7; 32]), &[9; 32]), PushResult::Success());
    let mut ids = repo.branches();
    ids.sort();
    assert_eq!(ids, vec![[1; 16], [2; 16]]);
}

#[test]
fn memory_repo_lists_blobs() {
    let mut repo = MemoryRepo::new();
    assert!(repo.blobs().is_empty());
    let a = repo.put(vec![1]);
    let b = repo.put(vec![2, 3]);
    repo.put(vec![1]);
    let mut hs = repo.blobs();
    hs.sort();
    let mut expected = vec![a, b];
    expected.sort();
    assert_eq!(hs, expected);
}

#[test]
fn transfer_copies_every_blob() {
    let mut source = MemoryRepo::new();
    let a = source.put(vec![1, 2]);
    let b = source.put(vec![3]);
    let mut target = MemoryRepo::new();
    let c = target.put(vec![9]);
    let mut pairs = transfer(&source, &mut target);
    pairs.sort();
    let mut expected = vec![(a, a), (b, b)];
    expected.sort();
    assert_eq!(pairs, expected);
    assert_eq!(target.get(&a), Some(&vec![1, 2]));
    assert_eq!(target.get(&b), Some(&vec![3]));
    assert_eq!(target.get(&c), Some(&vec![9]));
    let mut all = target.blobs();
    all.sort();
    let mut expect_all = vec![a, b, c];
    expect_all.sort();
    assert_eq!(all, expect_all);
}

#[test]
fn push_moves_branch_and_copies_blobs() {
    let mut repo = MemoryRepo::new();
    let branch = [7u8; 16];
    let base = repo.put(vec![9, 9]);
    assert_eq!(repo.update(&branch, None, &base), PushResult::Success());
    let mut ws = Workspace::new(branch, base, None);
    let commit = ws.put(vec![1, 2, 3]);
    ws.set_head(commit);
    let cas = push(&mut repo, &ws, vec![4, 5]).unwrap();
    assert_eq!(cas, PushResult::Success());
    let meta = *blake3::hash(&[4, 5]).as_bytes();
    assert_eq!(repo.head(&branch), Some(meta));
    assert_eq!(repo.get(&commit), Some(&vec![1, 2, 3]));
    assert!(matches!(push_outcome(&ws, cas, None), Ok(None)));
}

#[test]
fn push_conflict_gives_fresh_workspace() {
    let mut repo = MemoryRepo::new();
    let branch = [7u8; 16];
    let base = repo.put(vec![9, 9]);
    let other = repo.put(vec![8, 8]);
    assert_eq!(repo.update(&branch, None, &other), PushResult::Success());
    let mut ws = Workspace::new(branch, base, None);
    let commit = ws.put(vec![1, 2, 3]);
    ws.set_head(commit);
    let cas = push(&mut repo, &ws, vec![4, 5]).unwrap();
    assert_eq!(cas, PushResult::Conflict(Some(other)));
    assert_eq!(repo.head(&branch), Some(other));
    let head = [3u8; 32];
    match push_outcome(&ws, cas, Some(head)) {
        Ok(Some(w)) => assert_eq!(w.head(), Some(head)),
        _ => panic!("expected a conflict workspace"),
    }
    assert!(matches!(push_outcome(&ws, PushResult::Conflict(None), None), Err(PushError::BadBranchMetadata())));
}

#[test]
fn push_without_head_is_refused() {
    let mut repo = MemoryRepo::new();
    let ws = Workspace::new([1u8; 16], [0u8; 32], None);
    assert!(matches!(push(&mut repo, &ws, vec![1]), Err(PushError::BadBranchMetadata())));
}
