use triblespace::patch::entry::Entry;
use triblespace::patch::ordered::{PATCHIntoIterator, PATCHIntoOrderedIterator};
use triblespace::patch::{
    build_key_to_tree, build_segmentation, find_segment_end, identity_map, invert, IdentitySchema, PATCH,
};

#[test]
fn patch_empty_tree() {
    let _tree = PATCH::<64, IdentitySchema, ()>::new();
}

#[test]
fn patch_tree_put_one() {
    const KEY_SIZE: usize = 64;
    let mut tree = PATCH::<KEY_SIZE, IdentitySchema, ()>::new();
    let entry = Entry::new(&[0; KEY_SIZE]);
    tree.insert(entry);
}

#[test]
fn tree_put_same() {
    const KEY_SIZE: usize = 64;
    let mut tree = PATCH::<KEY_SIZE, IdentitySchema, ()>::new();
    tree.insert(Entry::new(&[0; KEY_SIZE]));
    tree.insert(Entry::new(&[0; KEY_SIZE]));
}

#[test]
fn tree_replace_existing() {
    const KEY_SIZE: usize = 64;
    let key = [1u8; KEY_SIZE];
    let mut tree = PATCH::<KEY_SIZE, IdentitySchema, u32>::new();
    let entry1 = Entry::with_value(&key, 1);
    tree.insert(entry1);
    let entry2 = Entry::with_value(&key, 2);
    tree.replace(entry2);
    assert_eq!(tree.get(&key), Some(&2));
}

#[test]
fn tree_replace_childleaf_updates_branch() {
    const KEY_SIZE: usize = 64;
    let key1 = [0u8; KEY_SIZE];
    let key2 = [1u8; KEY_SIZE];
    let mut tree = PATCH::<KEY_SIZE, IdentitySchema, u32>::new();
    tree.insert(Entry::with_value(&key1, 1));
    tree.insert(Entry::with_value(&key2, 2));
    tree.replace(Entry::with_value(&key1, 3));
    assert_eq!(tree.get(&key1), Some(&3));
    assert_eq!(tree.get(&key2), Some(&2));
}

#[test]
fn tree_union_single() {
    const KEY_SIZE: usize = 8;
    let mut left = PATCH::<KEY_SIZE, IdentitySchema, ()>::new();
    let mut right = PATCH::<KEY_SIZE, IdentitySchema, ()>::new();
    left.insert(Entry::new(&[0, 0, 0, 0, 0, 0, 0, 0]));
    right.insert(Entry::new(&[0, 0, 0, 0, 0, 0, 0, 1]));
    left.union(right);
    assert_eq!(left.len(), 2);
}

fn key64(first: u8, last: u8) -> [u8; 64] {
    let mut k = [0u8; 64];
    k[0] = first;
    k[63] = last;
    k
}

#[test]
fn tree_union_r0() {
    let entriess = [[key64(2, 0), key64(2, 1)], [key64(0, 0), key64(1, 0)]];
    let mut expected: Vec<[u8; 64]> = Vec::new();
    let mut trees = Vec::new();
    for entries in entriess {
        let mut tree = PATCH::<64, IdentitySchema, ()>::new();
        for key in entries {
            tree.insert(Entry::new(&key));
            if !expected.contains(&key) {
                expected.push(key);
            }
        }
        trees.push(tree);
    }
    let mut union_tree = PATCH::<64, IdentitySchema, ()>::new();
    for tree in trees {
        union_tree.union(tree);
    }
    let mut tree_vec = union_tree.infixes::<0, 64>(&[]);
    expected.sort();
    tree_vec.sort();
    assert_eq!(expected, tree_vec);
}

fn two_sides() -> (PATCH<4, IdentitySchema, u32>, PATCH<4, IdentitySchema, u32>) {
    let mut left = PATCH::<4, IdentitySchema, u32>::new();
    let mut right = PATCH::<4, IdentitySchema, u32>::new();
    let a = [0u8, 0u8, 0u8, 1u8];
    let b = [0u8, 0u8, 0u8, 2u8];
    let c = [0u8, 0u8, 0u8, 3u8];
    let d = [2u8, 0u8, 0u8, 0u8];
    let e = [3u8, 0u8, 0u8, 0u8];
    left.insert(Entry::with_value(&a, 1));
    left.insert(Entry::with_value(&b, 2));
    left.insert(Entry::with_value(&c, 3));
    left.insert(Entry::with_value(&d, 4));
    right.insert(Entry::with_value(&a, 10));
    right.insert(Entry::with_value(&b, 11));
    right.insert(Entry::with_value(&c, 12));
    right.insert(Entry::with_value(&e, 13));
    (left, right)
}

#[test]
fn intersect_multiple_common_children_commits_branchmut() {
    let (left, right) = two_sides();
    let res = left.intersect(&right);
    assert_eq!(res.len(), 3);
    assert!(res.get(&[0, 0, 0, 1]).is_some());
    assert!(res.get(&[0, 0, 0, 2]).is_some());
    assert!(res.get(&[0, 0, 0, 3]).is_some());
}

#[test]
fn difference_multiple_children_commits_branchmut() {
    let (left, right) = two_sides();
    let res = left.difference(&right);
    assert_eq!(res.len(), 1);
    assert!(res.get(&[2, 0, 0, 0]).is_some());
}

#[test]
fn intersect_keeps_values_of_the_side_called_on() {
    let (left, right) = two_sides();
    let res = left.intersect(&right);
    assert_eq!(res.get(&[0, 0, 0, 1]), Some(&1));
    let res2 = right.intersect(&left);
    assert_eq!(res2.get(&[0, 0, 0, 1]), Some(&10));
}

#[test]
fn union_keeps_values_of_the_side_called_on() {
    let (mut left, right) = two_sides();
    left.union(right);
    assert_eq!(left.len(), 5);
    assert_eq!(left.get(&[0, 0, 0, 1]), Some(&1));
    assert_eq!(left.get(&[3, 0, 0, 0]), Some(&13));
}

#[test]
fn insert_keeps_an_existing_value() {
    let mut tree = PATCH::<4, IdentitySchema, u32>::new();
    tree.insert(Entry::with_value(&[1, 2, 3, 4], 1));
    tree.insert(Entry::with_value(&[1, 2, 3, 4], 2));
    assert_eq!(tree.get(&[1, 2, 3, 4]), Some(&1));
    assert_eq!(tree.len(), 1);
}

#[test]
fn remove_then_get_is_none() {
    let mut tree = PATCH::<4, IdentitySchema, u32>::new();
    tree.insert(Entry::with_value(&[0, 0, 0, 0], 1));
    tree.insert(Entry::with_value(&[1, 1, 1, 1], 2));
    tree.remove(&[0, 0, 0, 0]);
    assert_eq!(tree.get(&[0, 0, 0, 0]), None);
    assert_eq!(tree.get(&[1, 1, 1, 1]), Some(&2));
    assert_eq!(tree.len(), 1);
    tree.remove(&[1, 1, 1, 1]);
    assert!(tree.is_empty());
}

#[test]
fn difference_with_itself_is_empty() {
    let (left, _) = two_sides();
    assert_eq!(left.difference(&left).len(), 0);
    assert_eq!(left.intersect(&left).len(), 4);
}

#[test]
fn has_prefix_and_infixes() {
    let mut tree = PATCH::<4, IdentitySchema, ()>::new();
    tree.insert(Entry::new(&[1, 2, 3, 4]));
    tree.insert(Entry::new(&[1, 2, 5, 6]));
    tree.insert(Entry::new(&[7, 2, 3, 4]));
    assert!(tree.has_prefix(&[1, 2]));
    assert!(!tree.has_prefix(&[1, 3]));
    assert!(tree.has_prefix(&[]));
    assert!(tree.has_prefix(&[7, 2, 3, 4]));
    let mut infixes = tree.infixes::<2, 2>(&[1, 2]);
    infixes.sort();
    assert_eq!(infixes, vec![[3, 4], [5, 6]]);
    let none = tree.infixes::<2, 2>(&[9, 9]);
    assert!(none.is_empty());
}

#[test]
fn many_keys_survive_insert_and_remove() {
    let mut tree = PATCH::<8, IdentitySchema, u64>::new();
    for i in 0..500u64 {
        tree.insert(Entry::with_value(&(i * 7919).to_be_bytes(), i));
    }
    assert_eq!(tree.len(), 500);
    for i in 0..500u64 {
        assert_eq!(tree.get(&(i * 7919).to_be_bytes()), Some(&i));
    }
    for i in (0..500u64).step_by(2) {
        tree.remove(&(i * 7919).to_be_bytes());
    }
    assert_eq!(tree.len(), 250);
    assert_eq!(tree.get(&0u64.to_be_bytes()), None);
    assert_eq!(tree.get(&7919u64.to_be_bytes()), Some(&1));
}

#[test]
fn segmentation_table() {
    let seg: [usize; 6] = build_segmentation::<6, 3>([2, 3, 1]);
    assert_eq!(seg, [0, 0, 1, 1, 1, 2]);
}

#[test]
fn identity_table() {
    let id: [usize; 4] = identity_map::<4>();
    assert_eq!(id, [0, 1, 2, 3]);
}

#[test]
fn key_to_tree_table() {
    // segments of lengths 2, 1, 3 laid out in the tree as segment 2, then 0, then 1
    let k2t: [usize; 6] = build_key_to_tree::<6, 3>([2, 1, 3], [2, 0, 1]);
    assert_eq!(k2t, [3, 4, 5, 0, 1, 2]);
    let t2k = invert::<6>(k2t);
    assert_eq!(t2k, [3, 4, 5, 0, 1, 2]);
}

#[test]
fn invert_permutation() {
    assert_eq!(invert::<4>([2, 0, 3, 1]), [1, 3, 0, 2]);
}

fn drain_ordered<const N: usize>(mut it: PATCHIntoOrderedIterator<N>) -> Vec<[u8; N]> {
    let mut out = vec![];
    while let Some(k) = it.next() {
        out.push(k);
    }
    out
}

fn drain<const N: usize>(mut it: PATCHIntoIterator<N>) -> Vec<[u8; N]> {
    let mut out = vec![];
    while let Some(k) = it.next() {
        out.push(k);
    }
    out
}

/// Deterministic pseudo-random keys.
fn lcg_keys(n: usize, seed: u64) -> Vec<[u8; 8]> {
    let mut x = seed;
    let mut keys = vec![];
    for _ in 0..n {
        let mut k = [0u8; 8];
        for b in k.iter_mut() {
            x = x.wrapping_mul(6364136223846793005).wrapping_add(1442695040888963407);
            *b = (x >> 59) as u8;
        }
        keys.push(k);
    }
    keys
}

#[test]
fn into_iter_ordered_sorts_keys() {
    let keys = [[5u8, 0, 0, 0], [1, 2, 3, 4], [1, 2, 0, 9], [0xff, 0, 0, 0], [1, 2, 3, 3]];
    let mut tree = PATCH::<4, IdentitySchema, ()>::new();
    for k in keys.iter() {
        tree.insert(Entry::new(k));
    }
    let it = tree.into_iter_ordered();
    assert_eq!(it.len(), 5);
    assert_eq!(
        drain_ordered(it),
        vec![[1, 2, 0, 9], [1, 2, 3, 3], [1, 2, 3, 4], [5, 0, 0, 0], [0xff, 0, 0, 0]]
    );
}

#[test]
fn into_iter_ordered_empty() {
    let tree = PATCH::<4, IdentitySchema, ()>::new();
    let mut it = tree.into_iter_ordered();
    assert_eq!(it.len(), 0);
    assert_eq!(it.next(), None);
    assert_eq!(it.next(), None);
}

#[test]
fn into_iter_ordered_many_keys() {
    let keys = lcg_keys(1000, 7);
    let mut tree = PATCH::<8, IdentitySchema, ()>::new();
    for k in keys.iter() {
        tree.insert(Entry::new(k));
    }
    let mut expected = keys.clone();
    expected.sort();
    expected.dedup();
    assert_eq!(tree.len() as usize, expected.len());
    assert_eq!(drain_ordered(tree.into_iter_ordered()), expected);
}

#[test]
fn into_iter_yields_each_key_once() {
    let keys = lcg_keys(300, 11);
    let mut tree = PATCH::<8, IdentitySchema, ()>::new();
    for k in keys.iter() {
        tree.insert(Entry::new(k));
        tree.insert(Entry::new(k));
    }
    let it = tree.into_iter();
    let mut got = drain(it);
    got.sort();
    let mut expected = keys.clone();
    expected.sort();
    expected.dedup();
    assert_eq!(got, expected);
}

#[test]
fn segmented_len_counts_whole_keys_under_identity() {
    let mut tree = PATCH::<4, IdentitySchema, ()>::new();
    assert_eq!(tree.segmented_len(&[]), 0);
    for k in [[1u8, 2, 3, 4], [1, 2, 3, 5], [9, 9, 9, 9], [1, 2, 3, 4]].iter() {
        tree.insert(Entry::new(k));
    }
    assert_eq!(tree.segmented_len(&[]), 3);
    assert_eq!(tree.segmented_len(&[1, 2, 3, 5]), 1);
    assert_eq!(tree.segmented_len(&[1, 2, 3, 6]), 0);
    assert_eq!(find_segment_end::<4, IdentitySchema>(0), 4);
    assert_eq!(find_segment_end::<4, IdentitySchema>(4), 4);
}

#[test]
fn iter_ordered_borrows_and_sorts() {
    let mut tree = PATCH::<2, IdentitySchema, ()>::new();
    for k in [[3u8, 1], [0, 9], [3, 0], [0, 9]].iter() {
        tree.insert(Entry::new(k));
    }
    let mut it = tree.iter_ordered();
    assert_eq!(it.len(), 3);
    assert_eq!(it.next(), Some([0, 9]));
    assert_eq!(it.next(), Some([3, 0]));
    assert_eq!(it.next(), Some([3, 1]));
    assert_eq!(it.next(), None);
    let mut all = vec![];
    let mut it = tree.iter();
    while let Some(k) = it.next() {
        all.push(k);
    }
    all.sort();
    assert_eq!(all, vec![[0, 9], [3, 0], [3, 1]]);
    assert_eq!(tree.len(), 3);
}

#[test]
fn empty_patch_has_no_prefix() {
    let tree = PATCH::<4, IdentitySchema, ()>::new();
    assert!(!tree.has_prefix(&[]));
    assert!(!tree.has_prefix(&[1, 2]));
}

#[test]
fn len_counts_distinct_inserted_keys() {
    let keys: Vec<[u8; 4]> = vec![[1, 2, 3, 4], [5, 6, 7, 8], [1, 2, 3, 4], [9, 9, 9, 9], [5, 6, 7, 8]];
    let mut tree = PATCH::<4, IdentitySchema, ()>::new();
    for k in &keys {
        tree.insert(Entry::new(k));
    }
    assert_eq!(tree.len(), 3);
}

#[test]
fn segmented_len_of_whole_keys_is_len() {
    let mut tree = PATCH::<4, IdentitySchema, ()>::new();
    tree.insert(Entry::new(&[1, 2, 3, 4]));
    tree.insert(Entry::new(&[1, 2, 5, 6]));
    tree.insert(Entry::new(&[7, 2, 3, 4]));
    assert_eq!(tree.segmented_len(&[]), tree.len());
    let empty = PATCH::<4, IdentitySchema, ()>::new();
    assert_eq!(empty.segmented_len(&[]), 0);
}

#[test]
fn clone_is_unaffected_by_later_changes() {
    let mut tree = PATCH::<4, IdentitySchema, ()>::new();
    tree.insert(Entry::new(&[1, 2, 3, 4]));
    tree.insert(Entry::new(&[5, 6, 7, 8]));
    let copy = tree.clone();
    tree.insert(Entry::new(&[9, 9, 9, 9]));
    let mut other = PATCH::<4, IdentitySchema, ()>::new();
    other.insert(Entry::new(&[7, 7, 7, 7]));
    let before_union = tree.clone();
    tree.union(other);
    assert_eq!(copy.len(), 2);
    assert_eq!(before_union.len(), 3);
    assert_eq!(tree.len(), 4);
    assert!(copy.get(&[9, 9, 9, 9]).is_none());
    assert!(copy.get(&[1, 2, 3, 4]).is_some());
}

#[test]
fn clone_copies_values() {
    let mut tree = PATCH::<2, IdentitySchema, u32>::new();
    tree.insert(Entry::with_value(&[1, 2], 10));
    tree.insert(Entry::with_value(&[3, 4], 20));
    let copy = tree.clone();
    assert_eq!(copy.get(&[1, 2]), Some(&10));
    assert_eq!(copy.get(&[3, 4]), Some(&20));
    assert_eq!(copy.len(), 2);
}
