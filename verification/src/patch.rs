//! Persistent Adaptive Trie with Cuckoo-compression and Hash-maintenance
//! (PATCH): a set of fixed-length keys, each with a value, kept in a
//! path-compressed 256-ary trie whose nodes store their children in byte
//! tables. Every node keeps the number of leaves and the XOR of the leaf
//! hashes below it.
//!
//! Keys can be reordered before they go into the tree ("tree order") by a
//! [`KeySchema`]; the traversal operations work on the tree order.
pub mod bytetable;
pub mod entry;
pub mod node;
pub mod ordered;
pub mod segments;
pub mod setops;

use std::marker::PhantomData;
use vstd::prelude::*;

use crate::patch::entry::Entry;
use crate::patch::ordered::{
    keys_in_key_order, lemma_ascending_len, lemma_tree_key_of, lists_keys, lists_keys_in_order, PATCHIntoIterator,
    PATCHIntoOrderedIterator, PATCHIterator, PATCHOrderedIterator,
};
use crate::patch::node::{
    agrees, distinct_from, has_prefix_in, head_map, infix_set, map_with, views_from, wf_head, Body, Head, Leaf,
};

verus! {

/// Splits keys into segments (fields such as entity, attribute and value).
pub trait KeySegmentation<const KEY_LEN: usize> {
    /// The segment of the key byte at `i` (in key order).
    spec fn spec_segment(i: int) -> int;

    /// The segment of the key byte at `i` (in key order).
    fn segment(i: usize) -> (r: usize)
        requires
            i < KEY_LEN,
        ensures
            r == Self::spec_segment(i as int),
    ;
}

/// A reordering of keys into the order in which they are laid out in the
/// tree, together with their segmentation.
pub trait KeySchema<const KEY_LEN: usize>: Sized {
    /// The segmentation this ordering operates over.
    type Segmentation: KeySegmentation<KEY_LEN>;

    /// The tree position of the key byte at `i`.
    spec fn spec_key_to_tree(i: int) -> int;

    /// The key position of the tree byte at `d`.
    spec fn spec_tree_to_key(d: int) -> int;

    /// The tree position of the key byte at `i`.
    fn key_to_tree(i: usize) -> (r: usize)
        requires
            i < KEY_LEN,
        ensures
            r == Self::spec_key_to_tree(i as int),
            r < KEY_LEN,
    ;

    /// The key position of the tree byte at `d`.
    fn tree_to_key(d: usize) -> (r: usize)
        requires
            d < KEY_LEN,
        ensures
            r == Self::spec_tree_to_key(d as int),
            r < KEY_LEN,
    ;

    /// The two maps are inverse permutations of `0..KEY_LEN`.
    proof fn lemma_permutation()
        ensures
            forall|i: int| 0 <= i < KEY_LEN ==> 0 <= #[trigger] Self::spec_key_to_tree(i) < KEY_LEN
                && Self::spec_tree_to_key(Self::spec_key_to_tree(i)) == i,
            forall|d: int| 0 <= d < KEY_LEN ==> 0 <= #[trigger] Self::spec_tree_to_key(d) < KEY_LEN
                && Self::spec_key_to_tree(Self::spec_tree_to_key(d)) == d,
    ;
}

/// A key in tree order.
pub open spec fn tree_key<const KEY_LEN: usize, O: KeySchema<KEY_LEN>>(key: Seq<u8>) -> Seq<u8> {
    Seq::new(KEY_LEN as nat, |d: int| key[O::spec_tree_to_key(d)])
}

/// A tree-ordered key back in key order.
pub open spec fn key_of<const KEY_LEN: usize, O: KeySchema<KEY_LEN>>(tree_key: Seq<u8>) -> Seq<u8> {
    Seq::new(KEY_LEN as nat, |i: int| tree_key[O::spec_key_to_tree(i)])
}

/// The segment of the tree byte at `d`.
pub open spec fn segment_at<const KEY_LEN: usize, O: KeySchema<KEY_LEN>>(d: int) -> int {
    <O::Segmentation as KeySegmentation<KEY_LEN>>::spec_segment(O::spec_tree_to_key(d))
}

/// The first tree position from `j` on that lies outside the segment of the
/// tree byte at `p`, or `KEY_LEN` when there is none.
pub open spec fn segment_end_from<const KEY_LEN: usize, O: KeySchema<KEY_LEN>>(p: int, j: int) -> int
    decreases KEY_LEN - j,
{
    if j >= KEY_LEN {
        KEY_LEN as int
    } else if segment_at::<KEY_LEN, O>(j) != segment_at::<KEY_LEN, O>(p) {
        j
    } else {
        segment_end_from::<KEY_LEN, O>(p, j + 1)
    }
}

/// Where the segment that starts at tree position `p` ends (`KEY_LEN` when
/// `p` is past the last byte).
pub open spec fn segment_end<const KEY_LEN: usize, O: KeySchema<KEY_LEN>>(p: int) -> int {
    if p >= KEY_LEN {
        KEY_LEN as int
    } else {
        segment_end_from::<KEY_LEN, O>(p, p + 1)
    }
}

/// Where the segment that starts at tree position `p` ends.
pub fn find_segment_end<const KEY_LEN: usize, O: KeySchema<KEY_LEN>>(p: usize) -> (r: usize)
    requires
        p <= KEY_LEN,
    ensures
        r == segment_end::<KEY_LEN, O>(p as int),
        p <= r <= KEY_LEN,
{
    if p >= KEY_LEN {
        return KEY_LEN;
    }
    let mut j = p + 1;
    while j < KEY_LEN && same_segment_tree::<KEY_LEN, O>(p, j)
        invariant
            p < j <= KEY_LEN,
            segment_end_from::<KEY_LEN, O>(p as int, j as int) == segment_end::<KEY_LEN, O>(p as int),
        decreases KEY_LEN - j,
    {
        j = j + 1;
    }
    j
}

/// Reorders a key from key order to tree order.
pub fn tree_ordered<const KEY_LEN: usize, O: KeySchema<KEY_LEN>>(key: &[u8; KEY_LEN]) -> (r: [u8; KEY_LEN])
    ensures
        r@ == tree_key::<KEY_LEN, O>(key@),
{
    let mut new_key = *key;
    let mut d: usize = 0;
    while d < KEY_LEN
        invariant
            d <= KEY_LEN,
            new_key@.len() == KEY_LEN,
            key@.len() == KEY_LEN,
            forall|j: int| 0 <= j < d ==> new_key@[j] == key@[O::spec_tree_to_key(j)],
        decreases KEY_LEN - d,
    {
        let i = O::tree_to_key(d);
        new_key[d] = key[i];
        d = d + 1;
    }
    proof {
        assert(new_key@ =~= tree_key::<KEY_LEN, O>(key@));
    }
    new_key
}

/// Reorders a key from tree order back to key order.
pub fn key_ordered<const KEY_LEN: usize, O: KeySchema<KEY_LEN>>(tree_key: &[u8; KEY_LEN]) -> (r: [u8; KEY_LEN])
    ensures
        r@ == key_of::<KEY_LEN, O>(tree_key@),
{
    let mut new_key = *tree_key;
    let mut i: usize = 0;
    while i < KEY_LEN
        invariant
            i <= KEY_LEN,
            new_key@.len() == KEY_LEN,
            tree_key@.len() == KEY_LEN,
            forall|j: int| 0 <= j < i ==> new_key@[j] == tree_key@[O::spec_key_to_tree(j)],
        decreases KEY_LEN - i,
    {
        let d = O::key_to_tree(i);
        new_key[i] = tree_key[d];
        i = i + 1;
    }
    proof {
        assert(new_key@ =~= key_of::<KEY_LEN, O>(tree_key@));
    }
    new_key
}

/// The segment of the tree byte at `at_depth`.
pub fn segment_of_tree_depth<const KEY_LEN: usize, O: KeySchema<KEY_LEN>>(at_depth: usize) -> (r: usize)
    requires
        at_depth < KEY_LEN,
    ensures
        r == segment_at::<KEY_LEN, O>(at_depth as int),
{
    let i = O::tree_to_key(at_depth);
    O::Segmentation::segment(i)
}

/// Whether the tree bytes at `a` and `b` belong to the same segment.
pub fn same_segment_tree<const KEY_LEN: usize, O: KeySchema<KEY_LEN>>(a: usize, b: usize) -> (r: bool)
    requires
        a < KEY_LEN,
        b < KEY_LEN,
    ensures
        r == (segment_at::<KEY_LEN, O>(a as int) == segment_at::<KEY_LEN, O>(b as int)),
{
    segment_of_tree_depth::<KEY_LEN, O>(a) == segment_of_tree_depth::<KEY_LEN, O>(b)
}

/// The sum of the first `s` segment lengths: where segment `s` starts.
pub open spec fn segment_start(lens: Seq<usize>, s: int) -> int
    decreases s,
{
    if s <= 0 {
        0
    } else {
        segment_start(lens, s - 1) + lens[s - 1]
    }
}

/// The sum of the lengths of the segments `perm[0..k]`: where the segment
/// `perm[k]` starts once the segments are laid out in the order of `perm`.
pub open spec fn permuted_start(lens: Seq<usize>, perm: Seq<usize>, k: int) -> int
    decreases k,
{
    if k <= 0 {
        0
    } else {
        permuted_start(lens, perm, k - 1) + lens[perm[k - 1] as int]
    }
}

/// The sum of the lengths of the segments below `m` that are in `picked`.
spec fn picked_sum(lens: Seq<usize>, picked: Set<int>, m: int) -> int
    decreases m,
{
    if m <= 0 {
        0
    } else {
        picked_sum(lens, picked, m - 1) + if picked.contains(m - 1) { lens[m - 1] as int } else { 0 }
    }
}

/// Whether `perm` is a permutation of `0..perm.len()`.
pub open spec fn is_permutation(perm: Seq<usize>) -> bool {
    &&& forall|i: int| 0 <= i < perm.len() ==> #[trigger] perm[i] < perm.len()
    &&& forall|i: int, j: int| 0 <= i < j < perm.len() ==> perm[i] != perm[j]
}

proof fn lemma_segment_start_monotone(lens: Seq<usize>, a: int, b: int)
    requires
        0 <= a <= b,
    ensures
        segment_start(lens, a) <= segment_start(lens, b),
    decreases b - a,
{
    if a < b {
        lemma_segment_start_monotone(lens, a, b - 1);
    }
}

proof fn lemma_picked_sum_bound(lens: Seq<usize>, picked: Set<int>, m: int)
    requires
        m >= 0,
    ensures
        0 <= picked_sum(lens, picked, m) <= segment_start(lens, m),
    decreases m,
{
    if m > 0 {
        lemma_picked_sum_bound(lens, picked, m - 1);
    }
}

proof fn lemma_picked_sum_insert(lens: Seq<usize>, picked: Set<int>, x: int, m: int)
    requires
        !picked.contains(x),
        0 <= x,
        m >= 0,
    ensures
        picked_sum(lens, picked.insert(x), m) == picked_sum(lens, picked, m) + if x < m { lens[x] as int } else { 0 },
    decreases m,
{
    if m > 0 {
        lemma_picked_sum_insert(lens, picked, x, m - 1);
    }
}

/// The segments `perm[0..k]` together are no longer than all segments.
proof fn lemma_permuted_start_bound(lens: Seq<usize>, perm: Seq<usize>, k: int)
    requires
        lens.len() == perm.len(),
        is_permutation(perm),
        0 <= k <= perm.len(),
    ensures
        permuted_start(lens, perm, k) == picked_sum(lens, perm.take(k).map_values(|p: usize| p as int).to_set(), lens.len() as int),
        0 <= permuted_start(lens, perm, k) <= segment_start(lens, lens.len() as int),
    decreases k,
{
    let m = lens.len() as int;
    let tk = perm.take(k).map_values(|p: usize| p as int);
    let picked = tk.to_set();
    if k == 0 {
        assert(picked =~= Set::<int>::empty());
        lemma_picked_sum_empty(lens, m);
    } else {
        lemma_permuted_start_bound(lens, perm, k - 1);
        let tb = perm.take(k - 1).map_values(|p: usize| p as int);
        let before = tb.to_set();
        let x = perm[k - 1] as int;
        assert(picked =~= before.insert(x)) by {
            assert forall|v: int| #[trigger] picked.contains(v) <==> before.insert(x).contains(v) by {
                if picked.contains(v) {
                    let i = choose|i: int| 0 <= i < tk.len() && tk[i] == v;
                    if i < k - 1 {
                        assert(tb[i] == v);
                    }
                }
                if before.contains(v) {
                    let i = choose|i: int| 0 <= i < tb.len() && tb[i] == v;
                    assert(tk[i] == v);
                }
                if v == x {
                    assert(tk[k - 1] == v);
                }
            }
        }
        assert(!before.contains(x)) by {
            if before.contains(x) {
                let i = choose|i: int| 0 <= i < tb.len() && tb[i] == x;
                assert(perm[i] != perm[k - 1]);
            }
        }
        lemma_picked_sum_insert(lens, before, x, m);
    }
    lemma_picked_sum_bound(lens, picked, m);
}

proof fn lemma_picked_sum_empty(lens: Seq<usize>, m: int)
    ensures
        picked_sum(lens, Set::<int>::empty(), m) == 0,
    decreases m,
{
    if m > 0 {
        lemma_picked_sum_empty(lens, m - 1);
    }
}

/// The per-byte segment table of a key whose segments have the lengths
/// `lens`: byte `j` of segment `s` maps to `s`; bytes past the segments map to 0.
pub fn build_segmentation<const N: usize, const M: usize>(lens: [usize; M]) -> (r: [usize; N])
    requires
        segment_start(lens@, M as int) <= N,
    ensures
        forall|s: int, j: int|
            #![trigger r@[j], segment_start(lens@, s)]
            0 <= s < M && segment_start(lens@, s) <= j < segment_start(lens@, s + 1) ==> r@[j] == s,
        forall|j: int| segment_start(lens@, M as int) <= j < N ==> r@[j] == 0,
{
    let mut res = [0usize; N];
    let mut seg: usize = 0;
    let mut off: usize = 0;
    while seg < M
        invariant
            seg <= M,
            off == segment_start(lens@, seg as int),
            segment_start(lens@, M as int) <= N,
            res@.len() == N,
            forall|s: int, j: int|
                #![trigger res@[j], segment_start(lens@, s)]
                0 <= s < seg && segment_start(lens@, s) <= j < segment_start(lens@, s + 1) ==> res@[j] == s,
            forall|j: int| off <= j < N ==> res@[j] == 0,
        decreases M - seg,
    {
        let len = lens[seg];
        proof {
            lemma_segment_start_monotone(lens@, seg + 1, M as int);
        }
        let mut i: usize = 0;
        while i < len
            invariant
                i <= len,
                len == lens@[seg as int],
                seg < M,
                off == segment_start(lens@, seg as int),
                off + len <= N,
                res@.len() == N,
                forall|s: int, j: int|
                    #![trigger res@[j], segment_start(lens@, s)]
                    0 <= s < seg && segment_start(lens@, s) <= j < segment_start(lens@, s + 1) ==> res@[j] == s,
                forall|j: int| off <= j < off + i ==> res@[j] == seg,
                forall|j: int| off + i <= j < N ==> res@[j] == 0,
            decreases len - i,
        {
            let ghost before = res@;
            res[off + i] = seg;
            proof {
                assert forall|s: int, j: int|
                    #![trigger res@[j], segment_start(lens@, s)]
                    0 <= s < seg && segment_start(lens@, s) <= j < segment_start(lens@, s + 1) implies res@[j] == s by {
                    lemma_segment_start_monotone(lens@, s + 1, seg as int);
                    lemma_segment_start_monotone(lens@, 0, s);
                    assert(j != off + i);
                    assert(before[j] == s);
                }
            }
            i = i + 1;
        }
        off = off + len;
        seg = seg + 1;
    }
    res
}

/// The identity table of length `N`: entry `i` holds `i`.
pub fn identity_map<const N: usize>() -> (r: [usize; N])
    ensures
        forall|i: int| 0 <= i < N ==> r@[i] == i,
{
    let mut res = [0usize; N];
    let mut i: usize = 0;
    while i < N
        invariant
            i <= N,
            res@.len() == N,
            forall|j: int| 0 <= j < i ==> res@[j] == j,
        decreases N - i,
    {
        res[i] = i;
        i = i + 1;
    }
    res
}

/// The table from key positions to tree positions for a key whose segments
/// have the lengths `lens` (in key order) and are laid out in the tree in the
/// order `perm`: byte `j` of segment `perm[k]` goes to the position after the
/// segments `perm[0..k]`. Positions past the segments map to 0.
pub fn build_key_to_tree<const N: usize, const M: usize>(lens: [usize; M], perm: [usize; M]) -> (r: [usize; N])
    requires
        segment_start(lens@, M as int) <= N,
        is_permutation(perm@),
    ensures
        forall|k: int, p: int|
            #![trigger r@[p], perm@[k]]
            0 <= k < M && segment_start(lens@, perm@[k] as int) <= p < segment_start(lens@, perm@[k] as int)
                + lens@[perm@[k] as int] ==> r@[p] == permuted_start(lens@, perm@, k) + (p - segment_start(lens@, perm@[k] as int)),
        forall|j: int| segment_start(lens@, M as int) <= j < N ==> r@[j] == 0,
{
    let mut key_starts = [0usize; M];
    let mut off: usize = 0;
    let mut i: usize = 0;
    while i < M
        invariant
            i <= M,
            off == segment_start(lens@, i as int),
            segment_start(lens@, M as int) <= N,
            key_starts@.len() == M,
            forall|s: int| 0 <= s < i ==> key_starts@[s] == segment_start(lens@, s),
        decreases M - i,
    {
        proof {
            lemma_segment_start_monotone(lens@, i + 1, M as int);
        }
        key_starts[i] = off;
        off = off + lens[i];
        i = i + 1;
    }
    let mut tree_starts = [0usize; M];
    off = 0;
    i = 0;
    while i < M
        invariant
            i <= M,
            off == permuted_start(lens@, perm@, i as int),
            segment_start(lens@, M as int) <= N,
            is_permutation(perm@),
            tree_starts@.len() == M,
            forall|k: int| 0 <= k < i ==> tree_starts@[perm@[k] as int] == permuted_start(lens@, perm@, k),
        decreases M - i,
    {
        let seg = perm[i];
        proof {
            lemma_permuted_start_bound(lens@, perm@, i + 1);
        }
        tree_starts[seg] = off;
        proof {
            assert forall|k: int| 0 <= k < i + 1 implies tree_starts@[perm@[k] as int] == permuted_start(lens@, perm@, k) by {
                if k < i {
                    assert(perm@[k] != perm@[i as int]);
                }
            }
        }
        off = off + lens[seg];
        i = i + 1;
    }
    let mut res = [0usize; N];
    let mut seg: usize = 0;
    while seg < M
        invariant
            seg <= M,
            segment_start(lens@, M as int) <= N,
            is_permutation(perm@),
            res@.len() == N,
            key_starts@.len() == M,
            tree_starts@.len() == M,
            forall|s: int| 0 <= s < M ==> key_starts@[s] == segment_start(lens@, s),
            forall|k: int| 0 <= k < M ==> tree_starts@[perm@[k] as int] == permuted_start(lens@, perm@, k),
            forall|k: int, p: int|
                #![trigger res@[p], perm@[k]]
                0 <= k < M && perm@[k] < seg && segment_start(lens@, perm@[k] as int) <= p < segment_start(lens@, perm@[k] as int)
                    + lens@[perm@[k] as int] ==> res@[p] == permuted_start(lens@, perm@, k) + (p - segment_start(lens@, perm@[k] as int)),
            forall|j: int| segment_start(lens@, seg as int) <= j < N ==> res@[j] == 0,
        decreases M - seg,
    {
        let len = lens[seg];
        let ks = key_starts[seg];
        let ts = tree_starts[seg];
        let ghost k: int = choose|k: int| 0 <= k < M && perm@[k] == seg;
        proof {
            lemma_segment_start_monotone(lens@, seg + 1, M as int);
            lemma_permutation_onto(perm@, seg as int);
            lemma_permuted_start_bound(lens@, perm@, k + 1);
            assert(ts == permuted_start(lens@, perm@, k));
        }
        let mut j: usize = 0;
        while j < len
            invariant
                j <= len,
                seg < M,
                len == lens@[seg as int],
                ks == segment_start(lens@, seg as int),
                ks + len <= N,
                0 <= k < M,
                perm@[k] == seg,
                ts == permuted_start(lens@, perm@, k),
                ts + len <= usize::MAX,
                res@.len() == N,
                is_permutation(perm@),
                forall|k2: int, p: int|
                    #![trigger res@[p], perm@[k2]]
                    0 <= k2 < M && perm@[k2] < seg && segment_start(lens@, perm@[k2] as int) <= p < segment_start(lens@, perm@[k2] as int)
                        + lens@[perm@[k2] as int] ==> res@[p] == permuted_start(lens@, perm@, k2) + (p - segment_start(lens@, perm@[k2] as int)),
                forall|p: int| ks <= p < ks + j ==> res@[p] == ts + (p - ks),
                forall|j2: int| ks + j <= j2 < N ==> res@[j2] == 0,
            decreases len - j,
        {
            let ghost before = res@;
            res[ks + j] = ts + j;
            proof {
                assert forall|k2: int, p: int|
                    #![trigger res@[p], perm@[k2]]
                    0 <= k2 < M && perm@[k2] < seg && segment_start(lens@, perm@[k2] as int) <= p < segment_start(lens@, perm@[k2] as int)
                        + lens@[perm@[k2] as int] implies res@[p] == permuted_start(lens@, perm@, k2) + (p - segment_start(lens@, perm@[k2] as int)) by {
                    lemma_segment_start_monotone(lens@, perm@[k2] as int + 1, seg as int);
                    lemma_segment_start_monotone(lens@, 0, perm@[k2] as int);
                    assert(p != ks + j);
                    assert(before[p] == permuted_start(lens@, perm@, k2) + (p - segment_start(lens@, perm@[k2] as int)));
                }
            }
            j = j + 1;
        }
        proof {
            assert forall|k2: int, p: int|
                #![trigger res@[p], perm@[k2]]
                0 <= k2 < M && perm@[k2] < seg + 1 && segment_start(lens@, perm@[k2] as int) <= p < segment_start(lens@, perm@[k2] as int)
                    + lens@[perm@[k2] as int] implies res@[p] == permuted_start(lens@, perm@, k2) + (p - segment_start(lens@, perm@[k2] as int)) by {
                if perm@[k2] == seg {
                    if k2 != k {
                        if k2 < k {
                            assert(perm@[k2] != perm@[k]);
                        } else {
                            assert(perm@[k] != perm@[k2]);
                        }
                    }
                }
            }
        }
        seg = seg + 1;
    }
    res
}

/// Every index below the length of a permutation occurs in it.
proof fn lemma_permutation_onto(perm: Seq<usize>, s: int)
    requires
        is_permutation(perm),
        0 <= s < perm.len(),
    ensures
        exists|k: int| 0 <= k < perm.len() && perm[k] == s,
{
    let n = perm.len() as int;
    let ints = perm.map_values(|p: usize| p as int);
    if forall|k: int| 0 <= k < n ==> perm[k] != s {
        // the n distinct entries would fall into the n - 1 values of 0..n other than s
        let values = ints.to_set();
        let range = Set::new(|v: int| 0 <= v < n && v != s);
        assert(ints.no_duplicates()) by {
            assert forall|i: int, j: int| 0 <= i < n && 0 <= j < n && i != j implies ints[i] != ints[j] by {
                if i < j {
                    assert(perm[i] != perm[j]);
                } else {
                    assert(perm[j] != perm[i]);
                }
            }
        }
        ints.unique_seq_to_set();
        assert(values.subset_of(range)) by {
            assert forall|v: int| #[trigger] values.contains(v) implies range.contains(v) by {
                let k = choose|k: int| 0 <= k < n && ints[k] == v;
                assert(perm[k] < n);
            }
        }
        assert(range =~= vstd::set_lib::set_int_range(0, n).remove(s));
        vstd::set_lib::lemma_int_range(0, n);
        vstd::set_lib::lemma_len_subset(values, range);
        assert(false);
    }
}

/// The inverse table of `arr`: entry `x` holds the last position at which
/// `arr` holds `x`, or 0 where `arr` never holds `x`. For a permutation this
/// is the inverse permutation.
pub fn invert<const N: usize>(arr: [usize; N]) -> (r: [usize; N])
    requires
        forall|i: int| 0 <= i < N ==> #[trigger] arr@[i] < N,
    ensures
        forall|x: int|
            0 <= x < N && (exists|i: int| 0 <= i < N && arr@[i] == x) ==> arr@[r@[x] as int] == x
                && forall|j: int| r@[x] < j < N ==> arr@[j] != x,
        forall|x: int| 0 <= x < N && (forall|i: int| 0 <= i < N ==> arr@[i] != x) ==> r@[x] == 0,
        forall|x: int| 0 <= x < N ==> (#[trigger] r@[x] as int) < N,
        (forall|i: int, j: int| 0 <= i < j < N ==> arr@[i] != arr@[j]) ==> forall|i: int|
            0 <= i < N ==> #[trigger] r@[arr@[i] as int] == i,
{
    let mut res = [0usize; N];
    let mut i: usize = 0;
    while i < N
        invariant
            i <= N,
            res@.len() == N,
            forall|k: int| 0 <= k < N ==> #[trigger] arr@[k] < N,
            forall|x: int|
                0 <= x < N && (exists|k: int| 0 <= k < i && arr@[k] == x) ==> res@[x] < i && arr@[res@[x] as int] == x
                    && forall|j: int| res@[x] < j < i ==> arr@[j] != x,
            forall|x: int| 0 <= x < N && (forall|k: int| 0 <= k < i ==> arr@[k] != x) ==> res@[x] == 0,
        decreases N - i,
    {
        res[arr[i]] = i;
        proof {
            assert forall|x: int|
                0 <= x < N && (exists|k: int| 0 <= k < i + 1 && arr@[k] == x) implies res@[x] < i + 1 && arr@[res@[x] as int] == x
                    && forall|j: int| res@[x] < j < i + 1 ==> arr@[j] != x by {
                if x != arr@[i as int] {
                    let k = choose|k: int| 0 <= k < i + 1 && arr@[k] == x;
                    assert(k < i);
                }
            }
        }
        i = i + 1;
    }
    proof {
        assert forall|x: int| 0 <= x < N implies (#[trigger] res@[x] as int) < N by {
            if exists|k: int| 0 <= k < N && arr@[k] == x {
            } else {
                assert(res@[x] == 0);
            }
        }
        if forall|a: int, b: int| 0 <= a < b < N ==> arr@[a] != arr@[b] {
            assert forall|k: int| 0 <= k < N implies #[trigger] res@[arr@[k] as int] == k by {
                let x = arr@[k] as int;
                assert(exists|k2: int| 0 <= k2 < N && arr@[k2] == x);
                let p = res@[x] as int;
                assert(arr@[p] == x);
                if p < k {
                    assert(arr@[k] != x);
                } else if p > k {
                    assert(arr@[k] != arr@[p]);
                }
            }
        }
    }
    res
}

/// `m` after inserting each key of `ks`, in order, with value `v`: a key
/// that is present already keeps its value.
pub open spec fn with_keys<V>(m: Map<Seq<u8>, V>, ks: Seq<Seq<u8>>, v: V) -> Map<Seq<u8>, V>
    decreases ks.len(),
{
    if ks.len() == 0 {
        m
    } else {
        map_with(with_keys(m, ks.drop_last(), v), ks.last(), v)
    }
}

/// Inserting the keys of a list, repeats allowed, into an empty PATCH
/// leaves exactly the distinct keys of the list, so its length is their
/// number.
pub proof fn lemma_len_after_inserts<V>(ks: Seq<Seq<u8>>, v: V)
    ensures
        with_keys(Map::<Seq<u8>, V>::empty(), ks, v).dom() == ks.to_set(),
        with_keys(Map::<Seq<u8>, V>::empty(), ks, v).len() == ks.to_set().len(),
    decreases ks.len(),
{
    if ks.len() == 0 {
        assert(ks.to_set() =~= Set::<Seq<u8>>::empty());
    } else {
        let front = ks.drop_last();
        lemma_len_after_inserts(front, v);
        assert(ks.to_set() =~= front.to_set().insert(ks.last())) by {
            assert forall|x: Seq<u8>| #[trigger] ks.to_set().contains(x) <==> front.to_set().contains(x) || x == ks.last() by {
                if ks.to_set().contains(x) {
                    let i = choose|i: int| 0 <= i < ks.len() && ks[i] == x;
                    if i < ks.len() - 1 {
                        assert(front[i] == x);
                    }
                }
                if front.to_set().contains(x) {
                    let i = choose|i: int| 0 <= i < front.len() && front[i] == x;
                    assert(ks[i] == x);
                }
                if x == ks.last() {
                    assert(ks[ks.len() - 1] == x);
                }
            }
        }
        assert(with_keys(Map::<Seq<u8>, V>::empty(), ks, v).dom() =~= ks.to_set());
    }
}

/// Under the identity schema a key is laid out in the tree as it is.
pub proof fn lemma_identity_tree_key<const KEY_LEN: usize>(key: Seq<u8>)
    requires
        key.len() == KEY_LEN,
    ensures
        tree_key::<KEY_LEN, IdentitySchema>(key) == key,
{
    assert(tree_key::<KEY_LEN, IdentitySchema>(key) =~= key);
}

/// A schema that keeps keys in their own order.
#[derive(Copy, Clone, Debug)]
pub struct IdentitySchema {}

/// A segmentation with a single segment spanning the whole key.
#[derive(Copy, Clone, Debug)]
pub struct SingleSegmentation {}

impl<const KEY_LEN: usize> KeySegmentation<KEY_LEN> for SingleSegmentation {
    open spec fn spec_segment(i: int) -> int {
        0
    }

    fn segment(i: usize) -> (r: usize) {
        0
    }
}

impl<const KEY_LEN: usize> KeySchema<KEY_LEN> for IdentitySchema {
    type Segmentation = SingleSegmentation;

    open spec fn spec_key_to_tree(i: int) -> int {
        i
    }

    open spec fn spec_tree_to_key(d: int) -> int {
        d
    }

    fn key_to_tree(i: usize) -> (r: usize) {
        i
    }

    fn tree_to_key(d: usize) -> (r: usize) {
        d
    }

    proof fn lemma_permutation() {
    }
}


/// A set of keys of `KEY_LEN` bytes with a value for each, stored in tree
/// order as given by the schema `O`.
pub struct PATCH<const KEY_LEN: usize, O: KeySchema<KEY_LEN> = IdentitySchema, V = ()> {
    root: Option<Head<KEY_LEN, V>>,
    schema: PhantomData<O>,
}

impl<const KEY_LEN: usize, O: KeySchema<KEY_LEN>, V> View for PATCH<KEY_LEN, O, V> {
    /// The keys in tree order, with their values.
    type V = Map<Seq<u8>, V>;

    closed spec fn view(&self) -> Map<Seq<u8>, V> {
        match self.root {
            Some(h) => head_map(h),
            None => Map::empty(),
        }
    }
}

impl<const KEY_LEN: usize, O: KeySchema<KEY_LEN>, V> PATCH<KEY_LEN, O, V> {
    #[verifier::type_invariant]
    spec fn inv(self) -> bool {
        match self.root {
            Some(h) => wf_head(h, 0),
            None => true,
        }
    }

    /// Creates an empty PATCH.
    pub fn new() -> (r: Self)
        ensures
            r@ == Map::<Seq<u8>, V>::empty(),
    {
        PATCH { root: None, schema: PhantomData }
    }

    /// The leaf for an entry, its key in tree order.
    fn leaf(entry: Entry<KEY_LEN, V>) -> (r: Head<KEY_LEN, V>)
        ensures
            r.body is Leaf,
            wf_head(r, 0),
            head_map(r) == Map::<Seq<u8>, V>::empty().insert(tree_key::<KEY_LEN, O>(entry.key@), entry.value),
            crate::patch::node::head_childleaf(r) == tree_key::<KEY_LEN, O>(entry.key@),
            crate::patch::node::leaf_value(r) == entry.value,
    {
        let key = tree_ordered::<KEY_LEN, O>(&entry.key);
        Head { key: 0, body: Body::Leaf(Box::new(Leaf { key, hash: entry.hash, value: entry.value })) }
    }

    /// Inserts the key of `entry` with its value; a key that is present
    /// already keeps its value.
    pub fn insert(&mut self, entry: Entry<KEY_LEN, V>)
        requires
            old(self)@.len() < u64::MAX,
        ensures
            final(self)@ == map_with(old(self)@, tree_key::<KEY_LEN, O>(entry.key@), entry.value),
            final(self)@.dom().finite(),
    {
        proof {
            use_type_invariant(&*self);
        }
        let leaf = Self::leaf(entry);
        let mut root: Option<Head<KEY_LEN, V>> = None;
        std::mem::swap(&mut root, &mut self.root);
        match root {
            Some(this) => {
                proof {
                    crate::patch::node::lemma_body_keys(this.body, 0);
                }
                self.root = Some(Head::insert_leaf(this, leaf, 0));
            },
            None => {
                self.root = Some(leaf);
            },
        }
    }

    /// Inserts the key of `entry` with its value, replacing the value of a key
    /// that is present already.
    pub fn replace(&mut self, entry: Entry<KEY_LEN, V>)
        requires
            old(self)@.len() < u64::MAX,
        ensures
            final(self)@ == old(self)@.insert(tree_key::<KEY_LEN, O>(entry.key@), entry.value),
            final(self)@.dom().finite(),
    {
        proof {
            use_type_invariant(&*self);
        }
        let leaf = Self::leaf(entry);
        let mut root: Option<Head<KEY_LEN, V>> = None;
        std::mem::swap(&mut root, &mut self.root);
        match root {
            Some(this) => {
                proof {
                    crate::patch::node::lemma_body_keys(this.body, 0);
                }
                self.root = Some(Head::replace_leaf(this, leaf, 0));
            },
            None => {
                self.root = Some(leaf);
            },
        }
    }

    /// Removes `key`; nothing happens when it is absent.
    pub fn remove(&mut self, key: &[u8; KEY_LEN])
        ensures
            final(self)@ == old(self)@.remove(tree_key::<KEY_LEN, O>(key@)),
            final(self)@.dom().finite(),
    {
        proof {
            use_type_invariant(&*self);
            if self.root is Some {
                crate::patch::node::lemma_body_keys(self.root->0.body, 0);
            }
        }
        let tkey = tree_ordered::<KEY_LEN, O>(key);
        let mut root: Option<Head<KEY_LEN, V>> = None;
        std::mem::swap(&mut root, &mut self.root);
        match root {
            Some(this) => {
                self.root = Head::remove_leaf(this, &tkey, 0);
            },
            None => {
                proof {
                    assert(Map::<Seq<u8>, V>::empty().remove(tkey@) =~= Map::<Seq<u8>, V>::empty());
                }
            },
        }
    }

    /// The number of keys.
    pub fn len(&self) -> (r: u64)
        ensures
            r == self@.len(),
            self@.dom().finite(),
    {
        proof {
            use_type_invariant(self);
        }
        match &self.root {
            Some(root) => {
                proof {
                    crate::patch::node::lemma_body_keys(root.body, 0);
                }
                root.count()
            },
            None => 0,
        }
    }

    /// Whether there are no keys.
    pub fn is_empty(&self) -> (r: bool)
        ensures
            r == (self@.len() == 0),
    {
        self.len() == 0
    }

    /// The value stored under `key`.
    pub fn get(&self, key: &[u8; KEY_LEN]) -> (r: Option<&V>)
        ensures
            r matches Some(v) ==> self@.contains_key(tree_key::<KEY_LEN, O>(key@)) && self@[tree_key::<KEY_LEN, O>(key@)] == *v,
            r is None <==> !self@.contains_key(tree_key::<KEY_LEN, O>(key@)),
            self@.dom().finite(),
    {
        proof {
            use_type_invariant(self);
            if self.root is Some {
                crate::patch::node::lemma_body_keys(self.root->0.body, 0);
            }
        }
        let tkey = tree_ordered::<KEY_LEN, O>(key);
        match &self.root {
            Some(root) => root.get(0, &tkey),
            None => None,
        }
    }

    /// Whether some key starts with `prefix` (in tree order). An empty PATCH
    /// has no key, so it has no prefix at all.
    pub fn has_prefix<const PREFIX_LEN: usize>(&self, prefix: &[u8; PREFIX_LEN]) -> (r: bool)
        requires
            PREFIX_LEN <= KEY_LEN,
        ensures
            r == has_prefix_in(self@, prefix@, PREFIX_LEN as int),
            PREFIX_LEN == KEY_LEN && KEY_LEN > 0 ==> (r == self@.contains_key(prefix@)),
    {
        proof {
            use_type_invariant(self);
        }
        match &self.root {
            Some(root) => {
                proof {
                    crate::patch::node::lemma_childleaf_in(*root, 0);
                    crate::patch::node::lemma_body_keys(root.body, 0);
                }
                let r = root.has_prefix(0, prefix);
                proof {
                    if PREFIX_LEN == KEY_LEN {
                        if r {
                            let k = choose|k: Seq<u8>| #[trigger] self@.contains_key(k) && agrees(k, prefix@, 0, PREFIX_LEN as int);
                            assert(k =~= prefix@);
                        }
                        if self@.contains_key(prefix@) {
                            assert(agrees(prefix@, prefix@, 0, PREFIX_LEN as int));
                        }
                    }
                }
                r
            },
            None => false,
        }
    }

    /// The number of distinct values that the segment starting right after
    /// `prefix` (in tree order) takes over the keys that start with `prefix`.
    /// The prefix must end at a segment boundary.
    pub fn segmented_len<const PREFIX_LEN: usize>(&self, prefix: &[u8; PREFIX_LEN]) -> (r: u64)
        requires
            PREFIX_LEN <= KEY_LEN,
            0 < PREFIX_LEN < KEY_LEN ==> segment_at::<KEY_LEN, O>(PREFIX_LEN - 1) != segment_at::<KEY_LEN, O>(
                PREFIX_LEN as int,
            ),
        ensures
            r == infix_set(
                self@,
                prefix@,
                PREFIX_LEN as int,
                segment_end::<KEY_LEN, O>(PREFIX_LEN as int) - PREFIX_LEN,
            ).len(),
            PREFIX_LEN == 0 && segment_end::<KEY_LEN, O>(0) == KEY_LEN ==> r == self@.len(),
    {
        proof {
            use_type_invariant(self);
        }
        let s = find_segment_end::<KEY_LEN, O>(PREFIX_LEN);
        match &self.root {
            Some(root) => {
                let r = root.segmented_len(0, prefix, s);
                proof {
                    crate::patch::node::lemma_body_keys(root.body, 0);
                    if PREFIX_LEN == 0 && segment_end::<KEY_LEN, O>(0) == KEY_LEN {
                        assert(infix_set(self@, prefix@, 0, KEY_LEN as int) =~= self@.dom()) by {
                            assert forall|x: Seq<u8>| #[trigger] self@.dom().contains(x) implies infix_set(self@, prefix@, 0, KEY_LEN as int).contains(x) by {
                                assert(x.subrange(0, KEY_LEN as int) =~= x);
                            }
                            assert forall|x: Seq<u8>| #[trigger] infix_set(self@, prefix@, 0, KEY_LEN as int).contains(x) implies self@.dom().contains(x) by {
                                let k = choose|k: Seq<u8>| #[trigger] self@.contains_key(k) && agrees(k, prefix@, 0, 0) && x == k.subrange(0, KEY_LEN as int);
                                assert(k.subrange(0, KEY_LEN as int) =~= k);
                            }
                        }
                    }
                }
                r
            },
            None => {
                proof {
                    assert(infix_set(self@, prefix@, PREFIX_LEN as int, s - PREFIX_LEN) =~= Set::<Seq<u8>>::empty());
                    assert(self@.dom() =~= Set::<Seq<u8>>::empty());
                }
                0
            },
        }
    }

    /// Adds the keys of `other`; a key present in both keeps the value it
    /// has in `self`.
    pub fn union(&mut self, other: Self)
        requires
            old(self)@.len() + other@.len() <= u64::MAX,
        ensures
            final(self)@ == other@.union_prefer_right(old(self)@),
    {
        proof {
            use_type_invariant(&*self);
            use_type_invariant(&other);
        }
        let mut root: Option<Head<KEY_LEN, V>> = None;
        std::mem::swap(&mut root, &mut self.root);
        match other.root {
            Some(other_root) => {
                match root {
                    Some(this) => {
                        proof {
                            crate::patch::node::lemma_body_keys(this.body, 0);
                            crate::patch::node::lemma_body_keys(other_root.body, 0);
                        }
                        self.root = Some(Head::union(this, other_root, 0));
                    },
                    None => {
                        proof {
                            assert(head_map(other_root).union_prefer_right(Map::<Seq<u8>, V>::empty()) =~= head_map(other_root));
                        }
                        self.root = Some(other_root);
                    },
                }
            },
            None => {
                proof {
                    assert(Map::<Seq<u8>, V>::empty().union_prefer_right(old(self)@) =~= old(self)@);
                }
                self.root = root;
            },
        }
    }
}


impl<const KEY_LEN: usize, O: KeySchema<KEY_LEN>, V> PATCH<KEY_LEN, O, V> {
    /// The infixes of length `INFIX_LEN` that follow `prefix` (in tree order)
    /// in the keys starting with it, each once. The infix must span exactly
    /// one segment.
    pub fn infixes<const PREFIX_LEN: usize, const INFIX_LEN: usize>(&self, prefix: &[u8; PREFIX_LEN]) -> (r: Vec<[u8; INFIX_LEN]>)
        requires
            PREFIX_LEN + INFIX_LEN <= KEY_LEN,
            INFIX_LEN > 0,
            segment_at::<KEY_LEN, O>(PREFIX_LEN as int) == segment_at::<KEY_LEN, O>(PREFIX_LEN + INFIX_LEN - 1),
            PREFIX_LEN + INFIX_LEN == KEY_LEN || segment_at::<KEY_LEN, O>(PREFIX_LEN + INFIX_LEN - 1) != segment_at::<KEY_LEN, O>(
                PREFIX_LEN + INFIX_LEN,
            ),
        ensures
            distinct_from(r@, 0),
            views_from(r@, 0) == infix_set(self@, prefix@, PREFIX_LEN as int, INFIX_LEN as int),
            PREFIX_LEN == 0 && INFIX_LEN == KEY_LEN ==> views_from(r@, 0) == self@.dom(),
    {
        proof {
            use_type_invariant(self);
        }
        let mut out: Vec<[u8; INFIX_LEN]> = Vec::new();
        match &self.root {
            Some(root) => {
                root.infixes(prefix, 0, &mut out);
                proof {
                    assert(out@.subrange(0, 0) =~= Seq::<[u8; INFIX_LEN]>::empty());
                    crate::patch::node::lemma_body_keys(root.body, 0);
                    if PREFIX_LEN == 0 && INFIX_LEN == KEY_LEN {
                        assert(infix_set(self@, prefix@, 0, KEY_LEN as int) =~= self@.dom()) by {
                            assert forall|x: Seq<u8>| #[trigger] self@.dom().contains(x) implies infix_set(self@, prefix@, 0, KEY_LEN as int).contains(x) by {
                                assert(x.subrange(0, KEY_LEN as int) =~= x);
                            }
                            assert forall|x: Seq<u8>| #[trigger] infix_set(self@, prefix@, 0, KEY_LEN as int).contains(x) implies self@.dom().contains(x) by {
                                let k = choose|k: Seq<u8>| #[trigger] self@.contains_key(k) && agrees(k, prefix@, 0, 0) && x == k.subrange(0, KEY_LEN as int);
                                assert(k.subrange(0, KEY_LEN as int) =~= k);
                            }
                        }
                    }
                }
            },
            None => {
                proof {
                    assert(views_from(out@, 0) =~= Set::<Seq<u8>>::empty());
                    assert(infix_set(self@, prefix@, PREFIX_LEN as int, INFIX_LEN as int) =~= Set::<Seq<u8>>::empty());
                    assert(self@.dom() =~= Set::<Seq<u8>>::empty());
                }
            },
        }
        out
    }
}

impl<const KEY_LEN: usize, O: KeySchema<KEY_LEN>, V: Clone> Clone for PATCH<KEY_LEN, O, V> {
    /// A separate PATCH with the same keys, each with a clone of its value:
    /// changing either afterwards leaves the other as it is.
    fn clone(&self) -> (r: Self)
        ensures
            r@.dom() == self@.dom(),
            forall|k: Seq<u8>| #[trigger] r@.contains_key(k) ==> cloned::<V>(self@[k], r@[k]),
    {
        let keys = self.ordered_keys();
        let mut out: PATCH<KEY_LEN, O, V> = PATCH::new();
        let mut i: usize = 0;
        proof {
            assert(out@.dom() =~= Set::new(|k: Seq<u8>| exists|j: int| 0 <= j < 0 && k == tree_key::<KEY_LEN, O>(keys@[j]@)));
        }
        while i < keys.len()
            invariant
                i <= keys@.len(),
                lists_keys_in_order::<KEY_LEN, O, V>(keys@, self@),
                keys@.len() == self@.len(),
                out@.dom() == Set::new(|k: Seq<u8>| exists|j: int| 0 <= j < i && k == tree_key::<KEY_LEN, O>(keys@[j]@)),
                out@.len() == i,
                out@.dom().finite(),
                forall|k: Seq<u8>| #[trigger] out@.contains_key(k) ==> cloned::<V>(self@[k], out@[k]),
            decreases keys@.len() - i,
        {
            let k = keys[i];
            let ghost tk = tree_key::<KEY_LEN, O>(k@);
            proof {
                assert(self@.contains_key(tk));
                assert(!out@.contains_key(tk)) by {
                    if out@.contains_key(tk) {
                        let j = choose|j: int| 0 <= j < i && tk == tree_key::<KEY_LEN, O>(keys@[j]@);
                        assert(crate::patch::ordered::lex_lt(tree_key::<KEY_LEN, O>(keys@[j]@), tree_key::<KEY_LEN, O>(keys@[i as int]@)));
                        let d = choose|d: int| 0 <= d < tk.len() && d < tk.len() && agrees(tk, tk, 0, d) && #[trigger] tk[d] < #[trigger] tk[d];
                    }
                }
            }
            let v = self.get(&k).unwrap();
            let c = v.clone();
            let ghost before = out@;
            out.insert(Entry::with_value(&k, c));
            proof {
                assert(out@ == before.insert(tk, c));
                assert(out@.dom() =~= Set::new(|x: Seq<u8>| exists|j: int| 0 <= j < i + 1 && x == tree_key::<KEY_LEN, O>(keys@[j]@))) by {
                    assert forall|x: Seq<u8>| #[trigger] out@.dom().contains(x) <==> exists|j: int| 0 <= j < i + 1 && x == tree_key::<KEY_LEN, O>(keys@[j]@) by {
                        if x == tk {
                            assert(0 <= i < i + 1 && x == tree_key::<KEY_LEN, O>(keys@[i as int]@));
                        } else if exists|j: int| 0 <= j < i + 1 && x == tree_key::<KEY_LEN, O>(keys@[j]@) {
                            let j = choose|j: int| 0 <= j < i + 1 && x == tree_key::<KEY_LEN, O>(keys@[j]@);
                            assert(j < i);
                        }
                    }
                }
            }
            i = i + 1;
        }
        proof {
            assert(out@.dom() =~= self@.dom()) by {
                assert forall|x: Seq<u8>| #[trigger] out@.dom().contains(x) <==> self@.dom().contains(x) by {
                    if self@.contains_key(x) {
                        let j = choose|j: int| 0 <= j < keys@.len() && tree_key::<KEY_LEN, O>(#[trigger] keys@[j]@) == x;
                    }
                }
            }
        }
        out
    }
}

impl<const KEY_LEN: usize, O: KeySchema<KEY_LEN>, V> PATCH<KEY_LEN, O, V> {
    /// The keys (in key order), sorted by their tree order.
    fn ordered_keys(&self) -> (r: Vec<[u8; KEY_LEN]>)
        ensures
            lists_keys_in_order::<KEY_LEN, O, V>(r@, self@),
            r@.len() == self@.len(),
    {
        proof {
            use_type_invariant(self);
        }
        let mut tree_keys: Vec<[u8; KEY_LEN]> = Vec::new();
        match &self.root {
            Some(root) => {
                root.collect_ordered(0, &mut tree_keys);
                proof {
                    assert(tree_keys@.subrange(0, 0) =~= Seq::<[u8; KEY_LEN]>::empty());
                    crate::patch::node::lemma_body_keys(root.body, 0);
                }
            },
            None => {
                proof {
                    assert(views_from(tree_keys@, 0) =~= self@.dom());
                }
            },
        }
        proof {
            lemma_ascending_len(tree_keys@, self@);
        }
        let r = keys_in_key_order::<KEY_LEN, O>(&tree_keys);
        proof {
            assert forall|i: int| 0 <= i < r@.len() implies tree_key::<KEY_LEN, O>((#[trigger] r@[i])@) == tree_keys@[i]@ by {
                assert(views_from(tree_keys@, 0).contains(tree_keys@[i]@));
                lemma_tree_key_of::<KEY_LEN, O>(tree_keys@[i]@);
            }
            assert forall|k: Seq<u8>| #[trigger] self@.contains_key(k) implies exists|i: int|
                0 <= i < r@.len() && tree_key::<KEY_LEN, O>(#[trigger] r@[i]@) == k by {
                assert(views_from(tree_keys@, 0).contains(k));
                let j = choose|j: int| 0 <= j < tree_keys@.len() && (#[trigger] tree_keys@[j])@ == k;
                assert(tree_key::<KEY_LEN, O>(r@[j]@) == k);
            }
            assert forall|i: int| 0 <= i < r@.len() implies self@.contains_key(tree_key::<KEY_LEN, O>(#[trigger] r@[i]@)) by {
                assert(views_from(tree_keys@, 0).contains(tree_keys@[i]@));
            }
        }
        r
    }

    /// Hands out the keys (in key order), each once.
    pub fn iter(&self) -> (r: PATCHIterator<KEY_LEN>)
        ensures
            lists_keys::<KEY_LEN, O, V>(r@, self@),
            r@.len() == self@.len(),
    {
        PATCHIntoIterator::new(self.ordered_keys())
    }

    /// Hands out the keys (in key order), sorted by their tree order.
    pub fn iter_ordered(&self) -> (r: PATCHOrderedIterator<KEY_LEN>)
        ensures
            lists_keys_in_order::<KEY_LEN, O, V>(r@, self@),
            r@.len() == self@.len(),
    {
        PATCHIntoOrderedIterator::new(self.ordered_keys())
    }

    /// Consumes the PATCH and hands out its keys (in key order), sorted by
    /// their tree order.
    pub fn into_iter_ordered(self) -> (r: PATCHIntoOrderedIterator<KEY_LEN>)
        ensures
            lists_keys_in_order::<KEY_LEN, O, V>(r@, self@),
            r@.len() == self@.len(),
    {
        PATCHIntoOrderedIterator::new(self.ordered_keys())
    }

    /// Consumes the PATCH and hands out its keys (in key order), each once.
    pub fn into_iter(self) -> (r: PATCHIntoIterator<KEY_LEN>)
        ensures
            lists_keys::<KEY_LEN, O, V>(r@, self@),
            r@.len() == self@.len(),
    {
        PATCHIntoIterator::new(self.ordered_keys())
    }
}

impl<const KEY_LEN: usize, O: KeySchema<KEY_LEN>, V: Copy> PATCH<KEY_LEN, O, V> {
    /// A PATCH with the keys present in both `self` and `other`, with their
    /// values from `self`.
    pub fn intersect(&self, other: &Self) -> (r: Self)
        ensures
            r@ == self@.restrict(other@.dom()),
    {
        proof {
            use_type_invariant(self);
            use_type_invariant(other);
        }
        match (&self.root, &other.root) {
            (Some(root), Some(other_root)) => {
                PATCH { root: root.intersect(other_root, 0), schema: PhantomData }
            },
            (Some(_), None) => {
                proof {
                    assert(self@.restrict(Set::<Seq<u8>>::empty()) =~= Map::<Seq<u8>, V>::empty());
                }
                PATCH::new()
            },
            (None, _) => {
                proof {
                    assert(Map::<Seq<u8>, V>::empty().restrict(other@.dom()) =~= Map::<Seq<u8>, V>::empty());
                }
                PATCH::new()
            },
        }
    }

    /// A PATCH with the keys of `self` that are not in `other`, with their
    /// values.
    pub fn difference(&self, other: &Self) -> (r: Self)
        ensures
            r@ == self@.remove_keys(other@.dom()),
    {
        proof {
            use_type_invariant(self);
            use_type_invariant(other);
        }
        match (&self.root, &other.root) {
            (Some(root), Some(other_root)) => {
                PATCH { root: root.difference(other_root, 0), schema: PhantomData }
            },
            (Some(root), None) => {
                proof {
                    assert(self@.remove_keys(Set::<Seq<u8>>::empty()) =~= self@);
                    crate::patch::node::lemma_childleaf_in(*root, 0);
                    crate::patch::node::lemma_wf_depth(*root, 0, crate::patch::node::head_end(*root));
                }
                let copy = root.copy_head();
                PATCH { root: Some(copy), schema: PhantomData }
            },
            (None, _) => {
                proof {
                    assert(Map::<Seq<u8>, V>::empty().remove_keys(other@.dom()) =~= Map::<Seq<u8>, V>::empty());
                }
                PATCH::new()
            },
        }
    }
}

/// What `get` finds after `insert`: the inserted key is there, with the
/// inserted value unless the key was there already, in which case its value
/// is kept; every other key keeps its value.
pub proof fn lemma_get_after_insert<V>(m: Map<Seq<u8>, V>, key: Seq<u8>, value: V, other: Seq<u8>)
    ensures
        map_with(m, key, value).contains_key(key),
        map_with(m, key, value)[key] == if m.contains_key(key) { m[key] } else { value },
        other != key ==> (map_with(m, key, value).contains_key(other) == m.contains_key(other) && (m.contains_key(other)
            ==> map_with(m, key, value)[other] == m[other])),
{
}

/// What `get` finds after `replace`: the key holds the new value; every other
/// key keeps its value.
pub proof fn lemma_get_after_replace<V>(m: Map<Seq<u8>, V>, key: Seq<u8>, value: V, other: Seq<u8>)
    ensures
        m.insert(key, value).contains_key(key),
        m.insert(key, value)[key] == value,
        other != key ==> (m.insert(key, value).contains_key(other) == m.contains_key(other) && (m.contains_key(other)
            ==> m.insert(key, value)[other] == m[other])),
{
}

/// `remove` undoes `insert` of a key that was absent, and a removed key is
/// not found.
pub proof fn lemma_remove_undoes_insert<V>(m: Map<Seq<u8>, V>, key: Seq<u8>, value: V)
    ensures
        !m.contains_key(key) ==> map_with(m, key, value).remove(key) == m,
        !m.remove(key).contains_key(key),
{
    if !m.contains_key(key) {
        assert(m.insert(key, value).remove(key) =~= m);
    }
}

/// The keys of a union are the keys of both sides, whichever side is
/// united into the other; the union keeps the values of the side it was
/// called on, and a PATCH united with itself is unchanged.
pub proof fn lemma_union_keys<V>(this: Map<Seq<u8>, V>, other: Map<Seq<u8>, V>)
    ensures
        other.union_prefer_right(this).dom() == this.dom().union(other.dom()),
        other.union_prefer_right(this).dom() == this.union_prefer_right(other).dom(),
        forall|k: Seq<u8>| #[trigger] this.contains_key(k) ==> other.union_prefer_right(this)[k] == this[k],
        this.union_prefer_right(this) == this,
{
    assert(other.union_prefer_right(this).dom() =~= this.dom().union(other.dom()));
    assert(this.union_prefer_right(other).dom() =~= this.dom().union(other.dom()));
    assert(this.union_prefer_right(this) =~= this);
}

/// The keys of an intersection are the keys both sides have, whichever
/// side it is called on; a PATCH intersected with itself is unchanged.
pub proof fn lemma_intersect_keys<V>(this: Map<Seq<u8>, V>, other: Map<Seq<u8>, V>)
    ensures
        this.restrict(other.dom()).dom() == this.dom().intersect(other.dom()),
        this.restrict(other.dom()).dom() == other.restrict(this.dom()).dom(),
        this.restrict(this.dom()) == this,
{
    assert(this.restrict(other.dom()).dom() =~= this.dom().intersect(other.dom()));
    assert(other.restrict(this.dom()).dom() =~= this.dom().intersect(other.dom()));
    assert(this.restrict(this.dom()) =~= this);
}

/// The difference and the intersection of a PATCH with another split it:
/// they share no key, and together they hold every key with its value. A
/// PATCH minus itself is empty.
pub proof fn lemma_difference_intersect_split<V>(this: Map<Seq<u8>, V>, other: Map<Seq<u8>, V>)
    ensures
        this.remove_keys(other.dom()).dom().disjoint(this.restrict(other.dom()).dom()),
        this.remove_keys(other.dom()).union_prefer_right(this.restrict(other.dom())) == this,
        this.remove_keys(this.dom()) == Map::<Seq<u8>, V>::empty(),
{
    assert(this.remove_keys(other.dom()).union_prefer_right(this.restrict(other.dom())) =~= this);
    assert(this.remove_keys(this.dom()) =~= Map::<Seq<u8>, V>::empty());
}

/// Uniting with a PATCH and then taking it away again leaves the keys that
/// were not in it.
pub proof fn lemma_union_then_difference<V>(this: Map<Seq<u8>, V>, other: Map<Seq<u8>, V>)
    ensures
        other.union_prefer_right(this).remove_keys(other.dom()) == this.remove_keys(other.dom()),
{
    assert(other.union_prefer_right(this).remove_keys(other.dom()) =~= this.remove_keys(other.dom()));
}

} // verus!
