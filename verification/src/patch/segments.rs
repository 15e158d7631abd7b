//! Counting the distinct values a key segment takes below a prefix.
use vstd::prelude::*;
use vstd::set_lib::{lemma_len_subset, lemma_map_size_bound, lemma_set_disjoint_lens};

use crate::patch::node::{
    agrees, body_height, branch_map, head_childleaf, head_end, head_map, infix_set, lemma_body_keys, lemma_branch_keys,
    lemma_branch_view, lemma_child_height, lemma_childleaf_in, lemma_wf_branch, range_eq, wf_branch_core, wf_child,
    wf_head, Body, Head,
};

verus! {

/// The distinct byte strings `k[p..s]` over the keys `k` of `m`.
pub open spec fn segment_values<V>(m: Map<Seq<u8>, V>, p: int, s: int) -> Set<Seq<u8>> {
    m.dom().map(|k: Seq<u8>| k.subrange(p, s))
}

/// The distinct byte strings `k[p..s]` over the keys `k` of `m` whose byte
/// at `e` is below `b`.
pub open spec fn segment_values_below<V>(m: Map<Seq<u8>, V>, p: int, s: int, e: int, b: int) -> Set<Seq<u8>> {
    Set::new(|x: Seq<u8>| exists|k: Seq<u8>| #[trigger] m.contains_key(k) && (k[e] as int) < b && x == k.subrange(p, s))
}

impl<const KEY_LEN: usize, V> Head<KEY_LEN, V> {
    /// The number of distinct strings `k[p..s]` over the keys `k` below this
    /// head, which sits at `at_depth` and ends at or after `p`.
    pub fn count_segments(&self, at_depth: usize, p: usize, s: usize) -> (r: u64)
        requires
            wf_head(*self, at_depth as int),
            p <= head_end(*self),
            p <= s <= KEY_LEN,
        ensures
            segment_values(head_map(*self), p as int, s as int).finite(),
            r == segment_values(head_map(*self), p as int, s as int).len(),
        decreases body_height(self.body),
    {
        let ghost m = head_map(*self);
        let ghost f = |k: Seq<u8>| k.subrange(p as int, s as int);
        proof {
            lemma_childleaf_in(*self, at_depth as int);
            lemma_body_keys(self.body, at_depth as int);
            m.dom().lemma_map_finite(f);
        }
        let end_depth = self.end_depth();
        if end_depth >= s {
            proof {
                let cl = head_childleaf(*self);
                let x = cl.subrange(p as int, s as int);
                assert(segment_values(m, p as int, s as int) =~= Set::<Seq<u8>>::empty().insert(x)) by {
                    assert forall|y: Seq<u8>| #[trigger] segment_values(m, p as int, s as int).contains(y) <==> y == x by {
                        if segment_values(m, p as int, s as int).contains(y) {
                            let k = choose|k: Seq<u8>| m.dom().contains(k) && y == f(k);
                            assert(agrees(k, cl, 0, end_depth as int));
                            assert(y =~= x);
                        }
                        if y == x {
                            assert(m.dom().contains(cl) && y == f(cl));
                        }
                    }
                }
            }
            return 1;
        }
        match &self.body {
            Body::Leaf(_) => {
                proof {
                    assert(false);
                }
                0
            },
            Body::Branch(br) => {
                proof {
                    lemma_wf_branch(**br, at_depth as int);
                    lemma_branch_view(**br);
                    lemma_branch_keys(**br);
                    lemma_map_size_bound(m.dom(), segment_values(m, p as int, s as int), f);
                }
                let e = end_depth;
                let ghost full = segment_values(m, p as int, s as int);
                let ghost hb = body_height(self.body);
                let mut count: u64 = 0;
                let mut b: u16 = 0;
                proof {
                    assert(segment_values_below(m, p as int, s as int, e as int, 0) =~= Set::<Seq<u8>>::empty());
                }
                while b < 256
                    invariant
                        b <= 256,
                        p <= e < s <= KEY_LEN,
                        e == br.end_depth,
                        wf_branch_core(**br),
                        m == branch_map(**br),
                        hb == body_height(self.body),
                        hb == body_height(Body::Branch(Box::new(**br))),
                        forall|k: Seq<u8>| #[trigger] m.contains_key(k) ==> k.len() == KEY_LEN,
                        full == segment_values(m, p as int, s as int),
                        full.finite(),
                        full.len() <= u64::MAX,
                        segment_values_below(m, p as int, s as int, e as int, b as int).finite(),
                        count == segment_values_below(m, p as int, s as int, e as int, b as int).len(),
                    decreases 256 - b,
                {
                    proof {
                        lemma_branch_view(**br);
                    }
                    let c: u8 = b as u8;
                    let ghost lo = segment_values_below(m, p as int, s as int, e as int, b as int);
                    let ghost hi = segment_values_below(m, p as int, s as int, e as int, b + 1);
                    match br.child_table.table_get(c) {
                        Some(child) => {
                            proof {
                                assert(wf_child(*child, e as int));
                                lemma_child_height(**br, c);
                                lemma_childleaf_in(*child, e as int);
                            }
                            let n = child.count_segments(e, p, s);
                            proof {
                                let cm = head_map(*child);
                                let cs = segment_values(cm, p as int, s as int);
                                assert forall|k: Seq<u8>| #[trigger] cm.contains_key(k) <==> (m.contains_key(k) && k[e as int] == c) by {
                                    if cm.contains_key(k) {
                                        assert(k[e as int] == c);
                                    }
                                }
                                assert(hi =~= lo + cs) by {
                                    assert forall|x: Seq<u8>| #[trigger] hi.contains(x) <==> (lo + cs).contains(x) by {
                                        if hi.contains(x) {
                                            let k = choose|k: Seq<u8>| #[trigger] m.contains_key(k) && (k[e as int] as int) < b + 1 && x == k.subrange(p as int, s as int);
                                            if (k[e as int] as int) < b {
                                                assert(lo.contains(x));
                                            } else {
                                                assert(cm.contains_key(k));
                                                assert(cm.dom().contains(k) && x == k.subrange(p as int, s as int));
                                            }
                                        }
                                        if lo.contains(x) {
                                            let k = choose|k: Seq<u8>| #[trigger] m.contains_key(k) && (k[e as int] as int) < b && x == k.subrange(p as int, s as int);
                                            assert(m.contains_key(k) && (k[e as int] as int) < b + 1 && x == k.subrange(p as int, s as int));
                                        }
                                        if cs.contains(x) {
                                            let k = choose|k: Seq<u8>| cm.dom().contains(k) && x == k.subrange(p as int, s as int);
                                            assert(m.contains_key(k) && (k[e as int] as int) < b + 1 && x == k.subrange(p as int, s as int));
                                        }
                                    }
                                }
                                assert(lo.disjoint(cs)) by {
                                    assert forall|x: Seq<u8>| !(lo.contains(x) && #[trigger] cs.contains(x)) by {
                                        if lo.contains(x) && cs.contains(x) {
                                            let k1 = choose|k: Seq<u8>| #[trigger] m.contains_key(k) && (k[e as int] as int) < b && x == k.subrange(p as int, s as int);
                                            let k2 = choose|k: Seq<u8>| cm.dom().contains(k) && x == k.subrange(p as int, s as int);
                                            assert(x[e - p] == k1[e as int]);
                                            assert(x[e - p] == k2[e as int]);
                                        }
                                    }
                                }
                                lemma_set_disjoint_lens(lo, cs);
                                assert(hi.subset_of(full)) by {
                                    assert forall|x: Seq<u8>| #[trigger] hi.contains(x) implies full.contains(x) by {
                                        let k = choose|k: Seq<u8>| #[trigger] m.contains_key(k) && (k[e as int] as int) < b + 1 && x == k.subrange(p as int, s as int);
                                        assert(m.dom().contains(k) && x == k.subrange(p as int, s as int));
                                    }
                                }
                                lemma_len_subset(hi, full);
                            }
                            count = count + n;
                        },
                        None => {
                            proof {
                                assert(hi =~= lo) by {
                                    assert forall|x: Seq<u8>| #[trigger] hi.contains(x) implies lo.contains(x) by {
                                        let k = choose|k: Seq<u8>| #[trigger] m.contains_key(k) && (k[e as int] as int) < b + 1 && x == k.subrange(p as int, s as int);
                                        if k[e as int] == c {
                                            assert(br.child_table@.contains_key(k[e as int]));
                                        }
                                    }
                                    assert forall|x: Seq<u8>| #[trigger] lo.contains(x) implies hi.contains(x) by {
                                        let k = choose|k: Seq<u8>| #[trigger] m.contains_key(k) && (k[e as int] as int) < b && x == k.subrange(p as int, s as int);
                                        assert(m.contains_key(k) && (k[e as int] as int) < b + 1 && x == k.subrange(p as int, s as int));
                                    }
                                }
                            }
                        },
                    }
                    b = b + 1;
                }
                proof {
                    assert(segment_values_below(m, p as int, s as int, e as int, 256) =~= full) by {
                        assert forall|x: Seq<u8>| #[trigger] full.contains(x) implies segment_values_below(
                            m,
                            p as int,
                            s as int,
                            e as int,
                            256,
                        ).contains(x) by {
                            let k = choose|k: Seq<u8>| m.dom().contains(k) && x == f(k);
                            assert(m.contains_key(k) && (k[e as int] as int) < 256 && x == k.subrange(p as int, s as int));
                        }
                        assert forall|x: Seq<u8>| #[trigger] segment_values_below(m, p as int, s as int, e as int, 256).contains(
                            x,
                        ) implies full.contains(x) by {
                            let k = choose|k: Seq<u8>| #[trigger] m.contains_key(k) && (k[e as int] as int) < 256 && x == k.subrange(p as int, s as int);
                            assert(m.dom().contains(k) && x == f(k));
                        }
                    }
                }
                count
            },
        }
    }
}

impl<const KEY_LEN: usize, V> Head<KEY_LEN, V> {
    /// The number of distinct strings `k[PREFIX_LEN..s]` over the keys `k`
    /// below this head (which sits at `at_depth`) that start with `prefix`.
    pub fn segmented_len<const PREFIX_LEN: usize>(&self, at_depth: usize, prefix: &[u8; PREFIX_LEN], s: usize) -> (r: u64)
        requires
            PREFIX_LEN <= s <= KEY_LEN,
            wf_head(*self, at_depth as int),
            agrees(head_childleaf(*self), prefix@, 0, if (at_depth as int) < PREFIX_LEN { at_depth as int } else { PREFIX_LEN as int }),
        ensures
            r == infix_set(head_map(*self), prefix@, PREFIX_LEN as int, s - PREFIX_LEN).len(),
        decreases body_height(self.body),
    {
        let ghost m = head_map(*self);
        let ghost p = PREFIX_LEN as int;
        let ghost want = infix_set(m, prefix@, p, s - p);
        proof {
            lemma_childleaf_in(*self, at_depth as int);
            lemma_body_keys(self.body, at_depth as int);
        }
        let end_depth = self.end_depth();
        let limit = if PREFIX_LEN < end_depth { PREFIX_LEN } else { end_depth };
        let ghost cl = head_childleaf(*self);
        if !range_eq(self.childleaf_key().as_slice(), prefix.as_slice(), at_depth, limit) {
            proof {
                assert(want =~= Set::<Seq<u8>>::empty()) by {
                    assert forall|x: Seq<u8>| !#[trigger] want.contains(x) by {
                        if want.contains(x) {
                            let k = choose|k: Seq<u8>| #[trigger] m.contains_key(k) && agrees(k, prefix@, 0, p) && x == k.subrange(p, p + (s - p));
                            assert(agrees(k, cl, 0, end_depth as int));
                            let i = choose|i: int| at_depth <= i < limit && #[trigger] cl[i] != prefix@[i];
                            assert(k[i] == cl[i]);
                        }
                    }
                }
            }
            return 0;
        }
        if PREFIX_LEN <= end_depth {
            let n = self.count_segments(at_depth, PREFIX_LEN, s);
            proof {
                assert(agrees(cl, prefix@, 0, p));
                assert(want =~= segment_values(m, p, s as int)) by {
                    assert forall|x: Seq<u8>| #[trigger] want.contains(x) <==> segment_values(m, p, s as int).contains(x) by {
                        if want.contains(x) {
                            let k = choose|k: Seq<u8>| #[trigger] m.contains_key(k) && agrees(k, prefix@, 0, p) && x == k.subrange(p, p + (s - p));
                            assert(m.dom().contains(k) && x == k.subrange(p, s as int));
                        }
                        if segment_values(m, p, s as int).contains(x) {
                            let k = choose|k: Seq<u8>| m.dom().contains(k) && x == k.subrange(p, s as int);
                            assert(agrees(k, cl, 0, end_depth as int));
                            assert(agrees(k, prefix@, 0, p));
                            assert(m.contains_key(k) && agrees(k, prefix@, 0, p) && x == k.subrange(p, p + (s - p)));
                        }
                    }
                }
            }
            return n;
        }
        match &self.body {
            Body::Leaf(_) => {
                proof {
                    assert(false);
                }
                0
            },
            Body::Branch(br) => {
                let e = end_depth;
                proof {
                    lemma_wf_branch(**br, at_depth as int);
                    lemma_branch_view(**br);
                }
                match br.child_table.table_get(prefix[e]) {
                    Some(child) => {
                        proof {
                            lemma_childleaf_in(*child, e as int);
                            let ccl = head_childleaf(*child);
                            assert(branch_map(**br).contains_key(ccl));
                            assert(agrees(ccl, br.childleaf@, 0, e as int));
                            assert(agrees(ccl, prefix@, 0, e as int));
                            lemma_child_height(**br, prefix[e as int]);
                        }
                        let r = child.segmented_len(e, prefix, s);
                        proof {
                            let cm = head_map(*child);
                            assert(infix_set(cm, prefix@, p, s - p) =~= want) by {
                                assert forall|x: Seq<u8>| #[trigger] want.contains(x) implies infix_set(cm, prefix@, p, s - p).contains(x) by {
                                    let k = choose|k: Seq<u8>| #[trigger] m.contains_key(k) && agrees(k, prefix@, 0, p) && x == k.subrange(p, p + (s - p));
                                    assert(k[e as int] == prefix@[e as int]);
                                    assert(cm.contains_key(k));
                                }
                                assert forall|x: Seq<u8>| #[trigger] infix_set(cm, prefix@, p, s - p).contains(x) implies want.contains(x) by {
                                    let k = choose|k: Seq<u8>| #[trigger] cm.contains_key(k) && agrees(k, prefix@, 0, p) && x == k.subrange(p, p + (s - p));
                                    assert(m.contains_key(k));
                                }
                            }
                        }
                        r
                    },
                    None => {
                        proof {
                            assert(want =~= Set::<Seq<u8>>::empty()) by {
                                assert forall|x: Seq<u8>| !#[trigger] want.contains(x) by {
                                    if want.contains(x) {
                                        let k = choose|k: Seq<u8>| #[trigger] m.contains_key(k) && agrees(k, prefix@, 0, p) && x == k.subrange(p, p + (s - p));
                                        assert(k[e as int] == prefix@[e as int]);
                                    }
                                }
                            }
                        }
                        0
                    },
                }
            },
        }
    }
}

} // verus!
