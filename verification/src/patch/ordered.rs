//! Walking a PATCH in tree order: the children of each branch are visited
//! by ascending key byte, so the leaves come out sorted.
use vstd::prelude::*;

use crate::patch::{key_of, key_ordered, tree_key, KeySchema};
use crate::patch::node::{
    agrees, body_height, branch_map, head_map, lemma_branch_keys, lemma_branch_view, lemma_child_height, lemma_wf_branch,
    views_from, wf_branch_core, wf_child, wf_head, Body, Head,
};

verus! {

/// `a` comes strictly before `b` in byte-wise lexicographic order.
pub open spec fn lex_lt(a: Seq<u8>, b: Seq<u8>) -> bool {
    exists|i: int| 0 <= i < a.len() && i < b.len() && agrees(a, b, 0, i) && #[trigger] a[i] < #[trigger] b[i]
}

/// The arrays of `v` from position `from` on are in strictly ascending
/// lexicographic order.
pub open spec fn ascending_from<const N: usize>(v: Seq<[u8; N]>, from: int) -> bool {
    forall|i: int, j: int| from <= i < j < v.len() ==> lex_lt((#[trigger] v[i])@, (#[trigger] v[j])@)
}

/// The arrays of `v` from `s` on are those before `before.len()`, which
/// `v` extends, and those after.
pub proof fn lemma_views_split<const N: usize>(v: Seq<[u8; N]>, before: Seq<[u8; N]>, s: int, x: Seq<u8>)
    requires
        0 <= s <= before.len() <= v.len(),
        v.subrange(0, before.len() as int) == before,
    ensures
        views_from(v, s).contains(x) <==> (views_from(before, s).contains(x) || views_from(v, before.len() as int).contains(x)),
{
    if views_from(v, s).contains(x) {
        let j = choose|j: int| s <= j < v.len() && (#[trigger] v[j])@ == x;
        if j < before.len() {
            assert(v.subrange(0, before.len() as int)[j] == v[j]);
            assert(before[j]@ == x);
        } else {
            assert(before.len() <= j < v.len() && v[j]@ == x);
        }
    }
    if views_from(before, s).contains(x) {
        let j = choose|j: int| s <= j < before.len() && (#[trigger] before[j])@ == x;
        assert(v.subrange(0, before.len() as int)[j] == v[j]);
        assert(s <= j < v.len() && v[j]@ == x);
    }
    if views_from(v, before.len() as int).contains(x) {
        let j = choose|j: int| before.len() <= j < v.len() && (#[trigger] v[j])@ == x;
        assert(s <= j < v.len() && v[j]@ == x);
    }
}

impl<const KEY_LEN: usize, V> Head<KEY_LEN, V> {
    /// Appends to `out` the keys below this head (which sits at `at_depth`),
    /// in tree order, in ascending lexicographic order.
    pub fn collect_ordered(&self, at_depth: usize, out: &mut Vec<[u8; KEY_LEN]>)
        requires
            wf_head(*self, at_depth as int),
        ensures
            final(out)@.len() >= old(out)@.len(),
            final(out)@.subrange(0, old(out)@.len() as int) == old(out)@,
            views_from(final(out)@, old(out)@.len() as int) == head_map(*self).dom(),
            ascending_from(final(out)@, old(out)@.len() as int),
        decreases body_height(self.body),
    {
        let ghost start = out@.len() as int;
        let ghost old_out = out@;
        match &self.body {
            Body::Leaf(leaf) => {
                out.push(leaf.key);
                proof {
                    assert(out@.subrange(0, start) =~= old_out);
                    assert(views_from(out@, start) =~= head_map(*self).dom()) by {
                        assert forall|x: Seq<u8>| #[trigger] views_from(out@, start).contains(x) <==> head_map(
                            *self,
                        ).dom().contains(x) by {
                            if head_map(*self).dom().contains(x) {
                                assert(out@[start]@ == x);
                            }
                        }
                    }
                }
            },
            Body::Branch(br) => {
                proof {
                    lemma_wf_branch(**br, at_depth as int);
                    lemma_branch_view(**br);
                    lemma_branch_keys(**br);
                }
                let e = br.end_depth;
                let ghost m = branch_map(**br);
                let ghost hb = body_height(self.body);
                let mut b: u16 = 0;
                proof {
                    assert(out@.subrange(0, start) =~= old_out);
                    assert forall|x: Seq<u8>| #[trigger] views_from(out@, start).contains(x) <==> (m.contains_key(x)
                        && (x[e as int] as int) < b) by {
                        if views_from(out@, start).contains(x) {
                            let j = choose|j: int| start <= j < out@.len() && (#[trigger] out@[j])@ == x;
                        }
                    }
                }
                while b < 256
                    invariant
                        b <= 256,
                        e == br.end_depth,
                        e < KEY_LEN,
                        wf_branch_core(**br),
                        m == branch_map(**br),
                        hb == body_height(self.body),
                        hb == body_height(Body::Branch(Box::new(**br))),
                        forall|k: Seq<u8>| #[trigger] m.contains_key(k) ==> k.len() == KEY_LEN,
                        forall|k: Seq<u8>| #[trigger] m.contains_key(k) ==> agrees(k, br.childleaf@, 0, e as int),
                        0 <= start <= out@.len(),
                        out@.subrange(0, start) == old_out,
                        ascending_from(out@, start),
                        forall|x: Seq<u8>| #[trigger] views_from(out@, start).contains(x) <==> (m.contains_key(x)
                            && (x[e as int] as int) < b),
                    decreases 256 - b,
                {
                    proof {
                        lemma_branch_view(**br);
                    }
                    let c: u8 = b as u8;
                    let ghost before = out@;
                    match br.child_table.table_get(c) {
                        Some(child) => {
                            proof {
                                assert(wf_child(*child, e as int));
                                lemma_child_height(**br, c);
                            }
                            child.collect_ordered(e, out);
                            proof {
                                let cm = head_map(*child);
                                assert forall|k: Seq<u8>| #[trigger] cm.contains_key(k) <==> (m.contains_key(k) && k[e as int] == c) by {
                                    if cm.contains_key(k) {
                                        assert(k[e as int] == c);
                                    }
                                }
                                assert forall|j: int| 0 <= j < before.len() implies #[trigger] out@[j] == before[j] by {
                                    assert(out@.subrange(0, before.len() as int)[j] == out@[j]);
                                }
                                assert(out@.subrange(0, start) =~= old_out) by {
                                    assert forall|j: int| 0 <= j < start implies #[trigger] out@.subrange(0, start)[j] == old_out[j] by {
                                        assert(before.subrange(0, start)[j] == old_out[j]);
                                    }
                                }
                                assert forall|i: int, j: int| start <= i < j < out@.len() implies lex_lt(
                                    (#[trigger] out@[i])@,
                                    (#[trigger] out@[j])@,
                                ) by {
                                    if j < before.len() {
                                        assert(out@[i] == before[i]);
                                        assert(out@[j] == before[j]);
                                    } else if i < before.len() {
                                        let x = out@[i]@;
                                        let y = out@[j]@;
                                        assert(out@[i] == before[i]);
                                        assert(views_from(before, start).contains(x));
                                        assert(views_from(out@, before.len() as int).contains(y));
                                        assert(cm.contains_key(y));
                                        assert(agrees(x, y, 0, e as int)) by {
                                            assert(agrees(x, br.childleaf@, 0, e as int));
                                            assert(agrees(y, br.childleaf@, 0, e as int));
                                        }
                                        assert(x[e as int] < y[e as int]);
                                    }
                                }
                                assert forall|x: Seq<u8>| #[trigger] views_from(out@, start).contains(x) <==> (m.contains_key(x)
                                    && (x[e as int] as int) < b + 1) by {
                                    lemma_views_split(out@, before, start, x);
                                }
                            }
                        },
                        None => {
                            proof {
                                assert forall|x: Seq<u8>| #[trigger] views_from(out@, start).contains(x) <==> (m.contains_key(x)
                                    && (x[e as int] as int) < b + 1) by {
                                    if m.contains_key(x) && x[e as int] == c {
                                        assert(br.child_table@.contains_key(x[e as int]));
                                    }
                                }
                            }
                        },
                    }
                    b = b + 1;
                }
                proof {
                    assert(views_from(out@, start) =~= head_map(*self).dom());
                }
            },
        }
    }
}


/// `v`, with each key taken in tree order under `O`, lists the keys of `m`.
pub open spec fn lists_keys<const KEY_LEN: usize, O: KeySchema<KEY_LEN>, V>(v: Seq<[u8; KEY_LEN]>, m: Map<Seq<u8>, V>) -> bool {
    &&& forall|i: int| 0 <= i < v.len() ==> m.contains_key(tree_key::<KEY_LEN, O>(#[trigger] v[i]@))
    &&& forall|k: Seq<u8>| #[trigger] m.contains_key(k) ==> exists|i: int| 0 <= i < v.len() && tree_key::<KEY_LEN, O>(#[trigger] v[i]@) == k
}

/// `v`, with each key taken in tree order under `O`, lists the keys of `m`
/// in strictly ascending order.
pub open spec fn lists_keys_in_order<const KEY_LEN: usize, O: KeySchema<KEY_LEN>, V>(v: Seq<[u8; KEY_LEN]>, m: Map<Seq<u8>, V>) -> bool {
    &&& lists_keys::<KEY_LEN, O, V>(v, m)
    &&& forall|i: int, j: int| 0 <= i < j < v.len() ==> lex_lt(
        tree_key::<KEY_LEN, O>((#[trigger] v[i])@),
        tree_key::<KEY_LEN, O>((#[trigger] v[j])@),
    )
}

/// Reordering a tree-ordered key back to key order and then into tree order
/// again gives it back.
pub proof fn lemma_tree_key_of<const KEY_LEN: usize, O: KeySchema<KEY_LEN>>(t: Seq<u8>)
    requires
        t.len() == KEY_LEN,
    ensures
        tree_key::<KEY_LEN, O>(key_of::<KEY_LEN, O>(t)) == t,
{
    O::lemma_permutation();
    assert(tree_key::<KEY_LEN, O>(key_of::<KEY_LEN, O>(t)) =~= t);
}

/// A strictly ascending list of all the keys of `m` is as long as `m`.
pub proof fn lemma_ascending_len<const N: usize, V>(v: Seq<[u8; N]>, m: Map<Seq<u8>, V>)
    requires
        ascending_from(v, 0),
        views_from(v, 0) == m.dom(),
    ensures
        v.len() == m.dom().len(),
{
    let t = v.map_values(|x: [u8; N]| x@);
    assert forall|i: int, j: int| 0 <= i < t.len() && 0 <= j < t.len() && i != j implies t[i] != t[j] by {
        if i < j {
            assert(lex_lt(v[i]@, v[j]@));
        } else {
            assert(lex_lt(v[j]@, v[i]@));
        }
    }
    assert(t.to_set() =~= m.dom()) by {
        assert forall|x: Seq<u8>| #[trigger] t.to_set().contains(x) <==> m.dom().contains(x) by {
            if t.to_set().contains(x) {
                let i = choose|i: int| 0 <= i < t.len() && t[i] == x;
                assert(views_from(v, 0).contains(x));
            }
            if m.dom().contains(x) {
                assert(views_from(v, 0).contains(x));
                let j = choose|j: int| 0 <= j < v.len() && (#[trigger] v[j])@ == x;
                assert(t[j] == x);
            }
        }
    }
    t.unique_seq_to_set();
}

/// Reorders tree-ordered keys back into key order, one by one.
pub fn keys_in_key_order<const KEY_LEN: usize, O: KeySchema<KEY_LEN>>(tree_keys: &Vec<[u8; KEY_LEN]>) -> (r: Vec<[u8; KEY_LEN]>)
    ensures
        r@.len() == tree_keys@.len(),
        forall|i: int| 0 <= i < r@.len() ==> (#[trigger] r@[i])@ == key_of::<KEY_LEN, O>(tree_keys@[i]@),
{
    let mut r: Vec<[u8; KEY_LEN]> = Vec::new();
    let mut i: usize = 0;
    while i < tree_keys.len()
        invariant
            i <= tree_keys@.len(),
            r@.len() == i,
            forall|j: int| 0 <= j < i ==> (#[trigger] r@[j])@ == key_of::<KEY_LEN, O>(tree_keys@[j]@),
        decreases tree_keys@.len() - i,
    {
        r.push(key_ordered::<KEY_LEN, O>(&tree_keys[i]));
        i = i + 1;
    }
    r
}

/// Keys handed out one at a time, first to last.
pub struct PATCHIntoOrderedIterator<const KEY_LEN: usize> {
    keys: Vec<[u8; KEY_LEN]>,
    pos: usize,
}

impl<const KEY_LEN: usize> View for PATCHIntoOrderedIterator<KEY_LEN> {
    /// The keys still to come.
    type V = Seq<[u8; KEY_LEN]>;

    closed spec fn view(&self) -> Seq<[u8; KEY_LEN]> {
        self.keys@.subrange(self.pos as int, self.keys@.len() as int)
    }
}

impl<const KEY_LEN: usize> PATCHIntoOrderedIterator<KEY_LEN> {
    #[verifier::type_invariant]
    spec fn inv(self) -> bool {
        self.pos <= self.keys@.len()
    }

    /// Hands out `keys`, first to last.
    pub fn new(keys: Vec<[u8; KEY_LEN]>) -> (r: Self)
        ensures
            r@ == keys@,
    {
        let r = PATCHIntoOrderedIterator { keys, pos: 0 };
        proof {
            assert(r@ =~= keys@);
        }
        r
    }

    /// The next key, if any is left.
    pub fn next(&mut self) -> (r: Option<[u8; KEY_LEN]>)
        ensures
            old(self)@.len() == 0 ==> r is None && final(self)@ == old(self)@,
            old(self)@.len() > 0 ==> r == Some(old(self)@[0]) && final(self)@ == old(self)@.drop_first(),
    {
        proof {
            use_type_invariant(&*self);
        }
        if self.pos < self.keys.len() {
            let k = self.keys[self.pos];
            self.pos = self.pos + 1;
            proof {
                assert(self@ =~= old(self)@.drop_first());
            }
            Some(k)
        } else {
            None
        }
    }

    /// The number of keys left.
    pub fn len(&self) -> (r: usize)
        ensures
            r == self@.len(),
    {
        proof {
            use_type_invariant(self);
        }
        self.keys.len() - self.pos
    }
}

/// Keys handed out one at a time, each once, in no promised order.
pub struct PATCHIntoIterator<const KEY_LEN: usize> {
    inner: PATCHIntoOrderedIterator<KEY_LEN>,
}

impl<const KEY_LEN: usize> View for PATCHIntoIterator<KEY_LEN> {
    /// The keys still to come.
    type V = Seq<[u8; KEY_LEN]>;

    closed spec fn view(&self) -> Seq<[u8; KEY_LEN]> {
        self.inner@
    }
}

impl<const KEY_LEN: usize> PATCHIntoIterator<KEY_LEN> {
    /// Hands out `keys`, first to last.
    pub fn new(keys: Vec<[u8; KEY_LEN]>) -> (r: Self)
        ensures
            r@ == keys@,
    {
        PATCHIntoIterator { inner: PATCHIntoOrderedIterator::new(keys) }
    }

    /// The next key, if any is left.
    pub fn next(&mut self) -> (r: Option<[u8; KEY_LEN]>)
        ensures
            old(self)@.len() == 0 ==> r is None && final(self)@ == old(self)@,
            old(self)@.len() > 0 ==> r == Some(old(self)@[0]) && final(self)@ == old(self)@.drop_first(),
    {
        self.inner.next()
    }

    /// The number of keys left.
    pub fn len(&self) -> (r: usize)
        ensures
            r == self@.len(),
    {
        self.inner.len()
    }
}

/// The keys of a borrowed PATCH, each once.
pub type PATCHIterator<const KEY_LEN: usize> = PATCHIntoIterator<KEY_LEN>;

/// The keys of a borrowed PATCH, sorted by their tree order.
pub type PATCHOrderedIterator<const KEY_LEN: usize> = PATCHIntoOrderedIterator<KEY_LEN>;

} // verus!
