//! Union, intersection and difference of PATCH nodes.
use vstd::prelude::*;

use crate::patch::bytetable::ByteEntry;
use crate::patch::node::{
    agrees, body_height, branch_map, head_childleaf, head_count, head_end, head_map, lemma_body_keys, lemma_branch_keys,
    lemma_branch_view, lemma_child_height, lemma_childleaf_in, lemma_wf_branch, lemma_wf_depth, wf_branch_core, wf_child, wf_head, Body,
    Branch, Head, Leaf,
};

verus! {

/// Facts about the maps of two heads that a union at `at_depth` relies on.
proof fn lemma_union_sizes<const KEY_LEN: usize, V>(this: Head<KEY_LEN, V>, other: Head<KEY_LEN, V>, at_depth: int)
    requires
        wf_head(this, at_depth),
        wf_head(other, at_depth),
    ensures
        head_map(this).dom().finite(),
        head_map(other).dom().finite(),
        head_map(this).dom().len() == head_count(this),
        head_map(other).dom().len() == head_count(other),
        head_map(other).union_prefer_right(head_map(this)).dom() == head_map(this).dom().union(head_map(other).dom()),
        head_map(this).dom().union(head_map(other).dom()).len() <= head_count(this) + head_count(other),
        head_map(this).dom().union(head_map(other).dom()).finite(),
{
    lemma_body_keys(this.body, at_depth);
    lemma_body_keys(other.body, at_depth);
    vstd::set_lib::lemma_len_union(head_map(this).dom(), head_map(other).dom());
    assert(head_map(other).union_prefer_right(head_map(this)).dom() =~= head_map(this).dom().union(head_map(other).dom()));
}

impl<const KEY_LEN: usize, V> Head<KEY_LEN, V> {
    /// The union of the keys below `this` and `other`, which both sit at
    /// `at_depth` and agree before it. A key below both keeps the value it
    /// has below `this`.
    pub fn union(this: Self, other: Self, at_depth: usize) -> (r: Self)
        requires
            wf_head(this, at_depth as int),
            wf_head(other, at_depth as int),
            agrees(head_childleaf(this), head_childleaf(other), 0, at_depth as int),
            head_count(this) + head_count(other) <= u64::MAX,
        ensures
            wf_head(r, at_depth as int),
            r.key == this.key,
            head_map(r) == head_map(other).union_prefer_right(head_map(this)),
            agrees(head_childleaf(r), head_childleaf(this), 0, at_depth as int),
        decreases body_height(this.body) + body_height(other.body), 1int,
    {
        let ghost tm = head_map(this);
        let ghost om = head_map(other);
        let ghost tcl = head_childleaf(this);
        let ghost ocl = head_childleaf(other);
        let ghost want = om.union_prefer_right(tm);
        proof {
            lemma_childleaf_in(this, at_depth as int);
            lemma_childleaf_in(other, at_depth as int);
            lemma_union_sizes(this, other, at_depth as int);
        }
        match this.first_divergence(&other, at_depth) {
            Some((depth, this_byte_key, other_byte_key)) => {
                let old_key = this.key;
                proof {
                    lemma_wf_depth(this, at_depth as int, depth as int);
                    lemma_wf_depth(other, at_depth as int, depth as int);
                    assert forall|k: Seq<u8>| #[trigger] tm.contains_key(k) implies k[depth as int] == this_byte_key
                        && agrees(k, tcl, 0, depth as int) by {
                        assert(agrees(k, tcl, 0, head_end(this)));
                    }
                    assert forall|k: Seq<u8>| #[trigger] om.contains_key(k) implies k[depth as int] == other_byte_key
                        && agrees(k, tcl, 0, depth as int) by {
                        assert(agrees(k, ocl, 0, head_end(other)));
                        assert forall|i: int| 0 <= i < depth implies #[trigger] k[i] == tcl[i] by {
                            assert(k[i] == ocl[i]);
                        }
                    }
                }
                let l = this.with_key(this_byte_key);
                let rr = other.with_key(other_byte_key);
                let br = Branch::new(depth, l, rr);
                proof {
                    assert forall|k: Seq<u8>| #[trigger] tm.contains_key(k) implies !om.contains_key(k) by {
                        assert(k[depth as int] == this_byte_key);
                    }
                    assert(tm.union_prefer_right(om) =~= want);
                    lemma_wf_branch(br, at_depth as int);
                }
                Head { key: old_key, body: Body::Branch(Box::new(br)) }
            },
            None => {
                let this_depth = this.end_depth();
                let other_depth = other.end_depth();
                if this_depth == KEY_LEN && other_depth == KEY_LEN {
                    proof {
                        assert(tcl =~= ocl);
                        assert forall|k: Seq<u8>| #[trigger] om.contains_key(k) implies tm.contains_key(k) by {
                            assert(agrees(k, ocl, 0, KEY_LEN as int));
                            assert(k =~= tcl);
                        }
                        assert(want =~= tm);
                    }
                    this
                } else if this_depth < other_depth {
                    Self::union_other_into_child(this, other, at_depth)
                } else if other_depth < this_depth {
                    Self::union_this_into_child(this, other, at_depth)
                } else {
                    Self::union_children(this, other, at_depth)
                }
            },
        }
    }

    /// Union where `this` is a branch ending before `other`: `other` joins the
    /// child of `this` under its byte at the end depth of `this`.
    fn union_other_into_child(this: Self, other: Self, at_depth: usize) -> (r: Self)
        requires
            wf_head(this, at_depth as int),
            wf_head(other, at_depth as int),
            head_end(this) < head_end(other),
            agrees(head_childleaf(this), head_childleaf(other), 0, head_end(this)),
            head_count(this) + head_count(other) <= u64::MAX,
        ensures
            wf_head(r, at_depth as int),
            r.key == this.key,
            head_map(r) == head_map(other).union_prefer_right(head_map(this)),
            agrees(head_childleaf(r), head_childleaf(this), 0, at_depth as int),
        decreases body_height(this.body) + body_height(other.body), 0int,
    {
        let ghost tm = head_map(this);
        let ghost om = head_map(other);
        let ghost tcl = head_childleaf(this);
        let ghost ocl = head_childleaf(other);
        let ghost want = om.union_prefer_right(tm);
        proof {
            lemma_childleaf_in(this, at_depth as int);
            lemma_childleaf_in(other, at_depth as int);
            lemma_union_sizes(this, other, at_depth as int);
        }
        let this_key = this.key;
        match this.body {
            Body::Leaf(l) => {
                proof {
                    assert(false);
                }
                Head { key: this_key, body: Body::Leaf(l) }
            },
            Body::Branch(bbox) => {
                let mut br: Branch<KEY_LEN, V> = *bbox;
                let ghost old_br = br;
                let ghost e = br.end_depth as int;
                let end_depth = br.end_depth;
                proof {
                    lemma_wf_branch(old_br, at_depth as int);
                    lemma_branch_keys(old_br);
                    lemma_branch_view(old_br);
                    lemma_wf_depth(other, at_depth as int, e);
                    assert forall|k: Seq<u8>| #[trigger] om.contains_key(k) implies agrees(k, tcl, 0, e) && k[e] == ocl[e] by {
                        assert(agrees(k, ocl, 0, head_end(other)));
                        assert forall|i: int| 0 <= i < e implies #[trigger] k[i] == tcl[i] by {
                            assert(k[i] == ocl[i]);
                        }
                    }
                }
                let inserted = other.with_start(end_depth);
                let c = inserted.key;
                match br.take_child(c) {
                    Some(old_child) => {
                        let ghost cm = head_map(old_child);
                        proof {
                            lemma_childleaf_in(old_child, e);
                            lemma_body_keys(old_child.body, e);
                            let ccl = head_childleaf(old_child);
                            assert(old_br.child_table@.contains_key(c));
                            assert(branch_map(old_br).contains_key(ccl));
                            assert(agrees(ccl, tcl, 0, e));
                            assert(agrees(ccl, ocl, 0, e));
                            vstd::set_lib::lemma_len_subset(cm.dom(), tm.dom());
                            lemma_child_height(old_br, c);
                        }
                        let nc = Head::union(old_child, inserted, end_depth);
                        proof {
                            lemma_union_sizes(old_child, other, e);
                            lemma_body_keys(nc.body, e);
                            assert(head_map(nc).dom() =~= cm.dom().union(om.dom()));
                            assert forall|k: Seq<u8>| #[trigger] head_map(nc).contains_key(k) implies k[e] == nc.key
                                && agrees(k, tcl, 0, e) by {
                                if cm.contains_key(k) {
                                    assert(branch_map(old_br).contains_key(k));
                                }
                            }
                            // the keys after the union are those of `this` and `other`
                            let mid = branch_map(br);
                            assert(mid.dom().disjoint(head_map(nc).dom())) by {
                                assert forall|k: Seq<u8>| #[trigger] mid.dom().contains(k) implies !head_map(nc).dom().contains(k) by {
                                    assert(k[e] != c);
                                }
                            }
                            lemma_branch_keys(br);
                            vstd::set_lib::lemma_set_disjoint_lens(mid.dom(), head_map(nc).dom());
                            assert(mid.dom().union(head_map(nc).dom()).subset_of(tm.dom().union(om.dom()))) by {
                                assert forall|k: Seq<u8>| #[trigger] mid.dom().union(head_map(nc).dom()).contains(k) implies tm.dom().union(om.dom()).contains(k) by {
                                    if mid.contains_key(k) {
                                        assert(branch_map(old_br).contains_key(k));
                                    }
                                }
                            }
                            vstd::set_lib::lemma_len_subset(mid.dom().union(head_map(nc).dom()), tm.dom().union(om.dom()));
                        }
                        br.insert_child(nc);
                        proof {
                            let m = branch_map(br);
                            assert forall|k: Seq<u8>| #[trigger] m.contains_key(k) <==> want.contains_key(k) by {
                                if tm.contains_key(k) && k[e] == c {
                                    assert(cm.contains_key(k));
                                }
                                if cm.contains_key(k) {
                                    assert(tm.contains_key(k));
                                }
                            }
                            assert forall|k: Seq<u8>| #[trigger] m.contains_key(k) implies m[k] == want[k] by {
                                if tm.contains_key(k) && k[e] == c {
                                    assert(cm.contains_key(k));
                                }
                                if om.contains_key(k) {
                                    assert(k[e] == c);
                                }
                            }
                            assert(m =~= want);
                            lemma_branch_keys(br);
                            vstd::set_lib::lemma_len_subset(tm.dom(), want.dom());
                            assert(m.contains_key(tcl));
                            lemma_wf_branch(br, at_depth as int);
                        }
                        Head { key: this_key, body: Body::Branch(Box::new(br)) }
                    },
                    None => {
                        proof {
                            lemma_wf_depth(other, at_depth as int, e);
                            assert forall|k: Seq<u8>| #[trigger] tm.contains_key(k) implies !om.contains_key(k) by {
                                if om.contains_key(k) {
                                    assert(k[e] == c);
                                    assert(old_br.child_table@.contains_key(c));
                                }
                            }
                            lemma_branch_keys(br);
                            assert(branch_map(br) =~= tm) by {
                                assert forall|k: Seq<u8>| #[trigger] tm.contains_key(k) implies branch_map(br).contains_key(k) by {
                                    assert(old_br.child_table@.contains_key(k[e]));
                                }
                            }
                        }
                        br.insert_child(inserted);
                        proof {
                            let m = branch_map(br);
                            assert(m =~= want);
                            lemma_branch_keys(br);
                            vstd::set_lib::lemma_len_subset(tm.dom(), want.dom());
                            assert(m.contains_key(tcl));
                            lemma_wf_branch(br, at_depth as int);
                        }
                        Head { key: this_key, body: Body::Branch(Box::new(br)) }
                    },
                }
            },
        }
    }

    /// Union where `other` is a branch ending before `this`: `this` joins the
    /// child of `other` under its byte at the end depth of `other`.
    fn union_this_into_child(this: Self, other: Self, at_depth: usize) -> (r: Self)
        requires
            wf_head(this, at_depth as int),
            wf_head(other, at_depth as int),
            head_end(other) < head_end(this),
            agrees(head_childleaf(this), head_childleaf(other), 0, head_end(other)),
            head_count(this) + head_count(other) <= u64::MAX,
        ensures
            wf_head(r, at_depth as int),
            r.key == this.key,
            head_map(r) == head_map(other).union_prefer_right(head_map(this)),
            agrees(head_childleaf(r), head_childleaf(this), 0, at_depth as int),
        decreases body_height(this.body) + body_height(other.body), 0int,
    {
        let ghost tm = head_map(this);
        let ghost om = head_map(other);
        let ghost tcl = head_childleaf(this);
        let ghost ocl = head_childleaf(other);
        let ghost want = om.union_prefer_right(tm);
        proof {
            lemma_childleaf_in(this, at_depth as int);
            lemma_childleaf_in(other, at_depth as int);
            lemma_union_sizes(this, other, at_depth as int);
        }
        let this_key = this.key;
        match other.body {
            Body::Leaf(l) => {
                proof {
                    assert(false);
                }
                Head { key: this_key, body: Body::Leaf(l) }
            },
            Body::Branch(obox) => {
                let mut ob: Branch<KEY_LEN, V> = *obox;
                let ghost old_ob = ob;
                let ghost e = ob.end_depth as int;
                let end_depth = ob.end_depth;
                proof {
                    lemma_wf_branch(old_ob, at_depth as int);
                    lemma_branch_keys(old_ob);
                    lemma_branch_view(old_ob);
                    lemma_wf_depth(this, at_depth as int, e);
                    assert forall|k: Seq<u8>| #[trigger] tm.contains_key(k) implies agrees(k, ocl, 0, e) && k[e] == tcl[e] by {
                        assert(agrees(k, tcl, 0, head_end(this)));
                        assert forall|i: int| 0 <= i < e implies #[trigger] k[i] == ocl[i] by {
                            assert(k[i] == tcl[i]);
                        }
                    }
                }
                let inserted = this.with_start(end_depth);
                let c = inserted.key;
                match ob.take_child(c) {
                    Some(old_child) => {
                        let ghost cm = head_map(old_child);
                        proof {
                            lemma_childleaf_in(old_child, e);
                            lemma_body_keys(old_child.body, e);
                            let ccl = head_childleaf(old_child);
                            assert(old_ob.child_table@.contains_key(c));
                            assert(branch_map(old_ob).contains_key(ccl));
                            assert(agrees(ccl, ocl, 0, e));
                            assert(agrees(tcl, ccl, 0, e));
                            vstd::set_lib::lemma_len_subset(cm.dom(), om.dom());
                            lemma_child_height(old_ob, c);
                        }
                        let nc = Head::union(inserted, old_child, end_depth);
                        proof {
                            lemma_union_sizes(this, old_child, e);
                            lemma_body_keys(nc.body, e);
                            assert(head_map(nc).dom() =~= tm.dom().union(cm.dom()));
                            assert forall|k: Seq<u8>| #[trigger] head_map(nc).contains_key(k) implies k[e] == nc.key
                                && agrees(k, ocl, 0, e) by {
                                if cm.contains_key(k) {
                                    assert(branch_map(old_ob).contains_key(k));
                                }
                            }
                            let mid = branch_map(ob);
                            assert(mid.dom().disjoint(head_map(nc).dom())) by {
                                assert forall|k: Seq<u8>| #[trigger] mid.dom().contains(k) implies !head_map(nc).dom().contains(k) by {
                                    assert(k[e] != c);
                                }
                            }
                            lemma_branch_keys(ob);
                            vstd::set_lib::lemma_set_disjoint_lens(mid.dom(), head_map(nc).dom());
                            assert(mid.dom().union(head_map(nc).dom()).subset_of(tm.dom().union(om.dom()))) by {
                                assert forall|k: Seq<u8>| #[trigger] mid.dom().union(head_map(nc).dom()).contains(k) implies tm.dom().union(om.dom()).contains(k) by {
                                    if mid.contains_key(k) {
                                        assert(branch_map(old_ob).contains_key(k));
                                    }
                                }
                            }
                            vstd::set_lib::lemma_len_subset(mid.dom().union(head_map(nc).dom()), tm.dom().union(om.dom()));
                        }
                        ob.insert_child(nc);
                        proof {
                            let m = branch_map(ob);
                            assert forall|k: Seq<u8>| #[trigger] m.contains_key(k) <==> want.contains_key(k) by {
                                if om.contains_key(k) && k[e] == c {
                                    assert(cm.contains_key(k));
                                }
                                if cm.contains_key(k) {
                                    assert(om.contains_key(k));
                                }
                            }
                            assert forall|k: Seq<u8>| #[trigger] m.contains_key(k) implies m[k] == want[k] by {
                                if om.contains_key(k) && k[e] == c && !tm.contains_key(k) {
                                    assert(cm.contains_key(k));
                                }
                                if tm.contains_key(k) {
                                    assert(k[e] == c);
                                }
                            }
                            assert(m =~= want);
                            lemma_branch_keys(ob);
                            vstd::set_lib::lemma_len_subset(om.dom(), want.dom());
                            assert(m.contains_key(ocl));
                            lemma_wf_branch(ob, at_depth as int);
                            assert(agrees(ocl, tcl, 0, at_depth as int));
                        }
                        Head { key: this_key, body: Body::Branch(Box::new(ob)) }
                    },
                    None => {
                        proof {
                            assert forall|k: Seq<u8>| #[trigger] om.contains_key(k) implies !tm.contains_key(k) by {
                                if tm.contains_key(k) {
                                    assert(k[e] == c);
                                    assert(old_ob.child_table@.contains_key(c));
                                }
                            }
                            lemma_branch_keys(ob);
                            assert(branch_map(ob) =~= om) by {
                                assert forall|k: Seq<u8>| #[trigger] om.contains_key(k) implies branch_map(ob).contains_key(k) by {
                                    assert(old_ob.child_table@.contains_key(k[e]));
                                }
                            }
                        }
                        ob.insert_child(inserted);
                        proof {
                            let m = branch_map(ob);
                            assert(m =~= want);
                            lemma_branch_keys(ob);
                            vstd::set_lib::lemma_len_subset(om.dom(), want.dom());
                            assert(m.contains_key(ocl));
                            lemma_wf_branch(ob, at_depth as int);
                            assert(agrees(ocl, tcl, 0, at_depth as int));
                        }
                        Head { key: this_key, body: Body::Branch(Box::new(ob)) }
                    },
                }
            },
        }
    }

    /// Union of two branches ending at the same depth: the children of
    /// `other` join the children of `this` one by one.
    fn union_children(this: Self, other: Self, at_depth: usize) -> (r: Self)
        requires
            wf_head(this, at_depth as int),
            wf_head(other, at_depth as int),
            head_end(this) == head_end(other),
            head_end(this) < KEY_LEN,
            agrees(head_childleaf(this), head_childleaf(other), 0, head_end(this)),
            head_count(this) + head_count(other) <= u64::MAX,
        ensures
            wf_head(r, at_depth as int),
            r.key == this.key,
            head_map(r) == head_map(other).union_prefer_right(head_map(this)),
            agrees(head_childleaf(r), head_childleaf(this), 0, at_depth as int),
        decreases body_height(this.body) + body_height(other.body), 0int,
    {
        let ghost tm = head_map(this);
        let ghost om = head_map(other);
        let ghost tcl = head_childleaf(this);
        let ghost ocl = head_childleaf(other);
        let ghost want = om.union_prefer_right(tm);
        let ghost hsum = body_height(this.body) + body_height(other.body);
        proof {
            lemma_childleaf_in(this, at_depth as int);
            lemma_childleaf_in(other, at_depth as int);
            lemma_union_sizes(this, other, at_depth as int);
        }
        let this_key = this.key;
        let tb = match this.body {
            Body::Branch(b) => b,
            Body::Leaf(_) => {
                proof {
                    assert(false);
                }
                return other;
            },
        };
        let ob_box = match other.body {
            Body::Branch(b) => b,
            Body::Leaf(_) => {
                proof {
                    assert(false);
                }
                return Head { key: this_key, body: Body::Branch(tb) };
            },
        };
        let mut br: Branch<KEY_LEN, V> = *tb;
        let mut ob: Branch<KEY_LEN, V> = *ob_box;
        let ghost old_br = br;
        let ghost old_ob = ob;
        let ghost e = br.end_depth as int;
        let ghost tv = br.child_table@;
        let ghost ov = ob.child_table@;
        let end_depth = br.end_depth;
        proof {
            lemma_wf_branch(old_br, at_depth as int);
            lemma_wf_branch(old_ob, at_depth as int);
            lemma_branch_keys(old_br);
            lemma_branch_keys(old_ob);
            lemma_branch_view(old_br);
            lemma_branch_view(old_ob);
            assert(hsum == body_height(Body::Branch(Box::new(old_br))) + body_height(Body::Branch(Box::new(old_ob))));
        }
        let mut kids = ob.child_table.take_all();
        while kids.len() > 0
            invariant
                wf_branch_core(old_br),
                wf_branch_core(old_ob),
                tm == branch_map(old_br),
                om == branch_map(old_ob),
                tv == old_br.child_table@,
                ov == old_ob.child_table@,
                e == old_br.end_depth,
                e == old_ob.end_depth,
                tcl == old_br.childleaf@,
                ocl == old_ob.childleaf@,
                agrees(tcl, ocl, 0, e),
                tm.dom().finite(),
                om.dom().finite(),
                tm.dom().len() + om.dom().len() <= u64::MAX,
                tm.dom().union(om.dom()).finite(),
                tm.dom().union(om.dom()).len() <= tm.dom().len() + om.dom().len(),
                hsum == body_height(Body::Branch(Box::new(old_br))) + body_height(Body::Branch(Box::new(old_ob))),
                hsum == body_height(this.body) + body_height(other.body),
                end_depth == e,
                wf_branch_core(br),
                br.end_depth == e,
                br.childleaf == old_br.childleaf,
                forall|j: int| 0 <= j < kids@.len() ==> ov.contains_key(#[trigger] kids@[j].key) && ov[kids@[j].key] == kids@[j],
                forall|j: int, l: int| 0 <= j < l < kids@.len() ==> kids@[j].key != kids@[l].key,
                forall|k: Seq<u8>| #[trigger] branch_map(br).contains_key(k) <==> (tm.contains_key(k) || (om.contains_key(k)
                    && !pending(kids@, k[e]))),
                forall|k: Seq<u8>| #[trigger] branch_map(br).contains_key(k) ==> branch_map(br)[k] == (if tm.contains_key(k) {
                    tm[k]
                } else {
                    om[k]
                }),
                forall|c: u8| #[trigger] pending(kids@, c) ==> (br.child_table@.contains_key(c) <==> tv.contains_key(c))
                    && (tv.contains_key(c) ==> br.child_table@[c] == tv[c]),
            decreases kids@.len(),
        {
            let ghost before = kids@;
            let ghost pre_br = br;
            let kid = match kids.pop() {
                Some(k) => k,
                None => {
                    proof {
                        assert(false);
                    }
                    return Head { key: this_key, body: Body::Branch(Box::new(br)) };
                },
            };
            let c = kid.key;
            let ghost km = head_map(kid);
            proof {
                let last = before.len() - 1;
                assert(kids@ =~= before.take(last));
                assert(before[last] == kid);
                assert(pending(before, c));
                assert forall|d: u8| #[trigger] pending(kids@, d) <==> (pending(before, d) && d != c) by {
                    if pending(before, d) && d != c {
                        let j = choose|j: int| 0 <= j < before.len() && before[j].key == d;
                        assert(j != last);
                        assert(kids@[j].key == d);
                    }
                    if pending(kids@, d) {
                        let j = choose|j: int| 0 <= j < kids@.len() && kids@[j].key == d;
                        assert(before[j].key == d);
                        assert(j < last);
                    }
                }
                assert(ov.contains_key(c));
                lemma_branch_view(old_ob);
                lemma_branch_view(old_br);
                assert(wf_head(kid, e));
                lemma_childleaf_in(kid, e);
                lemma_body_keys(kid.body, e);
                assert forall|k: Seq<u8>| #[trigger] km.contains_key(k) <==> (om.contains_key(k) && k[e] == c) by {
                    if om.contains_key(k) && k[e] == c {
                        assert(ov.contains_key(k[e]));
                    }
                }
                assert(km.dom().subset_of(om.dom()));
                vstd::set_lib::lemma_len_subset(km.dom(), om.dom());
                lemma_child_height(old_ob, c);
            }
            match br.take_child(c) {
                Some(old_child) => {
                    let ghost cm = head_map(old_child);
                    proof {
                        assert(tv.contains_key(c) && old_child == tv[c]);
                        lemma_childleaf_in(old_child, e);
                        lemma_body_keys(old_child.body, e);
                        assert forall|k: Seq<u8>| #[trigger] cm.contains_key(k) <==> (tm.contains_key(k) && k[e] == c) by {
                            if tm.contains_key(k) && k[e] == c {
                                assert(tv.contains_key(k[e]));
                            }
                        }
                        vstd::set_lib::lemma_len_subset(cm.dom(), tm.dom());
                        lemma_child_height(old_br, c);
                        let ccl = head_childleaf(old_child);
                        let kcl = head_childleaf(kid);
                        assert(tm.contains_key(ccl));
                        assert(om.contains_key(kcl));
                        assert(agrees(ccl, tcl, 0, e));
                        assert(agrees(kcl, ocl, 0, e));
                        assert(agrees(ccl, kcl, 0, e));
                        assert(wf_head(old_child, e));
                        assert(body_height(old_child.body) < body_height(Body::Branch(Box::new(old_br))));
                        assert(body_height(kid.body) < body_height(Body::Branch(Box::new(old_ob))));
                        assert(body_height(old_child.body) + body_height(kid.body) < hsum);
                    }
                    let nc = Head::union(old_child, kid, end_depth);
                    proof {
                        lemma_union_sizes(old_child, kid, e);
                        lemma_body_keys(nc.body, e);
                        let ncm = head_map(nc);
                        assert(ncm.dom() =~= cm.dom().union(km.dom()));
                        assert forall|k: Seq<u8>| #[trigger] ncm.contains_key(k) implies k[e] == nc.key && agrees(k, old_br.childleaf@, 0, e) by {
                            if km.contains_key(k) {
                                assert(om.contains_key(k));
                                assert(agrees(k, ocl, 0, e));
                            } else {
                                assert(tm.contains_key(k));
                            }
                        }
                        let mid = branch_map(br);
                        lemma_branch_keys(br);
                        assert(mid.dom().disjoint(ncm.dom())) by {
                            assert forall|k: Seq<u8>| #[trigger] mid.dom().contains(k) implies !ncm.dom().contains(k) by {
                                assert(k[e] != c);
                            }
                        }
                        vstd::set_lib::lemma_set_disjoint_lens(mid.dom(), ncm.dom());
                        assert(mid.dom().union(ncm.dom()).subset_of(tm.dom().union(om.dom()))) by {
                            assert forall|k: Seq<u8>| #[trigger] mid.dom().union(ncm.dom()).contains(k) implies tm.dom().union(om.dom()).contains(k) by {
                                if mid.contains_key(k) {
                                    assert(branch_map(pre_br).contains_key(k));
                                }
                            }
                        }
                        vstd::set_lib::lemma_len_subset(mid.dom().union(ncm.dom()), tm.dom().union(om.dom()));
                    }
                    br.insert_child(nc);
                    proof {
                        let m = branch_map(br);
                        assert forall|k: Seq<u8>| #[trigger] m.contains_key(k) <==> (tm.contains_key(k) || (om.contains_key(k)
                            && !pending(kids@, k[e]))) by {
                            if m.contains_key(k) && k[e] != c {
                                assert(branch_map(pre_br).contains_key(k));
                            }
                            if tm.contains_key(k) && k[e] != c {
                                assert(branch_map(pre_br).contains_key(k));
                            }
                            if om.contains_key(k) && !pending(kids@, k[e]) && k[e] != c {
                                assert(branch_map(pre_br).contains_key(k));
                            }
                        }
                        assert forall|k: Seq<u8>| #[trigger] m.contains_key(k) implies m[k] == (if tm.contains_key(k) {
                            tm[k]
                        } else {
                            om[k]
                        }) by {
                            if k[e] != c {
                                assert(branch_map(pre_br).contains_key(k));
                            }
                        }
                    }
                },
                None => {
                    proof {
                        assert(!tv.contains_key(c));
                        assert forall|k: Seq<u8>| #[trigger] tm.contains_key(k) implies k[e] != c by {
                            if k[e] == c {
                                assert(tv.contains_key(k[e]));
                            }
                        }
                        assert forall|k: Seq<u8>| #[trigger] km.contains_key(k) implies k[e] == kid.key && agrees(k, old_br.childleaf@, 0, e) by {
                            assert(om.contains_key(k));
                            assert(agrees(k, ocl, 0, e));
                        }
                        let mid = branch_map(br);
                        lemma_branch_keys(br);
                        assert(mid.dom().disjoint(km.dom())) by {
                            assert forall|k: Seq<u8>| #[trigger] mid.dom().contains(k) implies !km.dom().contains(k) by {
                                assert(k[e] != c);
                            }
                        }
                        vstd::set_lib::lemma_set_disjoint_lens(mid.dom(), km.dom());
                        assert(mid.dom().union(km.dom()).subset_of(tm.dom().union(om.dom()))) by {
                            assert forall|k: Seq<u8>| #[trigger] mid.dom().union(km.dom()).contains(k) implies tm.dom().union(om.dom()).contains(k) by {
                                if mid.contains_key(k) {
                                    assert(branch_map(pre_br).contains_key(k));
                                }
                            }
                        }
                        vstd::set_lib::lemma_len_subset(mid.dom().union(km.dom()), tm.dom().union(om.dom()));
                    }
                    br.insert_child(kid);
                    proof {
                        let m = branch_map(br);
                        assert forall|k: Seq<u8>| #[trigger] m.contains_key(k) <==> (tm.contains_key(k) || (om.contains_key(k)
                            && !pending(kids@, k[e]))) by {
                            if m.contains_key(k) && k[e] != c {
                                assert(branch_map(pre_br).contains_key(k));
                            }
                            if tm.contains_key(k) {
                                assert(k[e] != c);
                                assert(branch_map(pre_br).contains_key(k));
                            }
                            if om.contains_key(k) && !pending(kids@, k[e]) && k[e] != c {
                                assert(branch_map(pre_br).contains_key(k));
                            }
                        }
                        assert forall|k: Seq<u8>| #[trigger] m.contains_key(k) implies m[k] == (if tm.contains_key(k) {
                            tm[k]
                        } else {
                            om[k]
                        }) by {
                            if k[e] != c {
                                assert(branch_map(pre_br).contains_key(k));
                            } else {
                                assert(!tm.contains_key(k));
                            }
                        }
                    }
                },
            }
            proof {
                assert forall|d: u8| #[trigger] pending(kids@, d) implies (br.child_table@.contains_key(d) <==> tv.contains_key(d))
                    && (tv.contains_key(d) ==> br.child_table@[d] == tv[d]) by {
                    assert(pending(before, d) && d != c);
                }
                assert forall|j: int| 0 <= j < kids@.len() implies ov.contains_key(#[trigger] kids@[j].key) && ov[kids@[j].key] == kids@[j] by {
                    assert(kids@[j] == before[j]);
                }
            }
        }
        proof {
            let m = branch_map(br);
            assert forall|k: Seq<u8>| #[trigger] m.contains_key(k) <==> want.contains_key(k) by {
                assert(!pending(kids@, k[e]));
            }
            assert(m =~= want);
            lemma_branch_keys(br);
            vstd::set_lib::lemma_len_subset(tm.dom(), want.dom());
            assert(m.contains_key(tcl));
            lemma_wf_branch(br, at_depth as int);
        }
        Head { key: this_key, body: Body::Branch(Box::new(br)) }
    }
}

/// Some child among `kids` sits under key byte `c`.
pub open spec fn pending<const KEY_LEN: usize, V>(kids: Seq<Head<KEY_LEN, V>>, c: u8) -> bool {
    exists|j: int| 0 <= j < kids.len() && kids[j].key == c
}


/// The keys and values below all of `heads`.
pub open spec fn heads_map<const KEY_LEN: usize, V>(heads: Seq<Head<KEY_LEN, V>>) -> Map<Seq<u8>, V>
    decreases heads.len(),
{
    if heads.len() == 0 {
        Map::empty()
    } else {
        heads_map(heads.drop_last()).union_prefer_right(head_map(heads.last()))
    }
}

/// Heads that can become the children of one branch ending at `e`: they
/// are well formed there, sit under distinct bytes and all their keys agree
/// with `cl` before `e`.
pub open spec fn siblings<const KEY_LEN: usize, V>(heads: Seq<Head<KEY_LEN, V>>, e: int, cl: Seq<u8>) -> bool {
    &&& forall|j: int| 0 <= j < heads.len() ==> wf_child(#[trigger] heads[j], e)
    &&& forall|j: int, l: int| 0 <= j < l < heads.len() ==> heads[j].key != heads[l].key
    &&& forall|j: int, k: Seq<u8>|
        0 <= j < heads.len() && #[trigger] head_map(heads[j]).contains_key(k) ==> agrees(k, cl, 0, e)
}

proof fn lemma_heads_map<const KEY_LEN: usize, V>(heads: Seq<Head<KEY_LEN, V>>, e: int, cl: Seq<u8>)
    requires
        siblings(heads, e, cl),
    ensures
        forall|k: Seq<u8>| #[trigger] heads_map(heads).contains_key(k) <==> exists|j: int|
            0 <= j < heads.len() && #[trigger] head_map(heads[j]).contains_key(k),
        forall|j: int, k: Seq<u8>|
            0 <= j < heads.len() && #[trigger] head_map(heads[j]).contains_key(k) ==> heads_map(heads)[k]
                == head_map(heads[j])[k] && k[e] == heads[j].key,
    decreases heads.len(),
{
    if heads.len() > 0 {
        let rest = heads.drop_last();
        assert(siblings(rest, e, cl)) by {
            assert forall|j: int| 0 <= j < rest.len() implies wf_child(#[trigger] rest[j], e) by {
                assert(rest[j] == heads[j]);
            }
            assert forall|j: int, k: Seq<u8>|
                0 <= j < rest.len() && #[trigger] head_map(rest[j]).contains_key(k) implies agrees(k, cl, 0, e) by {
                assert(rest[j] == heads[j]);
            }
        }
        lemma_heads_map(rest, e, cl);
        let last = heads.len() - 1;
        assert forall|k: Seq<u8>| #[trigger] heads_map(heads).contains_key(k) <==> exists|j: int|
            0 <= j < heads.len() && #[trigger] head_map(heads[j]).contains_key(k) by {
            if heads_map(heads).contains_key(k) {
                if head_map(heads[last]).contains_key(k) {
                } else {
                    assert(heads_map(heads) == heads_map(rest).union_prefer_right(head_map(heads[last])));
                    assert(heads_map(rest).contains_key(k));
                    let j = choose|j: int| 0 <= j < rest.len() && #[trigger] head_map(rest[j]).contains_key(k);
                    assert(rest[j] == heads[j]);
                    assert(head_map(heads[j]).contains_key(k));
                }
            }
            if exists|j: int| 0 <= j < heads.len() && #[trigger] head_map(heads[j]).contains_key(k) {
                let j = choose|j: int| 0 <= j < heads.len() && #[trigger] head_map(heads[j]).contains_key(k);
                if j < last {
                    assert(rest[j] == heads[j]);
                    assert(head_map(rest[j]).contains_key(k));
                }
            }
        }
        assert forall|j: int, k: Seq<u8>|
            0 <= j < heads.len() && #[trigger] head_map(heads[j]).contains_key(k) implies heads_map(heads)[k]
                == head_map(heads[j])[k] && k[e] == heads[j].key by {
            assert(wf_child(heads[j], e));
            if j < last {
                assert(head_map(rest[j]).contains_key(k));
                assert(wf_child(heads[last], e));
                assert(heads[j].key != heads[last].key);
                if head_map(heads[last]).contains_key(k) {
                    assert(k[e] == heads[last].key);
                }
            }
        }
    }
}

impl<const KEY_LEN: usize, V> Head<KEY_LEN, V> {
    /// The head holding all of `kids` below a branch ending at `e`: `None`
    /// without kids, the kid itself for a single one.
    pub fn from_children(e: usize, kids: Vec<Self>, Ghost(cl): Ghost<Seq<u8>>) -> (r: Option<Self>)
        requires
            e < KEY_LEN,
            siblings(kids@, e as int, cl),
            heads_map(kids@).dom().finite(),
            heads_map(kids@).dom().len() <= u64::MAX,
        ensures
            r is None <==> kids@.len() == 0,
            r matches Some(h) ==> wf_head(h, e as int) && head_map(h) == heads_map(kids@)
                && agrees(head_childleaf(h), cl, 0, e as int),
    {
        let ghost orig = kids@;
        let mut kids = kids;
        proof {
            lemma_heads_map(orig, e as int, cl);
        }
        if kids.len() == 0 {
            return None;
        }
        if kids.len() == 1 {
            let only = kids.pop();
            proof {
                let h = only->0;
                assert(orig[0] == h);
                lemma_childleaf_in(h, e as int);
                assert(head_map(h) =~= heads_map(orig)) by {
                    assert forall|k: Seq<u8>| #[trigger] heads_map(orig).contains_key(k) implies head_map(h).contains_key(k) by {
                        let j = choose|j: int| 0 <= j < orig.len() && #[trigger] head_map(orig[j]).contains_key(k);
                        assert(j == 0);
                    }
                }
            }
            return only;
        }
        let ghost n = orig.len();
        let r1 = match kids.pop() { Some(h) => h, None => { return None; } };
        let r0 = match kids.pop() { Some(h) => h, None => { return None; } };
        proof {
            assert(orig[n - 1] == r1);
            assert(orig[n - 2] == r0);
            assert(kids@ =~= orig.take(n - 2));
            lemma_childleaf_in(r0, e as int);
            lemma_body_keys(r0.body, e as int);
            lemma_body_keys(r1.body, e as int);
            assert(head_map(orig[n - 2]).contains_key(head_childleaf(r0)));
            assert(agrees(head_childleaf(r0), cl, 0, e as int));
            assert forall|k: Seq<u8>| #[trigger] head_map(r0).contains_key(k) implies agrees(k, head_childleaf(r0), 0, e as int) by {
                assert(head_map(orig[n - 2]).contains_key(k));
            }
            assert forall|k: Seq<u8>| #[trigger] head_map(r1).contains_key(k) implies agrees(k, head_childleaf(r0), 0, e as int) by {
                assert(head_map(orig[n - 1]).contains_key(k));
            }
            let u = head_map(r0).dom().union(head_map(r1).dom());
            assert(head_map(r0).dom().disjoint(head_map(r1).dom())) by {
                assert forall|k: Seq<u8>| #[trigger] head_map(r0).dom().contains(k) implies !head_map(r1).dom().contains(k) by {
                    assert(head_map(orig[n - 2]).contains_key(k));
                    if head_map(r1).contains_key(k) {
                        assert(head_map(orig[n - 1]).contains_key(k));
                    }
                }
            }
            vstd::set_lib::lemma_set_disjoint_lens(head_map(r0).dom(), head_map(r1).dom());
            assert(u.subset_of(heads_map(orig).dom())) by {
                assert forall|k: Seq<u8>| #[trigger] u.contains(k) implies heads_map(orig).dom().contains(k) by {
                    if head_map(r0).contains_key(k) {
                        assert(head_map(orig[n - 2]).contains_key(k));
                    } else {
                        assert(head_map(orig[n - 1]).contains_key(k));
                    }
                }
            }
            vstd::set_lib::lemma_len_subset(u, heads_map(orig).dom());
        }
        let ghost cl0 = head_childleaf(r0);
        let ghost k0 = r0.key;
        let ghost k1 = r1.key;
        let mut br = Branch::new(e, r0, r1);
        proof {
            assert forall|c: u8| #[trigger] br.child_table@.contains_key(c) implies exists|j: int|
                kids@.len() <= j < orig.len() && #[trigger] orig[j].key == c by {
                if c == k0 {
                    assert(orig[n - 2].key == c);
                } else {
                    assert(orig[n - 1].key == c);
                }
            }
        }
        while kids.len() > 0
            invariant
                e < KEY_LEN,
                siblings(orig, e as int, cl),
                heads_map(orig).dom().finite(),
                heads_map(orig).dom().len() <= u64::MAX,
                agrees(cl0, cl, 0, e as int),
                kids@.len() <= orig.len(),
                kids@ =~= orig.take(kids@.len() as int),
                wf_branch_core(br),
                br.end_depth == e,
                br.childleaf@ == cl0,
                br.leaf_count >= 2,
                branch_map(br).contains_key(cl0),
                forall|k: Seq<u8>| #[trigger] branch_map(br).contains_key(k) <==> (exists|j: int|
                    kids@.len() <= j < orig.len() && #[trigger] head_map(orig[j]).contains_key(k)),
                forall|j: int, k: Seq<u8>|
                    kids@.len() <= j < orig.len() && #[trigger] head_map(orig[j]).contains_key(k) ==> branch_map(br)[k]
                        == head_map(orig[j])[k],
                forall|c: u8| #[trigger] br.child_table@.contains_key(c) ==> exists|j: int|
                    kids@.len() <= j < orig.len() && #[trigger] orig[j].key == c,
            decreases kids@.len(),
        {
            proof {
                lemma_heads_map(orig, e as int, cl);
            }
            let ghost m = kids@.len() - 1;
            let ghost pre = br;
            let kid = match kids.pop() { Some(h) => h, None => { return None; } };
            proof {
                assert(orig[m] == kid);
                assert(kids@ =~= orig.take(m));
                lemma_branch_view(pre);
                assert(!pre.child_table@.contains_key(kid.key)) by {
                    if pre.child_table@.contains_key(kid.key) {
                        let j = choose|j: int| m + 1 <= j < orig.len() && #[trigger] orig[j].key == kid.key;
                        assert(orig[m].key != orig[j].key);
                    }
                }
                assert forall|k: Seq<u8>| #[trigger] head_map(kid).contains_key(k) implies agrees(k, cl0, 0, e as int) by {
                    assert(head_map(orig[m]).contains_key(k));
                }
                lemma_branch_keys(pre);
                lemma_body_keys(kid.body, e as int);
                let u = branch_map(pre).dom().union(head_map(kid).dom());
                assert(branch_map(pre).dom().disjoint(head_map(kid).dom())) by {
                    assert forall|k: Seq<u8>| #[trigger] head_map(kid).dom().contains(k) implies !branch_map(pre).dom().contains(k) by {
                        assert(head_map(orig[m]).contains_key(k));
                        if branch_map(pre).contains_key(k) {
                            let j = choose|j: int| m + 1 <= j < orig.len() && #[trigger] head_map(orig[j]).contains_key(k);
                            assert(k[e as int] == orig[j].key);
                            assert(k[e as int] == orig[m].key);
                        }
                    }
                }
                vstd::set_lib::lemma_set_disjoint_lens(branch_map(pre).dom(), head_map(kid).dom());
                assert(u.subset_of(heads_map(orig).dom())) by {
                    assert forall|k: Seq<u8>| #[trigger] u.contains(k) implies heads_map(orig).dom().contains(k) by {
                        if branch_map(pre).contains_key(k) {
                            let j = choose|j: int| m + 1 <= j < orig.len() && #[trigger] head_map(orig[j]).contains_key(k);
                        } else {
                            assert(head_map(orig[m]).contains_key(k));
                        }
                    }
                }
                vstd::set_lib::lemma_len_subset(u, heads_map(orig).dom());
            }
            br.insert_child(kid);
            proof {
                assert forall|k: Seq<u8>| #[trigger] branch_map(br).contains_key(k) <==> (exists|j: int|
                    m <= j < orig.len() && #[trigger] head_map(orig[j]).contains_key(k)) by {
                    if exists|j: int| m <= j < orig.len() && #[trigger] head_map(orig[j]).contains_key(k) {
                        let j = choose|j: int| m <= j < orig.len() && #[trigger] head_map(orig[j]).contains_key(k);
                        if j > m {
                            assert(branch_map(pre).contains_key(k));
                        }
                    }
                }
                assert forall|j: int, k: Seq<u8>|
                    m <= j < orig.len() && #[trigger] head_map(orig[j]).contains_key(k) implies branch_map(br)[k]
                        == head_map(orig[j])[k] by {
                    if j > m {
                        assert(branch_map(pre).contains_key(k));
                        if head_map(kid).contains_key(k) {
                            assert(k[e as int] == orig[j].key);
                            assert(k[e as int] == orig[m].key);
                        }
                    }
                }
                assert forall|c: u8| #[trigger] br.child_table@.contains_key(c) implies exists|j: int|
                    m <= j < orig.len() && #[trigger] orig[j].key == c by {
                    if c != kid.key {
                        assert(pre.child_table@.contains_key(c));
                        let j = choose|j: int| m + 1 <= j < orig.len() && #[trigger] orig[j].key == c;
                    } else {
                        assert(orig[m].key == c);
                    }
                }
                lemma_branch_keys(br);
                vstd::set_lib::lemma_len_subset(branch_map(pre).dom(), branch_map(br).dom());
            }
        }
        proof {
            lemma_heads_map(orig, e as int, cl);
            assert(branch_map(br) =~= heads_map(orig));
            lemma_wf_branch(br, e as int);
        }
        Some(Head { key: 0, body: Body::Branch(Box::new(br)) })
    }
}


/// Some slot among the first `i` holds a child under key byte `c`.
pub open spec fn slot_done<const KEY_LEN: usize, V>(s: Seq<Option<Head<KEY_LEN, V>>>, i: int, c: u8) -> bool {
    exists|j: int| 0 <= j < i && s[j] is Some && (#[trigger] s[j])->0.key == c
}

/// Facts about the slots of a well-formed branch used when walking them.
proof fn lemma_branch_slots<const KEY_LEN: usize, V>(br: Branch<KEY_LEN, V>)
    requires
        wf_branch_core(br),
    ensures
        forall|j: int| 0 <= j < br.child_table.slots@.len() && (#[trigger] br.child_table.slots@[j]) is Some
            ==> br.child_table@.contains_key(br.child_table.slots@[j]->0.key)
            && br.child_table@[br.child_table.slots@[j]->0.key] == br.child_table.slots@[j]->0
            && wf_child(br.child_table.slots@[j]->0, br.end_depth as int),
        forall|c: u8| #[trigger] br.child_table@.contains_key(c) ==> slot_done(br.child_table.slots@, br.child_table.slots@.len() as int, c),
        forall|i: int, j: int|
            0 <= i < br.child_table.slots@.len() && 0 <= j < br.child_table.slots@.len() && i != j
                && (#[trigger] br.child_table.slots@[i]) is Some && (#[trigger] br.child_table.slots@[j]) is Some
                ==> br.child_table.slots@[i]->0.key != br.child_table.slots@[j]->0.key,
{
    let t = br.child_table;
    t.lemma_slots();
    lemma_branch_view(br);
    assert forall|j: int| 0 <= j < t.slots@.len() && (#[trigger] t.slots@[j]) is Some implies t@.contains_key(t.slots@[j]->0.key)
        && t@[t.slots@[j]->0.key] == t.slots@[j]->0 && wf_child(t.slots@[j]->0, br.end_depth as int) by {
        assert(t.spec_slot(j) is Some);
    }
    assert forall|c: u8| #[trigger] t@.contains_key(c) implies slot_done(t.slots@, t.slots@.len() as int, c) by {
        let j = choose|j: int| 0 <= j < t.spec_len() && t.spec_slot(j) == Some(t@[c]) && t@[c].spec_key() == c;
        assert(t.slots@[j] is Some && t.slots@[j]->0.key == c);
    }
    assert forall|i: int, j: int|
        0 <= i < t.slots@.len() && 0 <= j < t.slots@.len() && i != j && (#[trigger] t.slots@[i]) is Some
            && (#[trigger] t.slots@[j]) is Some implies t.slots@[i]->0.key != t.slots@[j]->0.key by {
        assert(t.spec_slot(i) is Some && t.spec_slot(j) is Some);
    }
}

impl<const KEY_LEN: usize, V: Copy> Head<KEY_LEN, V> {
    /// A copy of this head and of everything below it.
    pub fn copy_head(&self) -> (r: Self)
        requires
            wf_head(*self, head_end(*self)),
        ensures
            r.key == self.key,
            head_map(r) == head_map(*self),
            head_childleaf(r) == head_childleaf(*self),
            head_end(r) == head_end(*self),
            head_count(r) == head_count(*self),
            forall|d: int| wf_head(*self, d) ==> #[trigger] wf_head(r, d),
        decreases body_height(self.body),
    {
        match &self.body {
            Body::Leaf(l) => {
                let leaf = Leaf { key: l.key, hash: l.hash, value: l.value };
                Head { key: self.key, body: Body::Leaf(Box::new(leaf)) }
            },
            Body::Branch(sb) => {
                let ghost sm = branch_map(**sb);
                let ghost sl = sb.child_table.slots@;
                let ghost e = sb.end_depth as int;
                proof {
                    lemma_wf_branch(**sb, e);
                    lemma_branch_keys(**sb);
                    lemma_branch_view(**sb);
                    lemma_branch_slots(**sb);
                }
                let ghost hb = body_height(self.body);
                let mut nb = Branch::empty(sb.end_depth, sb.childleaf);
                let n = sb.child_table.len();
                let mut i: usize = 0;
                while i < n
                    invariant
                        wf_branch_core(**sb),
                        sm == branch_map(**sb),
                        sl == sb.child_table.slots@,
                        e == sb.end_depth,
                        n == sl.len(),
                        i <= n,
                        sm.dom().finite(),
                        sm.dom().len() == sb.leaf_count,
                        hb == body_height(self.body),
                        hb == body_height(Body::Branch(Box::new(**sb))),
                        wf_branch_core(nb),
                        nb.end_depth == e,
                        nb.childleaf == sb.childleaf,
                        forall|k: Seq<u8>| #[trigger] branch_map(nb).contains_key(k) <==> (sm.contains_key(k) && slot_done(sl, i as int, k[e])),
                        forall|k: Seq<u8>| #[trigger] branch_map(nb).contains_key(k) ==> branch_map(nb)[k] == sm[k],
                        forall|c: u8| #[trigger] nb.child_table@.contains_key(c) ==> slot_done(sl, i as int, c),
                    decreases n - i,
                {
                    proof {
                        lemma_branch_slots(**sb);
                        lemma_branch_view(**sb);
                    }
                    let ghost pre = nb;
                    match sb.child_table.slot(i) {
                        Some(h) => {
                            let ghost c = h.key;
                            proof {
                                assert(sl[i as int] is Some);
                                assert(wf_child(*h, e));
                                lemma_childleaf_in(*h, e);
                                lemma_wf_depth(*h, e, head_end(*h));
                                lemma_child_height(**sb, c);
                                lemma_body_keys(h.body, e);
                            }
                            let copy = h.copy_head();
                            proof {
                                assert(!pre.child_table@.contains_key(c)) by {
                                    if pre.child_table@.contains_key(c) {
                                        let j = choose|j: int| 0 <= j < i && sl[j] is Some && (#[trigger] sl[j])->0.key == c;
                                        assert(sl[j]->0.key != sl[i as int]->0.key);
                                    }
                                }
                                assert(wf_head(*h, e));
                                assert(wf_head(copy, e));
                                assert(wf_child(copy, e));
                                assert forall|k: Seq<u8>| #[trigger] head_map(copy).contains_key(k) implies agrees(k, pre.childleaf@, 0, e) by {
                                    assert(sm.contains_key(k));
                                }
                                lemma_branch_keys(pre);
                                let u = branch_map(pre).dom().union(head_map(copy).dom());
                                assert(branch_map(pre).dom().disjoint(head_map(copy).dom())) by {
                                    assert forall|k: Seq<u8>| #[trigger] head_map(copy).dom().contains(k) implies !branch_map(pre).dom().contains(k) by {
                                        if branch_map(pre).contains_key(k) {
                                            let j = choose|j: int| 0 <= j < i && sl[j] is Some && (#[trigger] sl[j])->0.key == k[e];
                                            assert(sl[j]->0.key != sl[i as int]->0.key);
                                        }
                                    }
                                }
                                vstd::set_lib::lemma_set_disjoint_lens(branch_map(pre).dom(), head_map(copy).dom());
                                assert(u.subset_of(sm.dom()));
                                vstd::set_lib::lemma_len_subset(u, sm.dom());
                            }
                            nb.insert_child(copy);
                            proof {
                                assert forall|k: Seq<u8>| #[trigger] branch_map(nb).contains_key(k) <==> (sm.contains_key(k)
                                    && slot_done(sl, i + 1, k[e])) by {
                                    if sm.contains_key(k) && slot_done(sl, i + 1, k[e]) {
                                        if k[e] != c {
                                            let j = choose|j: int| 0 <= j < i + 1 && sl[j] is Some && (#[trigger] sl[j])->0.key == k[e];
                                            assert(j != i);
                                            assert(slot_done(sl, i as int, k[e]));
                                        }
                                    }
                                    if branch_map(pre).contains_key(k) {
                                        let j = choose|j: int| 0 <= j < i && sl[j] is Some && (#[trigger] sl[j])->0.key == k[e];
                                        assert(slot_done(sl, i + 1, k[e]));
                                    }
                                    if head_map(copy).contains_key(k) {
                                        assert(sl[i as int] is Some && sl[i as int]->0.key == k[e]);
                                        assert(slot_done(sl, i + 1, k[e]));
                                    }
                                }
                                assert forall|d: u8| #[trigger] nb.child_table@.contains_key(d) implies slot_done(sl, i + 1, d) by {
                                    if d != c {
                                        let j = choose|j: int| 0 <= j < i && sl[j] is Some && (#[trigger] sl[j])->0.key == d;
                                    } else {
                                        assert(sl[i as int] is Some && sl[i as int]->0.key == d);
                                    }
                                }
                            }
                        },
                        None => {
                            proof {
                                assert forall|k: Seq<u8>| #[trigger] branch_map(nb).contains_key(k) <==> (sm.contains_key(k)
                                    && slot_done(sl, i + 1, k[e])) by {
                                    if slot_done(sl, i + 1, k[e]) {
                                        let j = choose|j: int| 0 <= j < i + 1 && sl[j] is Some && (#[trigger] sl[j])->0.key == k[e];
                                        assert(j != i);
                                        assert(slot_done(sl, i as int, k[e]));
                                    }
                                }
                                assert forall|d: u8| #[trigger] nb.child_table@.contains_key(d) implies slot_done(sl, i + 1, d) by {
                                    let j = choose|j: int| 0 <= j < i && sl[j] is Some && (#[trigger] sl[j])->0.key == d;
                                }
                            }
                        },
                    }
                    i = i + 1;
                }
                proof {
                    lemma_branch_slots(**sb);
                    assert(branch_map(nb) =~= sm) by {
                        assert forall|k: Seq<u8>| #[trigger] sm.contains_key(k) implies branch_map(nb).contains_key(k) by {
                            assert(sb.child_table@.contains_key(k[e]));
                        }
                    }
                    lemma_branch_keys(nb);
                    assert forall|d: int| wf_head(*self, d) implies #[trigger] wf_head(Head { key: self.key, body: Body::Branch(Box::new(nb)) }, d) by {
                        lemma_wf_branch(**sb, d);
                        lemma_wf_branch(nb, d);
                    }
                }
                Head { key: self.key, body: Body::Branch(Box::new(nb)) }
            },
        }
    }

    /// The keys below `self` that are also below `other`, with their values
    /// from `self`; both sit at `at_depth` and agree before it. `None` when
    /// there are none.
    #[verifier::rlimit(40)]
    pub fn intersect(&self, other: &Self, at_depth: usize) -> (r: Option<Self>)
        requires
            wf_head(*self, at_depth as int),
            wf_head(*other, at_depth as int),
            agrees(head_childleaf(*self), head_childleaf(*other), 0, at_depth as int),
        ensures
            r is None ==> head_map(*self).restrict(head_map(*other).dom()) == Map::<Seq<u8>, V>::empty(),
            r matches Some(h) ==> wf_head(h, at_depth as int) && head_map(h) == head_map(*self).restrict(head_map(*other).dom())
                && agrees(head_childleaf(h), head_childleaf(*self), 0, at_depth as int),
        decreases body_height(self.body) + body_height(other.body),
    {
        let ghost sm = head_map(*self);
        let ghost om = head_map(*other);
        let ghost scl = head_childleaf(*self);
        let ghost ocl = head_childleaf(*other);
        let ghost want = sm.restrict(om.dom());
        proof {
            lemma_childleaf_in(*self, at_depth as int);
            lemma_childleaf_in(*other, at_depth as int);
            lemma_body_keys(self.body, at_depth as int);
            lemma_body_keys(other.body, at_depth as int);
        }
        if let Some((depth, a, b)) = self.first_divergence(other, at_depth) {
            proof {
                assert(want =~= Map::<Seq<u8>, V>::empty()) by {
                    assert forall|k: Seq<u8>| #[trigger] sm.contains_key(k) implies !om.contains_key(k) by {
                        assert(agrees(k, scl, 0, head_end(*self)));
                        if om.contains_key(k) {
                            assert(agrees(k, ocl, 0, head_end(*other)));
                            assert(k[depth as int] == a);
                        }
                    }
                }
            }
            return None;
        }
        let self_depth = self.end_depth();
        let other_depth = other.end_depth();
        if self_depth == KEY_LEN && other_depth == KEY_LEN {
            proof {
                assert(scl =~= ocl);
                assert(want =~= sm) by {
                    assert forall|k: Seq<u8>| #[trigger] sm.contains_key(k) implies om.contains_key(k) by {
                        assert(agrees(k, scl, 0, KEY_LEN as int));
                        assert(k =~= scl);
                    }
                }
            }
            let c = self.copy_head();
            proof {
                assert(wf_head(*self, head_end(*self)));
                assert(wf_head(c, at_depth as int));
            }
            return Some(c);
        }
        if self_depth < other_depth {
            match &self.body {
                Body::Leaf(_) => {
                    return None;
                },
                Body::Branch(sb) => {
                    proof {
                        lemma_wf_branch(**sb, at_depth as int);
                        lemma_branch_view(**sb);
                        lemma_wf_depth(*other, at_depth as int, self_depth as int);
                    }
                    let c = other.childleaf_key()[self_depth];
                    match sb.child_table.table_get(c) {
                        Some(child) => {
                            proof {
                                let e = self_depth as int;
                                lemma_childleaf_in(*child, e);
                                assert(sm.contains_key(head_childleaf(*child)));
                                lemma_child_height(**sb, c);
                            }
                            let r = child.intersect(other, self_depth);
                            proof {
                                let e = self_depth as int;
                                let cm = head_map(*child);
                                assert forall|k: Seq<u8>| #[trigger] om.contains_key(k) implies k[e] == c by {
                                    assert(agrees(k, ocl, 0, head_end(*other)));
                                }
                                assert(cm.restrict(om.dom()) =~= want) by {
                                    assert forall|k: Seq<u8>| #[trigger] want.contains_key(k) implies cm.contains_key(k) by {
                                        assert(k[e] == c);
                                    }
                                }
                                if r is Some {
                                    let h = r->0;
                                    lemma_childleaf_in(h, e);
                                    lemma_wf_depth(h, e, at_depth as int);
                                    assert(agrees(head_childleaf(h), scl, 0, at_depth as int)) by {
                                        assert(sm.contains_key(head_childleaf(h)));
                                    }
                                }
                            }
                            return r;
                        },
                        None => {
                            proof {
                                let e = self_depth as int;
                                assert(want =~= Map::<Seq<u8>, V>::empty()) by {
                                    assert forall|k: Seq<u8>| #[trigger] sm.contains_key(k) implies !om.contains_key(k) by {
                                        if om.contains_key(k) {
                                            assert(agrees(k, ocl, 0, head_end(*other)));
                                            assert(k[e] == c);
                                        }
                                    }
                                }
                            }
                            return None;
                        },
                    }
                },
            }
        }
        if other_depth < self_depth {
            match &other.body {
                Body::Leaf(_) => {
                    return None;
                },
                Body::Branch(ob) => {
                    proof {
                        lemma_wf_branch(**ob, at_depth as int);
                        lemma_branch_view(**ob);
                        lemma_wf_depth(*self, at_depth as int, other_depth as int);
                    }
                    let c = self.childleaf_key()[other_depth];
                    match ob.child_table.table_get(c) {
                        Some(ochild) => {
                            proof {
                                let e = other_depth as int;
                                lemma_childleaf_in(*ochild, e);
                                assert(om.contains_key(head_childleaf(*ochild)));
                                lemma_child_height(**ob, c);
                            }
                            let r = self.intersect(ochild, other_depth);
                            proof {
                                let e = other_depth as int;
                                let cm = head_map(*ochild);
                                assert forall|k: Seq<u8>| #[trigger] sm.contains_key(k) implies k[e] == c by {
                                    assert(agrees(k, scl, 0, head_end(*self)));
                                }
                                assert(sm.restrict(cm.dom()) =~= want) by {
                                    assert forall|k: Seq<u8>| #[trigger] want.contains_key(k) implies cm.contains_key(k) by {
                                        assert(k[e] == c);
                                    }
                                }
                                if r is Some {
                                    let h = r->0;
                                    lemma_childleaf_in(h, e);
                                    lemma_wf_depth(h, e, at_depth as int);
                                }
                            }
                            return r;
                        },
                        None => {
                            proof {
                                let e = other_depth as int;
                                assert(want =~= Map::<Seq<u8>, V>::empty()) by {
                                    assert forall|k: Seq<u8>| #[trigger] sm.contains_key(k) implies !om.contains_key(k) by {
                                        assert(agrees(k, scl, 0, head_end(*self)));
                                        if om.contains_key(k) {
                                            assert(k[e] == c);
                                        }
                                    }
                                }
                            }
                            return None;
                        },
                    }
                },
            }
        }
        // both are branches ending at the same depth
        let (sb, ob) = match (&self.body, &other.body) {
            (Body::Branch(sb), Body::Branch(ob)) => (sb, ob),
            _ => {
                proof {
                    assert(false);
                }
                return None;
            },
        };
        let ghost e = self_depth as int;
        let ghost sl = sb.child_table.slots@;
        let ghost hs = body_height(self.body) + body_height(other.body);
        proof {
            lemma_wf_branch(**sb, at_depth as int);
            lemma_wf_branch(**ob, at_depth as int);
            lemma_branch_keys(**sb);
            lemma_branch_view(**sb);
            lemma_branch_view(**ob);
            lemma_branch_slots(**sb);
            assert(heads_map(Seq::<Head<KEY_LEN, V>>::empty()) =~= Map::<Seq<u8>, V>::empty());
        }
        let n = sb.child_table.len();
        let mut results: Vec<Head<KEY_LEN, V>> = Vec::new();
        let mut i: usize = 0;
        while i < n
            invariant
                wf_branch_core(**sb),
                wf_branch_core(**ob),
                sm == branch_map(**sb),
                om == branch_map(**ob),
                sl == sb.child_table.slots@,
                e == sb.end_depth,
                e == ob.end_depth,
                e == self_depth,
                e < KEY_LEN,
                scl == sb.childleaf@,
                ocl == ob.childleaf@,
                agrees(scl, ocl, 0, e),
                n == sl.len(),
                i <= n,
                hs == body_height(self.body) + body_height(other.body),
                hs == body_height(Body::Branch(Box::new(**sb))) + body_height(Body::Branch(Box::new(**ob))),
                siblings(results@, e, scl),
                forall|j: int| 0 <= j < results@.len() ==> slot_done(sl, i as int, #[trigger] results@[j].key),
                forall|k: Seq<u8>| #[trigger] heads_map(results@).contains_key(k) <==> (sm.contains_key(k) && om.contains_key(k)
                    && slot_done(sl, i as int, k[e])),
                forall|k: Seq<u8>| #[trigger] heads_map(results@).contains_key(k) ==> heads_map(results@)[k] == sm[k],
            decreases n - i,
        {
            proof {
                lemma_branch_slots(**sb);
                lemma_branch_view(**sb);
                lemma_branch_view(**ob);
            }
            let ghost pre = results@;
            let mut pushed = false;
            match sb.child_table.slot(i) {
                Some(sc) => {
                    let c = sc.key;
                    match ob.child_table.table_get(c) {
                        Some(oc) => {
                            proof {
                                assert(sl[i as int] is Some);
                                lemma_childleaf_in(*sc, e);
                                lemma_childleaf_in(*oc, e);
                                assert(sm.contains_key(head_childleaf(*sc)));
                                assert(om.contains_key(head_childleaf(*oc)));
                                lemma_child_height(**sb, c);
                                lemma_child_height(**ob, c);
                            }
                            match sc.intersect(oc, self_depth) {
                                Some(h) => {
                                    let h = h.with_key(c);
                                    proof {
                                        let cm = head_map(*sc);
                                        assert forall|k: Seq<u8>| #[trigger] head_map(h).contains_key(k) implies k[e] == c
                                            && agrees(k, scl, 0, e) && sm.contains_key(k) && om.contains_key(k)
                                            && head_map(h)[k] == sm[k] by {
                                            assert(cm.contains_key(k));
                                            assert(sb.child_table@[c] == *sc);
                                            assert(wf_child(*sc, e));
                                            assert(k[e] == c);
                                            assert(branch_map(**sb).contains_key(k));
                                            assert(branch_map(**sb)[k] == head_map(sb.child_table@[k[e]])[k]);
                                            assert(om.contains_key(k));
                                        }
                                        assert forall|j: int| 0 <= j < pre.len() implies (#[trigger] pre[j]).key != c by {
                                            assert(slot_done(sl, i as int, pre[j].key));
                                            let l = choose|l: int| 0 <= l < i && sl[l] is Some && (#[trigger] sl[l])->0.key == pre[j].key;
                                            assert(sl[l]->0.key != sl[i as int]->0.key);
                                        }
                                    }
                                    results.push(h);
                                    pushed = true;
                                },
                                None => {
                                    proof {
                                        assert forall|k: Seq<u8>| sm.contains_key(k) && om.contains_key(k) && k[e] == c implies false by {
                                            assert(sb.child_table@[c] == *sc);
                                            assert(ob.child_table@[c] == *oc);
                                            assert(head_map(*sc).contains_key(k));
                                            assert(head_map(*oc).contains_key(k));
                                            assert(head_map(*sc).restrict(head_map(*oc).dom()).contains_key(k));
                                        }
                                    }
                                },
                            }
                        },
                        None => {
                            proof {
                                assert forall|k: Seq<u8>| om.contains_key(k) && k[e] == c implies false by {
                                    assert(ob.child_table@.contains_key(k[e]));
                                }
                            }
                        },
                    }
                },
                None => {
                    proof {
                        assert forall|x: u8| slot_done(sl, i + 1, x) implies slot_done(sl, i as int, x) by {
                            let l = choose|l: int| 0 <= l < i + 1 && sl[l] is Some && (#[trigger] sl[l])->0.key == x;
                            assert(l != i);
                        }
                    }
                },
            }
            proof {
                let rs = results@;
                if pushed {
                    assert(rs.drop_last() =~= pre);
                    let h = rs.last();
                    assert forall|j: int| 0 <= j < rs.len() implies wf_child(#[trigger] rs[j], e) by {
                        if j < pre.len() {
                            assert(rs[j] == pre[j]);
                        }
                    }
                    assert forall|j: int, k: Seq<u8>|
                        0 <= j < rs.len() && #[trigger] head_map(rs[j]).contains_key(k) implies agrees(k, scl, 0, e) by {
                        if j < pre.len() {
                            assert(rs[j] == pre[j]);
                        }
                    }
                    assert(siblings(rs, e, scl));
                } else {
                    assert(rs =~= pre);
                }
                assert forall|j: int| 0 <= j < rs.len() implies slot_done(sl, i + 1, #[trigger] rs[j].key) by {
                    if j < pre.len() {
                        assert(rs[j] == pre[j]);
                        let l = choose|l: int| 0 <= l < i && sl[l] is Some && (#[trigger] sl[l])->0.key == pre[j].key;
                    } else {
                        assert(sl[i as int] is Some && sl[i as int]->0.key == rs[j].key);
                    }
                }
                assert forall|k: Seq<u8>| #[trigger] heads_map(rs).contains_key(k) <==> (sm.contains_key(k) && om.contains_key(k)
                    && slot_done(sl, i + 1, k[e])) by {
                    if sm.contains_key(k) && om.contains_key(k) && slot_done(sl, i + 1, k[e]) {
                        let l = choose|l: int| 0 <= l < i + 1 && sl[l] is Some && (#[trigger] sl[l])->0.key == k[e];
                        if l < i {
                            assert(slot_done(sl, i as int, k[e]));
                            assert(heads_map(pre).contains_key(k));
                        } else {
                            assert(sl[i as int] is Some);
                            if pushed {
                                assert(heads_map(rs) == heads_map(rs.drop_last()).union_prefer_right(head_map(rs.last())));
                                assert(head_map(rs.last()).contains_key(k));
                            }
                        }
                    }
                    if heads_map(rs).contains_key(k) && !heads_map(pre).contains_key(k) {
                        assert(pushed);
                    }
                    if heads_map(pre).contains_key(k) {
                        let l = choose|l: int| 0 <= l < i && sl[l] is Some && (#[trigger] sl[l])->0.key == k[e];
                        assert(slot_done(sl, i + 1, k[e]));
                    }
                }
                assert forall|k: Seq<u8>| #[trigger] heads_map(rs).contains_key(k) implies heads_map(rs)[k] == sm[k] by {
                    if pushed {
                        assert(heads_map(rs) == heads_map(rs.drop_last()).union_prefer_right(head_map(rs.last())));
                        if head_map(rs.last()).contains_key(k) {
                            assert(head_map(rs.last())[k] == sm[k]);
                        } else {
                            assert(heads_map(pre).contains_key(k));
                        }
                    }
                }
            }
            i = i + 1;
        }
        proof {
            lemma_branch_slots(**sb);
            assert(heads_map(results@) =~= want) by {
                assert forall|k: Seq<u8>| #[trigger] want.contains_key(k) implies heads_map(results@).contains_key(k) by {
                    assert(sb.child_table@.contains_key(k[e]));
                }
            }
            assert(want.dom().subset_of(sm.dom()));
            vstd::set_lib::lemma_len_subset(want.dom(), sm.dom());
        }
        let r = Head::from_children(self_depth, results, Ghost(scl));
        proof {
            if r is Some {
                let h = r->0;
                lemma_childleaf_in(h, e);
                lemma_wf_depth(h, e, at_depth as int);
            }
        }
        r
    }

    /// The keys below `self` that are not below `other`, with their values;
    /// both sit at `at_depth` and agree before it. `None` when there are none.
    pub fn difference(&self, other: &Self, at_depth: usize) -> (r: Option<Self>)
        requires
            wf_head(*self, at_depth as int),
            wf_head(*other, at_depth as int),
            agrees(head_childleaf(*self), head_childleaf(*other), 0, at_depth as int),
        ensures
            r is None ==> head_map(*self).remove_keys(head_map(*other).dom()) == Map::<Seq<u8>, V>::empty(),
            r matches Some(h) ==> wf_head(h, at_depth as int) && head_map(h) == head_map(*self).remove_keys(head_map(*other).dom())
                && agrees(head_childleaf(h), head_childleaf(*self), 0, at_depth as int),
        decreases body_height(self.body) + body_height(other.body), 1int,
    {
        let ghost sm = head_map(*self);
        let ghost om = head_map(*other);
        let ghost scl = head_childleaf(*self);
        let ghost ocl = head_childleaf(*other);
        let ghost want = sm.remove_keys(om.dom());
        proof {
            lemma_childleaf_in(*self, at_depth as int);
            lemma_childleaf_in(*other, at_depth as int);
            lemma_body_keys(self.body, at_depth as int);
            lemma_body_keys(other.body, at_depth as int);
            lemma_wf_depth(*self, at_depth as int, head_end(*self));
        }
        if let Some((depth, a, b)) = self.first_divergence(other, at_depth) {
            proof {
                assert(want =~= sm) by {
                    assert forall|k: Seq<u8>| #[trigger] sm.contains_key(k) implies !om.contains_key(k) by {
                        assert(agrees(k, scl, 0, head_end(*self)));
                        if om.contains_key(k) {
                            assert(agrees(k, ocl, 0, head_end(*other)));
                            assert(k[depth as int] == a);
                        }
                    }
                }
            }
            return Some(self.copy_head());
        }
        let self_depth = self.end_depth();
        let other_depth = other.end_depth();
        if self_depth == KEY_LEN && other_depth == KEY_LEN {
            proof {
                assert(scl =~= ocl);
                assert(want =~= Map::<Seq<u8>, V>::empty()) by {
                    assert forall|k: Seq<u8>| #[trigger] sm.contains_key(k) implies om.contains_key(k) by {
                        assert(agrees(k, scl, 0, KEY_LEN as int));
                        assert(k =~= scl);
                    }
                }
            }
            return None;
        }
        if self_depth < other_depth {
            return self.difference_into(other, at_depth);
        }
        if other_depth < self_depth {
            match &other.body {
                Body::Leaf(_) => {
                    return None;
                },
                Body::Branch(ob) => {
                    proof {
                        lemma_wf_branch(**ob, at_depth as int);
                        lemma_branch_view(**ob);
                    }
                    let c = self.childleaf_key()[other_depth];
                    match ob.child_table.table_get(c) {
                        Some(ochild) => {
                            proof {
                                let e = other_depth as int;
                                lemma_childleaf_in(*ochild, e);
                                lemma_wf_depth(*ochild, e, at_depth as int);
                                assert(om.contains_key(head_childleaf(*ochild)));
                                assert(agrees(head_childleaf(*ochild), ocl, 0, e));
                                lemma_child_height(**ob, c);
                            }
                            let r = self.difference(ochild, at_depth);
                            proof {
                                let e = other_depth as int;
                                let cm = head_map(*ochild);
                                assert forall|k: Seq<u8>| #[trigger] sm.contains_key(k) implies k[e] == c by {
                                    assert(agrees(k, scl, 0, head_end(*self)));
                                }
                                assert(sm.remove_keys(cm.dom()) =~= want) by {
                                    assert forall|k: Seq<u8>| #[trigger] sm.contains_key(k) && om.contains_key(k) implies cm.contains_key(k) by {
                                        assert(k[e] == c);
                                    }
                                }
                            }
                            return r;
                        },
                        None => {
                            proof {
                                let e = other_depth as int;
                                assert(want =~= sm) by {
                                    assert forall|k: Seq<u8>| #[trigger] sm.contains_key(k) implies !om.contains_key(k) by {
                                        assert(agrees(k, scl, 0, head_end(*self)));
                                        if om.contains_key(k) {
                                            assert(k[e] == c);
                                        }
                                    }
                                }
                            }
                            return Some(self.copy_head());
                        },
                    }
                },
            }
        }
        self.difference_equal(other, at_depth)
    }

    /// Difference where `self` is a branch ending before `other`: only the
    /// child of `self` under the byte of `other` at that depth changes.
    fn difference_into(&self, other: &Self, at_depth: usize) -> (r: Option<Self>)
        requires
            wf_head(*self, at_depth as int),
            wf_head(*other, at_depth as int),
            head_end(*self) < head_end(*other),
            agrees(head_childleaf(*self), head_childleaf(*other), 0, head_end(*self)),
        ensures
            r is None ==> head_map(*self).remove_keys(head_map(*other).dom()) == Map::<Seq<u8>, V>::empty(),
            r matches Some(h) ==> wf_head(h, at_depth as int) && head_map(h) == head_map(*self).remove_keys(head_map(*other).dom())
                && agrees(head_childleaf(h), head_childleaf(*self), 0, at_depth as int),
        decreases body_height(self.body) + body_height(other.body), 0int,
    {
        let ghost sm = head_map(*self);
        let ghost om = head_map(*other);
        let ghost scl = head_childleaf(*self);
        let ghost ocl = head_childleaf(*other);
        let ghost want = sm.remove_keys(om.dom());
        proof {
            lemma_childleaf_in(*self, at_depth as int);
            lemma_childleaf_in(*other, at_depth as int);
            lemma_body_keys(self.body, at_depth as int);
        }
        let self_depth = self.end_depth();
        let sb = match &self.body {
            Body::Branch(sb) => sb,
            Body::Leaf(_) => {
                proof {
                    assert(false);
                }
                return None;
            },
        };
        let oc = other.childleaf_key()[self_depth];
        let ghost e = self_depth as int;
        let ghost sl = sb.child_table.slots@;
        let ghost hs = body_height(self.body) + body_height(other.body);
        proof {
            lemma_wf_branch(**sb, at_depth as int);
            lemma_branch_keys(**sb);
            lemma_branch_view(**sb);
            lemma_branch_slots(**sb);
            lemma_wf_depth(*other, at_depth as int, e);
            assert(heads_map(Seq::<Head<KEY_LEN, V>>::empty()) =~= Map::<Seq<u8>, V>::empty());
            assert forall|k: Seq<u8>| #[trigger] om.contains_key(k) implies k[e] == oc && agrees(k, scl, 0, e) by {
                assert(agrees(k, ocl, 0, head_end(*other)));
                assert forall|x: int| 0 <= x < e implies #[trigger] k[x] == scl[x] by {
                    assert(k[x] == ocl[x]);
                }
            }
        }
        let n = sb.child_table.len();
        let mut results: Vec<Head<KEY_LEN, V>> = Vec::new();
        let mut i: usize = 0;
        while i < n
            invariant
                wf_branch_core(**sb),
                sm == branch_map(**sb),
                sl == sb.child_table.slots@,
                e == sb.end_depth,
                e == self_depth,
                e < KEY_LEN,
                scl == sb.childleaf@,
                n == sl.len(),
                i <= n,
                hs == body_height(self.body) + body_height(other.body),
                siblings(results@, e, scl),
                forall|j: int| 0 <= j < results@.len() ==> slot_done(sl, i as int, #[trigger] results@[j].key),
                forall|k: Seq<u8>| #[trigger] heads_map(results@).contains_key(k) <==> (sm.contains_key(k) && !om.contains_key(k)
                    && slot_done(sl, i as int, k[e])),
                forall|k: Seq<u8>| #[trigger] heads_map(results@).contains_key(k) ==> heads_map(results@)[k] == sm[k],
                om == head_map(*other),
                wf_head(*other, e),
                forall|k: Seq<u8>| #[trigger] om.contains_key(k) ==> k[e] == oc && agrees(k, scl, 0, e),
                agrees(scl, ocl, 0, e),
                ocl == head_childleaf(*other),
                oc == ocl[e],
                hs == body_height(Body::Branch(Box::new(**sb))) + body_height(other.body),
            decreases n - i,
        {
            proof {
                lemma_branch_slots(**sb);
                lemma_branch_view(**sb);
            }
            let ghost pre = results@;
            let mut pushed = false;
            match sb.child_table.slot(i) {
                Some(sc) => {
                    let c = sc.key;
                    proof {
                        assert(sl[i as int] is Some);
                        lemma_childleaf_in(*sc, e);
                        assert(sm.contains_key(head_childleaf(*sc)));
                        lemma_child_height(**sb, c);
                        lemma_wf_depth(*sc, e, head_end(*sc));
                        lemma_childleaf_in(*other, e);
                    }
                    if c == oc {
                        match sc.difference(other, self_depth) {
                            Some(h) => {
                                let h = h.with_key(c);
                            proof {
                                let cm = head_map(*sc);
                                assert forall|k: Seq<u8>| #[trigger] head_map(h).contains_key(k) implies k[e] == c
                                    && agrees(k, scl, 0, e) && sm.contains_key(k) && !om.contains_key(k)
                                    && head_map(h)[k] == sm[k] by {
                                    assert(cm.contains_key(k));
                                    assert(sb.child_table@[c] == *sc);
                                    assert(wf_child(*sc, e));
                                    assert(k[e] == c);
                                    assert(branch_map(**sb).contains_key(k));
                                    assert(branch_map(**sb)[k] == head_map(sb.child_table@[k[e]])[k]);
                                }
                                assert forall|j: int| 0 <= j < pre.len() implies (#[trigger] pre[j]).key != c by {
                                    assert(slot_done(sl, i as int, pre[j].key));
                                    let l = choose|l: int| 0 <= l < i && sl[l] is Some && (#[trigger] sl[l])->0.key == pre[j].key;
                                    assert(sl[l]->0.key != sl[i as int]->0.key);
                                }
                            }
                            results.push(h);
                            pushed = true;
                            },
                            None => {
                                proof {
                                    assert forall|k: Seq<u8>| sm.contains_key(k) && !om.contains_key(k) && k[e] == c implies false by {
                                        assert(sb.child_table@[c] == *sc);
                                        assert(head_map(*sc).contains_key(k));
                                        assert(head_map(*sc).remove_keys(om.dom()).contains_key(k));
                                    }
                                }
                            },
                        }
                    } else {
                        let h = sc.copy_head();
                        proof {
                            assert(wf_head(*sc, e));
                            assert(wf_head(h, e));
                            assert forall|k: Seq<u8>| #[trigger] head_map(h).contains_key(k) implies !om.contains_key(k) by {
                                assert(wf_child(*sc, e));
                            }
                        }
                            proof {
                                let cm = head_map(*sc);
                                assert forall|k: Seq<u8>| #[trigger] head_map(h).contains_key(k) implies k[e] == c
                                    && agrees(k, scl, 0, e) && sm.contains_key(k) && !om.contains_key(k)
                                    && head_map(h)[k] == sm[k] by {
                                    assert(cm.contains_key(k));
                                    assert(sb.child_table@[c] == *sc);
                                    assert(wf_child(*sc, e));
                                    assert(k[e] == c);
                                    assert(branch_map(**sb).contains_key(k));
                                    assert(branch_map(**sb)[k] == head_map(sb.child_table@[k[e]])[k]);
                                }
                                assert forall|j: int| 0 <= j < pre.len() implies (#[trigger] pre[j]).key != c by {
                                    assert(slot_done(sl, i as int, pre[j].key));
                                    let l = choose|l: int| 0 <= l < i && sl[l] is Some && (#[trigger] sl[l])->0.key == pre[j].key;
                                    assert(sl[l]->0.key != sl[i as int]->0.key);
                                }
                            }
                            results.push(h);
                            pushed = true;
                    }
                },
                None => {
                    proof {
                        assert forall|x: u8| slot_done(sl, i + 1, x) implies slot_done(sl, i as int, x) by {
                            let l = choose|l: int| 0 <= l < i + 1 && sl[l] is Some && (#[trigger] sl[l])->0.key == x;
                            assert(l != i);
                        }
                    }
                },
            }
            proof {
                let rs = results@;
                if pushed {
                    assert(rs.drop_last() =~= pre);
                    assert forall|j: int| 0 <= j < rs.len() implies wf_child(#[trigger] rs[j], e) by {
                        if j < pre.len() {
                            assert(rs[j] == pre[j]);
                        }
                    }
                    assert forall|j: int, k: Seq<u8>|
                        0 <= j < rs.len() && #[trigger] head_map(rs[j]).contains_key(k) implies agrees(k, scl, 0, e) by {
                        if j < pre.len() {
                            assert(rs[j] == pre[j]);
                        }
                    }
                    assert(siblings(rs, e, scl));
                } else {
                    assert(rs =~= pre);
                }
                assert forall|j: int| 0 <= j < rs.len() implies slot_done(sl, i + 1, #[trigger] rs[j].key) by {
                    if j < pre.len() {
                        assert(rs[j] == pre[j]);
                        let l = choose|l: int| 0 <= l < i && sl[l] is Some && (#[trigger] sl[l])->0.key == pre[j].key;
                    } else {
                        assert(sl[i as int] is Some && sl[i as int]->0.key == rs[j].key);
                    }
                }
                assert forall|k: Seq<u8>| #[trigger] heads_map(rs).contains_key(k) <==> (sm.contains_key(k) && !om.contains_key(k)
                    && slot_done(sl, i + 1, k[e])) by {
                    if sm.contains_key(k) && !om.contains_key(k) && slot_done(sl, i + 1, k[e]) {
                        let l = choose|l: int| 0 <= l < i + 1 && sl[l] is Some && (#[trigger] sl[l])->0.key == k[e];
                        if l < i {
                            assert(slot_done(sl, i as int, k[e]));
                            assert(heads_map(pre).contains_key(k));
                        } else {
                            assert(sl[i as int] is Some);
                            if pushed {
                                assert(heads_map(rs) == heads_map(rs.drop_last()).union_prefer_right(head_map(rs.last())));
                                assert(head_map(rs.last()).contains_key(k));
                            }
                        }
                    }
                    if heads_map(rs).contains_key(k) && !heads_map(pre).contains_key(k) {
                        assert(pushed);
                    }
                    if heads_map(pre).contains_key(k) {
                        let l = choose|l: int| 0 <= l < i && sl[l] is Some && (#[trigger] sl[l])->0.key == k[e];
                        assert(slot_done(sl, i + 1, k[e]));
                    }
                }
                assert forall|k: Seq<u8>| #[trigger] heads_map(rs).contains_key(k) implies heads_map(rs)[k] == sm[k] by {
                    if pushed {
                        assert(heads_map(rs) == heads_map(rs.drop_last()).union_prefer_right(head_map(rs.last())));
                        if head_map(rs.last()).contains_key(k) {
                            assert(head_map(rs.last())[k] == sm[k]);
                        } else {
                            assert(heads_map(pre).contains_key(k));
                        }
                    }
                }
            }
            i = i + 1;
        }
        proof {
            lemma_branch_slots(**sb);
            assert(heads_map(results@) =~= want) by {
                assert forall|k: Seq<u8>| #[trigger] want.contains_key(k) implies heads_map(results@).contains_key(k) by {
                    assert(sb.child_table@.contains_key(k[e]));
                }
            }
            assert(want.dom().subset_of(sm.dom()));
            vstd::set_lib::lemma_len_subset(want.dom(), sm.dom());
        }
        let r = Head::from_children(self_depth, results, Ghost(scl));
        proof {
            if r is Some {
                let h = r->0;
                lemma_childleaf_in(h, e);
                lemma_wf_depth(h, e, at_depth as int);
            }
        }
        r
    }

    /// Difference of two branches ending at the same depth, child by child.
    fn difference_equal(&self, other: &Self, at_depth: usize) -> (r: Option<Self>)
        requires
            wf_head(*self, at_depth as int),
            wf_head(*other, at_depth as int),
            head_end(*self) == head_end(*other),
            head_end(*self) < KEY_LEN,
            agrees(head_childleaf(*self), head_childleaf(*other), 0, head_end(*self)),
        ensures
            r is None ==> head_map(*self).remove_keys(head_map(*other).dom()) == Map::<Seq<u8>, V>::empty(),
            r matches Some(h) ==> wf_head(h, at_depth as int) && head_map(h) == head_map(*self).remove_keys(head_map(*other).dom())
                && agrees(head_childleaf(h), head_childleaf(*self), 0, at_depth as int),
        decreases body_height(self.body) + body_height(other.body), 0int,
    {
        let ghost sm = head_map(*self);
        let ghost om = head_map(*other);
        let ghost scl = head_childleaf(*self);
        let ghost ocl = head_childleaf(*other);
        let ghost want = sm.remove_keys(om.dom());
        proof {
            lemma_childleaf_in(*self, at_depth as int);
            lemma_childleaf_in(*other, at_depth as int);
            lemma_body_keys(self.body, at_depth as int);
        }
        let self_depth = self.end_depth();
        let (sb, ob) = match (&self.body, &other.body) {
            (Body::Branch(sb), Body::Branch(ob)) => (sb, ob),
            _ => {
                proof {
                    assert(false);
                }
                return None;
            },
        };
        let ghost e = self_depth as int;
        let ghost sl = sb.child_table.slots@;
        let ghost hs = body_height(self.body) + body_height(other.body);
        proof {
            lemma_wf_branch(**sb, at_depth as int);
            lemma_wf_branch(**ob, at_depth as int);
            lemma_branch_keys(**sb);
            lemma_branch_view(**sb);
            lemma_branch_view(**ob);
            lemma_branch_slots(**sb);
            assert(heads_map(Seq::<Head<KEY_LEN, V>>::empty()) =~= Map::<Seq<u8>, V>::empty());
        }
        let n = sb.child_table.len();
        let mut results: Vec<Head<KEY_LEN, V>> = Vec::new();
        let mut i: usize = 0;
        while i < n
            invariant
                wf_branch_core(**sb),
                sm == branch_map(**sb),
                sl == sb.child_table.slots@,
                e == sb.end_depth,
                e == self_depth,
                e < KEY_LEN,
                scl == sb.childleaf@,
                n == sl.len(),
                i <= n,
                hs == body_height(self.body) + body_height(other.body),
                siblings(results@, e, scl),
                forall|j: int| 0 <= j < results@.len() ==> slot_done(sl, i as int, #[trigger] results@[j].key),
                forall|k: Seq<u8>| #[trigger] heads_map(results@).contains_key(k) <==> (sm.contains_key(k) && !om.contains_key(k)
                    && slot_done(sl, i as int, k[e])),
                forall|k: Seq<u8>| #[trigger] heads_map(results@).contains_key(k) ==> heads_map(results@)[k] == sm[k],
                wf_branch_core(**ob),
                om == branch_map(**ob),
                e == ob.end_depth,
                ocl == ob.childleaf@,
                agrees(scl, ocl, 0, e),
                hs == body_height(Body::Branch(Box::new(**sb))) + body_height(Body::Branch(Box::new(**ob))),
            decreases n - i,
        {
            proof {
                lemma_branch_slots(**sb);
                lemma_branch_view(**sb);
                lemma_branch_view(**ob);
            }
            let ghost pre = results@;
            let mut pushed = false;
            match sb.child_table.slot(i) {
                Some(sc) => {
                    let c = sc.key;
                    proof {
                        assert(sl[i as int] is Some);
                        lemma_childleaf_in(*sc, e);
                        assert(sm.contains_key(head_childleaf(*sc)));
                        lemma_child_height(**sb, c);
                        lemma_wf_depth(*sc, e, head_end(*sc));
                    }
                    match ob.child_table.table_get(c) {
                        Some(ocd) => {
                            proof {
                                lemma_childleaf_in(*ocd, e);
                                assert(om.contains_key(head_childleaf(*ocd)));
                                lemma_child_height(**ob, c);
                            }
                            match sc.difference(ocd, self_depth) {
                                Some(h) => {
                                    let h = h.with_key(c);
                            proof {
                                let cm = head_map(*sc);
                                assert forall|k: Seq<u8>| #[trigger] head_map(h).contains_key(k) implies k[e] == c
                                    && agrees(k, scl, 0, e) && sm.contains_key(k) && !om.contains_key(k)
                                    && head_map(h)[k] == sm[k] by {
                                    assert(cm.contains_key(k));
                                    assert(sb.child_table@[c] == *sc);
                                    assert(wf_child(*sc, e));
                                    assert(k[e] == c);
                                    assert(branch_map(**sb).contains_key(k));
                                    assert(branch_map(**sb)[k] == head_map(sb.child_table@[k[e]])[k]);
                                    if om.contains_key(k) { assert(ob.child_table@[c] == *ocd); assert(head_map(*ocd).contains_key(k)); }
                                }
                                assert forall|j: int| 0 <= j < pre.len() implies (#[trigger] pre[j]).key != c by {
                                    assert(slot_done(sl, i as int, pre[j].key));
                                    let l = choose|l: int| 0 <= l < i && sl[l] is Some && (#[trigger] sl[l])->0.key == pre[j].key;
                                    assert(sl[l]->0.key != sl[i as int]->0.key);
                                }
                            }
                            results.push(h);
                            pushed = true;
                                },
                                None => {
                                    proof {
                                        assert forall|k: Seq<u8>| sm.contains_key(k) && !om.contains_key(k) && k[e] == c implies false by {
                                            assert(sb.child_table@[c] == *sc);
                                            assert(ob.child_table@[c] == *ocd);
                                            assert(head_map(*sc).contains_key(k));
                                            assert(!head_map(*ocd).contains_key(k));
                                            assert(head_map(*sc).remove_keys(head_map(*ocd).dom()).contains_key(k));
                                        }
                                    }
                                },
                            }
                        },
                        None => {
                            let h = sc.copy_head();
                            proof {
                                assert(wf_head(*sc, e));
                                assert(wf_head(h, e));
                                assert forall|k: Seq<u8>| #[trigger] head_map(h).contains_key(k) implies !om.contains_key(k) by {
                                    assert(wf_child(*sc, e));
                                    if om.contains_key(k) {
                                        assert(ob.child_table@.contains_key(k[e]));
                                    }
                                }
                            }
                            proof {
                                let cm = head_map(*sc);
                                assert forall|k: Seq<u8>| #[trigger] head_map(h).contains_key(k) implies k[e] == c
                                    && agrees(k, scl, 0, e) && sm.contains_key(k) && !om.contains_key(k)
                                    && head_map(h)[k] == sm[k] by {
                                    assert(cm.contains_key(k));
                                    assert(sb.child_table@[c] == *sc);
                                    assert(wf_child(*sc, e));
                                    assert(k[e] == c);
                                    assert(branch_map(**sb).contains_key(k));
                                    assert(branch_map(**sb)[k] == head_map(sb.child_table@[k[e]])[k]);
                                }
                                assert forall|j: int| 0 <= j < pre.len() implies (#[trigger] pre[j]).key != c by {
                                    assert(slot_done(sl, i as int, pre[j].key));
                                    let l = choose|l: int| 0 <= l < i && sl[l] is Some && (#[trigger] sl[l])->0.key == pre[j].key;
                                    assert(sl[l]->0.key != sl[i as int]->0.key);
                                }
                            }
                            results.push(h);
                            pushed = true;
                        },
                    }
                },
                None => {
                    proof {
                        assert forall|x: u8| slot_done(sl, i + 1, x) implies slot_done(sl, i as int, x) by {
                            let l = choose|l: int| 0 <= l < i + 1 && sl[l] is Some && (#[trigger] sl[l])->0.key == x;
                            assert(l != i);
                        }
                    }
                },
            }
            proof {
                let rs = results@;
                if pushed {
                    assert(rs.drop_last() =~= pre);
                    assert forall|j: int| 0 <= j < rs.len() implies wf_child(#[trigger] rs[j], e) by {
                        if j < pre.len() {
                            assert(rs[j] == pre[j]);
                        }
                    }
                    assert forall|j: int, k: Seq<u8>|
                        0 <= j < rs.len() && #[trigger] head_map(rs[j]).contains_key(k) implies agrees(k, scl, 0, e) by {
                        if j < pre.len() {
                            assert(rs[j] == pre[j]);
                        }
                    }
                    assert(siblings(rs, e, scl));
                } else {
                    assert(rs =~= pre);
                }
                assert forall|j: int| 0 <= j < rs.len() implies slot_done(sl, i + 1, #[trigger] rs[j].key) by {
                    if j < pre.len() {
                        assert(rs[j] == pre[j]);
                        let l = choose|l: int| 0 <= l < i && sl[l] is Some && (#[trigger] sl[l])->0.key == pre[j].key;
                    } else {
                        assert(sl[i as int] is Some && sl[i as int]->0.key == rs[j].key);
                    }
                }
                assert forall|k: Seq<u8>| #[trigger] heads_map(rs).contains_key(k) <==> (sm.contains_key(k) && !om.contains_key(k)
                    && slot_done(sl, i + 1, k[e])) by {
                    if sm.contains_key(k) && !om.contains_key(k) && slot_done(sl, i + 1, k[e]) {
                        let l = choose|l: int| 0 <= l < i + 1 && sl[l] is Some && (#[trigger] sl[l])->0.key == k[e];
                        if l < i {
                            assert(slot_done(sl, i as int, k[e]));
                            assert(heads_map(pre).contains_key(k));
                        } else {
                            assert(sl[i as int] is Some);
                            if pushed {
                                assert(heads_map(rs) == heads_map(rs.drop_last()).union_prefer_right(head_map(rs.last())));
                                assert(head_map(rs.last()).contains_key(k));
                            }
                        }
                    }
                    if heads_map(rs).contains_key(k) && !heads_map(pre).contains_key(k) {
                        assert(pushed);
                    }
                    if heads_map(pre).contains_key(k) {
                        let l = choose|l: int| 0 <= l < i && sl[l] is Some && (#[trigger] sl[l])->0.key == k[e];
                        assert(slot_done(sl, i + 1, k[e]));
                    }
                }
                assert forall|k: Seq<u8>| #[trigger] heads_map(rs).contains_key(k) implies heads_map(rs)[k] == sm[k] by {
                    if pushed {
                        assert(heads_map(rs) == heads_map(rs.drop_last()).union_prefer_right(head_map(rs.last())));
                        if head_map(rs.last()).contains_key(k) {
                            assert(head_map(rs.last())[k] == sm[k]);
                        } else {
                            assert(heads_map(pre).contains_key(k));
                        }
                    }
                }
            }
            i = i + 1;
        }
        proof {
            lemma_branch_slots(**sb);
            assert(heads_map(results@) =~= want) by {
                assert forall|k: Seq<u8>| #[trigger] want.contains_key(k) implies heads_map(results@).contains_key(k) by {
                    assert(sb.child_table@.contains_key(k[e]));
                }
            }
            assert(want.dom().subset_of(sm.dom()));
            vstd::set_lib::lemma_len_subset(want.dom(), sm.dom());
        }
        let r = Head::from_children(self_depth, results, Ghost(scl));
        proof {
            if r is Some {
                let h = r->0;
                lemma_childleaf_in(h, e);
                lemma_wf_depth(h, e, at_depth as int);
            }
        }
        r
    }
}

} // verus!
