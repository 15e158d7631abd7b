//! The nodes of a PATCH: leaves holding a key and its value, and branches
//! holding a byte table of child heads. Keys are handled in tree order here.
use siphasher::sip128::Hasher128;
use vstd::prelude::*;

use crate::patch::bytetable::{ByteEntry, ByteTable};

verus! {

/// The key used for hashing leaf keys.
pub open spec fn spec_sip_key() -> Seq<u8> {
    seq![0x54u8, 0x52, 0x49, 0x42, 0x4C, 0x45, 0x53, 0x50, 0x41, 0x54, 0x43, 0x48, 0x4B, 0x45, 0x59, 0x31]
}

/// Returns the key used for hashing leaf keys.
pub fn sip_key() -> (r: [u8; 16])
    ensures
        r@ == spec_sip_key(),
{
    let r: [u8; 16] = [0x54u8, 0x52, 0x49, 0x42, 0x4C, 0x45, 0x53, 0x50, 0x41, 0x54, 0x43, 0x48, 0x4B, 0x45, 0x59, 0x31];
    assert(r@ =~= spec_sip_key());
    r
}

/// The SipHash 2-4 128-bit digest of `data` under `sip_key`.
pub uninterp spec fn spec_sip_hash128(sip_key: Seq<u8>, data: Seq<u8>) -> u128;

/// Calls `siphasher::sip128::SipHasher24::new_with_key(sip_key).hash(data)`.
/// The contract claims only that the digest is a function of the key and the
/// data; nothing is said about its value.
#[verifier::external_body]
fn sip_hash128(sip_key: &[u8; 16], data: &[u8]) -> (r: u128)
    ensures
        r == spec_sip_hash128(sip_key@, data@),
{
    siphasher::sip128::SipHasher24::new_with_key(sip_key).hash(data).into()
}

/// The hash a leaf with the given key carries.
pub open spec fn spec_leaf_hash(key: Seq<u8>) -> u128 {
    spec_sip_hash128(spec_sip_key(), key)
}

/// Computes the hash of a leaf key.
pub fn leaf_hash<const KEY_LEN: usize>(key: &[u8; KEY_LEN]) -> (r: u128)
    ensures
        r == spec_leaf_hash(key@),
{
    let sk = sip_key();
    sip_hash128(&sk, key.as_slice())
}

/// `a` and `b` agree on the positions `lo..hi`.
pub open spec fn agrees(a: Seq<u8>, b: Seq<u8>, lo: int, hi: int) -> bool {
    forall|i: int| lo <= i < hi ==> #[trigger] a[i] == b[i]
}

/// A leaf: a key, its hash and the value stored under it.
pub struct Leaf<const KEY_LEN: usize, V> {
    pub key: [u8; KEY_LEN],
    pub hash: u128,
    pub value: V,
}

/// A branch: all keys below it agree up to `end_depth` (the bytes of
/// `childleaf`) and its children are keyed by the byte at `end_depth`.
pub struct Branch<const KEY_LEN: usize, V> {
    pub end_depth: usize,
    pub childleaf: [u8; KEY_LEN],
    pub leaf_count: u64,
    pub hash: u128,
    pub child_table: ByteTable<Head<KEY_LEN, V>>,
}

/// The body of a head.
pub enum Body<const KEY_LEN: usize, V> {
    Leaf(Box<Leaf<KEY_LEN, V>>),
    Branch(Box<Branch<KEY_LEN, V>>),
}

/// A node together with the byte under which it sits in its parent.
pub struct Head<const KEY_LEN: usize, V> {
    pub key: u8,
    pub body: Body<KEY_LEN, V>,
}

impl<const KEY_LEN: usize, V> ByteEntry for Head<KEY_LEN, V> {
    open spec fn spec_key(&self) -> u8 {
        self.key
    }

    fn key(&self) -> (r: u8) {
        self.key
    }
}

/// The keys (tree ordered) and values stored below a body.
pub open spec fn body_map<const KEY_LEN: usize, V>(b: Body<KEY_LEN, V>) -> Map<Seq<u8>, V>
    decreases b, 1int,
{
    match b {
        Body::Leaf(l) => Map::empty().insert(l.key@, l.value),
        Body::Branch(br) => slots_map(br.child_table.slots@, br.child_table.slots@.len() as int),
    }
}

/// The keys and values below the children in slots `0..i`.
pub open spec fn slots_map<const KEY_LEN: usize, V>(s: Seq<Option<Head<KEY_LEN, V>>>, i: int) -> Map<Seq<u8>, V>
    decreases s, i,
{
    if i <= 0 || i > s.len() {
        Map::empty()
    } else {
        match s[i - 1] {
            Some(h) => slots_map(s, i - 1).union_prefer_right(body_map(h.body)),
            None => slots_map(s, i - 1),
        }
    }
}

/// The number of branch levels below a body.
pub open spec fn body_height<const KEY_LEN: usize, V>(b: Body<KEY_LEN, V>) -> nat
    decreases b, 1int,
{
    match b {
        Body::Leaf(_) => 0,
        Body::Branch(br) => 1 + slots_height(br.child_table.slots@, br.child_table.slots@.len() as int),
    }
}

/// The greatest height among the children in slots `0..i`.
pub open spec fn slots_height<const KEY_LEN: usize, V>(s: Seq<Option<Head<KEY_LEN, V>>>, i: int) -> nat
    decreases s, i,
{
    if i <= 0 || i > s.len() {
        0
    } else {
        let rest = slots_height(s, i - 1);
        match s[i - 1] {
            Some(h) => if body_height(h.body) > rest { body_height(h.body) } else { rest },
            None => rest,
        }
    }
}

pub open spec fn head_map<const KEY_LEN: usize, V>(h: Head<KEY_LEN, V>) -> Map<Seq<u8>, V> {
    body_map(h.body)
}

pub open spec fn head_count<const KEY_LEN: usize, V>(h: Head<KEY_LEN, V>) -> int {
    match h.body {
        Body::Leaf(_) => 1,
        Body::Branch(b) => b.leaf_count as int,
    }
}

pub open spec fn head_hash<const KEY_LEN: usize, V>(h: Head<KEY_LEN, V>) -> u128 {
    match h.body {
        Body::Leaf(l) => l.hash,
        Body::Branch(b) => b.hash,
    }
}

pub open spec fn head_childleaf<const KEY_LEN: usize, V>(h: Head<KEY_LEN, V>) -> Seq<u8> {
    match h.body {
        Body::Leaf(l) => l.key@,
        Body::Branch(b) => b.childleaf@,
    }
}

pub open spec fn head_end<const KEY_LEN: usize, V>(h: Head<KEY_LEN, V>) -> int {
    match h.body {
        Body::Leaf(_) => KEY_LEN as int,
        Body::Branch(b) => b.end_depth as int,
    }
}

/// The number of leaves below the children with key bytes below `n`.
pub open spec fn table_count<const KEY_LEN: usize, V>(m: Map<u8, Head<KEY_LEN, V>>, n: int) -> int
    decreases n,
{
    if n <= 0 {
        0
    } else {
        table_count(m, n - 1) + (if m.contains_key((n - 1) as u8) {
            head_count(m[(n - 1) as u8])
        } else {
            0
        })
    }
}

/// The exclusive or of the hashes of the children with key bytes below `n`.
pub open spec fn table_hash<const KEY_LEN: usize, V>(m: Map<u8, Head<KEY_LEN, V>>, n: int) -> u128
    decreases n,
{
    if n <= 0 {
        0
    } else {
        table_hash(m, n - 1) ^ (if m.contains_key((n - 1) as u8) {
            head_hash(m[(n - 1) as u8])
        } else {
            0
        })
    }
}

/// The well-formedness of a body reached at depth `depth`.
pub open spec fn wf_body<const KEY_LEN: usize, V>(b: Body<KEY_LEN, V>, depth: int) -> bool
    decreases b, 1int,
{
    match b {
        Body::Leaf(_) => 0 <= depth <= KEY_LEN,
        Body::Branch(br) => {
            &&& 0 <= depth <= br.end_depth < KEY_LEN
            &&& br.child_table.wf()
            &&& wf_slots(br.child_table.slots@, br.child_table.slots@.len() as int, br.end_depth as int)
            &&& br.leaf_count == table_count(br.child_table@, 256)
            &&& br.leaf_count >= 2
            &&& br.hash == table_hash(br.child_table@, 256)
            &&& body_map(b).contains_key(br.childleaf@)
            &&& forall|k: Seq<u8>|
                #[trigger] body_map(b).contains_key(k) ==> agrees(k, br.childleaf@, 0, br.end_depth as int)
        },
    }
}

/// A child is well formed below a branch ending at `e` when it is well formed
/// itself and all of its keys have its key byte at position `e`.
pub open spec fn wf_child<const KEY_LEN: usize, V>(h: Head<KEY_LEN, V>, e: int) -> bool {
    &&& wf_body(h.body, e)
    &&& forall|k: Seq<u8>| #[trigger] body_map(h.body).contains_key(k) ==> k[e] == h.key
}

/// The keys and values below a branch.
pub open spec fn branch_map<const KEY_LEN: usize, V>(br: Branch<KEY_LEN, V>) -> Map<Seq<u8>, V> {
    slots_map(br.child_table.slots@, br.child_table.slots@.len() as int)
}

/// The invariant of a branch apart from the number of its leaves and its
/// representative leaf: it holds while a child is being replaced.
pub open spec fn wf_branch_core<const KEY_LEN: usize, V>(br: Branch<KEY_LEN, V>) -> bool {
    &&& br.end_depth < KEY_LEN
    &&& br.child_table.wf()
    &&& wf_slots(br.child_table.slots@, br.child_table.slots@.len() as int, br.end_depth as int)
    &&& br.leaf_count == table_count(br.child_table@, 256)
    &&& br.hash == table_hash(br.child_table@, 256)
    &&& forall|k: Seq<u8>| #[trigger] branch_map(br).contains_key(k) ==> agrees(k, br.childleaf@, 0, br.end_depth as int)
}

/// The full invariant of a branch sitting at depth `depth`.
pub proof fn lemma_wf_branch<const KEY_LEN: usize, V>(br: Branch<KEY_LEN, V>, depth: int)
    ensures
        wf_body(Body::Branch(Box::new(br)), depth) <==> (0 <= depth <= br.end_depth && wf_branch_core(br)
            && br.leaf_count >= 2 && branch_map(br).contains_key(br.childleaf@)),
        body_map(Body::Branch(Box::new(br))) == branch_map(br),
{
}

/// The children in slots `0..i` are well formed below a branch ending at `e`.
pub open spec fn wf_slots<const KEY_LEN: usize, V>(s: Seq<Option<Head<KEY_LEN, V>>>, i: int, e: int) -> bool
    decreases s, i,
{
    if i <= 0 || i > s.len() {
        true
    } else {
        wf_slots(s, i - 1, e) && match s[i - 1] {
            Some(h) => wf_body(h.body, e) && forall|k: Seq<u8>|
                #[trigger] body_map(h.body).contains_key(k) ==> k[e] == h.key,
            None => true,
        }
    }
}

proof fn lemma_slots_map<const KEY_LEN: usize, V>(s: Seq<Option<Head<KEY_LEN, V>>>, i: int, k: Seq<u8>)
    requires
        0 <= i <= s.len(),
    ensures
        slots_map(s, i).contains_key(k) <==> exists|j: int|
            0 <= j < i && s[j] is Some && #[trigger] body_map(s[j]->0.body).contains_key(k),
    decreases i,
{
    if i > 0 {
        lemma_slots_map(s, i - 1, k);
        if s[i - 1] is Some && body_map(s[i - 1]->0.body).contains_key(k) {
            assert(0 <= i - 1 < i && s[i - 1] is Some && body_map(s[i - 1]->0.body).contains_key(k));
        }
    }
}

proof fn lemma_slots_map_value<const KEY_LEN: usize, V>(s: Seq<Option<Head<KEY_LEN, V>>>, i: int, k: Seq<u8>, j: int)
    requires
        0 <= j < i <= s.len(),
        s[j] is Some,
        body_map(s[j]->0.body).contains_key(k),
        forall|l: int|
            0 <= l < i && s[l] is Some && #[trigger] body_map(s[l]->0.body).contains_key(k) ==> body_map(
                s[l]->0.body,
            )[k] == body_map(s[j]->0.body)[k],
    ensures
        slots_map(s, i).contains_key(k),
        slots_map(s, i)[k] == body_map(s[j]->0.body)[k],
    decreases i,
{
    lemma_slots_map(s, i, k);
    if s[i - 1] is Some && body_map(s[i - 1]->0.body).contains_key(k) {
    } else {
        lemma_slots_map_value(s, i - 1, k, j);
    }
}

proof fn lemma_wf_slots<const KEY_LEN: usize, V>(s: Seq<Option<Head<KEY_LEN, V>>>, i: int, e: int)
    requires
        0 <= i <= s.len(),
    ensures
        wf_slots(s, i, e) <==> forall|j: int| 0 <= j < i && s[j] is Some ==> #[trigger] wf_child(s[j]->0, e),
    decreases i,
{
    if i > 0 {
        lemma_wf_slots(s, i - 1, e);
        if wf_slots(s, i, e) {
            assert forall|j: int| 0 <= j < i && s[j] is Some implies #[trigger] wf_child(s[j]->0, e) by {
                if j == i - 1 {
                } else {
                }
            }
        }
        if forall|j: int| 0 <= j < i && s[j] is Some ==> #[trigger] wf_child(s[j]->0, e) {
            if s[i - 1] is Some {
                assert(wf_child(s[i - 1]->0, e));
            }
            assert forall|j: int| 0 <= j < i - 1 && s[j] is Some implies #[trigger] wf_child(s[j]->0, e) by {
                assert(wf_child(s[j]->0, e));
            }
        }
    }
}

pub open spec fn wf_head<const KEY_LEN: usize, V>(h: Head<KEY_LEN, V>, depth: int) -> bool {
    wf_body(h.body, depth)
}

/// The keys of a well-formed branch, described through the view of its child
/// table: a key is below the branch iff it is below the child keyed by its byte
/// at the end depth.
pub proof fn lemma_branch_view<const KEY_LEN: usize, V>(br: Branch<KEY_LEN, V>)
    requires
        br.child_table.wf(),
        wf_slots(br.child_table.slots@, br.child_table.slots@.len() as int, br.end_depth as int),
    ensures
        forall|c: u8| #[trigger] br.child_table@.contains_key(c) ==> br.child_table@[c].key == c
            && wf_child(br.child_table@[c], br.end_depth as int),
        forall|k: Seq<u8>|
            #[trigger] branch_map(br).contains_key(k) <==> (br.child_table@.contains_key(
                k[br.end_depth as int],
            ) && body_map(br.child_table@[k[br.end_depth as int]].body).contains_key(k)),
        forall|k: Seq<u8>|
            #[trigger] branch_map(br).contains_key(k) ==> branch_map(br)[k] == body_map(br.child_table@[k[br.end_depth as int]].body)[k],
{
    
    let t = br.child_table;
    let s = t.slots@;
    let n = s.len() as int;
    let e = br.end_depth as int;
    t.lemma_slots();
    lemma_wf_slots(s, n, e);
    assert forall|c: u8| #[trigger] t@.contains_key(c) implies t@[c].key == c && wf_child(t@[c], e) by {
        let j = choose|j: int| 0 <= j < t.spec_len() && t.spec_slot(j) == Some(t@[c]) && t@[c].spec_key() == c;
        assert(s[j] is Some);
        assert(wf_child(s[j]->0, e));
    }
    assert forall|k: Seq<u8>| #[trigger] branch_map(br).contains_key(k) <==> (t@.contains_key(k[e])
        && body_map(t@[k[e]].body).contains_key(k)) by {
        lemma_slots_map(s, n, k);
        if branch_map(br).contains_key(k) {
            let j = choose|j: int| 0 <= j < n && s[j] is Some && #[trigger] body_map(s[j]->0.body).contains_key(k);
            assert(wf_child(s[j]->0, e));
            assert(k[e] == s[j]->0.key);
            assert(t.spec_slot(j) is Some);
        }
        if t@.contains_key(k[e]) && body_map(t@[k[e]].body).contains_key(k) {
            let j = choose|j: int| 0 <= j < t.spec_len() && t.spec_slot(j) == Some(t@[k[e]]) && t@[k[e]].spec_key() == k[e];
            assert(s[j] is Some && body_map(s[j]->0.body).contains_key(k));
        }
    }
    assert forall|k: Seq<u8>| #[trigger] branch_map(br).contains_key(k) implies branch_map(br)[k] == body_map(
        t@[k[e]].body,
    )[k] by {
        lemma_slots_map(s, n, k);
        let j = choose|j: int| 0 <= j < n && s[j] is Some && #[trigger] body_map(s[j]->0.body).contains_key(k);
        assert(wf_child(s[j]->0, e));
        assert(t.spec_slot(j) is Some);
        assert forall|l: int| 0 <= l < n && s[l] is Some && #[trigger] body_map(s[l]->0.body).contains_key(k) implies body_map(
            s[l]->0.body,
        )[k] == body_map(s[j]->0.body)[k] by {
            assert(wf_child(s[l]->0, e));
            assert(t.spec_slot(l) is Some);
            assert(s[l]->0.key == s[j]->0.key);
        }
        lemma_slots_map_value(s, n, k, j);
    }
}

/// Every key below a well-formed body has `KEY_LEN` bytes, and the body holds
/// `head_count` keys.
pub proof fn lemma_body_keys<const KEY_LEN: usize, V>(b: Body<KEY_LEN, V>, depth: int)
    requires
        wf_body(b, depth),
    ensures
        body_map(b).dom().finite(),
        forall|k: Seq<u8>| #[trigger] body_map(b).contains_key(k) ==> k.len() == KEY_LEN,
        body_map(b).dom().len() == head_count(Head { key: 0, body: b }),
    decreases b,
{
    match b {
        Body::Leaf(l) => {
            assert(body_map(b).dom() =~= Set::empty().insert(l.key@));
        },
        Body::Branch(br) => {
            let e = br.end_depth as int;
            let s = br.child_table.slots@;
            lemma_wf_slots(s, s.len() as int, e);
            assert forall|j: int|
                0 <= j < s.len() && s[j] is Some implies #[trigger] keys_ok(s[j]->0) by {
                assert(wf_child(s[j]->0, e));
                lemma_body_keys(s[j]->0.body, e);
            }
            lemma_branch_count(*br, 256);
        },
    }
}

/// The keys below a branch are finite, have `KEY_LEN` bytes and number
/// `leaf_count`.
pub proof fn lemma_branch_keys<const KEY_LEN: usize, V>(br: Branch<KEY_LEN, V>)
    requires
        wf_branch_core(br),
    ensures
        branch_map(br).dom().finite(),
        forall|k: Seq<u8>| #[trigger] branch_map(br).contains_key(k) ==> k.len() == KEY_LEN,
        branch_map(br).dom().len() == br.leaf_count,
{
    let e = br.end_depth as int;
    let s = br.child_table.slots@;
    lemma_wf_slots(s, s.len() as int, e);
    assert forall|j: int| 0 <= j < s.len() && s[j] is Some implies #[trigger] keys_ok(s[j]->0) by {
        assert(wf_child(s[j]->0, e));
        lemma_body_keys(s[j]->0.body, e);
    }
    lemma_branch_count(br, 256);
}

/// The keys of a head are finite, have `KEY_LEN` bytes and number `head_count`.
pub open spec fn keys_ok<const KEY_LEN: usize, V>(h: Head<KEY_LEN, V>) -> bool {
    &&& body_map(h.body).dom().finite()
    &&& forall|k: Seq<u8>| #[trigger] body_map(h.body).contains_key(k) ==> k.len() == KEY_LEN
    &&& body_map(h.body).dom().len() == head_count(h)
}

/// The keys of the children with key bytes below `n`.
pub open spec fn branch_keys_below<const KEY_LEN: usize, V>(br: Branch<KEY_LEN, V>, n: int) -> Set<Seq<u8>> {
    Set::new(|k: Seq<u8>| branch_map(br).contains_key(k) && (k[br.end_depth as int] as int) < n)
}

proof fn lemma_branch_count<const KEY_LEN: usize, V>(br: Branch<KEY_LEN, V>, n: int)
    requires
        wf_branch_core(br),
        0 <= n <= 256,
        forall|j: int|
            0 <= j < br.child_table.slots@.len() && br.child_table.slots@[j] is Some ==> #[trigger] keys_ok(
                br.child_table.slots@[j]->0,
            ),
    ensures
        branch_keys_below(br, n).finite(),
        branch_keys_below(br, n).len() == table_count(br.child_table@, n),
        forall|k: Seq<u8>| #[trigger] branch_map(br).contains_key(k) ==> k.len() == KEY_LEN,
        n == 256 ==> branch_keys_below(br, n) == branch_map(br).dom(),
    decreases n,
{
    let t = br.child_table;
    let e = br.end_depth as int;
    lemma_branch_view(br);
    t.lemma_slots();
    assert forall|c: u8| #[trigger] t@.contains_key(c) implies keys_ok(t@[c]) by {
        let j = choose|j: int| 0 <= j < t.spec_len() && t.spec_slot(j) == Some(t@[c]) && t@[c].spec_key() == c;
        assert(t.slots@[j] is Some);
        assert(keys_ok(t.slots@[j]->0));
    }
    assert forall|k: Seq<u8>| #[trigger] branch_map(br).contains_key(k) implies k.len() == KEY_LEN by {
        assert(body_map(t@[k[e]].body).contains_key(k));
        assert(keys_ok(t@[k[e]]));
    }
    if n == 0 {
        assert(branch_keys_below(br, 0) =~= Set::empty());
    } else {
        lemma_branch_count(br, n - 1);
        let c = (n - 1) as u8;
        if t@.contains_key(c) {
            let child = body_map(t@[c].body).dom();
            assert(keys_ok(t@[c]));
            assert(wf_child(t@[c], e));
            assert(branch_keys_below(br, n) =~= branch_keys_below(br, n - 1).union(child)) by {
                assert forall|k: Seq<u8>| #[trigger] child.contains(k) implies branch_keys_below(br, n).contains(k) by {
                    assert(k[e] == c);
                }
            }
            assert(branch_keys_below(br, n - 1).disjoint(child)) by {
                assert forall|k: Seq<u8>| #[trigger] child.contains(k) implies !branch_keys_below(br, n - 1).contains(k) by {
                    assert(k[e] == c);
                }
            }
            vstd::set_lib::lemma_set_disjoint_lens(branch_keys_below(br, n - 1), child);
        } else {
            assert(branch_keys_below(br, n) =~= branch_keys_below(br, n - 1)) by {
                assert forall|k: Seq<u8>| #[trigger] branch_keys_below(br, n).contains(k) implies (k[e] as int) < n - 1 by {
                    if k[e] as int == n - 1 {
                        assert(t@.contains_key(k[e]));
                    }
                }
            }
        }
    }
    if n == 256 {
        assert(branch_keys_below(br, n) =~= branch_map(br).dom());
    }
}


/// What the child keyed by `c` adds to `table_count(m, n)`.
pub open spec fn count_at<const KEY_LEN: usize, V>(m: Map<u8, Head<KEY_LEN, V>>, c: u8, n: int) -> int {
    if (c as int) < n && m.contains_key(c) {
        head_count(m[c])
    } else {
        0
    }
}

/// What the child keyed by `c` adds to `table_hash(m, n)`.
pub open spec fn hash_at<const KEY_LEN: usize, V>(m: Map<u8, Head<KEY_LEN, V>>, c: u8, n: int) -> u128 {
    if (c as int) < n && m.contains_key(c) {
        head_hash(m[c])
    } else {
        0
    }
}

proof fn lemma_xor_swap(a: u128, x: u128, h: u128)
    ensures
        (a ^ x) ^ h == (a ^ h) ^ x,
        (a ^ x) ^ x == a,
        a ^ 0 == a,
{
    assert((a ^ x) ^ h == (a ^ h) ^ x) by (bit_vector);
    assert((a ^ x) ^ x == a) by (bit_vector);
    assert(a ^ 0 == a) by (bit_vector);
}

/// Two tables that differ at most in the child keyed by `c` have counts and
/// hashes that differ only by that child.
proof fn lemma_table_differ<const KEY_LEN: usize, V>(m1: Map<u8, Head<KEY_LEN, V>>, m2: Map<u8, Head<KEY_LEN, V>>, c: u8, n: int)
    requires
        0 <= n <= 256,
        forall|d: u8| d != c ==> (m1.contains_key(d) <==> m2.contains_key(d)),
        forall|d: u8| d != c && #[trigger] m1.contains_key(d) ==> m1[d] == m2[d],
    ensures
        table_count(m1, n) - count_at(m1, c, n) == table_count(m2, n) - count_at(m2, c, n),
        table_hash(m1, n) ^ hash_at(m1, c, n) == table_hash(m2, n) ^ hash_at(m2, c, n),
    decreases n,
{
    if n > 0 {
        lemma_table_differ(m1, m2, c, n - 1);
        let d = (n - 1) as u8;
        let a1 = table_hash(m1, n - 1);
        let a2 = table_hash(m2, n - 1);
        let x1 = if m1.contains_key(d) { head_hash(m1[d]) } else { 0 };
        let x2 = if m2.contains_key(d) { head_hash(m2[d]) } else { 0 };
        if d != c {
            assert(x1 == x2);
            lemma_xor_swap(a1, x1, hash_at(m1, c, n));
            lemma_xor_swap(a2, x2, hash_at(m2, c, n));
        } else {
            lemma_xor_swap(a1, x1, x1);
            lemma_xor_swap(a2, x2, x2);
            lemma_xor_swap(a1, 0, 0);
            lemma_xor_swap(a2, 0, 0);
        }
    }
}

/// Counts of heads are never negative, and a table's count covers each child.
proof fn lemma_table_count_nonneg<const KEY_LEN: usize, V>(m: Map<u8, Head<KEY_LEN, V>>, n: int)
    requires
        0 <= n <= 256,
    ensures
        table_count(m, n) >= 0,
        forall|c: u8| #[trigger] count_at(m, c, n) <= table_count(m, n),
    decreases n,
{
    if n > 0 {
        lemma_table_count_nonneg(m, n - 1);
        assert forall|c: u8| #[trigger] count_at(m, c, n) <= table_count(m, n) by {
            if (c as int) < n - 1 {
                assert(count_at(m, c, n) == count_at(m, c, n - 1));
            }
        }
    }
}

/// Replacing or adding the child keyed by `c`.
pub proof fn lemma_table_insert<const KEY_LEN: usize, V>(m: Map<u8, Head<KEY_LEN, V>>, c: u8, h: Head<KEY_LEN, V>)
    ensures
        table_count(m.insert(c, h), 256) == table_count(m.remove(c), 256) + head_count(h),
        table_hash(m.insert(c, h), 256) == table_hash(m.remove(c), 256) ^ head_hash(h),
        m.contains_key(c) ==> table_count(m, 256) == table_count(m.remove(c), 256) + head_count(m[c]),
        m.contains_key(c) ==> table_hash(m, 256) == table_hash(m.remove(c), 256) ^ head_hash(m[c]),
        table_count(m.remove(c), 256) >= 0,
{
    lemma_table_differ(m.remove(c), m.insert(c, h), c, 256);
    lemma_table_differ(m.remove(c), m, c, 256);
    lemma_table_count_nonneg(m.remove(c), 256);
    lemma_xor_swap(table_hash(m.remove(c), 256), 0, 0);
    lemma_xor_swap(table_hash(m.insert(c, h), 256), head_hash(h), head_hash(h));
    if m.contains_key(c) {
        lemma_xor_swap(table_hash(m, 256), head_hash(m[c]), head_hash(m[c]));
    }
}


/// The children of a table, described through its view, are well formed.
proof fn lemma_children_wf<const KEY_LEN: usize, V>(t: ByteTable<Head<KEY_LEN, V>>, e: int)
    requires
        t.wf(),
        forall|c: u8| #[trigger] t@.contains_key(c) ==> wf_child(t@[c], e),
    ensures
        wf_slots(t.slots@, t.slots@.len() as int, e),
{
    t.lemma_slots();
    lemma_wf_slots(t.slots@, t.slots@.len() as int, e);
    assert forall|j: int| 0 <= j < t.slots@.len() && t.slots@[j] is Some implies #[trigger] wf_child(t.slots@[j]->0, e) by {
        assert(t.spec_slot(j) is Some);
        assert(t@.contains_key(t.slots@[j]->0.spec_key()));
    }
}


/// The representative key of a well-formed head is one of its keys.
pub proof fn lemma_childleaf_in<const KEY_LEN: usize, V>(h: Head<KEY_LEN, V>, depth: int)
    requires
        wf_head(h, depth),
    ensures
        head_map(h).contains_key(head_childleaf(h)),
        head_count(h) >= 1,
        head_end(h) <= KEY_LEN,
        depth <= head_end(h),
        forall|k: Seq<u8>| #[trigger] head_map(h).contains_key(k) ==> agrees(k, head_childleaf(h), 0, head_end(h)),
{
    match h.body {
        Body::Leaf(l) => {
            assert forall|k: Seq<u8>| #[trigger] head_map(h).contains_key(k) implies agrees(k, head_childleaf(h), 0, head_end(h)) by {
                assert(k == l.key@);
            }
        },
        Body::Branch(br) => {
            lemma_wf_branch(*br, depth);
        },
    }
}

/// A head that is well formed at some depth is well formed at every smaller
/// depth and at every depth up to its end.
pub proof fn lemma_wf_depth<const KEY_LEN: usize, V>(h: Head<KEY_LEN, V>, d1: int, d2: int)
    requires
        wf_head(h, d1),
        0 <= d2 <= head_end(h),
    ensures
        wf_head(h, d2),
{
    match h.body {
        Body::Leaf(_) => {},
        Body::Branch(br) => {
            lemma_wf_branch(*br, d1);
            lemma_wf_branch(*br, d2);
        },
    }
}

/// An empty table counts no leaves and hashes to zero.
pub proof fn lemma_table_empty<const KEY_LEN: usize, V>(n: int)
    requires
        0 <= n <= 256,
    ensures
        table_count(Map::<u8, Head<KEY_LEN, V>>::empty(), n) == 0,
        table_hash(Map::<u8, Head<KEY_LEN, V>>::empty(), n) == 0,
    decreases n,
{
    if n > 0 {
        lemma_table_empty::<KEY_LEN, V>(n - 1);
        lemma_xor_swap(0, 0, 0);
    }
}

impl<const KEY_LEN: usize, V> Head<KEY_LEN, V> {
    /// The number of leaves below this head.
    pub fn count(&self) -> (r: u64)
        ensures
            r == head_count(*self),
    {
        match &self.body {
            Body::Leaf(_) => 1,
            Body::Branch(b) => b.leaf_count,
        }
    }

    /// The hash of the keys below this head.
    pub fn hash(&self) -> (r: u128)
        ensures
            r == head_hash(*self),
    {
        match &self.body {
            Body::Leaf(l) => l.hash,
            Body::Branch(b) => b.hash,
        }
    }

    /// The depth up to which all keys below this head agree.
    pub fn end_depth(&self) -> (r: usize)
        ensures
            r == head_end(*self),
    {
        match &self.body {
            Body::Leaf(_) => KEY_LEN,
            Body::Branch(b) => b.end_depth,
        }
    }

    /// A key below this head, representing all of them up to the end depth.
    pub fn childleaf_key(&self) -> (r: &[u8; KEY_LEN])
        ensures
            r@ == head_childleaf(*self),
    {
        match &self.body {
            Body::Leaf(l) => &l.key,
            Body::Branch(b) => &b.childleaf,
        }
    }

    /// The same node under another key byte.
    pub fn with_key(self, key: u8) -> (r: Self)
        ensures
            r.key == key,
            r.body == self.body,
    {
        Head { key, body: self.body }
    }

    /// The same node keyed by the byte of its keys at `new_start_depth`.
    pub fn with_start(self, new_start_depth: usize) -> (r: Self)
        requires
            new_start_depth < KEY_LEN,
        ensures
            r.key == head_childleaf(self)[new_start_depth as int],
            r.body == self.body,
    {
        let key = self.childleaf_key()[new_start_depth];
        self.with_key(key)
    }

    /// The first depth in `start_depth..limit` at which the representative
    /// keys of `self` and `other` differ, with the two bytes there; `limit`
    /// is the smaller of the two end depths.
    pub fn first_divergence(&self, other: &Self, start_depth: usize) -> (r: Option<(usize, u8, u8)>)
        requires
            head_end(*self) <= KEY_LEN,
            head_end(*other) <= KEY_LEN,
        ensures
            ({
                let limit = if head_end(*self) < head_end(*other) { head_end(*self) } else { head_end(*other) };
                match r {
                    Some((d, a, b)) => start_depth <= d < limit && a == head_childleaf(*self)[d as int]
                        && b == head_childleaf(*other)[d as int] && a != b
                        && agrees(head_childleaf(*self), head_childleaf(*other), start_depth as int, d as int),
                    None => agrees(head_childleaf(*self), head_childleaf(*other), start_depth as int, limit),
                }
            }),
    {
        let a_end = self.end_depth();
        let b_end = other.end_depth();
        let limit = if a_end < b_end { a_end } else { b_end };
        let this_key = self.childleaf_key();
        let other_key = other.childleaf_key();
        let mut depth = start_depth;
        while depth < limit
            invariant
                limit <= KEY_LEN,
                limit == (if head_end(*self) < head_end(*other) { head_end(*self) } else { head_end(*other) }),
                this_key@ == head_childleaf(*self),
                other_key@ == head_childleaf(*other),
                this_key@.len() == KEY_LEN,
                other_key@.len() == KEY_LEN,
                start_depth <= depth,
                agrees(this_key@, other_key@, start_depth as int, depth as int),
            decreases limit - depth,
        {
            let a = this_key[depth];
            let b = other_key[depth];
            if a != b {
                return Some((depth, a, b));
            }
            depth = depth + 1;
        }
        None
    }
}


impl<const KEY_LEN: usize, V> Branch<KEY_LEN, V> {
    /// A branch ending at `end_depth` without children yet.
    pub fn empty(end_depth: usize, childleaf: [u8; KEY_LEN]) -> (r: Self)
        requires
            end_depth < KEY_LEN,
        ensures
            wf_branch_core(r),
            r.end_depth == end_depth,
            r.childleaf == childleaf,
            r.leaf_count == 0,
            r.child_table@ == Map::<u8, Head<KEY_LEN, V>>::empty(),
            branch_map(r) == Map::<Seq<u8>, V>::empty(),
    {
        let child_table: ByteTable<Head<KEY_LEN, V>> = ByteTable::new(2);
        let r = Branch { end_depth, childleaf, leaf_count: 0, hash: 0, child_table };
        proof {
            lemma_table_empty::<KEY_LEN, V>(256);
            lemma_children_wf(r.child_table, end_depth as int);
            lemma_branch_view(r);
            assert(branch_map(r) =~= Map::<Seq<u8>, V>::empty());
        }
        r
    }

    /// Adds a child under a key byte that no child uses yet.
    pub fn insert_child(&mut self, child: Head<KEY_LEN, V>)
        requires
            wf_branch_core(*old(self)),
            !old(self).child_table@.contains_key(child.key),
            wf_child(child, old(self).end_depth as int),
            forall|k: Seq<u8>|
                #[trigger] head_map(child).contains_key(k) ==> agrees(k, old(self).childleaf@, 0, old(self).end_depth as int),
            old(self).leaf_count + head_count(child) <= u64::MAX,
        ensures
            wf_branch_core(*final(self)),
            final(self).end_depth == old(self).end_depth,
            final(self).childleaf == old(self).childleaf,
            final(self).leaf_count == old(self).leaf_count + head_count(child),
            final(self).child_table@ == old(self).child_table@.insert(child.key, child),
            branch_map(*final(self)) == branch_map(*old(self)).union_prefer_right(head_map(child)),
    {
        let ghost old_br = *self;
        let ghost e = self.end_depth as int;
        let ghost target = self.child_table@.insert(child.key, child);
        proof {
            lemma_table_insert(self.child_table@, child.key, child);
            assert(self.child_table@.remove(child.key) =~= self.child_table@);
            lemma_branch_view(old_br);
        }
        self.leaf_count = self.leaf_count + child.count();
        self.hash = self.hash ^ child.hash();
        let ghost mid = *self;
        let mut inserted = child;
        loop
            invariant_except_break
                !self.child_table@.contains_key(inserted.key),
                self.child_table@.insert(inserted.key, inserted) == target,
            invariant
                self.child_table.wf(),
                self.end_depth == mid.end_depth,
                self.childleaf == mid.childleaf,
                self.leaf_count == mid.leaf_count,
                self.hash == mid.hash,
            ensures
                self.child_table.wf(),
                self.child_table@ == target,
            decreases 256 - self.child_table.spec_len(),
        {
            proof {
                self.child_table.lemma_slots();
            }
            match self.child_table.table_insert(inserted) {
                None => {
                    break;
                },
                Some(displaced) => {
                    inserted = displaced;
                    proof {
                        self.child_table.lemma_slots();
                    }
                    let mut table: ByteTable<Head<KEY_LEN, V>> = ByteTable::new(2);
                    std::mem::swap(&mut table, &mut self.child_table);
                    self.child_table = table.table_grow();
                },
            }
        }
        proof {
            let t = self.child_table;
            assert(t@ == target);
            assert forall|c: u8| #[trigger] t@.contains_key(c) implies wf_child(t@[c], e) by {
                if c != child.key {
                    assert(old_br.child_table@.contains_key(c));
                }
            }
            lemma_children_wf(t, e);
            lemma_branch_view(*self);
            let m = branch_map(*self);
            let u = branch_map(old_br).union_prefer_right(head_map(child));
            assert forall|k: Seq<u8>| #[trigger] m.contains_key(k) <==> u.contains_key(k) by {
                if head_map(child).contains_key(k) {
                    assert(k[e] == child.key);
                }
                if branch_map(old_br).contains_key(k) {
                    assert(k[e] != child.key);
                }
            }
            assert forall|k: Seq<u8>| #[trigger] m.contains_key(k) implies m[k] == u[k] by {
                if head_map(child).contains_key(k) {
                    assert(k[e] == child.key);
                } else {
                    assert(branch_map(old_br).contains_key(k));
                    assert(k[e] != child.key);
                }
            }
            assert(m =~= u);
        }
    }

    /// Removes and returns the child under key byte `key`, if any.
    pub fn take_child(&mut self, key: u8) -> (r: Option<Head<KEY_LEN, V>>)
        requires
            wf_branch_core(*old(self)),
        ensures
            wf_branch_core(*final(self)),
            final(self).end_depth == old(self).end_depth,
            final(self).childleaf == old(self).childleaf,
            final(self).child_table@ == old(self).child_table@.remove(key),
            r is None ==> !old(self).child_table@.contains_key(key) && final(self).leaf_count == old(self).leaf_count,
            r matches Some(h) ==> old(self).child_table@.contains_key(key) && old(self).child_table@[key] == h
                && wf_child(h, old(self).end_depth as int)
                && final(self).leaf_count == old(self).leaf_count - head_count(h)
                && head_count(h) <= old(self).leaf_count,
            forall|k: Seq<u8>| #[trigger] branch_map(*final(self)).contains_key(k) <==> (branch_map(*old(self)).contains_key(k)
                && k[old(self).end_depth as int] != key),
            forall|k: Seq<u8>| #[trigger] branch_map(*final(self)).contains_key(k) ==> branch_map(*final(self))[k]
                == branch_map(*old(self))[k],
            r matches Some(h) ==> forall|k: Seq<u8>|
                #[trigger] head_map(h).contains_key(k) <==> (branch_map(*old(self)).contains_key(k)
                    && k[old(self).end_depth as int] == key),
            r matches Some(h) ==> forall|k: Seq<u8>|
                #[trigger] head_map(h).contains_key(k) ==> head_map(h)[k] == branch_map(*old(self))[k],
    {
        let ghost old_br = *self;
        let ghost e = self.end_depth as int;
        proof {
            lemma_branch_view(old_br);
            lemma_table_insert(self.child_table@, key, Head { key, body: Body::Leaf(Box::new(Leaf { key: self.childleaf, hash: 0, value: arbitrary() })) });
        }
        let r = self.child_table.table_take(key);
        match &r {
            Some(h) => {
                self.leaf_count = self.leaf_count - h.count();
                self.hash = self.hash ^ h.hash();
            },
            None => {},
        }
        proof {
            let t = self.child_table;
            if r is Some {
                lemma_xor_swap(table_hash(t@, 256), head_hash(r->0), head_hash(r->0));
            } else {
                assert(t@ =~= old_br.child_table@);
            }
            assert forall|c: u8| #[trigger] t@.contains_key(c) implies wf_child(t@[c], e) by {
                assert(old_br.child_table@.contains_key(c));
            }
            lemma_children_wf(t, e);
            lemma_branch_view(*self);
            assert forall|k: Seq<u8>| #[trigger] branch_map(*self).contains_key(k) <==> (branch_map(old_br).contains_key(k)
                && k[e] != key) by {
                if branch_map(old_br).contains_key(k) && k[e] != key {
                    assert(t@.contains_key(k[e]));
                }
            }
            assert forall|k: Seq<u8>| #[trigger] branch_map(*self).contains_key(k) implies branch_map(*self)[k]
                == branch_map(old_br)[k] by {
                assert(t@.contains_key(k[e]));
                assert(branch_map(old_br).contains_key(k));
            }
            if r is Some {
                let h = r->0;
                assert forall|k: Seq<u8>| #[trigger] head_map(h).contains_key(k) <==> (branch_map(old_br).contains_key(k)
                    && k[e] == key) by {
                    if head_map(h).contains_key(k) {
                        assert(wf_child(h, e));
                        assert(k[e] == key);
                    }
                }
                assert forall|k: Seq<u8>| #[trigger] head_map(h).contains_key(k) implies head_map(h)[k]
                    == branch_map(old_br)[k] by {
                    assert(wf_child(h, e));
                    assert(k[e] == key);
                    assert(branch_map(old_br).contains_key(k));
                }
            }
        }
        r
    }
}


impl<const KEY_LEN: usize, V> Branch<KEY_LEN, V> {
    /// A branch ending at `end_depth` with the two given children, which
    /// sit under distinct key bytes and agree on all bytes before it.
    pub fn new(end_depth: usize, lchild: Head<KEY_LEN, V>, rchild: Head<KEY_LEN, V>) -> (r: Self)
        requires
            end_depth < KEY_LEN,
            lchild.key != rchild.key,
            wf_child(lchild, end_depth as int),
            wf_child(rchild, end_depth as int),
            forall|k: Seq<u8>|
                #[trigger] head_map(lchild).contains_key(k) ==> agrees(k, head_childleaf(lchild), 0, end_depth as int),
            forall|k: Seq<u8>|
                #[trigger] head_map(rchild).contains_key(k) ==> agrees(k, head_childleaf(lchild), 0, end_depth as int),
            head_count(lchild) + head_count(rchild) <= u64::MAX,
        ensures
            wf_branch_core(r),
            r.end_depth == end_depth,
            r.childleaf@ == head_childleaf(lchild),
            r.leaf_count == head_count(lchild) + head_count(rchild),
            r.leaf_count >= 2,
            branch_map(r).contains_key(r.childleaf@),
            branch_map(r) == head_map(lchild).union_prefer_right(head_map(rchild)),
            r.child_table@ == Map::<u8, Head<KEY_LEN, V>>::empty().insert(lchild.key, lchild).insert(rchild.key, rchild),
    {
        proof {
            lemma_childleaf_in(lchild, end_depth as int);
            lemma_childleaf_in(rchild, end_depth as int);
        }
        let childleaf: [u8; KEY_LEN] = *lchild.childleaf_key();
        let mut r = Branch::empty(end_depth, childleaf);
        proof {
            assert(Map::<Seq<u8>, V>::empty().union_prefer_right(head_map(lchild)) =~= head_map(lchild));
        }
        r.insert_child(lchild);
        r.insert_child(rchild);
        r
    }
}

/// The map below a head after `key` was put in with `value`, unless it was
/// there already.
pub open spec fn map_with<V>(m: Map<Seq<u8>, V>, key: Seq<u8>, value: V) -> Map<Seq<u8>, V> {
    if m.contains_key(key) {
        m
    } else {
        m.insert(key, value)
    }
}

/// The value of a leaf head.
pub open spec fn leaf_value<const KEY_LEN: usize, V>(h: Head<KEY_LEN, V>) -> V
    recommends
        h.body is Leaf,
{
    match h.body {
        Body::Leaf(l) => l.value,
        Body::Branch(_) => arbitrary(),
    }
}

impl<const KEY_LEN: usize, V> Head<KEY_LEN, V> {
    /// Adds the key of `leaf` with its value below `this`, which sits at
    /// `start_depth`; a key that is there already keeps its value.
    pub fn insert_leaf(this: Self, leaf: Self, start_depth: usize) -> (r: Self)
        requires
            wf_head(this, start_depth as int),
            leaf.body is Leaf,
            agrees(head_childleaf(this), head_childleaf(leaf), 0, start_depth as int),
            head_count(this) < u64::MAX,
        ensures
            wf_head(r, start_depth as int),
            r.key == this.key,
            head_map(r) == map_with(head_map(this), head_childleaf(leaf), leaf_value(leaf)),
            head_count(r) == head_count(this) + (if head_map(this).contains_key(head_childleaf(leaf)) { 0int } else { 1int }),
            head_end(r) >= start_depth,
            agrees(head_childleaf(r), head_childleaf(this), 0, start_depth as int),
        decreases body_height(this.body),
    {
        let ghost lk = head_childleaf(leaf);
        let ghost lv = leaf_value(leaf);
        proof {
            lemma_childleaf_in(this, start_depth as int);
            lemma_body_keys(this.body, start_depth as int);
            lemma_body_keys(leaf.body, start_depth as int);
        }
        match this.first_divergence(&leaf, start_depth) {
            Some((depth, this_byte_key, leaf_byte_key)) => {
                let ghost tm = head_map(this);
                let ghost tcl = head_childleaf(this);
                let old_key = this.key;
                proof {
                    lemma_wf_depth(this, start_depth as int, depth as int);
                    assert forall|k: Seq<u8>| #[trigger] tm.contains_key(k) implies k[depth as int] == this_byte_key by {
                        assert(agrees(k, tcl, 0, head_end(this)));
                    }
                    assert(!tm.contains_key(lk)) by {
                        if tm.contains_key(lk) {
                            assert(agrees(lk, tcl, 0, head_end(this)));
                        }
                    }
                    assert forall|k: Seq<u8>| #[trigger] tm.contains_key(k) implies agrees(k, tcl, 0, depth as int) by {
                        assert(agrees(k, tcl, 0, head_end(this)));
                    }
                    assert forall|k: Seq<u8>| #[trigger] head_map(leaf).contains_key(k) implies agrees(k, tcl, 0, depth as int) by {
                        assert(k == lk);
                        assert forall|i: int| 0 <= i < depth implies #[trigger] k[i] == tcl[i] by {
                            if i < start_depth {
                                assert(tcl[i] == lk[i]);
                            } else {
                                assert(tcl[i] == lk[i]);
                            }
                        }
                    }
                    assert forall|k: Seq<u8>| #[trigger] head_map(leaf).contains_key(k) implies k[depth as int] == leaf_byte_key by {
                        assert(k == lk);
                    }
                }
                let l = this.with_key(this_byte_key);
                let rr = leaf.with_key(leaf_byte_key);
                let br = Branch::new(depth, l, rr);
                proof {
                    assert(tm.insert(lk, lv) =~= tm.union_prefer_right(head_map(leaf)));
                    lemma_wf_branch(br, start_depth as int);
                    lemma_branch_keys(br);
                }
                Head { key: old_key, body: Body::Branch(Box::new(br)) }
            },
            None => {
                match this.body {
                    Body::Leaf(l) => {
                        let r = Head { key: this.key, body: Body::Leaf(l) };
                        proof {
                            assert(lk =~= head_childleaf(this));
                        }
                        r
                    },
                    Body::Branch(bbox) => {
                        let mut br: Branch<KEY_LEN, V> = *bbox;
                        let ghost old_br = br;
                        let ghost e = br.end_depth as int;
                        let end_depth = br.end_depth;
                        proof {
                            lemma_wf_branch(old_br, start_depth as int);
                            lemma_branch_keys(old_br);
                            lemma_branch_view(old_br);
                            assert(agrees(old_br.childleaf@, lk, 0, e)) by {
                                assert forall|i: int| 0 <= i < e implies #[trigger] old_br.childleaf@[i] == lk[i] by {
                                    if i < start_depth {
                                    } else {
                                    }
                                }
                            }
                        }
                        let inserted = leaf.with_start(end_depth);
                        let c = inserted.key;
                        match br.take_child(c) {
                            Some(old_child) => {
                                proof {
                                    lemma_childleaf_in(old_child, e);
                                    lemma_body_keys(old_child.body, e);
                                    let ocl = head_childleaf(old_child);
                                    assert(branch_map(old_br).contains_key(ocl));
                                    assert(agrees(ocl, old_br.childleaf@, 0, e));
                                    assert(agrees(ocl, lk, 0, e));
                                    assert(ocl[e] == c);
                                    assert(agrees(ocl, lk, 0, e + 1));
                                    vstd::set_lib::lemma_len_subset(head_map(old_child).dom(), branch_map(old_br).dom());
                                    lemma_child_height(old_br, c);
                                }
                                let new_child = Head::insert_leaf(old_child, inserted, end_depth);
                                proof {
                                    lemma_childleaf_in(new_child, e);
                                    assert forall|k: Seq<u8>| #[trigger] head_map(new_child).contains_key(k) implies k[e] == new_child.key
                                        && agrees(k, old_br.childleaf@, 0, e) by {
                                        if k != lk {
                                            assert(head_map(old_child).contains_key(k));
                                            assert(branch_map(old_br).contains_key(k));
                                        }
                                    }
                                }
                                br.insert_child(new_child);
                                proof {
                                    let m = branch_map(br);
                                    let want = map_with(branch_map(old_br), lk, lv);
                                    assert(branch_map(old_br).contains_key(lk) == head_map(old_child).contains_key(lk));
                                    assert forall|k: Seq<u8>| #[trigger] m.contains_key(k) <==> want.contains_key(k) by {
                                        if branch_map(old_br).contains_key(k) && k[e] == c {
                                            assert(head_map(old_child).contains_key(k));
                                        }
                                    }
                                    assert forall|k: Seq<u8>| #[trigger] m.contains_key(k) implies m[k] == want[k] by {
                                        if branch_map(old_br).contains_key(k) && k[e] == c {
                                            assert(head_map(old_child).contains_key(k));
                                        }
                                    }
                                    assert(m =~= want);
                                    lemma_wf_branch(br, start_depth as int);
                                }
                                Head { key: this.key, body: Body::Branch(Box::new(br)) }
                            },
                            None => {
                                proof {
                                    assert(!branch_map(old_br).contains_key(lk)) by {
                                        if branch_map(old_br).contains_key(lk) {
                                            assert(old_br.child_table@.contains_key(lk[e]));
                                        }
                                    }
                                }
                                br.insert_child(inserted);
                                proof {
                                    let m = branch_map(br);
                                    let want = map_with(branch_map(old_br), lk, lv);
                                    assert forall|k: Seq<u8>| #[trigger] m.contains_key(k) <==> want.contains_key(k) by {
                                        if branch_map(old_br).contains_key(k) && k[e] == c {
                                            assert(false);
                                        }
                                    }
                                    assert(m =~= want);
                                    lemma_wf_branch(br, start_depth as int);
                                }
                                Head { key: this.key, body: Body::Branch(Box::new(br)) }
                            },
                        }
                    },
                }
            },
        }
    }

    /// Puts the key of `leaf` with its value below `this`, which sits at
    /// `start_depth`; a key that is there already takes the new value.
    pub fn replace_leaf(this: Self, leaf: Self, start_depth: usize) -> (r: Self)
        requires
            wf_head(this, start_depth as int),
            leaf.body is Leaf,
            agrees(head_childleaf(this), head_childleaf(leaf), 0, start_depth as int),
            head_count(this) < u64::MAX,
        ensures
            wf_head(r, start_depth as int),
            r.key == this.key,
            head_map(r) == head_map(this).insert(head_childleaf(leaf), leaf_value(leaf)),
            head_count(r) == head_count(this) + (if head_map(this).contains_key(head_childleaf(leaf)) { 0int } else { 1int }),
            head_end(r) >= start_depth,
            agrees(head_childleaf(r), head_childleaf(this), 0, start_depth as int),
        decreases body_height(this.body),
    {
        let ghost lk = head_childleaf(leaf);
        let ghost lv = leaf_value(leaf);
        proof {
            lemma_childleaf_in(this, start_depth as int);
            lemma_body_keys(this.body, start_depth as int);
            lemma_body_keys(leaf.body, start_depth as int);
        }
        match this.first_divergence(&leaf, start_depth) {
            Some((depth, this_byte_key, leaf_byte_key)) => {
                let ghost tm = head_map(this);
                let ghost tcl = head_childleaf(this);
                let old_key = this.key;
                proof {
                    lemma_wf_depth(this, start_depth as int, depth as int);
                    assert forall|k: Seq<u8>| #[trigger] tm.contains_key(k) implies k[depth as int] == this_byte_key by {
                        assert(agrees(k, tcl, 0, head_end(this)));
                    }
                    assert(!tm.contains_key(lk)) by {
                        if tm.contains_key(lk) {
                            assert(agrees(lk, tcl, 0, head_end(this)));
                        }
                    }
                    assert forall|k: Seq<u8>| #[trigger] tm.contains_key(k) implies agrees(k, tcl, 0, depth as int) by {
                        assert(agrees(k, tcl, 0, head_end(this)));
                    }
                    assert forall|k: Seq<u8>| #[trigger] head_map(leaf).contains_key(k) implies agrees(k, tcl, 0, depth as int) by {
                        assert(k == lk);
                        assert forall|i: int| 0 <= i < depth implies #[trigger] k[i] == tcl[i] by {
                            if i < start_depth {
                                assert(tcl[i] == lk[i]);
                            } else {
                                assert(tcl[i] == lk[i]);
                            }
                        }
                    }
                    assert forall|k: Seq<u8>| #[trigger] head_map(leaf).contains_key(k) implies k[depth as int] == leaf_byte_key by {
                        assert(k == lk);
                    }
                }
                let l = this.with_key(this_byte_key);
                let rr = leaf.with_key(leaf_byte_key);
                let br = Branch::new(depth, l, rr);
                proof {
                    assert(tm.insert(lk, lv) =~= tm.union_prefer_right(head_map(leaf)));
                    lemma_wf_branch(br, start_depth as int);
                    lemma_branch_keys(br);
                }
                Head { key: old_key, body: Body::Branch(Box::new(br)) }
            },
            None => {
                match this.body {
                    Body::Leaf(l) => {
                        let ghost tm = head_map(this);
                        let r = leaf.with_key(this.key);
                        proof {
                            assert(lk =~= head_childleaf(this));
                            assert(tm.insert(lk, lv) =~= head_map(r));
                        }
                        r
                    },
                    Body::Branch(bbox) => {
                        let mut br: Branch<KEY_LEN, V> = *bbox;
                        let ghost old_br = br;
                        let ghost e = br.end_depth as int;
                        let end_depth = br.end_depth;
                        proof {
                            lemma_wf_branch(old_br, start_depth as int);
                            lemma_branch_keys(old_br);
                            lemma_branch_view(old_br);
                            assert(agrees(old_br.childleaf@, lk, 0, e)) by {
                                assert forall|i: int| 0 <= i < e implies #[trigger] old_br.childleaf@[i] == lk[i] by {
                                    if i < start_depth {
                                    } else {
                                    }
                                }
                            }
                        }
                        let inserted = leaf.with_start(end_depth);
                        let c = inserted.key;
                        match br.take_child(c) {
                            Some(old_child) => {
                                proof {
                                    lemma_childleaf_in(old_child, e);
                                    lemma_body_keys(old_child.body, e);
                                    let ocl = head_childleaf(old_child);
                                    assert(branch_map(old_br).contains_key(ocl));
                                    assert(agrees(ocl, old_br.childleaf@, 0, e));
                                    assert(agrees(ocl, lk, 0, e));
                                    assert(ocl[e] == c);
                                    assert(agrees(ocl, lk, 0, e + 1));
                                    vstd::set_lib::lemma_len_subset(head_map(old_child).dom(), branch_map(old_br).dom());
                                    lemma_child_height(old_br, c);
                                }
                                let new_child = Head::replace_leaf(old_child, inserted, end_depth);
                                proof {
                                    lemma_childleaf_in(new_child, e);
                                    assert forall|k: Seq<u8>| #[trigger] head_map(new_child).contains_key(k) implies k[e] == new_child.key
                                        && agrees(k, old_br.childleaf@, 0, e) by {
                                        if k != lk {
                                            assert(head_map(old_child).contains_key(k));
                                            assert(branch_map(old_br).contains_key(k));
                                        }
                                    }
                                }
                                br.insert_child(new_child);
                                proof {
                                    let m = branch_map(br);
                                    let want = branch_map(old_br).insert(lk, lv);
                                    assert(branch_map(old_br).contains_key(lk) == head_map(old_child).contains_key(lk));
                                    assert forall|k: Seq<u8>| #[trigger] m.contains_key(k) <==> want.contains_key(k) by {
                                        if branch_map(old_br).contains_key(k) && k[e] == c {
                                            assert(head_map(old_child).contains_key(k));
                                        }
                                    }
                                    assert forall|k: Seq<u8>| #[trigger] m.contains_key(k) implies m[k] == want[k] by {
                                        if branch_map(old_br).contains_key(k) && k[e] == c && k != lk {
                                            assert(head_map(old_child).contains_key(k));
                                        }
                                    }
                                    assert(m =~= want);
                                    lemma_wf_branch(br, start_depth as int);
                                }
                                Head { key: this.key, body: Body::Branch(Box::new(br)) }
                            },
                            None => {
                                proof {
                                    assert(!branch_map(old_br).contains_key(lk)) by {
                                        if branch_map(old_br).contains_key(lk) {
                                            assert(old_br.child_table@.contains_key(lk[e]));
                                        }
                                    }
                                }
                                br.insert_child(inserted);
                                proof {
                                    let m = branch_map(br);
                                    let want = branch_map(old_br).insert(lk, lv);
                                    assert forall|k: Seq<u8>| #[trigger] m.contains_key(k) <==> want.contains_key(k) by {
                                        if branch_map(old_br).contains_key(k) && k[e] == c {
                                            assert(false);
                                        }
                                    }
                                    assert(m =~= want);
                                    lemma_wf_branch(br, start_depth as int);
                                }
                                Head { key: this.key, body: Body::Branch(Box::new(br)) }
                            },
                        }
                    },
                }
            },
        }
    }
}


proof fn lemma_slots_height<const KEY_LEN: usize, V>(s: Seq<Option<Head<KEY_LEN, V>>>, i: int, j: int)
    requires
        0 <= j < i <= s.len(),
        s[j] is Some,
    ensures
        body_height(s[j]->0.body) <= slots_height(s, i),
    decreases i,
{
    if j < i - 1 {
        lemma_slots_height(s, i - 1, j);
    }
}

/// Every child of a branch is lower than the branch.
pub proof fn lemma_child_height<const KEY_LEN: usize, V>(br: Branch<KEY_LEN, V>, c: u8)
    requires
        br.child_table.wf(),
        br.child_table@.contains_key(c),
    ensures
        body_height(br.child_table@[c].body) < body_height(Body::Branch(Box::new(br))),
{
    let t = br.child_table;
    t.lemma_slots();
    let j = choose|j: int| 0 <= j < t.spec_len() && t.spec_slot(j) == Some(t@[c]) && t@[c].spec_key() == c;
    lemma_slots_height(t.slots@, t.slots@.len() as int, j);
}


/// Whether `a` and `b` agree on the positions `lo..hi`.
pub fn range_eq(a: &[u8], b: &[u8], lo: usize, hi: usize) -> (r: bool)
    requires
        hi <= a@.len(),
        hi <= b@.len(),
    ensures
        r == agrees(a@, b@, lo as int, hi as int),
{
    let mut i = lo;
    while i < hi
        invariant
            hi <= a@.len(),
            hi <= b@.len(),
            lo <= i,
            forall|j: int| lo <= j < i ==> #[trigger] a@[j] == b@[j],
        decreases hi - i,
    {
        if a[i] != b[i] {
            assert(a@[i as int] != b@[i as int]);
            return false;
        }
        i = i + 1;
    }
    true
}

impl<const KEY_LEN: usize, V> Branch<KEY_LEN, V> {
    /// The key byte of some child of a branch that has one.
    fn first_child_key(&self) -> (r: u8)
        requires
            self.child_table.wf(),
            self.child_table@.dom().len() > 0,
        ensures
            self.child_table@.contains_key(r),
    {
        proof {
            self.child_table.lemma_slots();
            let c = self.child_table@.dom().choose();
            assert(self.child_table@.contains_key(c));
        }
        let n = self.child_table.len();
        let mut i: usize = 0;
        while i < n
            invariant
                n == self.child_table.spec_len(),
                self.child_table.wf(),
                i <= n,
                forall|j: int| 0 <= j < i ==> (#[trigger] self.child_table.spec_slot(j)) is None,
                exists|c: u8| #[trigger] self.child_table@.contains_key(c),
            decreases n - i,
        {
            match self.child_table.slot(i) {
                Some(h) => {
                    proof {
                        self.child_table.lemma_slots();
                        assert(self.child_table.spec_slot(i as int) is Some);
                    }
                    return h.key;
                },
                None => {},
            }
            i = i + 1;
        }
        proof {
            self.child_table.lemma_slots();
            let c = choose|c: u8| #[trigger] self.child_table@.contains_key(c);
            let j = choose|j: int| 0 <= j < self.child_table.spec_len() && self.child_table.spec_slot(j) == Some(self.child_table@[c])
                && self.child_table@[c].spec_key() == c;
            assert(self.child_table.spec_slot(j) is None);
        }
        0
    }
}


impl<const KEY_LEN: usize, V> Head<KEY_LEN, V> {
    /// Removes `key` from below `this`, which sits at `start_depth`. Returns
    /// `None` when no key is left; a branch left with a single leaf collapses
    /// into that leaf, keyed by its byte at `start_depth`.
    pub fn remove_leaf(this: Self, key: &[u8; KEY_LEN], start_depth: usize) -> (r: Option<Self>)
        requires
            wf_head(this, start_depth as int),
            agrees(head_childleaf(this), key@, 0, start_depth as int),
        ensures
            r is None ==> head_map(this).remove(key@) == Map::<Seq<u8>, V>::empty(),
            r matches Some(h) ==> wf_head(h, start_depth as int) && head_map(h) == head_map(this).remove(key@)
                && (h.key == this.key || (start_depth < KEY_LEN && h.key == head_childleaf(h)[start_depth as int]))
                && agrees(head_childleaf(h), head_childleaf(this), 0, start_depth as int),
        decreases body_height(this.body),
    {
        let ghost tm = head_map(this);
        let ghost tcl = head_childleaf(this);
        proof {
            lemma_childleaf_in(this, start_depth as int);
            lemma_body_keys(this.body, start_depth as int);
        }
        let end_depth = this.end_depth();
        if !range_eq(this.childleaf_key().as_slice(), key.as_slice(), start_depth, end_depth) {
            proof {
                assert(!tm.contains_key(key@)) by {
                    if tm.contains_key(key@) {
                        assert(agrees(key@, tcl, 0, end_depth as int));
                    }
                }
                assert(tm.remove(key@) =~= tm);
            }
            return Some(this);
        }
        match this.body {
            Body::Leaf(l) => {
                proof {
                    assert(key@ =~= tcl);
                    assert(tm.remove(key@) =~= Map::<Seq<u8>, V>::empty());
                }
                None
            },
            Body::Branch(bbox) => {
                let mut br: Branch<KEY_LEN, V> = *bbox;
                let ghost old_br = br;
                let ghost e = br.end_depth as int;
                proof {
                    lemma_wf_branch(old_br, start_depth as int);
                    lemma_branch_keys(old_br);
                    lemma_branch_view(old_br);
                }
                let c = key[end_depth];
                match br.take_child(c) {
                    None => {
                        proof {
                            assert(!tm.contains_key(key@));
                            assert(tm.remove(key@) =~= tm);
                            assert(branch_map(br) =~= branch_map(old_br));
                            lemma_wf_branch(br, start_depth as int);
                        }
                        Some(Head { key: this.key, body: Body::Branch(Box::new(br)) })
                    },
                    Some(child) => {
                        let ghost cm = head_map(child);
                        let ghost mid = br;
                        proof {
                            lemma_childleaf_in(child, e);
                            lemma_body_keys(child.body, e);
                            let ccl = head_childleaf(child);
                            assert(branch_map(old_br).contains_key(ccl));
                            assert(agrees(ccl, tcl, 0, e));
                            assert(ccl[e] == c);
                            assert(agrees(ccl, key@, 0, e + 1));
                            lemma_child_height(old_br, c);
                        }
                        let res = Head::remove_leaf(child, key, end_depth);
                        let removed_child = res.is_none();
                        match res {
                            Some(nc0) => {
                                let nc = nc0.with_key(c);
                                proof {
                                    lemma_childleaf_in(nc, e);
                                    lemma_body_keys(nc.body, e);
                                    vstd::set_lib::lemma_len_subset(head_map(nc).dom(), cm.dom());
                                    assert forall|k: Seq<u8>| #[trigger] head_map(nc).contains_key(k) implies k[e] == c
                                        && agrees(k, head_childleaf(nc), 0, e) by {
                                        assert(cm.contains_key(k));
                                        assert(agrees(k, head_childleaf(nc), 0, head_end(nc)));
                                    }
                                    let ncl = head_childleaf(nc);
                                    assert(cm.contains_key(ncl));
                                    assert(branch_map(old_br).contains_key(ncl));
                                    assert(agrees(ncl, tcl, 0, e));
                                }
                                br.childleaf = *nc.childleaf_key();
                                proof {
                                    let ncl = head_childleaf(nc);
                                    assert(branch_map(br) == branch_map(mid));
                                    assert forall|k: Seq<u8>| #[trigger] branch_map(br).contains_key(k) implies agrees(k, br.childleaf@, 0, e) by {
                                        assert(branch_map(old_br).contains_key(k));
                                        assert(agrees(k, tcl, 0, e));
                                    }
                                }
                                br.insert_child(nc);
                                proof {
                                    let m = branch_map(br);
                                    let want = tm.remove(key@);
                                    assert forall|k: Seq<u8>| #[trigger] m.contains_key(k) <==> want.contains_key(k) by {
                                        if tm.contains_key(k) && k[e] == c && k != key@ {
                                            assert(cm.contains_key(k));
                                        }
                                        if head_map(nc).contains_key(k) {
                                            assert(cm.contains_key(k));
                                        }
                                    }
                                    assert forall|k: Seq<u8>| #[trigger] m.contains_key(k) implies m[k] == want[k] by {
                                        if tm.contains_key(k) && k[e] == c && k != key@ {
                                            assert(cm.contains_key(k));
                                        }
                                    }
                                    assert(m =~= want);
                                }
                            },
                            None => {
                                proof {
                                    let m = branch_map(br);
                                    let want = tm.remove(key@);
                                    assert forall|k: Seq<u8>| #[trigger] m.contains_key(k) <==> want.contains_key(k) by {
                                        if tm.contains_key(k) && k[e] == c && k != key@ {
                                            assert(cm.contains_key(k));
                                            assert(cm.remove(key@).contains_key(k));
                                        }
                                    }
                                    assert(m =~= want);
                                }
                            },
                        }
                        proof {
                            lemma_branch_keys(br);
                            assert(tm.contains_key(key@) ==> tm.remove(key@).dom().len() == tm.dom().len() - 1);
                            assert(!tm.contains_key(key@) ==> tm.remove(key@) =~= tm);
                            lemma_table_nonempty(br);
                        }
                        if br.leaf_count == 1 {
                            let k = br.first_child_key();
                            match br.take_child(k) {
                                Some(only) => {
                                    proof {
                                        lemma_childleaf_in(only, e);
                                        assert(head_count(only) == 1);
                                        lemma_wf_depth(only, e, start_depth as int);
                                        let ocl = head_childleaf(only);
                                        assert(branch_map(old_br).contains_key(ocl));
                                        assert(agrees(ocl, tcl, 0, e));
                                        lemma_branch_keys(br);
                                        assert(branch_map(br).dom().len() == 0);
                                        assert(head_map(only) =~= tm.remove(key@)) by {
                                            assert forall|q: Seq<u8>| #[trigger] tm.remove(key@).contains_key(q) implies head_map(only).contains_key(q) by {
                                                if !head_map(only).contains_key(q) {
                                                    assert(branch_map(br).contains_key(q));
                                                }
                                            }
                                        }
                                    }
                                    return Some(only.with_start(start_depth));
                                },
                                None => {
                                    return None;
                                },
                            }
                        }
                        if removed_child {
                            let k = br.first_child_key();
                            proof {
                                lemma_branch_view(br);
                            }
                            match br.child_table.table_get(k) {
                                Some(h) => {
                                    let cl: [u8; KEY_LEN] = *h.childleaf_key();
                                    proof {
                                        lemma_childleaf_in(*h, e);
                                        assert(branch_map(br).contains_key(cl@));
                                        assert(branch_map(old_br).contains_key(cl@));
                                    }
                                    br.childleaf = cl;
                                    proof {
                                        assert forall|q: Seq<u8>| #[trigger] branch_map(br).contains_key(q) implies agrees(q, br.childleaf@, 0, e) by {
                                            assert(branch_map(old_br).contains_key(q));
                                            assert(agrees(q, tcl, 0, e));
                                        }
                                    }
                                },
                                None => {},
                            }
                        }
                        proof {
                            lemma_branch_keys(br);
                            lemma_wf_branch(br, start_depth as int);
                        }
                        Some(Head { key: this.key, body: Body::Branch(Box::new(br)) })
                    },
                }
            },
        }
    }
}


/// A branch counting some leaf has some child.
pub proof fn lemma_table_nonempty<const KEY_LEN: usize, V>(br: Branch<KEY_LEN, V>)
    requires
        wf_branch_core(br),
    ensures
        br.leaf_count > 0 ==> br.child_table@.dom().len() > 0,
{
    br.child_table.lemma_slots();
    if br.leaf_count > 0 && br.child_table@.dom().len() == 0 {
        br.child_table@.dom().lemma_len0_is_empty();
        assert(br.child_table@ =~= Map::<u8, Head<KEY_LEN, V>>::empty());
        lemma_table_empty::<KEY_LEN, V>(256);
    }
}


/// Some key of `m` starts with the first `n` bytes of `prefix`.
pub open spec fn has_prefix_in<V>(m: Map<Seq<u8>, V>, prefix: Seq<u8>, n: int) -> bool {
    exists|k: Seq<u8>| #[trigger] m.contains_key(k) && agrees(k, prefix, 0, n)
}

impl<const KEY_LEN: usize, V> Head<KEY_LEN, V> {
    /// The value stored under `key` below this head, which sits at `at_depth`.
    pub fn get<'a>(&'a self, at_depth: usize, key: &[u8; KEY_LEN]) -> (r: Option<&'a V>)
        requires
            wf_head(*self, at_depth as int),
            agrees(head_childleaf(*self), key@, 0, at_depth as int),
        ensures
            r matches Some(v) ==> head_map(*self).contains_key(key@) && head_map(*self)[key@] == *v,
            r is None <==> !head_map(*self).contains_key(key@),
        decreases body_height(self.body),
    {
        proof {
            lemma_childleaf_in(*self, at_depth as int);
            lemma_body_keys(self.body, at_depth as int);
        }
        let end_depth = self.end_depth();
        if !range_eq(self.childleaf_key().as_slice(), key.as_slice(), at_depth, end_depth) {
            proof {
                if head_map(*self).contains_key(key@) {
                    assert(agrees(key@, head_childleaf(*self), 0, end_depth as int));
                }
            }
            return None;
        }
        match &self.body {
            Body::Leaf(l) => {
                proof {
                    assert(key@ =~= l.key@);
                }
                Some(&l.value)
            },
            Body::Branch(br) => {
                proof {
                    lemma_wf_branch(**br, at_depth as int);
                    lemma_branch_view(**br);
                }
                match br.child_table.table_get(key[end_depth]) {
                    Some(child) => {
                        proof {
                            let e = end_depth as int;
                            lemma_childleaf_in(*child, e);
                            let ccl = head_childleaf(*child);
                            assert(branch_map(**br).contains_key(ccl));
                            assert(agrees(ccl, br.childleaf@, 0, e));
                            assert(agrees(ccl, key@, 0, e));
                            lemma_child_height(**br, key[end_depth as int]);
                        }
                        child.get(end_depth, key)
                    },
                    None => None,
                }
            },
        }
    }

    /// Whether some key below this head, which sits at `at_depth`, starts
    /// with `prefix`.
    pub fn has_prefix<const PREFIX_LEN: usize>(&self, at_depth: usize, prefix: &[u8; PREFIX_LEN]) -> (r: bool)
        requires
            PREFIX_LEN <= KEY_LEN,
            wf_head(*self, at_depth as int),
            agrees(head_childleaf(*self), prefix@, 0, if (at_depth as int) < PREFIX_LEN { at_depth as int } else { PREFIX_LEN as int }),
        ensures
            r == has_prefix_in(head_map(*self), prefix@, PREFIX_LEN as int),
        decreases body_height(self.body),
    {
        proof {
            lemma_childleaf_in(*self, at_depth as int);
            lemma_body_keys(self.body, at_depth as int);
        }
        let end_depth = self.end_depth();
        let limit = if PREFIX_LEN < end_depth { PREFIX_LEN } else { end_depth };
        let ghost cl = head_childleaf(*self);
        if !range_eq(self.childleaf_key().as_slice(), prefix.as_slice(), at_depth, limit) {
            proof {
                if has_prefix_in(head_map(*self), prefix@, PREFIX_LEN as int) {
                    let k = choose|k: Seq<u8>| #[trigger] head_map(*self).contains_key(k) && agrees(k, prefix@, 0, PREFIX_LEN as int);
                    assert(agrees(k, cl, 0, end_depth as int));
                    let i = choose|i: int| at_depth <= i < limit && #[trigger] cl[i] != prefix@[i];
                    assert(k[i] == cl[i]);
                    assert(k[i] == prefix@[i]);
                }
            }
            return false;
        }
        if PREFIX_LEN <= end_depth {
            proof {
                assert(agrees(cl, prefix@, 0, PREFIX_LEN as int));
                assert(head_map(*self).contains_key(cl));
            }
            return true;
        }
        match &self.body {
            Body::Leaf(_) => false,
            Body::Branch(br) => {
                let e = end_depth;
                proof {
                    lemma_wf_branch(**br, at_depth as int);
                    lemma_branch_view(**br);
                }
                match br.child_table.table_get(prefix[e]) {
                    Some(child) => {
                        proof {
                            lemma_childleaf_in(*child, e as int);
                            let ccl = head_childleaf(*child);
                            assert(branch_map(**br).contains_key(ccl));
                            assert(agrees(ccl, br.childleaf@, 0, e as int));
                            assert(agrees(ccl, prefix@, 0, e as int));
                            lemma_child_height(**br, prefix[e as int]);
                        }
                        let r = child.has_prefix(e, prefix);
                        proof {
                            if r {
                                let k = choose|k: Seq<u8>| #[trigger] head_map(*child).contains_key(k) && agrees(k, prefix@, 0, PREFIX_LEN as int);
                                assert(branch_map(**br).contains_key(k));
                            }
                            if has_prefix_in(head_map(*self), prefix@, PREFIX_LEN as int) {
                                let k = choose|k: Seq<u8>| #[trigger] head_map(*self).contains_key(k) && agrees(k, prefix@, 0, PREFIX_LEN as int);
                                assert(k[e as int] == prefix@[e as int]);
                                assert(head_map(*child).contains_key(k));
                            }
                        }
                        r
                    },
                    None => {
                        proof {
                            if has_prefix_in(head_map(*self), prefix@, PREFIX_LEN as int) {
                                let k = choose|k: Seq<u8>| #[trigger] head_map(*self).contains_key(k) && agrees(k, prefix@, 0, PREFIX_LEN as int);
                                assert(k[e as int] == prefix@[e as int]);
                            }
                        }
                        false
                    },
                }
            },
        }
    }
}


/// The infixes `k[p..p + n]` of the keys `k` of `m` that start with the
/// first `p` bytes of `prefix`.
pub open spec fn infix_set<V>(m: Map<Seq<u8>, V>, prefix: Seq<u8>, p: int, n: int) -> Set<Seq<u8>> {
    Set::new(|x: Seq<u8>| exists|k: Seq<u8>| #[trigger] m.contains_key(k) && agrees(k, prefix, 0, p) && x == k.subrange(p, p + n))
}

/// The arrays of `v` from position `from` on, as byte sequences.
pub open spec fn views_from<const N: usize>(v: Seq<[u8; N]>, from: int) -> Set<Seq<u8>> {
    Set::new(|x: Seq<u8>| exists|j: int| from <= j < v.len() && (#[trigger] v[j])@ == x)
}

/// No two arrays of `v` from position `from` on hold the same bytes.
pub open spec fn distinct_from<const N: usize>(v: Seq<[u8; N]>, from: int) -> bool {
    forall|i: int, j: int| from <= i < j < v.len() ==> (#[trigger] v[i])@ != (#[trigger] v[j])@
}

impl<const KEY_LEN: usize, V> Head<KEY_LEN, V> {
    /// Appends to `out` the infixes of length `INFIX_LEN` after `prefix` of
    /// the keys below this head (which sits at `at_depth`) that start with
    /// `prefix`, each infix once.
    pub fn infixes<const PREFIX_LEN: usize, const INFIX_LEN: usize>(
        &self,
        prefix: &[u8; PREFIX_LEN],
        at_depth: usize,
        out: &mut Vec<[u8; INFIX_LEN]>,
    )
        requires
            PREFIX_LEN + INFIX_LEN <= KEY_LEN,
            wf_head(*self, at_depth as int),
            agrees(head_childleaf(*self), prefix@, 0, if (at_depth as int) < PREFIX_LEN { at_depth as int } else { PREFIX_LEN as int }),
        ensures
            final(out)@.len() >= old(out)@.len(),
            final(out)@.subrange(0, old(out)@.len() as int) == old(out)@,
            distinct_from(final(out)@, old(out)@.len() as int),
            views_from(final(out)@, old(out)@.len() as int) == infix_set(head_map(*self), prefix@, PREFIX_LEN as int, INFIX_LEN as int),
        decreases body_height(self.body),
    {
        let ghost m = head_map(*self);
        let ghost cl = head_childleaf(*self);
        let ghost p = PREFIX_LEN as int;
        let ghost n = INFIX_LEN as int;
        let ghost start = out@.len() as int;
        let ghost want = infix_set(m, prefix@, p, n);
        proof {
            lemma_childleaf_in(*self, at_depth as int);
            lemma_body_keys(self.body, at_depth as int);
        }
        let end_depth = self.end_depth();
        let limit = if PREFIX_LEN < end_depth { PREFIX_LEN } else { end_depth };
        if !range_eq(self.childleaf_key().as_slice(), prefix.as_slice(), at_depth, limit) {
            proof {
                assert(want =~= Set::<Seq<u8>>::empty()) by {
                    assert forall|x: Seq<u8>| !#[trigger] want.contains(x) by {
                        if want.contains(x) {
                            let k = choose|k: Seq<u8>| #[trigger] m.contains_key(k) && agrees(k, prefix@, 0, p) && x == k.subrange(p, p + n);
                            assert(agrees(k, cl, 0, end_depth as int));
                            let i = choose|i: int| at_depth <= i < limit && #[trigger] cl[i] != prefix@[i];
                            assert(k[i] == cl[i]);
                        }
                    }
                }
                assert(views_from(out@, start) =~= Set::<Seq<u8>>::empty());
                assert(out@.subrange(0, start) =~= out@);
            }
            return;
        }
        if PREFIX_LEN + INFIX_LEN <= end_depth {
            let key = self.childleaf_key();
            let mut infix = [0u8; INFIX_LEN];
            let mut j: usize = 0;
            while j < INFIX_LEN
                invariant
                    j <= INFIX_LEN,
                    PREFIX_LEN + INFIX_LEN <= KEY_LEN,
                    key@ == cl,
                    cl.len() == KEY_LEN,
                    infix@.len() == INFIX_LEN,
                    forall|x: int| 0 <= x < j ==> infix@[x] == cl[PREFIX_LEN + x],
                decreases INFIX_LEN - j,
            {
                infix[j] = key[PREFIX_LEN + j];
                j = j + 1;
            }
            let ghost old_out = out@;
            out.push(infix);
            proof {
                assert(infix@ =~= cl.subrange(p, p + n));
                assert(agrees(cl, prefix@, 0, p));
                assert(m.contains_key(cl));
                assert(views_from(out@, start) =~= want) by {
                    assert forall|x: Seq<u8>| #[trigger] want.contains(x) implies views_from(out@, start).contains(x) by {
                        let k = choose|k: Seq<u8>| #[trigger] m.contains_key(k) && agrees(k, prefix@, 0, p) && x == k.subrange(p, p + n);
                        assert(agrees(k, cl, 0, end_depth as int));
                        assert(x =~= cl.subrange(p, p + n));
                        assert(out@[start] == infix);
                    }
                    assert forall|x: Seq<u8>| #[trigger] views_from(out@, start).contains(x) implies want.contains(x) by {
                        let j = choose|j: int| start <= j < out@.len() && (#[trigger] out@[j])@ == x;
                        assert(j == start);
                        assert(m.contains_key(cl) && agrees(cl, prefix@, 0, p) && x == cl.subrange(p, p + n));
                    }
                }
                assert(out@.subrange(0, start) =~= old_out);
            }
            return;
        }
        match &self.body {
            Body::Leaf(_) => {
                proof {
                    assert(false);
                }
            },
            Body::Branch(br) => {
                let e = end_depth;
                proof {
                    lemma_wf_branch(**br, at_depth as int);
                    lemma_branch_view(**br);
                }
                if PREFIX_LEN > e {
                    match br.child_table.table_get(prefix[e]) {
                        Some(child) => {
                            proof {
                                lemma_childleaf_in(*child, e as int);
                                let ccl = head_childleaf(*child);
                                assert(branch_map(**br).contains_key(ccl));
                                assert(agrees(ccl, br.childleaf@, 0, e as int));
                                assert(agrees(ccl, prefix@, 0, e as int));
                                lemma_child_height(**br, prefix[e as int]);
                            }
                            child.infixes(prefix, e, out);
                            proof {
                                let cm = head_map(*child);
                                assert(infix_set(cm, prefix@, p, n) =~= want) by {
                                    assert forall|x: Seq<u8>| #[trigger] want.contains(x) implies infix_set(cm, prefix@, p, n).contains(x) by {
                                        let k = choose|k: Seq<u8>| #[trigger] m.contains_key(k) && agrees(k, prefix@, 0, p) && x == k.subrange(p, p + n);
                                        assert(k[e as int] == prefix@[e as int]);
                                        assert(cm.contains_key(k));
                                    }
                                    assert forall|x: Seq<u8>| #[trigger] infix_set(cm, prefix@, p, n).contains(x) implies want.contains(x) by {
                                        let k = choose|k: Seq<u8>| #[trigger] cm.contains_key(k) && agrees(k, prefix@, 0, p) && x == k.subrange(p, p + n);
                                        assert(m.contains_key(k));
                                    }
                                }
                            }
                        },
                        None => {
                            proof {
                                assert(want =~= Set::<Seq<u8>>::empty()) by {
                                    assert forall|x: Seq<u8>| !#[trigger] want.contains(x) by {
                                        if want.contains(x) {
                                            let k = choose|k: Seq<u8>| #[trigger] m.contains_key(k) && agrees(k, prefix@, 0, p) && x == k.subrange(p, p + n);
                                            assert(k[e as int] == prefix@[e as int]);
                                        }
                                    }
                                }
                                assert(views_from(out@, start) =~= Set::<Seq<u8>>::empty());
                                assert(out@.subrange(0, start) =~= out@);
                            }
                        },
                    }
                } else {
                    let ghost old_out = out@;
                    let ghost sl = br.child_table.slots@;
                    let ghost hb = body_height(self.body);
                    let n_slots = br.child_table.len();
                    let mut i: usize = 0;
                    proof {
                        assert(views_from(out@, start) =~= Set::<Seq<u8>>::empty());
                        assert(out@.subrange(0, start) =~= old_out);
                        br.child_table.lemma_slots();
                    }
                    while i < n_slots
                        invariant
                            PREFIX_LEN + INFIX_LEN <= KEY_LEN,
                            PREFIX_LEN <= e < PREFIX_LEN + INFIX_LEN,
                            p == PREFIX_LEN,
                            n == INFIX_LEN,
                            e == br.end_depth,
                            wf_branch_core(**br),
                            m == branch_map(**br),
                            sl == br.child_table.slots@,
                            n_slots == sl.len(),
                            i <= n_slots,
                            agrees(br.childleaf@, prefix@, 0, p),
                            hb == body_height(self.body),
                            hb == body_height(Body::Branch(Box::new(**br))),
                            out@.len() >= start,
                            start == old_out.len(),
                            out@.subrange(0, start) == old_out,
                            distinct_from(out@, start),
                            forall|x: Seq<u8>| #[trigger] views_from(out@, start).contains(x) <==> (want.contains(x)
                                && exists|l: int| 0 <= l < i && sl[l] is Some && (#[trigger] sl[l])->0.key == x[e - p]),
                            want == infix_set(m, prefix@, p, n),
                        decreases n_slots - i,
                    {
                        proof {
                            br.child_table.lemma_slots();
                            lemma_branch_view(**br);
                        }
                        let ghost before = out@;
                        match br.child_table.slot(i) {
                            Some(child) => {
                                let ghost c = child.key;
                                proof {
                                    assert(br.child_table.spec_slot(i as int) is Some);
                                    assert(br.child_table@[c] == *child);
                                    assert(wf_child(*child, e as int));
                                    lemma_childleaf_in(*child, e as int);
                                    let ccl = head_childleaf(*child);
                                    assert(branch_map(**br).contains_key(ccl));
                                    assert(agrees(ccl, br.childleaf@, 0, e as int));
                                    assert forall|x: int| 0 <= x < p implies #[trigger] ccl[x] == prefix@[x] by {
                                        assert(ccl[x] == br.childleaf@[x]);
                                    }
                                    lemma_child_height(**br, c);
                                    lemma_branch_keys(**br);
                                }
                                child.infixes(prefix, e, out);
                                proof {
                                    let cm = head_map(*child);
                                    let cs = infix_set(cm, prefix@, p, n);
                                    assert forall|x: Seq<u8>| #[trigger] cs.contains(x) implies want.contains(x) && x[e - p] == c by {
                                        let k = choose|k: Seq<u8>| #[trigger] cm.contains_key(k) && agrees(k, prefix@, 0, p) && x == k.subrange(p, p + n);
                                        assert(m.contains_key(k));
                                        assert(k.len() == KEY_LEN);
                                        assert(x[e - p] == k[e as int]);
                                    }
                                    assert(out@.subrange(0, before.len() as int) == before);
                                    assert forall|j: int| 0 <= j < before.len() implies #[trigger] out@[j] == before[j] by {
                                        assert(out@.subrange(0, before.len() as int)[j] == out@[j]);
                                    }
                                    assert(out@.subrange(0, start) =~= old_out) by {
                                        assert forall|j: int| 0 <= j < start implies #[trigger] out@.subrange(0, start)[j] == old_out[j] by {
                                            assert(before.subrange(0, start)[j] == old_out[j]);
                                        }
                                    }
                                    assert forall|a: int, b: int| start <= a < b < out@.len() implies (#[trigger] out@[a])@ != (#[trigger] out@[b])@ by {
                                        if b >= before.len() && a < before.len() {
                                            assert(views_from(out@, before.len() as int).contains(out@[b]@));
                                            assert(cs.contains(out@[b]@));
                                            assert(out@[a] == before[a]);
                                            assert(views_from(before, start).contains(before[a]@));
                                            let l = choose|l: int| 0 <= l < i && sl[l] is Some && (#[trigger] sl[l])->0.key == before[a]@[e - p];
                                            assert(br.child_table.spec_slot(l) is Some && br.child_table.spec_slot(i as int) is Some);
                                            assert(sl[l]->0.key != sl[i as int]->0.key);
                                        } else if b < before.len() {
                                            assert(out@[a] == before[a]);
                                            assert(out@[b] == before[b]);
                                        }
                                    }
                                    assert forall|x: Seq<u8>| #[trigger] views_from(out@, start).contains(x) <==> (want.contains(x)
                                        && exists|l: int| 0 <= l < i + 1 && sl[l] is Some && (#[trigger] sl[l])->0.key == x[e - p]) by {
                                        if views_from(out@, start).contains(x) {
                                            let j = choose|j: int| start <= j < out@.len() && (#[trigger] out@[j])@ == x;
                                            if j < before.len() {
                                                assert(out@[j] == before[j]);
                                                assert(views_from(before, start).contains(x));
                                                let l = choose|l: int| 0 <= l < i && sl[l] is Some && (#[trigger] sl[l])->0.key == x[e - p];
                                            } else {
                                                assert(views_from(out@, before.len() as int).contains(x));
                                                assert(cs.contains(x));
                                                assert(sl[i as int] is Some && sl[i as int]->0.key == x[e - p]);
                                            }
                                        }
                                        if want.contains(x) && exists|l: int| 0 <= l < i + 1 && sl[l] is Some && (#[trigger] sl[l])->0.key == x[e - p] {
                                            let l = choose|l: int| 0 <= l < i + 1 && sl[l] is Some && (#[trigger] sl[l])->0.key == x[e - p];
                                            if l < i {
                                                assert(views_from(before, start).contains(x));
                                                let j = choose|j: int| start <= j < before.len() && (#[trigger] before[j])@ == x;
                                                assert(out@[j] == before[j]);
                                            } else {
                                                let k = choose|k: Seq<u8>| #[trigger] m.contains_key(k) && agrees(k, prefix@, 0, p) && x == k.subrange(p, p + n);
                                                assert(k[e as int] == x[e - p]);
                                                assert(br.child_table@.contains_key(k[e as int]));
                                                assert(cm.contains_key(k));
                                                assert(cs.contains(x));
                                                assert(views_from(out@, before.len() as int).contains(x));
                                                let j = choose|j: int| before.len() <= j < out@.len() && (#[trigger] out@[j])@ == x;
                                            }
                                        }
                                    }
                                }
                            },
                            None => {
                                proof {
                                    assert forall|x: Seq<u8>| #[trigger] views_from(out@, start).contains(x) <==> (want.contains(x)
                                        && exists|l: int| 0 <= l < i + 1 && sl[l] is Some && (#[trigger] sl[l])->0.key == x[e - p]) by {
                                        if exists|l: int| 0 <= l < i + 1 && sl[l] is Some && (#[trigger] sl[l])->0.key == x[e - p] {
                                            let l = choose|l: int| 0 <= l < i + 1 && sl[l] is Some && (#[trigger] sl[l])->0.key == x[e - p];
                                            assert(l != i);
                                        }
                                    }
                                }
                            },
                        }
                        i = i + 1;
                    }
                    proof {
                        br.child_table.lemma_slots();
                        lemma_branch_view(**br);
                        assert(views_from(out@, start) =~= want) by {
                            assert forall|x: Seq<u8>| #[trigger] want.contains(x) implies views_from(out@, start).contains(x) by {
                                let k = choose|k: Seq<u8>| #[trigger] m.contains_key(k) && agrees(k, prefix@, 0, p) && x == k.subrange(p, p + n);
                                let c = k[e as int];
                                assert(br.child_table@.contains_key(c));
                                let l = choose|l: int| 0 <= l < br.child_table.spec_len() && br.child_table.spec_slot(l) == Some(br.child_table@[c])
                                    && br.child_table@[c].spec_key() == c;
                                assert(sl[l] is Some && sl[l]->0.key == x[e - p]);
                            }
                        }
                    }
                }
            },
        }
    }
}

} // verus!
