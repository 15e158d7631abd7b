//! A byte-keyed cuckoo hash table.
//!
//! Each table has a power-of-two number of slots, grouped into buckets of
//! `BUCKET_ENTRY_COUNT` slots. An entry with byte key `k` may live in the
//! bucket picked by the cheap hash (the identity) or in the bucket picked by
//! the random hash (a fixed byte permutation), both compressed to the current
//! bucket count by masking off the upper bits. Doubling the table therefore
//! keeps each entry either in its bucket or moves it to the bucket one half
//! further up.
use vstd::prelude::*;

verus! {

/// The number of slots per bucket.
pub const BUCKET_ENTRY_COUNT: usize = 2;

/// The maximum number of slots per table.
pub const MAX_SLOT_COUNT: usize = 256;

/// The maximum number of cuckoo displacements attempted during
/// insert before the table asks to be grown.
pub const MAX_RETRIES: usize = 4;

/// Types stored in a byte table expose the byte they are keyed by.
pub trait ByteEntry {
    spec fn spec_key(&self) -> u8;

    fn key(&self) -> (r: u8)
        ensures
            r == self.spec_key(),
    ;
}

/// The slot counts a table may have: powers of two from 2 to 256.
pub open spec fn is_table_size(n: int) -> bool {
    n == 2 || n == 4 || n == 8 || n == 16 || n == 32 || n == 64 || n == 128 || n == 256
}

pub open spec fn spec_cheap_hash(byte_key: u8) -> u8 {
    byte_key
}

pub open spec fn spec_rand_hash(byte_key: u8) -> u8 {
    ((byte_key as int * 167 + 13) % 256) as u8
}

pub open spec fn spec_compress_hash(slot_count: int, hash: u8) -> u8 {
    (hash as int % (slot_count / 2)) as u8
}

/// A cheap hash *cough* identity *cough* function that maps every entry to an
/// almost linear ordering (modulo `BUCKET_ENTRY_COUNT`) when maximally grown.
pub fn cheap_hash(byte_key: u8) -> (r: u8)
    ensures
        r == spec_cheap_hash(byte_key),
{
    byte_key
}

/// A hash function providing a scrambled bijective byte -> byte mapping.
pub fn rand_hash(byte_key: u8) -> (r: u8)
    ensures
        r == spec_rand_hash(byte_key),
{
    ((byte_key as u32 * 167 + 13) % 256) as u8
}

/// The pseudo random state that follows `state`.
pub open spec fn spec_rand_step(state: u8) -> u8 {
    ((state as int * 197 + 89) % 256) as u8
}

/// Steps the pseudo random state used to pick displaced slots.
fn rand_step(state: u8) -> (r: u8)
    ensures
        r == spec_rand_step(state),
{
    ((state as u32 * 197 + 89) % 256) as u8
}

/// Cut off the upper bits of `hash` so that it indexes one of the buckets.
pub fn compress_hash(slot_count: usize, hash: u8) -> (r: u8)
    requires
        is_table_size(slot_count as int),
    ensures
        r == spec_compress_hash(slot_count as int, hash),
        (r as int) < slot_count / 2,
{
    let bucket_count = (slot_count / BUCKET_ENTRY_COUNT) as u8;
    let mask = bucket_count - 1;
    let r = hash & mask;
    proof {
        let m = mask;
        let bc = bucket_count;
        assert(hash & m == hash % bc && hash & m < bc) by (bit_vector)
            requires
                m + 1 == bc,
                bc == 1u8 || bc == 2u8 || bc == 4u8 || bc == 8u8 || bc == 16u8 || bc == 32u8 || bc
                    == 64u8 || bc == 128u8,
        ;
    }
    r
}

/// Whether bucket `bucket` is one of the two buckets that key `k` may live in.
pub open spec fn valid_bucket(slot_count: int, bucket: int, k: u8) -> bool {
    bucket == spec_compress_hash(slot_count, spec_cheap_hash(k)) as int || bucket
        == spec_compress_hash(slot_count, spec_rand_hash(k)) as int
}

pub open spec fn slot_key<T: ByteEntry>(s: Seq<Option<T>>, i: int) -> u8 {
    s[i]->0.spec_key()
}

/// Slot `i` holds an entry keyed by `k`.
pub open spec fn has_key_at<T: ByteEntry>(s: Seq<Option<T>>, i: int, k: u8) -> bool {
    0 <= i < s.len() && s[i] is Some && s[i]->0.spec_key() == k
}

pub open spec fn keys_unique<T: ByteEntry>(s: Seq<Option<T>>) -> bool {
    forall|i: int, j: int|
        0 <= i < s.len() && 0 <= j < s.len() && i != j && s[i] is Some && s[j] is Some
            ==> #[trigger] slot_key(s, i) != #[trigger] slot_key(s, j)
}

pub open spec fn positions_valid<T: ByteEntry>(s: Seq<Option<T>>) -> bool {
    forall|i: int| 0 <= i < s.len() && #[trigger] s[i] is Some ==> valid_bucket(s.len() as int, i / 2, s[i]->0.spec_key())
}

pub open spec fn slots_wf<T: ByteEntry>(s: Seq<Option<T>>) -> bool {
    &&& is_table_size(s.len() as int)
    &&& positions_valid(s)
    &&& keys_unique(s)
}

/// Both slots of bucket `b` are empty.
pub open spec fn bucket_empty<T>(s: Seq<Option<T>>, b: int) -> bool {
    s[2 * b] is None && s[2 * b + 1] is None
}

/// The entries of a slot sequence, by key.
pub open spec fn slots_view<T: ByteEntry>(s: Seq<Option<T>>) -> Map<u8, T> {
    Map::new(
        |k: u8| exists|i: int| has_key_at(s, i, k),
        |k: u8| s[choose|i: int| has_key_at(s, i, k)]->0,
    )
}

/// The number of entries that sit outside of their cheap bucket.
pub open spec fn expensive_count<T: ByteEntry>(s: Seq<Option<T>>, n: int) -> nat
    decreases n,
{
    if n <= 0 {
        0
    } else {
        expensive_count(s, n - 1) + (if s[n - 1] is Some && (n - 1) / 2 != spec_compress_hash(
            s.len() as int,
            s[n - 1]->0.spec_key(),
        ) as int {
            1nat
        } else {
            0nat
        })
    }
}

proof fn lemma_view_at<T: ByteEntry>(s: Seq<Option<T>>, i: int)
    requires
        keys_unique(s),
        0 <= i < s.len(),
        s[i] is Some,
    ensures
        slots_view(s).contains_key(s[i]->0.spec_key()),
        slots_view(s)[s[i]->0.spec_key()] == s[i]->0,
{
    let k = s[i]->0.spec_key();
    assert(has_key_at(s, i, k));
    let j = choose|j: int| has_key_at(s, j, k);
    if j != i {
        assert(slot_key(s, i) != slot_key(s, j));
    }
}

/// Replacing slot `i` removes the key it held and adds the key of `x`.
proof fn lemma_view_update<T: ByteEntry>(s: Seq<Option<T>>, i: int, x: Option<T>)
    requires
        keys_unique(s),
        0 <= i < s.len(),
        x matches Some(e) ==> forall|j: int|
            0 <= j < s.len() && j != i && s[j] is Some ==> s[j]->0.spec_key() != e.spec_key(),
    ensures
        keys_unique(s.update(i, x)),
        slots_view(s.update(i, x)) == (match (s[i], x) {
            (None, None) => slots_view(s),
            (Some(d), None) => slots_view(s).remove(d.spec_key()),
            (None, Some(e)) => slots_view(s).insert(e.spec_key(), e),
            (Some(d), Some(e)) => slots_view(s).remove(d.spec_key()).insert(e.spec_key(), e),
        }),
{
    let t = s.update(i, x);
    assert forall|a: int, b: int|
        0 <= a < t.len() && 0 <= b < t.len() && a != b && t[a] is Some && t[b] is Some implies #[trigger] slot_key(
        t,
        a,
    ) != #[trigger] slot_key(t, b) by {
        if a != i && b != i {
            assert(slot_key(s, a) != slot_key(s, b));
        }
    }
    let target = match (s[i], x) {
        (None, None) => slots_view(s),
        (Some(d), None) => slots_view(s).remove(d.spec_key()),
        (None, Some(e)) => slots_view(s).insert(e.spec_key(), e),
        (Some(d), Some(e)) => slots_view(s).remove(d.spec_key()).insert(e.spec_key(), e),
    };
    assert forall|k: u8| #[trigger] slots_view(t).contains_key(k) == target.contains_key(k) by {
        if slots_view(t).contains_key(k) {
            let j = choose|j: int| has_key_at(t, j, k);
            if j != i {
                assert(has_key_at(s, j, k));
                if s[i] is Some {
                    if s[i]->0.spec_key() == k {
                        assert(slot_key(s, i) != slot_key(s, j));
                    }
                }
            }
        }
        if target.contains_key(k) {
            if x is Some && x->0.spec_key() == k {
                assert(has_key_at(t, i, k));
            } else {
                let j = choose|j: int| has_key_at(s, j, k);
                assert(j != i);
                assert(has_key_at(t, j, k));
            }
        }
    }
    assert forall|k: u8| #[trigger] slots_view(t).contains_key(k) implies slots_view(t)[k]
        == target[k] by {
        let j = choose|j: int| has_key_at(t, j, k);
        lemma_view_at(t, j);
        if j != i {
            lemma_view_at(s, j);
        }
    }
    assert(slots_view(t) =~= target);
}

proof fn lemma_expensive_update<T: ByteEntry>(s: Seq<Option<T>>, i: int, x: Option<T>, n: int)
    requires
        0 <= i < n <= s.len(),
    ensures
        expensive_count(s.update(i, x), n) + (if s[i] is Some && i / 2 != spec_compress_hash(
            s.len() as int,
            s[i]->0.spec_key(),
        ) as int {
            1int
        } else {
            0int
        }) == expensive_count(s, n) + (if x is Some && i / 2 != spec_compress_hash(
            s.len() as int,
            x->0.spec_key(),
        ) as int {
            1int
        } else {
            0int
        }),
    decreases n,
{
    if n - 1 > i {
        lemma_expensive_update(s, i, x, n - 1);
    } else {
        lemma_expensive_unchanged(s, s.update(i, x), i);
    }
}

proof fn lemma_expensive_unchanged<T: ByteEntry>(s: Seq<Option<T>>, t: Seq<Option<T>>, n: int)
    requires
        0 <= n <= s.len(),
        s.len() == t.len(),
        forall|j: int| 0 <= j < n ==> s[j] == t[j],
    ensures
        expensive_count(s, n) == expensive_count(t, n),
    decreases n,
{
    if n > 0 {
        lemma_expensive_unchanged(s, t, n - 1);
    }
}

/// Growing keeps an entry in its bucket or moves it one half further up.
proof fn lemma_grow_bucket(n: int, h: u8)
    requires
        is_table_size(n),
        n < 256,
    ensures
        spec_compress_hash(2 * n, h) as int == spec_compress_hash(n, h) as int
            || spec_compress_hash(2 * n, h) as int == spec_compress_hash(n, h) as int + n / 2,
{
    let q = n / 2;
    assert(q * 2 == n);
    assert((2 * n) / 2 == n);
    vstd::arithmetic::div_mod::lemma_mod_breakdown(h as int, q, 2);
    let r = (h as int / q) % 2;
    assert(0 <= r < 2);
    if r == 0 {
        assert(q * r == 0) by (nonlinear_arith)
            requires
                r == 0,
        ;
    } else {
        assert(q * r == q) by (nonlinear_arith)
            requires
                r == 1,
        ;
    }
    assert(h as int % n < n);
    assert(h as int % q < q);
}

/// In a maximal table a full bucket cannot hold two entries in their cheap
/// bucket when a third key of that cheap bucket is being inserted.
proof fn lemma_max_bucket<T: ByteEntry>(s: Seq<Option<T>>, b: int, k: u8)
    requires
        s.len() == 256,
        keys_unique(s),
        0 <= b < 128,
        s[2 * b] is Some,
        s[2 * b + 1] is Some,
        slot_key(s, 2 * b) != k,
        slot_key(s, 2 * b + 1) != k,
        spec_compress_hash(256, k) == b,
    ensures
        !(spec_compress_hash(256, slot_key(s, 2 * b)) == b && spec_compress_hash(
            256,
            slot_key(s, 2 * b + 1),
        ) == b),
{
    let x1 = slot_key(s, 2 * b);
    let x2 = slot_key(s, 2 * b + 1);
    assert(x1 != x2);
    assert(k as int == b || k as int == b + 128) by (nonlinear_arith)
        requires
            (k as int) % 128 == b,
            0 <= k < 256,
    ;
    if spec_compress_hash(256, x1) == b && spec_compress_hash(256, x2) == b {
        assert(x1 as int == b || x1 as int == b + 128) by (nonlinear_arith)
            requires
                (x1 as int) % 128 == b,
                0 <= x1 < 256,
        ;
        assert(x2 as int == b || x2 as int == b + 128) by (nonlinear_arith)
            requires
                (x2 as int) % 128 == b,
                0 <= x2 < 256,
        ;
    }
}

/// A byte-keyed cuckoo hash table of entries.
pub struct ByteTable<T> {
    pub slots: Vec<Option<T>>,
    pub rand: u8,
}

impl<T: ByteEntry> View for ByteTable<T> {
    type V = Map<u8, T>;

    closed spec fn view(&self) -> Map<u8, T> {
        slots_view(self.slots@)
    }
}

impl<T: ByteEntry> ByteTable<T> {
    pub closed spec fn wf(&self) -> bool {
        slots_wf(self.slots@)
    }

    /// The number of slots of the table.
    pub open spec fn spec_len(&self) -> nat {
        self.slots@.len()
    }

    /// The slots of the table.
    pub open spec fn spec_slots(&self) -> Seq<Option<T>> {
        self.slots@
    }

    /// The entry in slot `i`, if any.
    pub open spec fn spec_slot(&self, i: int) -> Option<T> {
        self.slots@[i]
    }

    /// Every entry of the table sits in some slot, and every slot holds an
    /// entry of the table.
    pub proof fn lemma_slots(&self)
        requires
            self.wf(),
        ensures
            is_table_size(self.spec_len() as int),
            self@.dom().finite(),
            self@.dom().len() <= self.spec_len(),
            forall|i: int|
                0 <= i < self.spec_len() && (#[trigger] self.spec_slot(i)) is Some ==> self@.contains_key(
                    self.spec_slot(i)->0.spec_key(),
                ) && self@[self.spec_slot(i)->0.spec_key()] == self.spec_slot(i)->0,
            forall|k: u8|
                #[trigger] self@.contains_key(k) ==> exists|i: int|
                    0 <= i < self.spec_len() && self.spec_slot(i) == Some(self@[k]) && self@[k].spec_key() == k,
            forall|i: int, j: int|
                0 <= i < self.spec_len() && 0 <= j < self.spec_len() && i != j && (#[trigger] self.spec_slot(i)) is Some
                    && (#[trigger] self.spec_slot(j)) is Some ==> self.spec_slot(i)->0.spec_key() != self.spec_slot(j)->0.spec_key(),
    {
        assert forall|i: int, j: int|
            0 <= i < self.spec_len() && 0 <= j < self.spec_len() && i != j && (#[trigger] self.spec_slot(i)) is Some
                && (#[trigger] self.spec_slot(j)) is Some implies self.spec_slot(i)->0.spec_key() != self.spec_slot(j)->0.spec_key() by {
            assert(slot_key(self.slots@, i) != slot_key(self.slots@, j));
        }
        assert forall|i: int|
            0 <= i < self.spec_len() && (#[trigger] self.spec_slot(i)) is Some implies self@.contains_key(
            self.spec_slot(i)->0.spec_key(),
        ) && self@[self.spec_slot(i)->0.spec_key()] == self.spec_slot(i)->0 by {
            lemma_view_at(self.slots@, i);
        }
        assert forall|k: u8| #[trigger] self@.contains_key(k) implies exists|i: int|
            0 <= i < self.spec_len() && self.spec_slot(i) == Some(self@[k]) && self@[k].spec_key() == k by {
            let i = choose|i: int| has_key_at(self.slots@, i, k);
            lemma_view_at(self.slots@, i);
            assert(self.slots@[i] == Some(self.slots@[i]->0));
            assert(0 <= i < self.spec_len() && self.spec_slot(i) == Some(self@[k]) && self@[k].spec_key() == k);
        }
        self.lemma_dom_len();
    }

    proof fn lemma_dom_len(&self)
        requires
            self.wf(),
        ensures
            self@.dom().finite(),
            self@.dom().len() <= self.spec_len(),
    {
        let s = self.slots@;
        let idx = Set::new(|i: int| 0 <= i < s.len() && s[i] is Some);
        let g = |i: int| slot_key(s, i);
        vstd::set_lib::lemma_int_range(0, s.len() as int);
        assert(idx.subset_of(vstd::set_lib::set_int_range(0, s.len() as int)));
        vstd::set_lib::lemma_len_subset(idx, vstd::set_lib::set_int_range(0, s.len() as int));
        assert forall|k: u8| #[trigger] self@.dom().contains(k) implies idx.map(g).contains(k) by {
            let i = choose|i: int| has_key_at(s, i, k);
            assert(idx.contains(i));
            assert(g(i) == k);
        }
        assert forall|k: u8| #[trigger] idx.map(g).contains(k) implies self@.dom().contains(k) by {
            let i = choose|i: int| idx.contains(i) && g(i) == k;
            assert(has_key_at(s, i, k));
        }
        assert(self@.dom() =~= idx.map(g));
        vstd::set_lib::lemma_map_size_bound(idx, idx.map(g), g);
    }

    /// Creates an empty table with `slot_count` slots.
    pub fn new(slot_count: usize) -> (r: Self)
        requires
            is_table_size(slot_count as int),
        ensures
            r.wf(),
            r@ == Map::<u8, T>::empty(),
            r.spec_len() == slot_count,
            forall|j: int| 0 <= j < slot_count ==> (#[trigger] r.spec_slots()[j]) is None,
    {
        let mut slots: Vec<Option<T>> = Vec::new();
        let mut i: usize = 0;
        while i < slot_count
            invariant
                i <= slot_count,
                slots@.len() == i,
                forall|j: int| 0 <= j < i ==> slots@[j] is None,
            decreases slot_count - i,
        {
            slots.push(None);
            i = i + 1;
        }
        let r = ByteTable { slots, rand: 4 };
        assert(r@ =~= Map::<u8, T>::empty());
        r
    }

    /// The number of slots of the table.
    pub fn len(&self) -> (r: usize)
        ensures
            r == self.spec_len(),
    {
        self.slots.len()
    }

    /// Read access to slot `i`.
    pub fn slot(&self, i: usize) -> (r: &Option<T>)
        requires
            i < self.spec_len(),
        ensures
            *r == self.spec_slot(i as int),
    {
        &self.slots[i]
    }

    /// Find the slot of `bucket_index` holding `byte_key`.
    pub fn get_slot(&self, bucket_index: usize, byte_key: u8) -> (r: Option<usize>)
        requires
            self.wf(),
            bucket_index < self.spec_len() / 2,
        ensures
            r matches Some(i) ==> i / 2 == bucket_index && has_key_at(self.spec_slots(), i as int, byte_key),
            r is None ==> !has_key_at(self.spec_slots(), 2 * bucket_index as int, byte_key)
                && !has_key_at(self.spec_slots(), 2 * bucket_index + 1, byte_key),
    {
        let start = bucket_index * BUCKET_ENTRY_COUNT;
        let mut i: usize = start;
        while i < start + BUCKET_ENTRY_COUNT
            invariant
                start == 2 * bucket_index,
                start + 2 <= self.slots@.len(),
                self.slots@.len() <= 256,
                start <= i <= start + 2,
                forall|j: int| start <= j < i ==> !has_key_at(self.slots@, j, byte_key),
            decreases start + 2 - i,
        {
            if let Some(entry) = &self.slots[i] {
                if entry.key() == byte_key {
                    return Some(i);
                }
            }
            i = i + 1;
        }
        None
    }

    /// Find the slot that holds `byte_key`.
    pub fn table_get_slot(&self, byte_key: u8) -> (r: Option<usize>)
        requires
            self.wf(),
        ensures
            r matches Some(i) ==> has_key_at(self.spec_slots(), i as int, byte_key),
            r is None <==> !self@.contains_key(byte_key),
    {
        let n = self.slots.len();
        let cheap = compress_hash(n, cheap_hash(byte_key)) as usize;
        let rand = compress_hash(n, rand_hash(byte_key)) as usize;
        if let Some(i) = self.get_slot(cheap, byte_key) {
            return Some(i);
        }
        if let Some(i) = self.get_slot(rand, byte_key) {
            return Some(i);
        }
        proof {
            assert forall|j: int| 0 <= j < self.slots@.len() && self.slots@[j] is Some implies self.slots@[j]->0.spec_key() != byte_key by {
                if self.slots@[j]->0.spec_key() == byte_key {
                    assert(valid_bucket(n as int, j / 2, byte_key));
                    assert(has_key_at(self.slots@, j, byte_key));
                }
            }
        }
        None
    }

    /// Returns the entry keyed by `byte_key`.
    pub fn table_get(&self, byte_key: u8) -> (r: Option<&T>)
        requires
            self.wf(),
        ensures
            r matches Some(e) ==> self@.contains_key(byte_key) && self@[byte_key] == *e,
            r is None <==> !self@.contains_key(byte_key),
    {
        match self.table_get_slot(byte_key) {
            Some(i) => {
                proof {
                    lemma_view_at(self.slots@, i as int);
                }
                self.slots[i].as_ref()
            },
            None => None,
        }
    }

    /// Removes and returns the entry keyed by `byte_key`.
    pub fn table_take(&mut self, byte_key: u8) -> (r: Option<T>)
        requires
            old(self).wf(),
        ensures
            final(self).wf(),
            final(self).spec_len() == old(self).spec_len(),
            final(self)@ == old(self)@.remove(byte_key),
            r matches Some(e) ==> old(self)@.contains_key(byte_key) && old(self)@[byte_key] == e,
            r is None <==> !old(self)@.contains_key(byte_key),
    {
        match self.table_get_slot(byte_key) {
            Some(i) => {
                proof {
                    lemma_view_at(self.slots@, i as int);
                    lemma_view_update(self.slots@, i as int, None);
                }
                let r = self.slots[i].take();
                proof {
                    assert(self.slots@ == old(self).spec_slots().update(i as int, None));
                    assert(positions_valid(self.slots@)) by {
                        assert forall|j: int| 0 <= j < self.slots@.len() && #[trigger] self.slots@[j] is Some implies valid_bucket(
                            self.slots@.len() as int,
                            j / 2,
                            self.slots@[j]->0.spec_key(),
                        ) by {
                            assert(old(self).spec_slots()[j] is Some);
                        }
                    }
                }
                r
            },
            None => {
                assert(old(self)@.remove(byte_key) =~= old(self)@);
                None
            },
        }
    }

    /// Move `shoved_entry` into an empty slot of `bucket_index`;
    /// hands it back if the bucket is full.
    pub fn shove_empty_slot(&mut self, bucket_index: usize, shoved_entry: T) -> (r: Option<T>)
        requires
            old(self).wf(),
            bucket_index < old(self).spec_len() / 2,
            valid_bucket(old(self).spec_len() as int, bucket_index as int, shoved_entry.spec_key()),
            !old(self)@.contains_key(shoved_entry.spec_key()),
        ensures
            final(self).wf(),
            final(self).spec_len() == old(self).spec_len(),
            r is None ==> final(self)@ == old(self)@.insert(shoved_entry.spec_key(), shoved_entry)
                && expensive_count(final(self).spec_slots(), final(self).spec_slots().len() as int)
                <= expensive_count(old(self).spec_slots(), old(self).spec_slots().len() as int) + 1,
            r matches Some(e) ==> e == shoved_entry && *final(self) == *old(self)
                && old(self).spec_slots()[2 * bucket_index as int] is Some
                && old(self).spec_slots()[2 * bucket_index + 1] is Some,
            (old(self).spec_slots()[2 * bucket_index as int] is None
                || old(self).spec_slots()[2 * bucket_index + 1] is None) ==> r is None,
            (old(self).spec_slots()[2 * bucket_index as int] is None) ==> final(self).spec_slots() == old(self).spec_slots().update(2 * bucket_index as int, Some(shoved_entry)),
            (old(self).spec_slots()[2 * bucket_index as int] is Some && old(self).spec_slots()[2 * bucket_index + 1] is None)
                ==> final(self).spec_slots() == old(self).spec_slots().update(2 * bucket_index + 1, Some(shoved_entry)),
    {
        let start = bucket_index * BUCKET_ENTRY_COUNT;
        let mut i: usize = start;
        while i < start + BUCKET_ENTRY_COUNT
            invariant
                start == 2 * bucket_index,
                start + 2 <= self.slots@.len(),
                self.slots@.len() <= 256,
                start <= i <= start + 2,
                *self == *old(self),
                self.wf(),
                valid_bucket(self.slots@.len() as int, bucket_index as int, shoved_entry.spec_key()),
                !self@.contains_key(shoved_entry.spec_key()),
                forall|j: int| start <= j < i ==> self.slots@[j] is Some,
            decreases start + 2 - i,
        {
            if self.slots[i].is_none() {
                let ghost s = self.slots@;
                proof {
                    assert forall|j: int| 0 <= j < s.len() && j != i && s[j] is Some implies s[j]->0.spec_key() != shoved_entry.spec_key() by {
                        lemma_view_at(s, j);
                    }
                    lemma_view_update(s, i as int, Some(shoved_entry));
                    lemma_expensive_update(s, i as int, Some(shoved_entry), s.len() as int);
                }
                self.slots.set(i, Some(shoved_entry));
                proof {
                    assert(self.slots@ == s.update(i as int, Some(shoved_entry)));
                    assert forall|j: int| 0 <= j < self.slots@.len() && #[trigger] self.slots@[j] is Some implies valid_bucket(
                        self.slots@.len() as int,
                        j / 2,
                        self.slots@[j]->0.spec_key(),
                    ) by {
                        if j != i {
                            assert(s[j] is Some);
                        }
                    }
                }
                return None;
            }
            i = i + 1;
        }
        Some(shoved_entry)
    }

    /// Move `shoved_entry` into `bucket_index`, displacing and returning a
    /// pseudo randomly picked entry of that (full) bucket.
    pub fn shove_random_slot(&mut self, bucket_index: usize, shoved_entry: T) -> (r: Option<T>)
        requires
            old(self).wf(),
            bucket_index < old(self).spec_len() / 2,
            valid_bucket(old(self).spec_len() as int, bucket_index as int, shoved_entry.spec_key()),
            !old(self)@.contains_key(shoved_entry.spec_key()),
            old(self).spec_slots()[2 * bucket_index as int] is Some,
            old(self).spec_slots()[2 * bucket_index + 1] is Some,
        ensures
            final(self).wf(),
            final(self).spec_len() == old(self).spec_len(),
            r matches Some(d) && old(self)@.contains_key(d.spec_key()) && old(self)@[d.spec_key()] == d
                && d.spec_key() != shoved_entry.spec_key()
                && final(self)@ == old(self)@.remove(d.spec_key()).insert(shoved_entry.spec_key(), shoved_entry),
    {
        let pick = self.rand as usize & (BUCKET_ENTRY_COUNT - 1);
        proof {
            let x = self.rand as usize;
            assert(x & 1usize <= 1usize) by (bit_vector);
        }
        let index = bucket_index * BUCKET_ENTRY_COUNT + pick;
        let ghost s = self.slots@;
        proof {
            lemma_view_at(s, index as int);
            assert forall|j: int| 0 <= j < s.len() && j != index && s[j] is Some implies s[j]->0.spec_key() != shoved_entry.spec_key() by {
                lemma_view_at(s, j);
            }
            lemma_view_update(s, index as int, Some(shoved_entry));
        }
        let displaced = self.slots[index].take();
        self.slots.set(index, Some(shoved_entry));
        proof {
            assert(self.slots@ == s.update(index as int, Some(shoved_entry)));
            assert forall|j: int| 0 <= j < self.slots@.len() && #[trigger] self.slots@[j] is Some implies valid_bucket(
                self.slots@.len() as int,
                j / 2,
                self.slots@[j]->0.spec_key(),
            ) by {
                if j != index {
                    assert(s[j] is Some);
                }
            }
        }
        displaced
    }

    /// Move `shoved_entry` into `bucket_index`, taking an empty slot or
    /// displacing and returning an entry that does not sit in its cheap bucket.
    /// Hands the entry back if neither exists.
    pub fn shove_expensive_slot(&mut self, bucket_index: usize, shoved_entry: T) -> (r: Option<T>)
        requires
            old(self).wf(),
            bucket_index < old(self).spec_len() / 2,
            valid_bucket(old(self).spec_len() as int, bucket_index as int, shoved_entry.spec_key()),
            !old(self)@.contains_key(shoved_entry.spec_key()),
        ensures
            final(self).wf(),
            final(self).spec_len() == old(self).spec_len(),
            r is None ==> final(self)@ == old(self)@.insert(shoved_entry.spec_key(), shoved_entry),
            r matches Some(d) ==> (d == shoved_entry && *final(self) == *old(self)
                && old(self).spec_slots()[2 * bucket_index as int] is Some
                && old(self).spec_slots()[2 * bucket_index + 1] is Some
                && spec_compress_hash(old(self).spec_len() as int, slot_key(old(self).spec_slots(), 2 * bucket_index as int)) == bucket_index
                && spec_compress_hash(old(self).spec_len() as int, slot_key(old(self).spec_slots(), 2 * bucket_index + 1)) == bucket_index)
                || (old(self)@.contains_key(d.spec_key()) && old(self)@[d.spec_key()] == d
                && d.spec_key() != shoved_entry.spec_key()
                && final(self)@ == old(self)@.remove(d.spec_key()).insert(shoved_entry.spec_key(), shoved_entry)
                && (bucket_index == spec_compress_hash(old(self).spec_len() as int, shoved_entry.spec_key())
                    ==> expensive_count(final(self).spec_slots(), final(self).spec_slots().len() as int) < expensive_count(old(self).spec_slots(), old(self).spec_slots().len() as int))),
    {
        let slot_count = self.slots.len();
        let start = bucket_index * BUCKET_ENTRY_COUNT;
        let mut i: usize = start;
        while i < start + BUCKET_ENTRY_COUNT
            invariant
                start == 2 * bucket_index,
                slot_count == self.slots@.len(),
                start + 2 <= self.slots@.len(),
                self.slots@.len() <= 256,
                start <= i <= start + 2,
                *self == *old(self),
                self.wf(),
                valid_bucket(self.slots@.len() as int, bucket_index as int, shoved_entry.spec_key()),
                !self@.contains_key(shoved_entry.spec_key()),
                forall|j: int| start <= j < i ==> self.slots@[j] is Some
                    && spec_compress_hash(slot_count as int, slot_key(self.slots@, j)) == bucket_index,
            decreases start + 2 - i,
        {
            let ghost s = self.slots@;
            proof {
                assert forall|j: int| 0 <= j < s.len() && j != i && s[j] is Some implies s[j]->0.spec_key() != shoved_entry.spec_key() by {
                    lemma_view_at(s, j);
                }
                lemma_view_update(s, i as int, Some(shoved_entry));
                lemma_expensive_update(s, i as int, Some(shoved_entry), s.len() as int);
            }
            let is_none = self.slots[i].is_none();
            if is_none {
                self.slots.set(i, Some(shoved_entry));
                proof {
                    assert(self.slots@ == s.update(i as int, Some(shoved_entry)));
                    assert forall|j: int| 0 <= j < self.slots@.len() && #[trigger] self.slots@[j] is Some implies valid_bucket(
                        self.slots@.len() as int,
                        j / 2,
                        self.slots@[j]->0.spec_key(),
                    ) by {
                        if j != i {
                            assert(s[j] is Some);
                        }
                    }
                }
                return None;
            }
            let entry_key = match &self.slots[i] {
                Some(e) => e.key(),
                None => 0,
            };
            let entry_hash: u8 = compress_hash(slot_count, cheap_hash(entry_key));
            if bucket_index as u8 != entry_hash {
                proof {
                    lemma_view_at(s, i as int);
                }
                let displaced = self.slots[i].take();
                self.slots.set(i, Some(shoved_entry));
                proof {
                    assert(self.slots@ == s.update(i as int, Some(shoved_entry)));
                    assert forall|j: int| 0 <= j < self.slots@.len() && #[trigger] self.slots@[j] is Some implies valid_bucket(
                        self.slots@.len() as int,
                        j / 2,
                        self.slots@[j]->0.spec_key(),
                    ) by {
                        if j != i {
                            assert(s[j] is Some);
                        }
                    }
                }
                return displaced;
            }
            i = i + 1;
        }
        Some(shoved_entry)
    }

    /// Inserts `inserted`, whose key must not be in the table yet.
    ///
    /// Returns `None` when the entry was placed. Otherwise an entry (the
    /// inserted one or one it displaced) is handed back, and the table holds
    /// all other entries: the caller should grow the table and insert it there.
    /// A table of the maximal size always accepts the entry.
    #[verifier::rlimit(40)]
    pub fn table_insert(&mut self, inserted: T) -> (r: Option<T>)
        requires
            old(self).wf(),
            !old(self)@.contains_key(inserted.spec_key()),
        ensures
            final(self).wf(),
            final(self).spec_len() == old(self).spec_len(),
            r is None ==> final(self)@ == old(self)@.insert(inserted.spec_key(), inserted),
            r matches Some(d) ==> !final(self)@.contains_key(d.spec_key())
                && final(self)@.insert(d.spec_key(), d) == old(self)@.insert(inserted.spec_key(), inserted),
            old(self).spec_len() == MAX_SLOT_COUNT ==> r is None,
    {
        let ghost target = old(self)@.insert(inserted.spec_key(), inserted);
        let mut entry = inserted;
        let mut byte_key = entry.key();
        let table_size = self.slots.len();
        let max_grown = table_size == MAX_SLOT_COUNT;
        let min_grown = table_size == BUCKET_ENTRY_COUNT;
        let mut use_cheap_hash = true;
        let mut retries: usize = 0;
        loop
            invariant
                self.wf(),
                self.spec_len() == table_size,
                table_size == old(self).spec_len(),
                target == old(self)@.insert(inserted.spec_key(), inserted),
                is_table_size(table_size as int),
                max_grown == (table_size == MAX_SLOT_COUNT),
                min_grown == (table_size == BUCKET_ENTRY_COUNT),
                byte_key == entry.spec_key(),
                !self@.contains_key(byte_key),
                self@.insert(byte_key, entry) == target,
                retries <= MAX_RETRIES,
                max_grown ==> use_cheap_hash && retries == 0,
            decreases (if max_grown {
                expensive_count(self.slots@, self.slots@.len() as int) as int
            } else {
                0
            }), MAX_RETRIES - retries,
        {
            self.rand = rand_step(self.rand ^ byte_key);
            let hash = if use_cheap_hash {
                cheap_hash(byte_key)
            } else {
                rand_hash(byte_key)
            };
            let bucket_index = compress_hash(table_size, hash);
            let ghost before = *self;
            match self.shove_empty_slot(bucket_index as usize, entry) {
                None => {
                    return None;
                },
                Some(e) => {
                    entry = e;
                },
            }
            if min_grown || retries == MAX_RETRIES {
                return Some(entry);
            }
            if max_grown {
                proof {
                    let s = self.slots@;
                    let b = bucket_index as int;
                    lemma_view_at(s, 2 * b);
                    lemma_view_at(s, 2 * b + 1);
                    lemma_max_bucket(s, b, byte_key);
                }
                match self.shove_expensive_slot(bucket_index as usize, entry) {
                    None => {
                        return None;
                    },
                    Some(e) => {
                        entry = e;
                    },
                }
                byte_key = entry.key();
            } else {
                retries = retries + 1;
                match self.shove_random_slot(bucket_index as usize, entry) {
                    None => {
                        return None;
                    },
                    Some(e) => {
                        entry = e;
                    },
                }
                byte_key = entry.key();
                use_cheap_hash = bucket_index != compress_hash(table_size, cheap_hash(byte_key));
            }
        }
    }

    /// Moves the entry of old slot `i` into its bucket of the grown table.
    fn grow_move(&mut self, grown: &mut Self, i: usize, Ghost(orig): Ghost<Map<u8, T>>)
        requires
            keys_unique(old(self).slots@),
            is_table_size(old(self).slots@.len() as int),
            old(self).slots@.len() < 256,
            i < old(self).slots@.len(),
            old(self).slots@[i as int] is Some ==> valid_bucket(
                old(self).slots@.len() as int,
                i as int / 2,
                old(self).slots@[i as int]->0.spec_key(),
            ),
            old(grown).wf(),
            old(grown).slots@.len() == 2 * old(self).slots@.len(),
            old(grown)@.dom().disjoint(old(self)@.dom()),
            old(grown)@.union_prefer_right(old(self)@) == orig,
            ({
                let half = old(self).slots@.len() / 2;
                let b = i as int / 2;
                old(grown).slots@[2 * b + 1] is None && old(grown).slots@[2 * (b + half) + 1] is None
            }),
        ensures
            keys_unique(final(self).slots@),
            final(self).slots@ == old(self).slots@.update(i as int, None),
            final(grown).wf(),
            final(grown).slots@.len() == old(grown).slots@.len(),
            final(grown)@.dom().disjoint(final(self)@.dom()),
            final(grown)@.union_prefer_right(final(self)@) == orig,
            forall|j: int|
                0 <= j < final(grown).slots@.len() && j / 2 != i as int / 2 && j / 2 != i as int / 2
                    + old(self).slots@.len() / 2 ==> final(grown).slots@[j] == old(grown).slots@[j],
            ({
                let half = old(self).slots@.len() / 2;
                let b = i as int / 2;
                (old(grown).slots@[2 * b] is None ==> final(grown).slots@[2 * b + 1] is None)
                    && (old(grown).slots@[2 * (b + half)] is None ==> final(grown).slots@[2 * (b
                    + half) + 1] is None)
            }),
    {
        let old_len = self.slots.len();
        let half = old_len / 2;
        let grown_len = grown.slots.len();
        let bucket_index = i / BUCKET_ENTRY_COUNT;
        let ghost s_old = self.slots@;
        proof {
            lemma_view_update(s_old, i as int, None);
            if s_old[i as int] is Some {
                lemma_view_at(s_old, i as int);
            }
        }
        let taken = self.slots[i].take();
        proof {
            assert(self.slots@ == s_old.update(i as int, None));
        }
        match taken {
            Some(entry) => {
                let byte_key = entry.key();
                let cheap_index = compress_hash(grown_len, cheap_hash(byte_key));
                let rand_index = compress_hash(grown_len, rand_hash(byte_key));
                proof {
                    lemma_grow_bucket(old_len as int, byte_key);
                    lemma_grow_bucket(old_len as int, spec_rand_hash(byte_key));
                }
                let dest = if bucket_index == cheap_index as usize || bucket_index == rand_index as usize {
                    bucket_index
                } else {
                    bucket_index + half
                };
                proof {
                    assert(valid_bucket(grown_len as int, dest as int, byte_key));
                    assert(!grown@.contains_key(byte_key));
                }
                let res = grown.shove_empty_slot(dest, entry);
                proof {
                    assert(res is None);
                    assert(grown@.union_prefer_right(self@) =~= orig);
                }
            },
            None => {
                proof {
                    assert(grown@.union_prefer_right(self@) =~= orig);
                }
            },
        }
    }

    /// Returns a table with twice the slots holding the same entries.
    pub fn table_grow(self) -> (r: Self)
        requires
            self.wf(),
            self.spec_len() < MAX_SLOT_COUNT,
        ensures
            r.wf(),
            r@ == self@,
            r.spec_len() == 2 * self.spec_len(),
    {
        let mut old_table = self;
        let old_len = old_table.slots.len();
        let half = old_len / 2;
        let grown_len = old_len * 2;
        let ghost orig = old_table@;
        let ghost orig_slots = old_table.slots@;
        let mut grown: ByteTable<T> = ByteTable::new(grown_len);
        let mut b: usize = 0;
        proof {
            assert(grown@.union_prefer_right(old_table@) =~= orig);
            assert forall|nb: int| b <= nb < half implies #[trigger] bucket_empty(grown.slots@, nb) && bucket_empty(grown.slots@, nb + half) by {
                assert(grown.spec_slots()[2 * nb] is None);
                assert(grown.spec_slots()[2 * nb + 1] is None);
                assert(grown.spec_slots()[2 * (nb + half)] is None);
                assert(grown.spec_slots()[2 * (nb + half) + 1] is None);
            }
        }
        while b < half
            invariant
                old_len == orig_slots.len(),
                is_table_size(old_len as int),
                old_len < 256,
                half == old_len / 2,
                grown_len == 2 * old_len,
                0 <= b <= half,
                old_table.slots@.len() == old_len,
                keys_unique(old_table.slots@),
                forall|j: int| 2 * b <= j < old_len ==> old_table.slots@[j] == orig_slots[j],
                forall|j: int| 0 <= j < 2 * b ==> old_table.slots@[j] is None,
                positions_valid(orig_slots),
                grown.wf(),
                grown.slots@.len() == grown_len,
                grown@.dom().disjoint(old_table@.dom()),
                grown@.union_prefer_right(old_table@) == orig,
                forall|nb: int|
                    b <= nb < half ==> #[trigger] bucket_empty(grown.slots@, nb) && bucket_empty(grown.slots@, nb + half),
            decreases half - b,
        {
            proof {
                if orig_slots[2 * b as int] is Some {
                    assert(valid_bucket(old_len as int, (2 * b as int) / 2, orig_slots[2 * b as int]->0.spec_key()));
                }
                if orig_slots[2 * b + 1] is Some {
                    assert(valid_bucket(old_len as int, (2 * b as int + 1) / 2, orig_slots[2 * b + 1]->0.spec_key()));
                }
            }
            let ghost g0 = grown.slots@;
            proof {
                assert(bucket_empty(g0, b as int));
                assert(bucket_empty(g0, b + half));
            }
            old_table.grow_move(&mut grown, 2 * b, Ghost(orig));
            old_table.grow_move(&mut grown, 2 * b + 1, Ghost(orig));
            proof {
                assert forall|nb: int|
                    b + 1 <= nb < half implies #[trigger] bucket_empty(grown.slots@, nb) && bucket_empty(grown.slots@, nb + half) by {
                    assert(bucket_empty(g0, nb));
                    assert(bucket_empty(g0, nb + half));
                }
            }
            b = b + 1;
        }
        proof {
            assert(old_table@ =~= Map::<u8, T>::empty()) by {
                assert forall|k: u8| !old_table@.contains_key(k) by {
                    if old_table@.contains_key(k) {
                        let j = choose|j: int| has_key_at(old_table.slots@, j, k);
                    }
                }
            }
            assert(grown@ =~= orig);
        }
        grown
    }

    /// Removes and returns all entries of the table.
    pub fn take_all(&mut self) -> (r: Vec<T>)
        requires
            old(self).wf(),
        ensures
            final(self).wf(),
            final(self).spec_len() == old(self).spec_len(),
            final(self)@ == Map::<u8, T>::empty(),
            forall|k: int| 0 <= k < r@.len() ==> old(self)@.contains_key(#[trigger] r@[k].spec_key())
                && old(self)@[r@[k].spec_key()] == r@[k],
            forall|a: u8| old(self)@.contains_key(a) ==> exists|k: int| 0 <= k < r@.len() && r@[k].spec_key() == a,
            forall|k: int, l: int| 0 <= k < l < r@.len() ==> r@[k].spec_key() != r@[l].spec_key(),
    {
        let ghost orig = self@;
        let ghost s0 = self.slots@;
        let n = self.slots.len();
        let mut rest: Vec<Option<T>> = Vec::new();
        std::mem::swap(&mut rest, &mut self.slots);
        let empty = ByteTable::<T>::new(n);
        self.slots = empty.slots;
        let mut out: Vec<T> = Vec::new();
        while rest.len() > 0
            invariant
                s0.len() == n,
                keys_unique(s0),
                orig == slots_view(s0),
                rest@ == s0.take(rest@.len() as int),
                rest@.len() <= n,
                forall|k: int| 0 <= k < out@.len() ==> exists|idx: int|
                    rest@.len() <= idx < n && s0[idx] == Some(#[trigger] out@[k]),
                forall|a: u8| orig.contains_key(a) ==> (exists|idx: int| 0 <= idx < rest@.len() && has_key_at(s0, idx, a))
                    || exists|k: int| 0 <= k < out@.len() && out@[k].spec_key() == a,
                forall|k: int, l: int| 0 <= k < l < out@.len() ==> out@[k].spec_key() != out@[l].spec_key(),
            decreases rest@.len(),
        {
            let ghost m = rest@.len() as int;
            let ghost old_out = out@;
            let x = rest.pop().unwrap();
            proof {
                assert(x == s0[m - 1]);
                assert(rest@ =~= s0.take(m - 1));
            }
            match x {
                Some(e) => {
                    out.push(e);
                    proof {
                        assert forall|k: int| 0 <= k < out@.len() implies exists|idx: int|
                            rest@.len() <= idx < n && s0[idx] == Some(#[trigger] out@[k]) by {
                            if k < old_out.len() {
                                assert(out@[k] == old_out[k]);
                                let idx = choose|idx: int| m <= idx < n && s0[idx] == Some(old_out[k]);
                                assert(rest@.len() <= idx < n && s0[idx] == Some(out@[k]));
                            } else {
                                assert(s0[m - 1] == Some(out@[k]));
                            }
                        }
                        assert forall|a: u8| orig.contains_key(a) implies (exists|idx: int| 0 <= idx < rest@.len() && has_key_at(s0, idx, a))
                            || exists|k: int| 0 <= k < out@.len() && out@[k].spec_key() == a by {
                            if exists|k: int| 0 <= k < old_out.len() && old_out[k].spec_key() == a {
                                let k = choose|k: int| 0 <= k < old_out.len() && old_out[k].spec_key() == a;
                                assert(out@[k].spec_key() == a);
                            } else {
                                let idx = choose|idx: int| 0 <= idx < m && has_key_at(s0, idx, a);
                                if idx == m - 1 {
                                    assert(out@[out@.len() - 1].spec_key() == a);
                                } else {
                                    assert(0 <= idx < rest@.len() && has_key_at(s0, idx, a));
                                }
                            }
                        }
                        assert forall|k: int, l: int| 0 <= k < l < out@.len() implies out@[k].spec_key() != out@[l].spec_key() by {
                            if l == out@.len() - 1 {
                                let idx = choose|idx: int| m <= idx < n && s0[idx] == Some(old_out[k]);
                                assert(slot_key(s0, idx) != slot_key(s0, m - 1));
                            }
                        }
                    }
                },
                None => {
                    proof {
                        assert forall|a: u8| orig.contains_key(a) implies (exists|idx: int| 0 <= idx < rest@.len() && has_key_at(s0, idx, a))
                            || exists|k: int| 0 <= k < out@.len() && out@[k].spec_key() == a by {
                            if !(exists|k: int| 0 <= k < out@.len() && out@[k].spec_key() == a) {
                                let idx = choose|idx: int| 0 <= idx < m && has_key_at(s0, idx, a);
                                assert(idx != m - 1);
                            }
                        }
                    }
                },
            }
        }
        proof {
            assert forall|k: int| 0 <= k < out@.len() implies orig.contains_key(#[trigger] out@[k].spec_key())
                && orig[out@[k].spec_key()] == out@[k] by {
                let idx = choose|idx: int| 0 <= idx < n && s0[idx] == Some(out@[k]);
                lemma_view_at(s0, idx);
            }
        }
        out
    }
}

} // verus!
