use vstd::prelude::*;
use vstd::set_lib::*;

verus! {

/// Number of variables a [`VariableSet`] can hold.
pub const DOMAIN: usize = 128;

/// Whether bit `i` of `bits` is set.
pub open spec fn bit_at(bits: u128, i: int) -> bool {
    0 <= i < 128 && (bits >> (i as u128)) & 1u128 == 1u128
}

/// The set of indices whose bit is set.
pub open spec fn bits_set(bits: u128) -> Set<int> {
    Set::new(|i: int| bit_at(bits, i))
}

/// The indices below `n` whose bit is set.
pub open spec fn bits_set_below(bits: u128, n: int) -> Set<int> {
    Set::new(|i: int| i < n && bit_at(bits, i))
}

/// The whole domain `0..128`.
pub open spec fn domain() -> Set<int> {
    set_int_range(0, 128)
}

proof fn lemma_bit_or(a: u128, b: u128, i: u128)
    requires
        i < 128,
    ensures
        bit_at(a | b, i as int) == (bit_at(a, i as int) || bit_at(b, i as int)),
{
    assert(((a | b) >> i) & 1u128 == 1u128 <==> ((a >> i) & 1u128 == 1u128 || (b >> i) & 1u128
        == 1u128)) by (bit_vector);
}

proof fn lemma_bit_and(a: u128, b: u128, i: u128)
    requires
        i < 128,
    ensures
        bit_at(a & b, i as int) == (bit_at(a, i as int) && bit_at(b, i as int)),
{
    assert(((a & b) >> i) & 1u128 == 1u128 <==> ((a >> i) & 1u128 == 1u128 && (b >> i) & 1u128
        == 1u128)) by (bit_vector);
}

proof fn lemma_bit_xor(a: u128, b: u128, i: u128)
    requires
        i < 128,
    ensures
        bit_at(a ^ b, i as int) == (bit_at(a, i as int) != bit_at(b, i as int)),
{
    assert(((a ^ b) >> i) & 1u128 == 1u128 <==> (((a >> i) & 1u128 == 1u128) != ((b >> i) & 1u128
        == 1u128))) by (bit_vector);
}

proof fn lemma_bit_not(a: u128, i: u128)
    requires
        i < 128,
    ensures
        bit_at(!a, i as int) == !bit_at(a, i as int),
{
    assert(((!a) >> i) & 1u128 == 1u128 <==> !((a >> i) & 1u128 == 1u128)) by (bit_vector)
        requires
            i < 128,
    ;
}

proof fn lemma_bit_single(k: u128, i: u128)
    requires
        i < 128,
        k < 128,
    ensures
        bit_at(1u128 << k, i as int) == (i == k),
{
    assert(((1u128 << k) >> i) & 1u128 == 1u128 <==> i == k) by (bit_vector)
        requires
            i < 128,
            k < 128,
    ;
}

proof fn lemma_bit_zero(i: u128)
    requires
        i < 128,
    ensures
        !bit_at(0u128, i as int),
{
    assert((0u128 >> i) & 1u128 != 1u128) by (bit_vector);
}

proof fn lemma_bit_full(i: u128)
    requires
        i < 128,
    ensures
        bit_at(!0u128, i as int),
{
    assert(((!0u128) >> i) & 1u128 == 1u128) by (bit_vector)
        requires
            i < 128,
    ;
}

proof fn lemma_bit_low_mask(from: u128, i: u128)
    requires
        i < 128,
        from < 128,
    ensures
        bit_at((!0u128) << from, i as int) == (from <= i),
{
    assert((((!0u128) << from) >> i) & 1u128 == 1u128 <==> from <= i) by (bit_vector)
        requires
            i < 128,
            from < 128,
    ;
}

proof fn lemma_bit_high_mask(to: u128, i: u128)
    requires
        i < 128,
        to < 128,
    ensures
        bit_at(!((!1u128) << to), i as int) == (i <= to),
{
    assert(((!((!1u128) << to)) >> i) & 1u128 == 1u128 <==> i <= to) by (bit_vector)
        requires
            i < 128,
            to < 128,
    ;
}

/// A non-zero word has a set bit.
proof fn lemma_nonzero_has_bit(x: u128)
    requires
        x != 0,
    ensures
        exists|i: int| bit_at(x, i),
    decreases x,
{
    if x & 1u128 == 1u128 {
        assert(x >> 0u128 == x) by (bit_vector);
        assert(bit_at(x, 0));
    } else {
        assert(x != 0 && x & 1u128 != 1u128 ==> (x >> 1u128) != 0 && (x >> 1u128) < x)
            by (bit_vector);
        let y = x >> 1u128;
        lemma_nonzero_has_bit(y);
        let j = choose|j: int| bit_at(y, j);
        let ju = j as u128;
        assert(ju < 128);
        assert((x >> 1u128) >> 127u128 == 0) by (bit_vector);
        if ju == 127 {
            assert(((x >> 1u128) >> 127u128) & 1u128 != 1u128) by (bit_vector);
            assert(false);
        }
        assert(ju < 127 ==> ((x >> 1u128) >> ju) & 1u128 == (x >> (ju + 1u128) as u128) & 1u128)
            by (bit_vector);
        assert(bit_at(x, j + 1));
    }
}

/// Two words are equal when they agree on every bit.
proof fn lemma_bits_ext(a: u128, b: u128)
    requires
        forall|i: int| 0 <= i < 128 ==> bit_at(a, i) == bit_at(b, i),
    ensures
        a == b,
{
    if a ^ b != 0 {
        lemma_nonzero_has_bit(a ^ b);
        let i = choose|i: int| bit_at(a ^ b, i);
        lemma_bit_xor(a, b, i as u128);
        assert(false);
    }
    assert(a ^ b == 0 ==> a == b) by (bit_vector);
}

proof fn lemma_bits_set_finite(bits: u128)
    ensures
        bits_set(bits).finite(),
        bits_set(bits).subset_of(domain()),
        bits_set(bits).len() <= 128,
{
    lemma_int_range(0, 128);
    assert(bits_set(bits).subset_of(domain()));
    lemma_len_subset(bits_set(bits), domain());
}

proof fn lemma_bits_set_below_step(bits: u128, n: int)
    requires
        0 <= n < 128,
    ensures
        bits_set_below(bits, n + 1) == (if bit_at(bits, n) {
            bits_set_below(bits, n).insert(n)
        } else {
            bits_set_below(bits, n)
        }),
{
    if bit_at(bits, n) {
        assert(bits_set_below(bits, n + 1) =~= bits_set_below(bits, n).insert(n));
    } else {
        assert(bits_set_below(bits, n + 1) =~= bits_set_below(bits, n));
    }
}

/// A fixed size set of up to 128 query variables, kept as the bits of a
/// 128-bit word: bit `i` is set when variable `i` is in the set.
#[derive(Eq, PartialEq, Structural, Clone, Copy, Debug)]
pub struct VariableSet {
    bits: u128,
}

impl View for VariableSet {
    type V = Set<int>;

    closed spec fn view(&self) -> Set<int> {
        bits_set(self.bits)
    }
}

/// Iterator over the members of a [`VariableSet`] in ascending order.
#[derive(Clone, Copy, Debug)]
pub struct VariableSetIterator(pub VariableSet);

impl VariableSet {
    /// Every view of a set lies in the domain and is finite.
    pub proof fn lemma_view_wf(self)
        ensures
            self@.finite(),
            self@.subset_of(domain()),
            self@.len() <= 128,
    {
        lemma_bits_set_finite(self.bits);
    }

    /// Creates a new empty set.
    pub fn new_empty() -> (r: Self)
        ensures
            r@ == Set::<int>::empty(),
    {
        let r = VariableSet { bits: 0 };
        assert forall|i: int| !r@.contains(i) by {
            if 0 <= i < 128 {
                lemma_bit_zero(i as u128);
            }
        }
        assert(r@ =~= Set::<int>::empty());
        r
    }

    /// Creates a new set holding every index of the domain.
    pub fn new_full() -> (r: Self)
        ensures
            r@ == domain(),
    {
        let r = VariableSet { bits: !0u128 };
        assert forall|i: int| 0 <= i < 128 implies r@.contains(i) by {
            lemma_bit_full(i as u128);
        }
        assert(r@ =~= domain());
        r
    }

    /// Creates a new set holding exactly `index`.
    pub fn new_singleton(index: usize) -> (r: Self)
        requires
            index < 128,
        ensures
            r@ == Set::<int>::empty().insert(index as int),
    {
        let mut set = Self::new_empty();
        set.set(index);
        assert(set@ =~= Set::<int>::empty().insert(index as int));
        set
    }

    /// Returns true if the set has no element.
    pub fn is_empty(&self) -> (r: bool)
        ensures
            r == (self@ == Set::<int>::empty()),
    {
        let r = self.bits == 0;
        if r {
            assert forall|i: int| !self@.contains(i) by {
                if 0 <= i < 128 {
                    lemma_bit_zero(i as u128);
                }
            }
            assert(self@ =~= Set::<int>::empty());
        } else {
            proof {
                lemma_nonzero_has_bit(self.bits);
                let i = choose|i: int| bit_at(self.bits, i);
                assert(self@.contains(i));
            }
        }
        r
    }

    /// Returns the number of elements in the set.
    pub fn count(&self) -> (r: usize)
        ensures
            r == self@.len(),
    {
        let mut n: usize = 0;
        let mut i: usize = 0;
        proof {
            assert(bits_set_below(self.bits, 0) =~= Set::<int>::empty());
        }
        while i < 128
            invariant
                0 <= i <= 128,
                bits_set_below(self.bits, i as int).finite(),
                n == bits_set_below(self.bits, i as int).len(),
                n <= i,
            decreases 128 - i,
        {
            proof {
                lemma_bits_set_below_step(self.bits, i as int);
            }
            if self.is_set(i) {
                n = n + 1;
            }
            i = i + 1;
        }
        proof {
            assert(bits_set_below(self.bits, 128) =~= self@);
        }
        n
    }

    /// Adds `index` to the set.
    pub fn set(&mut self, index: usize)
        requires
            index < 128,
        ensures
            final(self)@ == old(self)@.insert(index as int),
    {
        let ghost old_bits = self.bits;
        let one: u128 = 1;
        let k: u128 = index as u128;
        self.bits = self.bits | (one << k);
        proof {
            assert forall|i: int| #![auto] self@.contains(i) == old(self)@.insert(
                index as int,
            ).contains(i) by {
                if 0 <= i < 128 {
                    lemma_bit_or(old_bits, 1u128 << k, i as u128);
                    lemma_bit_single(k, i as u128);
                }
            }
            assert(self@ =~= old(self)@.insert(index as int));
        }
    }

    /// Removes `index` from the set.
    pub fn unset(&mut self, index: usize)
        requires
            index < 128,
        ensures
            final(self)@ == old(self)@.remove(index as int),
    {
        let ghost old_bits = self.bits;
        let one: u128 = 1;
        let k: u128 = index as u128;
        self.bits = self.bits & !(one << k);
        proof {
            assert forall|i: int| #![auto] self@.contains(i) == old(self)@.remove(
                index as int,
            ).contains(i) by {
                if 0 <= i < 128 {
                    lemma_bit_and(old_bits, !(1u128 << k), i as u128);
                    lemma_bit_not(1u128 << k, i as u128);
                    lemma_bit_single(k, i as u128);
                }
            }
            assert(self@ =~= old(self)@.remove(index as int));
        }
    }

    /// Adds `index` to the set when `value` holds and removes it otherwise.
    pub fn set_value(&mut self, index: usize, value: bool)
        requires
            index < 128,
        ensures
            final(self)@ == (if value {
                old(self)@.insert(index as int)
            } else {
                old(self)@.remove(index as int)
            }),
    {
        if value {
            self.set(index);
        } else {
            self.unset(index);
        }
    }

    /// Adds every index of the domain to the set.
    pub fn set_all(&mut self)
        ensures
            final(self)@ == domain(),
    {
        *self = Self::new_full();
    }

    /// Removes every element from the set.
    pub fn unset_all(&mut self)
        ensures
            final(self)@ == Set::<int>::empty(),
    {
        *self = Self::new_empty();
    }

    /// Returns true if `index` is in the set.
    pub fn is_set(&self, index: usize) -> (r: bool)
        requires
            index < 128,
        ensures
            r == self@.contains(index as int),
    {
        let one: u128 = 1;
        let k: u128 = index as u128;
        let r = 0 != (self.bits & (one << k));
        proof {
            let b = self.bits;
            assert(k < 128 ==> ((b & (1u128 << k) != 0) <==> ((b >> k) & 1u128 == 1u128)))
                by (bit_vector);
        }
        r
    }

    /// Returns the smallest element of the set, or `None` when it is empty.
    pub fn find_first_set(&self) -> (r: Option<usize>)
        ensures
            r is None <==> self@ == Set::<int>::empty(),
            r matches Some(i) ==> i < 128 && self@.contains(i as int) && forall|j: int|
                0 <= j < i ==> !#[trigger] self@.contains(j),
    {
        let mut i: usize = 0;
        while i < 128
            invariant
                0 <= i <= 128,
                forall|j: int| 0 <= j < i ==> !#[trigger] self@.contains(j),
            decreases 128 - i,
        {
            if self.is_set(i) {
                return Some(i);
            }
            i = i + 1;
        }
        proof {
            assert forall|j: int| !self@.contains(j) by {
                if 0 <= j < 128 {
                    assert(!self@.contains(j));
                }
            }
            assert(self@ =~= Set::<int>::empty());
        }
        None
    }

    /// Returns the largest element of the set, or `None` when it is empty.
    pub fn find_last_set(&self) -> (r: Option<usize>)
        ensures
            r is None <==> self@ == Set::<int>::empty(),
            r matches Some(i) ==> i < 128 && self@.contains(i as int) && forall|j: int|
                i < j < 128 ==> !#[trigger] self@.contains(j),
    {
        let mut i: usize = 128;
        while i > 0
            invariant
                0 <= i <= 128,
                forall|j: int| i <= j < 128 ==> !#[trigger] self@.contains(j),
            decreases i,
        {
            if self.is_set(i - 1) {
                return Some(i - 1);
            }
            i = i - 1;
        }
        proof {
            assert forall|j: int| !self@.contains(j) by {
                if 0 <= j < 128 {
                    assert(!self@.contains(j));
                }
            }
            assert(self@ =~= Set::<int>::empty());
        }
        None
    }

    /// Removes and returns the smallest element of the set.
    pub fn drain_next_ascending(&mut self) -> (r: Option<usize>)
        ensures
            r is None <==> old(self)@ == Set::<int>::empty(),
            r is None ==> final(self)@ == old(self)@,
            r matches Some(i) ==> i < 128 && old(self)@.contains(i as int) && (forall|j: int|
                0 <= j < i ==> !#[trigger] old(self)@.contains(j)) && final(self)@ == old(
                self,
            )@.remove(i as int),
    {
        if let Some(next_index) = self.find_first_set() {
            self.unset(next_index);
            Some(next_index)
        } else {
            None
        }
    }

    /// Removes and returns the largest element of the set.
    pub fn drain_next_descending(&mut self) -> (r: Option<usize>)
        ensures
            r is None <==> old(self)@ == Set::<int>::empty(),
            r is None ==> final(self)@ == old(self)@,
            r matches Some(i) ==> i < 128 && old(self)@.contains(i as int) && (forall|j: int|
                i < j < 128 ==> !#[trigger] old(self)@.contains(j)) && final(self)@ == old(
                self,
            )@.remove(i as int),
    {
        if let Some(next_index) = self.find_last_set() {
            self.unset(next_index);
            Some(next_index)
        } else {
            None
        }
    }

    /// Returns true if every element of `other` is in this set.
    pub fn is_superset_of(&self, other: &Self) -> (r: bool)
        ensures
            r == other@.subset_of(self@),
    {
        let a = self.bits;
        let b = other.bits;
        let r = ((a & b) ^ b) == 0;
        proof {
            assert((((a & b) ^ b) == 0) <==> (a & b == b)) by (bit_vector);
            if r {
                assert forall|i: int| other@.contains(i) implies self@.contains(i) by {
                    lemma_bit_and(a, b, i as u128);
                }
            } else {
                if other@.subset_of(self@) {
                    assert forall|i: int| 0 <= i < 128 implies bit_at(a & b, i) == bit_at(b, i) by {
                        lemma_bit_and(a, b, i as u128);
                        if bit_at(b, i) {
                            assert(other@.contains(i));
                        }
                    }
                    lemma_bits_ext(a & b, b);
                }
            }
        }
        r
    }

    /// Returns true if every element of this set is in `other`.
    pub fn is_subset_of(&self, other: &Self) -> (r: bool)
        ensures
            r == self@.subset_of(other@),
    {
        other.is_superset_of(self)
    }

    /// Returns the set of indices in both sets.
    pub fn intersect(self, other: Self) -> (r: Self)
        ensures
            r@ == self@.intersect(other@),
    {
        let r = Self { bits: self.bits & other.bits };
        assert forall|i: int| #![auto] r@.contains(i) == self@.intersect(other@).contains(i) by {
            if 0 <= i < 128 {
                lemma_bit_and(self.bits, other.bits, i as u128);
            }
        }
        assert(r@ =~= self@.intersect(other@));
        r
    }

    /// Returns the set of indices in either set.
    pub fn union(self, other: Self) -> (r: Self)
        ensures
            r@ == self@.union(other@),
    {
        let r = Self { bits: self.bits | other.bits };
        assert forall|i: int| #![auto] r@.contains(i) == self@.union(other@).contains(i) by {
            if 0 <= i < 128 {
                lemma_bit_or(self.bits, other.bits, i as u128);
            }
        }
        assert(r@ =~= self@.union(other@));
        r
    }

    /// Returns the indices of this set that are not in `other`.
    pub fn subtract(self, other: Self) -> (r: Self)
        ensures
            r@ == self@.difference(other@),
    {
        let r = Self { bits: self.bits & !other.bits };
        assert forall|i: int| #![auto] r@.contains(i) == self@.difference(other@).contains(i) by {
            if 0 <= i < 128 {
                lemma_bit_and(self.bits, !other.bits, i as u128);
                lemma_bit_not(other.bits, i as u128);
            }
        }
        assert(r@ =~= self@.difference(other@));
        r
    }

    /// Returns the indices that are in exactly one of the two sets.
    pub fn difference(self, other: Self) -> (r: Self)
        ensures
            r@ == self@.difference(other@).union(other@.difference(self@)),
    {
        let r = Self { bits: self.bits ^ other.bits };
        assert forall|i: int| #![auto] r@.contains(i) == self@.difference(other@).union(
            other@.difference(self@),
        ).contains(i) by {
            if 0 <= i < 128 {
                lemma_bit_xor(self.bits, other.bits, i as u128);
            }
        }
        assert(r@ =~= self@.difference(other@).union(other@.difference(self@)));
        r
    }

    /// Returns the indices of the domain that are not in this set.
    pub fn complement(self) -> (r: Self)
        ensures
            r@ == domain().difference(self@),
    {
        let r = Self { bits: !self.bits };
        assert forall|i: int| #![auto] r@.contains(i) == domain().difference(self@).contains(i) by {
            if 0 <= i < 128 {
                lemma_bit_not(self.bits, i as u128);
            }
        }
        assert(r@ =~= domain().difference(self@));
        r
    }

    /// Removes every element except `index`, which stays if it was present.
    pub fn keep_single(&mut self, index: usize)
        requires
            index < 128,
        ensures
            final(self)@ == old(self)@.intersect(Set::<int>::empty().insert(index as int)),
    {
        let had_bit = self.is_set(index);
        self.unset_all();
        if had_bit {
            self.set(index);
        }
        assert(self@ =~= old(self)@.intersect(Set::<int>::empty().insert(index as int)));
    }

    /// Keeps only the elements in the inclusive range `from_index..=to_index`.
    pub fn keep_range(&mut self, from_index: usize, to_index: usize)
        requires
            from_index < 128,
            to_index < 128,
        ensures
            final(self)@ == old(self)@.intersect(set_int_range(
                from_index as int,
                to_index as int + 1,
            )),
    {
        let ghost b0 = self.bits;
        let from: u128 = from_index as u128;
        let to: u128 = to_index as u128;
        let all: u128 = !0u128;
        let not_one: u128 = !1u128;
        let low = all << from;
        let high = !(not_one << to);
        self.bits = self.bits & low;
        self.bits = self.bits & high;
        proof {
            assert forall|i: int| #![auto] self@.contains(i) == old(self)@.intersect(
                set_int_range(from_index as int, to_index as int + 1),
            ).contains(i) by {
                if 0 <= i < 128 {
                    lemma_bit_and(b0, low, i as u128);
                    lemma_bit_and(b0 & low, high, i as u128);
                    lemma_bit_low_mask(from, i as u128);
                    lemma_bit_high_mask(to, i as u128);
                }
            }
            assert(self@ =~= old(self)@.intersect(
                set_int_range(from_index as int, to_index as int + 1),
            ));
        }
    }

    /// Returns an iterator over the elements in ascending order.
    pub fn into_iter(self) -> (r: VariableSetIterator)
        ensures
            r.0@ == self@,
    {
        VariableSetIterator(self)
    }

    /// Returns the elements in ascending order.
    pub fn to_vec(&self) -> (r: Vec<usize>)
        ensures
            forall|k: int| 0 <= k < r.len() ==> self@.contains(#[trigger] r[k] as int),
            forall|i: int| self@.contains(i) ==> exists|k: int| 0 <= k < r.len() && r[k] == i,
            forall|k: int, l: int| 0 <= k < l < r.len() ==> r[k] < r[l],
    {
        let mut out: Vec<usize> = Vec::new();
        let mut i: usize = 0;
        while i < 128
            invariant
                0 <= i <= 128,
                forall|k: int| 0 <= k < out.len() ==> self@.contains(#[trigger] out[k] as int)
                    && out[k] < i,
                forall|j: int|
                    0 <= j < i && self@.contains(j) ==> exists|k: int|
                        0 <= k < out.len() && out[k] == j,
                forall|k: int, l: int| 0 <= k < l < out.len() ==> out[k] < out[l],
            decreases 128 - i,
        {
            if self.is_set(i) {
                let ghost old_out = out@;
                out.push(i);
                proof {
                    assert forall|j: int|
                        0 <= j < i + 1 && self@.contains(j) implies exists|k: int|
                        0 <= k < out.len() && out[k] == j by {
                        if j == i {
                            assert(out[out.len() - 1] == j);
                        } else {
                            let k = choose|k: int| 0 <= k < old_out.len() && old_out[k] == j;
                            assert(out[k] == j);
                        }
                    }
                }
            }
            i = i + 1;
        }
        proof {
            self.lemma_view_wf();
            assert forall|i: int| self@.contains(i) implies exists|k: int|
                0 <= k < out.len() && out[k] == i by {
                assert(domain().contains(i));
            }
        }
        out
    }
}

impl VariableSetIterator {
    /// Returns the next element in ascending order, removing it.
    pub fn next(&mut self) -> (r: Option<usize>)
        ensures
            r is None <==> old(self).0@ == Set::<int>::empty(),
            r matches Some(i) ==> old(self).0@.contains(i as int) && (forall|j: int|
                0 <= j < i ==> !#[trigger] old(self).0@.contains(j)) && final(self).0@ == old(
                self,
            ).0@.remove(i as int),
    {
        self.0.drain_next_ascending()
    }
}

/// Laws of variable sets, over the sets that the operations' contracts
/// speak of: `set` then `unset` of a variable that was absent changes
/// nothing, taking the `complement` twice changes nothing, `subtract` and
/// `intersect` split a set into two disjoint parts, `difference` does not
/// depend on the order of its arguments, and a set lies between its
/// intersection and its union with another.
pub proof fn lemma_variable_set_laws(a: Set<int>, b: Set<int>, i: int)
    requires
        a.subset_of(domain()),
        b.subset_of(domain()),
    ensures
        !a.contains(i) ==> a.insert(i).remove(i) == a,
        domain().difference(domain().difference(a)) == a,
        a.difference(b).union(a.intersect(b)) == a,
        a.difference(b).disjoint(a.intersect(b)),
        a.difference(b).union(b.difference(a)) == b.difference(a).union(a.difference(b)),
        a.subset_of(a.union(b)) && a.intersect(b).subset_of(a),
{
    assert(!a.contains(i) ==> a.insert(i).remove(i) =~= a);
    assert(domain().difference(domain().difference(a)) =~= a);
    assert(a.difference(b).union(a.intersect(b)) =~= a);
    assert(a.difference(b).union(b.difference(a)) =~= b.difference(a).union(a.difference(b)));
}

} // verus!
