//! Queries retrieve data by describing the patterns they look for. A query
//! binds variables one at a time: the constraints propose candidate values
//! for a variable and confirm the candidates proposed by others.
pub mod constantconstraint;
pub mod hashmapconstraint;
pub mod hashsetconstraint;
pub mod intersectionconstraint;
pub mod mask;
pub mod pathlang;
pub mod patchconstraint;
pub mod regularpathconstraint;
pub mod unionconstraint;
pub mod variableset;

use arrayvec::ArrayVec;
use std::marker::PhantomData;
use vstd::prelude::*;

use crate::query::constantconstraint::ConstantConstraint;
use crate::query::variableset::VariableSet;
use crate::value::{value_eq, RawValue};

verus! {

/// The index of a variable in a query.
pub type VariableId = u8;

/// The number of variables a query can have.
pub const MAX_VARIABLES: usize = 128;

/// Hands out fresh variable indices.
#[derive(Debug)]
pub struct VariableContext {
    pub next_index: VariableId,
}

impl VariableContext {
    /// A context whose first variable gets index 0.
    pub fn new() -> (r: Self)
        ensures
            r.next_index == 0,
    {
        VariableContext { next_index: 0 }
    }

    /// A fresh variable; queries support at most 128 of them.
    pub fn next_variable<T>(&mut self) -> (r: Variable<T>)
        requires
            old(self).next_index < 128,
        ensures
            r.index == old(self).next_index,
            final(self).next_index == old(self).next_index + 1,
    {
        let v = Variable::new(self.next_index);
        self.next_index = self.next_index + 1;
        v
    }
}

/// A placeholder for an unknown in a query, identified by its index. The
/// type parameter names the schema of the values it takes.
#[derive(Debug)]
pub struct Variable<T> {
    pub index: VariableId,
    pub typed: PhantomData<T>,
}

impl<T> Clone for Variable<T> {
    fn clone(&self) -> (r: Self)
        ensures
            r.index == self.index,
    {
        Variable { index: self.index, typed: PhantomData }
    }
}

impl<T> Variable<T> {
    /// The variable with index `index`.
    pub fn new(index: VariableId) -> (r: Self)
        ensures
            r.index == index,
    {
        Variable { index, typed: PhantomData }
    }

    /// The value bound to this variable in `binding`.
    pub fn extract(self, binding: &Binding) -> (r: &RawValue)
        requires
            binding@.contains_key(self.index as int),
        ensures
            *r == binding@[self.index as int],
    {
        proof {
            binding.lemma_dom();
        }
        match binding.get(self.index) {
            Some(v) => v,
            None => {
                proof {
                    assert(false);
                }
                &binding.values[0]
            },
        }
    }

    /// The constraint that this variable equals `constant`.
    pub fn is(self, constant: RawValue) -> (r: ConstantConstraint)
        ensures
            r.spec_variable() == self.index,
            r.spec_constant() == constant,
    {
        ConstantConstraint::new(self, constant)
    }
}

/// The values bound to the variables of a query so far.
#[derive(Clone, Copy, Debug)]
pub struct Binding {
    pub bound: VariableSet,
    values: [RawValue; 128],
}

impl View for Binding {
    /// The bound variables with their values.
    type V = Map<int, RawValue>;

    closed spec fn view(&self) -> Map<int, RawValue> {
        Map::new(|i: int| self.bound@.contains(i), |i: int| self.values@[i])
    }
}

impl Binding {
    /// Only variables below 128 are bound.
    pub proof fn lemma_dom(&self)
        ensures
            forall|i: int| #[trigger] self@.contains_key(i) ==> 0 <= i < 128,
    {
        self.bound.lemma_view_wf();
        assert forall|i: int| #[trigger] self@.contains_key(i) implies 0 <= i < 128 by {
            assert(crate::query::variableset::domain().contains(i));
        }
    }

    /// A binding of no variable.
    pub fn new() -> (r: Self)
        ensures
            r@ == Map::<int, RawValue>::empty(),
    {
        let r = Binding { bound: VariableSet::new_empty(), values: [[0u8; 32]; 128] };
        proof {
            assert(r@ =~= Map::<int, RawValue>::empty());
        }
        r
    }

    /// Binds `variable` to `value`.
    pub fn set(&mut self, variable: VariableId, value: &RawValue)
        requires
            variable < 128,
        ensures
            final(self)@ == old(self)@.insert(variable as int, *value),
    {
        self.values[variable as usize] = *value;
        self.bound.set(variable as usize);
        proof {
            broadcast use vstd::array::group_array_axioms;
            self.lemma_dom();
            assert forall|i: int| #[trigger] self@.contains_key(i) implies self@[i] == old(self)@.insert(variable as int, *value)[i] by {
                if i != variable {
                    assert(0 <= i < 128);
                    assert(self.values@[i] == old(self).values@[i]);
                }
            }
            assert(self@ =~= old(self)@.insert(variable as int, *value));
        }
    }

    /// Unbinds `variable`.
    pub fn unset(&mut self, variable: VariableId)
        requires
            variable < 128,
        ensures
            final(self)@ == old(self)@.remove(variable as int),
    {
        self.bound.unset(variable as usize);
        proof {
            assert(self@ =~= old(self)@.remove(variable as int));
        }
    }

    /// The value bound to `variable`, if any.
    pub fn get(&self, variable: VariableId) -> (r: Option<&RawValue>)
        requires
            variable < 128,
        ensures
            r matches Some(v) ==> self@.contains_key(variable as int) && *v == self@[variable as int],
            r is None <==> !self@.contains_key(variable as int),
    {
        if self.bound.is_set(variable as usize) {
            Some(&self.values[variable as usize])
        } else {
            None
        }
    }
}

impl Default for Binding {
    fn default() -> (r: Self)
        ensures
            r@ == Map::<int, RawValue>::empty(),
    {
        Binding::new()
    }
}

/// A constraint on some variables of a query. Given the values bound so far
/// it admits certain values for each of its variables: it proposes them, and
/// it confirms which of a list of candidates it admits.
pub trait Constraint {
    /// The variables this constraint restricts.
    spec fn spec_variables(&self) -> Set<int>;

    /// Whether the constraint admits `value` for `variable` under `binding`.
    spec fn admits(&self, variable: int, binding: Map<int, RawValue>, value: RawValue) -> bool;

    /// Whether `value` may be among the values the constraint proposes for
    /// `variable` under `binding`: every admitted value is, and a constraint
    /// may propose more and leave it to `confirm` to filter them.
    spec fn proposes(&self, variable: int, binding: Map<int, RawValue>, value: RawValue) -> bool;

    /// Every admitted value may be proposed.
    proof fn lemma_admitted_proposed(&self, variable: int, binding: Map<int, RawValue>, value: RawValue)
        requires
            self.admits(variable, binding, value),
        ensures
            self.proposes(variable, binding, value),
    ;

    /// The estimate of the number of values the constraint admits for
    /// `variable` under `binding`.
    spec fn spec_estimate(&self, variable: int, binding: Map<int, RawValue>) -> nat;

    /// The variables this constraint restricts.
    fn variables(&self) -> (r: VariableSet)
        ensures
            r@ == self.spec_variables(),
    ;

    /// Whether this constraint restricts `variable`.
    fn variable(&self, variable: VariableId) -> (r: bool)
        ensures
            r == self.spec_variables().contains(variable as int),
    ;

    /// An estimate of the number of values this constraint would propose
    /// for `variable`, when it restricts it.
    fn estimate(&self, variable: VariableId, binding: &Binding) -> (r: usize)
        ensures
            self.spec_variables().contains(variable as int) ==> r == self.spec_estimate(variable as int, binding@),
    ;

    /// Adds to `proposals` candidate values for `variable`: every admitted
    /// value, and perhaps more that it proposes. A variable this constraint
    /// does not restrict leaves `proposals` as it is.
    fn propose(&self, variable: VariableId, binding: &Binding, proposals: &mut Vec<RawValue>)
        ensures
            self.spec_variables().contains(variable as int) ==> forall|x: RawValue| #[trigger] final(proposals)@.contains(x)
                ==> (old(proposals)@.contains(x) || self.proposes(variable as int, binding@, x)),
            self.spec_variables().contains(variable as int) ==> forall|x: RawValue| (old(proposals)@.contains(x) || self.admits(
                variable as int,
                binding@,
                x,
            )) ==> #[trigger] final(proposals)@.contains(x),
            !self.spec_variables().contains(variable as int) ==> final(proposals)@ == old(proposals)@,
            old(proposals)@.len() == 0 ==> final(proposals)@.no_duplicates(),
    ;

    /// Keeps in `proposals` the values admitted for `variable`. A variable
    /// this constraint does not restrict leaves `proposals` as it is.
    fn confirm(&self, variable: VariableId, binding: &Binding, proposals: &mut Vec<RawValue>)
        ensures
            self.spec_variables().contains(variable as int) ==> forall|x: RawValue| #[trigger] final(proposals)@.contains(x)
                <==> (old(proposals)@.contains(x) && self.admits(variable as int, binding@, x)),
            !self.spec_variables().contains(variable as int) ==> final(proposals)@ == old(proposals)@,
            old(proposals)@.no_duplicates() ==> final(proposals)@.no_duplicates(),
    ;
}

/// Things that can be turned into the constraint that a variable takes one
/// of their elements.
pub trait ContainsConstraint<T> {
    type Constraint: Constraint;

    /// The constraint that `v` takes one of the elements of `self`.
    fn has(self, v: Variable<T>) -> Self::Constraint;
}

/// Keeps the values of `proposals` that equal `value`.
pub fn retain_equal(proposals: &mut Vec<RawValue>, value: &RawValue)
    ensures
        forall|x: RawValue| #[trigger] final(proposals)@.contains(x) <==> (old(proposals)@.contains(x) && x == *value),
        old(proposals)@.no_duplicates() ==> final(proposals)@.no_duplicates(),
        final(proposals)@ == old(proposals)@.filter(|x: RawValue| x == *value),
{
    let mut kept: Vec<RawValue> = Vec::new();
    let mut i: usize = 0;
    while i < proposals.len()
        invariant
            i <= proposals@.len(),
            *proposals == *old(proposals),
            forall|x: RawValue| #[trigger] kept@.contains(x) <==> (exists|j: int| 0 <= j < i && proposals@[j] == x) && x == *value,
            proposals@.no_duplicates() ==> kept@.no_duplicates(),
            kept@ == proposals@.take(i as int).filter(|x: RawValue| x == *value),
        decreases proposals@.len() - i,
    {
        let ghost before = kept@;
        proof {
            let pred = |x: RawValue| x == *value;
            let one = seq![proposals@[i as int]];
            assert(proposals@.take(i + 1) =~= proposals@.take(i as int) + one);
            Seq::filter_distributes_over_add(proposals@.take(i as int), one, pred);
            reveal_with_fuel(Seq::filter, 2);
            assert(one.drop_last() =~= Seq::<RawValue>::empty());
        }
        let matched = value_eq(&proposals[i], value);
        if matched {
            proof {
                if proposals@.no_duplicates() {
                    lemma_push_unseen(before, proposals@, i as int);
                }
            }
            kept.push(proposals[i]);
        }
        proof {
            assert forall|x: RawValue| #[trigger] kept@.contains(x) <==> (exists|j: int| 0 <= j < i + 1 && proposals@[j] == x) && x == *value by {
                if exists|j: int| 0 <= j < i + 1 && proposals@[j] == x {
                    let j = choose|j: int| 0 <= j < i + 1 && proposals@[j] == x;
                    if j < i {
                        assert(exists|j: int| 0 <= j < i && proposals@[j] == x);
                        if x == *value {
                            assert(before.contains(x));
                            let w = choose|w: int| 0 <= w < before.len() && before[w] == x;
                            assert(kept@[w] == x);
                        }
                    } else if x == *value {
                        assert(matched);
                        assert(kept@[before.len() as int] == x);
                    }
                }
                if kept@.contains(x) {
                    let w = choose|w: int| 0 <= w < kept@.len() && kept@[w] == x;
                    if w < before.len() {
                        assert(before[w] == x);
                        assert(before.contains(x));
                        let j = choose|j: int| 0 <= j < i && proposals@[j] == x;
                        assert(0 <= j < i + 1 && proposals@[j] == x);
                    } else {
                        assert(matched && x == proposals@[i as int]);
                    }
                }
            }
        }
        i = i + 1;
    }
    proof {
        assert(proposals@.take(proposals@.len() as int) =~= proposals@);
    }
    *proposals = kept;
}


/// Appending to a list without repetitions, whose values all come before
/// position `i` of a list without repetitions, the value at `i` keeps it
/// without repetitions.
pub proof fn lemma_push_unseen(kept: Seq<RawValue>, p: Seq<RawValue>, i: int)
    requires
        p.no_duplicates(),
        0 <= i < p.len(),
        kept.no_duplicates(),
        forall|x: RawValue| #[trigger] kept.contains(x) ==> exists|j: int| 0 <= j < i && p[j] == x,
    ensures
        kept.push(p[i]).no_duplicates(),
{
    if kept.contains(p[i]) {
        let j = choose|j: int| 0 <= j < i && p[j] == p[i];
    }
    let k = kept.push(p[i]);
    assert forall|a: int, b: int| 0 <= a < k.len() && 0 <= b < k.len() && a != b implies k[a] != k[b] by {
        if a == kept.len() {
            assert(kept.contains(k[b]));
        } else if b == kept.len() {
            assert(kept.contains(k[a]));
        }
    }
}

/// Whether `x` is among `values`.
pub fn value_in(values: &Vec<RawValue>, x: &RawValue) -> (r: bool)
    ensures
        r == values@.contains(*x),
{
    let mut i: usize = 0;
    while i < values.len()
        invariant
            i <= values@.len(),
            forall|j: int| 0 <= j < i ==> values@[j] != *x,
        decreases values@.len() - i,
    {
        if value_eq(&values[i], x) {
            return true;
        }
        i = i + 1;
    }
    false
}

/// Appends the values of `src` to `dst`.
pub fn extend_values(dst: &mut Vec<RawValue>, src: &Vec<RawValue>)
    ensures
        final(dst)@ == old(dst)@ + src@,
        forall|x: RawValue| #[trigger] final(dst)@.contains(x) <==> (old(dst)@.contains(x) || src@.contains(x)),
        old(dst)@.len() == 0 && src@.no_duplicates() ==> final(dst)@.no_duplicates(),
{
    let mut i: usize = 0;
    while i < src.len()
        invariant
            i <= src@.len(),
            dst@ == old(dst)@ + src@.subrange(0, i as int),
        decreases src@.len() - i,
    {
        dst.push(src[i]);
        proof {
            assert(dst@ =~= old(dst)@ + src@.subrange(0, i + 1));
        }
        i = i + 1;
    }
    proof {
        assert(src@.subrange(0, src@.len() as int) =~= src@);
        if old(dst)@.len() == 0 {
            assert(dst@ =~= src@);
        }
        assert forall|x: RawValue| #[trigger] dst@.contains(x) <==> (old(dst)@.contains(x) || src@.contains(x)) by {
            let n = old(dst)@.len();
            if dst@.contains(x) {
                let j = choose|j: int| 0 <= j < dst@.len() && dst@[j] == x;
                if j < n {
                    assert(old(dst)@[j] == x);
                } else {
                    assert(src@[j - n] == x);
                }
            }
            if old(dst)@.contains(x) {
                let j = choose|j: int| 0 <= j < n && old(dst)@[j] == x;
                assert(dst@[j] == x);
            }
            if src@.contains(x) {
                let j = choose|j: int| 0 <= j < src@.len() && src@[j] == x;
                assert(dst@[n + j] == x);
            }
        }
    }
}

/// The values of `values`, each once, in the order of their first
/// occurrence.
pub fn dedup_values(values: &Vec<RawValue>) -> (r: Vec<RawValue>)
    ensures
        forall|x: RawValue| #[trigger] r@.contains(x) <==> values@.contains(x),
        forall|i: int, j: int| 0 <= i < j < r@.len() ==> r@[i] != r@[j],
        r@.no_duplicates(),
{
    let mut out: Vec<RawValue> = Vec::new();
    let mut i: usize = 0;
    while i < values.len()
        invariant
            i <= values@.len(),
            forall|x: RawValue| #[trigger] out@.contains(x) <==> exists|j: int| 0 <= j < i && values@[j] == x,
            forall|a: int, b: int| 0 <= a < b < out@.len() ==> out@[a] != out@[b],
        decreases values@.len() - i,
    {
        let ghost before = out@;
        if !value_in(&out, &values[i]) {
            out.push(values[i]);
            proof {
                assert forall|a: int, b: int| 0 <= a < b < out@.len() implies out@[a] != out@[b] by {
                    if b == before.len() {
                        assert(out@[a] == before[a]);
                        if before[a] == values@[i as int] {
                            assert(before.contains(values@[i as int]));
                        }
                    }
                }
            }
        }
        proof {
            assert forall|x: RawValue| #[trigger] out@.contains(x) <==> exists|j: int| 0 <= j < i + 1 && values@[j] == x by {
                if out@.contains(x) {
                    let w = choose|w: int| 0 <= w < out@.len() && out@[w] == x;
                    if w < before.len() {
                        assert(before[w] == x);
                        assert(before.contains(x));
                        let j = choose|j: int| 0 <= j < i && values@[j] == x;
                        assert(0 <= j < i + 1 && values@[j] == x);
                    } else {
                        assert(x == values@[i as int]);
                    }
                }
                if exists|j: int| 0 <= j < i + 1 && values@[j] == x {
                    let j = choose|j: int| 0 <= j < i + 1 && values@[j] == x;
                    if j < i {
                        assert(exists|j: int| 0 <= j < i && values@[j] == x);
                        assert(before.contains(x));
                        let w = choose|w: int| 0 <= w < before.len() && before[w] == x;
                        assert(out@[w] == x);
                    } else if before.contains(x) {
                        let w = choose|w: int| 0 <= w < before.len() && before[w] == x;
                        assert(out@[w] == x);
                    } else {
                        assert(out@[before.len() as int] == x);
                    }
                }
            }
        }
        i = i + 1;
    }
    proof {
        assert forall|x: RawValue| #[trigger] out@.contains(x) <==> values@.contains(x) by {
            if values@.contains(x) {
                let j = choose|j: int| 0 <= j < values@.len() && values@[j] == x;
            }
        }
        assert forall|a: int, b: int| 0 <= a < out@.len() && 0 <= b < out@.len() && a != b implies out@[a] != out@[b] by {
            if a > b {
                assert(out@[b] != out@[a]);
            }
        }
    }
    out
}


/// Keeps the values of `proposals` that are among `allowed`.
pub fn retain_in(proposals: &mut Vec<RawValue>, allowed: &Vec<RawValue>)
    ensures
        forall|x: RawValue| #[trigger] final(proposals)@.contains(x) <==> (old(proposals)@.contains(x) && allowed@.contains(x)),
        old(proposals)@.no_duplicates() ==> final(proposals)@.no_duplicates(),
{
    let mut kept: Vec<RawValue> = Vec::new();
    let mut i: usize = 0;
    while i < proposals.len()
        invariant
            i <= proposals@.len(),
            *proposals == *old(proposals),
            forall|x: RawValue| #[trigger] kept@.contains(x) <==> (exists|j: int| 0 <= j < i && proposals@[j] == x) && allowed@.contains(x),
            proposals@.no_duplicates() ==> kept@.no_duplicates(),
        decreases proposals@.len() - i,
    {
        let ghost before = kept@;
        let v = proposals[i];
        let present = value_in(allowed, &v);
        if present {
            proof {
                if proposals@.no_duplicates() {
                    lemma_push_unseen(before, proposals@, i as int);
                }
            }
            kept.push(v);
        }
        proof {
            assert forall|x: RawValue| #[trigger] kept@.contains(x) <==> (exists|j: int| 0 <= j < i + 1 && proposals@[j] == x)
                && allowed@.contains(x) by {
                if kept@.contains(x) {
                    let w = choose|w: int| 0 <= w < kept@.len() && kept@[w] == x;
                    if w < before.len() {
                        assert(before[w] == x);
                        assert(before.contains(x));
                        let j = choose|j: int| 0 <= j < i && proposals@[j] == x;
                        assert(0 <= j < i + 1 && proposals@[j] == x);
                    } else {
                        assert(x == v);
                        assert(0 <= i < i + 1 && proposals@[i as int] == x);
                    }
                }
                if (exists|j: int| 0 <= j < i + 1 && proposals@[j] == x) && allowed@.contains(x) {
                    let j = choose|j: int| 0 <= j < i + 1 && proposals@[j] == x;
                    if j < i {
                        assert(exists|j: int| 0 <= j < i && proposals@[j] == x);
                        assert(before.contains(x));
                        let w = choose|w: int| 0 <= w < before.len() && before[w] == x;
                        assert(kept@[w] == x);
                    } else {
                        assert(kept@[before.len() as int] == x);
                    }
                }
            }
        }
        i = i + 1;
    }
    *proposals = kept;
    proof {
        assert forall|x: RawValue| #[trigger] proposals@.contains(x) <==> (old(proposals)@.contains(x) && allowed@.contains(x)) by {
            if old(proposals)@.contains(x) {
                let j = choose|j: int| 0 <= j < old(proposals)@.len() && old(proposals)@[j] == x;
            }
        }
    }
}


#[verifier::external_type_specification]
#[verifier::external_body]
#[verifier::reject_recursive_types(T)]
pub struct ExArrayVec<T, const CAP: usize>(ArrayVec<T, CAP>);

/// The variables held by an `arrayvec::ArrayVec`, in order.
pub uninterp spec fn arrayvec_items(v: ArrayVec<VariableId, 128>) -> Seq<VariableId>;

/// Calls `ArrayVec::new`: an empty vector.
#[verifier::external_body]
fn variables_new() -> (r: ArrayVec<VariableId, 128>)
    ensures
        arrayvec_items(r) == Seq::<VariableId>::empty(),
{
    ArrayVec::new()
}

/// Calls `ArrayVec::len`: the number of items, never above the capacity.
#[verifier::external_body]
fn variables_len(v: &ArrayVec<VariableId, 128>) -> (r: usize)
    ensures
        r == arrayvec_items(*v).len(),
        r <= 128,
{
    v.len()
}

/// Calls `ArrayVec::push`, which panics on a full vector: appends `x`.
#[verifier::external_body]
fn variables_push(v: &mut ArrayVec<VariableId, 128>, x: VariableId)
    requires
        arrayvec_items(*old(v)).len() < 128,
    ensures
        arrayvec_items(*final(v)) == arrayvec_items(*old(v)).push(x),
{
    v.push(x)
}

/// Calls `ArrayVec::pop`: removes and returns the last item, if any.
#[verifier::external_body]
fn variables_pop(v: &mut ArrayVec<VariableId, 128>) -> (r: Option<VariableId>)
    ensures
        arrayvec_items(*old(v)).len() == 0 ==> r is None && arrayvec_items(*final(v)) == arrayvec_items(*old(v)),
        arrayvec_items(*old(v)).len() > 0 ==> r == Some(arrayvec_items(*old(v)).last())
            && arrayvec_items(*final(v)) == arrayvec_items(*old(v)).drop_last(),
{
    v.pop()
}

/// Calls `ArrayVec::swap_remove`, which panics on an index out of bounds:
/// removes the item at `index`, putting the last item in its place.
#[verifier::external_body]
fn variables_swap_remove(v: &mut ArrayVec<VariableId, 128>, index: usize) -> (r: VariableId)
    requires
        index < arrayvec_items(*old(v)).len(),
    ensures
        r == arrayvec_items(*old(v))[index as int],
        arrayvec_items(*final(v)) == arrayvec_items(*old(v)).update(index as int, arrayvec_items(*old(v)).last()).drop_last(),
{
    v.swap_remove(index)
}

/// Reads the item at `index` through `ArrayVec`'s indexing, which panics on
/// an index out of bounds.
#[verifier::external_body]
fn variables_get(v: &ArrayVec<VariableId, 128>, index: usize) -> (r: VariableId)
    requires
        index < arrayvec_items(*v).len(),
    ensures
        r == arrayvec_items(*v)[index as int],
{
    v[index]
}

/// Calls `ArrayVec::last`: the last item, if any.
#[verifier::external_body]
fn variables_last(v: &ArrayVec<VariableId, 128>) -> (r: Option<VariableId>)
    ensures
        arrayvec_items(*v).len() == 0 ==> r is None,
        arrayvec_items(*v).len() > 0 ==> r == Some(arrayvec_items(*v).last()),
{
    v.last().copied()
}


/// The variables bound before position `j` of `order`.
pub open spec fn prefix_set(order: Seq<int>, j: int) -> Set<int> {
    Set::new(|v: int| exists|i: int| 0 <= i < j && order[i] == v)
}

/// `order` lists the variables of `c` once each, `m` binds exactly them, and
/// the constraint admits the value of each variable given the values of the
/// variables before it.
pub open spec fn derivation<C: Constraint>(c: C, order: Seq<int>, m: Map<int, RawValue>) -> bool {
    &&& order.no_duplicates()
    &&& order.to_set() == c.spec_variables()
    &&& m.dom() == c.spec_variables()
    &&& forall|j: int| 0 <= j < order.len() ==> c.admits(order[j], m.restrict(prefix_set(order, j)), #[trigger] m[order[j]])
}

/// `order` lists the variables of `c` once each, `m` binds exactly them, and
/// the constraint may propose the value of each variable given the values of
/// the variables before it.
pub open spec fn candidate_derivation<C: Constraint>(c: C, order: Seq<int>, m: Map<int, RawValue>) -> bool {
    &&& order.no_duplicates()
    &&& order.to_set() == c.spec_variables()
    &&& m.dom() == c.spec_variables()
    &&& forall|j: int| 0 <= j < order.len() ==> c.proposes(order[j], m.restrict(prefix_set(order, j)), #[trigger] m[order[j]])
}

/// `m` binds the variables of `c` to values the constraint may propose, in
/// some order: what a query over `c` can hand out.
pub open spec fn candidate<C: Constraint>(c: C, m: Map<int, RawValue>) -> bool {
    exists|order: Seq<int>| candidate_derivation(c, order, m)
}

/// A constraint proposes exactly what it admits.
pub open spec fn exact<C: Constraint>(c: C) -> bool {
    forall|v: int, b: Map<int, RawValue>, x: RawValue| #[trigger] c.proposes(v, b, x) ==> c.admits(v, b, x)
}

/// Of a constraint that proposes only what it admits, every binding a query
/// can hand out is a solution.
pub proof fn lemma_exact_candidate_solution<C: Constraint>(c: C, m: Map<int, RawValue>)
    requires
        exact(c),
        candidate(c, m),
    ensures
        solution(c, m),
{
    let order = choose|order: Seq<int>| candidate_derivation(c, order, m);
    assert(derivation(c, order, m));
}

/// `m` binds the variables of `c` to values the constraint admits, in some
/// order.
pub open spec fn solution<C: Constraint>(c: C, m: Map<int, RawValue>) -> bool {
    exists|order: Seq<int>| derivation(c, order, m)
}

/// The base of the search measure: one more than the largest length of a
/// list of candidates.
pub open spec fn measure_base() -> nat {
    usize::MAX as nat + 2
}

/// The number with the digits `d[0..n]` in base `measure_base()`, most
/// significant first.
pub open spec fn horner(d: Seq<nat>, n: int) -> nat
    decreases n,
{
    if n <= 0 {
        0
    } else {
        horner(d, n - 1) * measure_base() + d[n - 1]
    }
}

proof fn lemma_horner_bound(d: Seq<nat>, n: int)
    requires
        0 <= n <= d.len(),
        forall|i: int| 0 <= i < d.len() ==> #[trigger] d[i] < measure_base(),
    ensures
        horner(d, n) >= 0,
    decreases n,
{
    if n > 0 {
        lemma_horner_bound(d, n - 1);
    }
}

/// Digits that agree before position `p` and are smaller at `p` make a
/// smaller number.
proof fn lemma_horner_lex(d1: Seq<nat>, d2: Seq<nat>, p: int, n: int)
    requires
        d1.len() == d2.len(),
        0 <= p < n <= d1.len(),
        forall|i: int| 0 <= i < d1.len() ==> #[trigger] d1[i] < measure_base(),
        forall|i: int| 0 <= i < d2.len() ==> #[trigger] d2[i] < measure_base(),
        forall|i: int| 0 <= i < p ==> d1[i] == d2[i],
        d2[p] < d1[p],
    ensures
        horner(d2, n) < horner(d1, n),
    decreases n,
{
    let w = measure_base();
    if n == p + 1 {
        assert(horner(d1, p) == horner(d2, p)) by {
            lemma_horner_eq(d1, d2, p);
        }
    } else {
        lemma_horner_lex(d1, d2, p, n - 1);
        let a = horner(d1, n - 1);
        let b = horner(d2, n - 1);
        let x = d1[n - 1];
        let y = d2[n - 1];
        assert(b * w + y < a * w + x) by (nonlinear_arith)
            requires
                b < a,
                y < w,
                0 <= x,
                w > 0,
        ;
    }
}

proof fn lemma_horner_eq(d1: Seq<nat>, d2: Seq<nat>, n: int)
    requires
        0 <= n <= d1.len(),
        n <= d2.len(),
        forall|i: int| 0 <= i < n ==> d1[i] == d2[i],
    ensures
        horner(d1, n) == horner(d2, n),
    decreases n,
{
    if n > 0 {
        lemma_horner_eq(d1, d2, n - 1);
    }
}

/// `m` and `b` bind the first `n` variables of `st`, to the same values.
pub open spec fn agrees_on(m: Map<int, RawValue>, b: Map<int, RawValue>, st: Seq<int>, n: int) -> bool {
    forall|i: int|
        #![trigger st[i]]
        0 <= i < n ==> m.contains_key(st[i]) && b.contains_key(st[i]) && m[st[i]] == b[st[i]]
}

/// A search with stack `st`, binding `b` and remaining candidates `vals`
/// (by variable) has `m` still ahead of it: `m` agrees with `b` on a prefix
/// of the stack and gives the next variable of the stack one of its
/// remaining candidates, or (when `full`) agrees with `b` on the whole stack.
pub open spec fn ahead(st: Seq<int>, b: Map<int, RawValue>, vals: Seq<Seq<RawValue>>, full: bool, m: Map<int, RawValue>) -> bool {
    ||| full && agrees_on(m, b, st, st.len() as int)
    ||| exists|j: int| 0 <= j < st.len() && agrees_on(m, b, st, j) && #[trigger] vals[st[j]].contains(m[st[j]])
}

/// Every solution of `c` was produced already or is still ahead of the
/// search (which has nothing ahead once it is done).
pub open spec fn search_covers<C: Constraint>(
    c: C,
    produced: Set<Map<int, RawValue>>,
    st: Seq<int>,
    b: Map<int, RawValue>,
    vals: Seq<Seq<RawValue>>,
    mode: Search,
) -> bool {
    forall|m: Map<int, RawValue>|
        #[trigger] solution(c, m) ==> produced.contains(m) || (mode != Search::Done && ahead(st, b, vals, mode == Search::Vertical, m))
}

/// Whatever set of its other variables is bound to the values of a
/// solution, the constraint admits the value the solution gives a variable.
/// Constraints that admit a value when some tuple of their relation agrees
/// with it and with the bound variables are consistent.
pub open spec fn consistent<C: Constraint>(c: C) -> bool {
    forall|m: Map<int, RawValue>, s: Set<int>, v: int|
        solution(c, m) && s.subset_of(c.spec_variables()) && c.spec_variables().contains(v) && !s.contains(v)
            ==> #[trigger] c.admits(v, m.restrict(s), m[v])
}

/// A constraint whose verdicts do not depend on the binding (such as a
/// constant or a set of values for one variable) is consistent.
pub proof fn lemma_binding_free_consistent<C: Constraint>(c: C)
    requires
        forall|v: int, b1: Map<int, RawValue>, b2: Map<int, RawValue>, x: RawValue|
            #![trigger c.admits(v, b1, x), c.admits(v, b2, x)]
            c.admits(v, b1, x) == c.admits(v, b2, x),
    ensures
        consistent(c),
{
    assert forall|m: Map<int, RawValue>, s: Set<int>, v: int|
        solution(c, m) && s.subset_of(c.spec_variables()) && c.spec_variables().contains(v) && !s.contains(v)
            implies #[trigger] c.admits(v, m.restrict(s), m[v]) by {
        let o = choose|o: Seq<int>| derivation(c, o, m);
        assert(o.to_set().contains(v));
        let j = choose|j: int| 0 <= j < o.len() && o[j] == v;
        assert(c.admits(o[j], m.restrict(prefix_set(o, j)), m[o[j]]));
        assert(c.admits(v, m.restrict(prefix_set(o, j)), m[v]) == c.admits(v, m.restrict(s), m[v]));
    }
}

/// The remaining candidates of each variable.
pub open spec fn candidates_view(values: Seq<Vec<RawValue>>) -> Seq<Seq<RawValue>> {
    values.map_values(|v: Vec<RawValue>| v@)
}

/// A solution binds exactly the variables of the constraint.
proof fn lemma_solution_dom<C: Constraint>(c: C, m: Map<int, RawValue>)
    requires
        solution(c, m),
    ensures
        m.dom() == c.spec_variables(),
{
    let o = choose|o: Seq<int>| derivation(c, o, m);
}

/// Handing out the binding when every variable is bound leaves everything
/// else ahead.
proof fn lemma_covers_produce<C: Constraint>(
    c: C,
    produced: Set<Map<int, RawValue>>,
    st: Seq<int>,
    b: Map<int, RawValue>,
    vals: Seq<Seq<RawValue>>,
)
    requires
        search_covers(c, produced, st, b, vals, Search::Vertical),
        b.dom() == c.spec_variables(),
        forall|v: int| #[trigger] c.spec_variables().contains(v) ==> st.contains(v),
    ensures
        search_covers(c, produced.insert(b), st, b, vals, Search::Horizontal),
{
    assert forall|m: Map<int, RawValue>| #[trigger] solution(c, m) implies produced.insert(b).contains(m) || ahead(
        st,
        b,
        vals,
        false,
        m,
    ) by {
        if agrees_on(m, b, st, st.len() as int) {
            lemma_solution_dom(c, m);
            assert(m =~= b) by {
                assert forall|k: int| #[trigger] m.contains_key(k) implies m[k] == b[k] by {
                    let i = choose|i: int| 0 <= i < st.len() && st[i] == k;
                }
            }
        }
    }
}

/// Picking `v` and proposing its admitted values keeps every solution that
/// agrees with the binding ahead.
proof fn lemma_covers_pick<C: Constraint>(
    c: C,
    produced: Set<Map<int, RawValue>>,
    st: Seq<int>,
    b: Map<int, RawValue>,
    vals: Seq<Seq<RawValue>>,
    v: int,
    props: Seq<RawValue>,
)
    requires
        consistent(c),
        search_covers(c, produced, st, b, vals, Search::Vertical),
        !st.contains(v),
        c.spec_variables().contains(v),
        forall|i: int| 0 <= i < st.len() ==> c.spec_variables().contains(#[trigger] st[i]),
        forall|i: int| 0 <= i < st.len() ==> 0 <= #[trigger] st[i] < vals.len(),
        b.dom() == st.to_set(),
        0 <= v < vals.len(),
        forall|x: RawValue| c.admits(v, b, x) ==> #[trigger] props.contains(x),
    ensures
        search_covers(c, produced, st.push(v), b, vals.update(v, props), Search::Horizontal),
{
    let st1 = st.push(v);
    let vals1 = vals.update(v, props);
    let k = st.len() as int;
    assert forall|m: Map<int, RawValue>| #[trigger] solution(c, m) implies produced.contains(m) || ahead(st1, b, vals1, false, m) by {
        if !produced.contains(m) {
            if agrees_on(m, b, st, k) {
                let s = st.to_set();
                assert(s.subset_of(c.spec_variables())) by {
                    assert forall|x: int| #[trigger] s.contains(x) implies c.spec_variables().contains(x) by {
                        let i = choose|i: int| 0 <= i < st.len() && st[i] == x;
                    }
                }
                assert(m.restrict(s) =~= b) by {
                    assert forall|x: int| #[trigger] s.contains(x) implies m.contains_key(x) && m[x] == b[x] by {
                        let i = choose|i: int| 0 <= i < st.len() && st[i] == x;
                    }
                }
                assert(c.admits(v, m.restrict(s), m[v]));
                assert(props.contains(m[v]));
                assert(agrees_on(m, b, st1, k)) by {
                    assert forall|i: int| 0 <= i < k implies #[trigger] st1[i] == st[i] by {}
                }
                assert(vals1[st1[k]].contains(m[st1[k]]));
            } else {
                let j = choose|j: int| 0 <= j < st.len() && agrees_on(m, b, st, j) && #[trigger] vals[st[j]].contains(m[st[j]]);
                assert(st1[j] == st[j]);
                assert(st[j] != v);
                assert(agrees_on(m, b, st1, j)) by {
                    assert forall|i: int| 0 <= i < j implies #[trigger] st1[i] == st[i] by {}
                }
                assert(vals1[st1[j]].contains(m[st1[j]]));
            }
        }
    }
}

/// Binding the top variable of the stack to its last candidate keeps the
/// solutions ahead.
proof fn lemma_covers_bind<C: Constraint>(
    c: C,
    produced: Set<Map<int, RawValue>>,
    st: Seq<int>,
    b: Map<int, RawValue>,
    vals: Seq<Seq<RawValue>>,
)
    requires
        search_covers(c, produced, st, b, vals, Search::Horizontal),
        st.len() > 0,
        st.no_duplicates(),
        forall|i: int| 0 <= i < st.len() ==> c.spec_variables().contains(#[trigger] st[i]),
        forall|i: int| 0 <= i < st.len() ==> 0 <= #[trigger] st[i] < vals.len(),
        vals[st[st.len() - 1]].len() > 0,
    ensures
        ({
            let t = st.len() - 1;
            let x = vals[st[t]].last();
            search_covers(c, produced, st, b.insert(st[t], x), vals.update(st[t], vals[st[t]].drop_last()), Search::Vertical)
        }),
{
    let t = st.len() - 1;
    let w = st[t];
    let cand = vals[w];
    let x = cand.last();
    let b1 = b.insert(w, x);
    let vals1 = vals.update(w, cand.drop_last());
    assert forall|m: Map<int, RawValue>| #[trigger] solution(c, m) implies produced.contains(m) || ahead(st, b1, vals1, true, m) by {
        if !produced.contains(m) {
            let j = choose|j: int| 0 <= j < st.len() && agrees_on(m, b, st, j) && #[trigger] vals[st[j]].contains(m[st[j]]);
            assert(agrees_on(m, b1, st, j)) by {
                assert forall|i: int| 0 <= i < j implies #[trigger] st[i] != w by {}
            }
            if j < t {
                assert(st[j] != w);
                assert(vals1[st[j]].contains(m[st[j]]));
            } else {
                lemma_solution_dom(c, m);
                if m[w] == x {
                    assert(agrees_on(m, b1, st, st.len() as int));
                } else {
                    let y = choose|y: int| 0 <= y < cand.len() && cand[y] == m[w];
                    assert(y < cand.len() - 1);
                    assert(cand.drop_last()[y] == m[w]);
                    assert(vals1[st[j]].contains(m[st[j]]));
                }
            }
        }
    }
}

/// Leaving a variable whose candidates are used up keeps the solutions
/// ahead.
proof fn lemma_covers_backtrack<C: Constraint>(
    c: C,
    produced: Set<Map<int, RawValue>>,
    st: Seq<int>,
    b: Map<int, RawValue>,
    vals: Seq<Seq<RawValue>>,
)
    requires
        search_covers(c, produced, st, b, vals, Search::Horizontal),
        st.len() > 0,
        st.no_duplicates(),
        forall|i: int| 0 <= i < st.len() ==> 0 <= #[trigger] st[i] < vals.len(),
        vals[st[st.len() - 1]].len() == 0,
    ensures
        search_covers(c, produced, st.take(st.len() - 1), b.remove(st[st.len() - 1]), vals, Search::Horizontal),
{
    let t = st.len() - 1;
    let w = st[t];
    let st1 = st.take(t);
    let b1 = b.remove(w);
    assert forall|m: Map<int, RawValue>| #[trigger] solution(c, m) implies produced.contains(m) || ahead(st1, b1, vals, false, m) by {
        if !produced.contains(m) {
            let j = choose|j: int| 0 <= j < st.len() && agrees_on(m, b, st, j) && #[trigger] vals[st[j]].contains(m[st[j]]);
            assert(j < t);
            assert(st1[j] == st[j]);
            assert(agrees_on(m, b1, st1, j)) by {
                assert forall|i: int| 0 <= i < j implies #[trigger] st1[i] == st[i] && st[i] != w by {}
            }
            assert(vals[st1[j]].contains(m[st1[j]]));
        }
    }
}

/// With nothing left on the stack, nothing is ahead: every solution was
/// produced.
proof fn lemma_covers_done<C: Constraint>(
    c: C,
    produced: Set<Map<int, RawValue>>,
    st: Seq<int>,
    b: Map<int, RawValue>,
    vals: Seq<Seq<RawValue>>,
)
    requires
        search_covers(c, produced, st, b, vals, Search::Horizontal),
        st.len() == 0,
    ensures
        search_covers(c, produced, st, b, vals, Search::Done),
{
}

/// The remaining candidates of each variable on the stack are distinct and
/// exclude the value the variable is bound to.
pub open spec fn candidates_fresh(st: Seq<int>, b: Map<int, RawValue>, vals: Seq<Seq<RawValue>>) -> bool {
    forall|j: int|
        0 <= j < st.len() ==> (#[trigger] vals[st[j]]).no_duplicates() && (b.contains_key(st[j]) ==> !vals[st[j]].contains(
            b[st[j]],
        ))
}

/// No binding handed out is still ahead of the search.
pub open spec fn none_repeated(
    produced: Set<Map<int, RawValue>>,
    st: Seq<int>,
    b: Map<int, RawValue>,
    vals: Seq<Seq<RawValue>>,
    mode: Search,
) -> bool {
    forall|m: Map<int, RawValue>| #[trigger] produced.contains(m) ==> !(mode != Search::Done && ahead(st, b, vals, mode == Search::Vertical, m))
}

/// Handing out the binding when every variable is bound: it was not handed
/// out before, and afterwards it is no longer ahead.
proof fn lemma_fresh_produce(produced: Set<Map<int, RawValue>>, st: Seq<int>, b: Map<int, RawValue>, vals: Seq<Seq<RawValue>>)
    requires
        none_repeated(produced, st, b, vals, Search::Vertical),
        candidates_fresh(st, b, vals),
        forall|j: int| 0 <= j < st.len() ==> b.contains_key(#[trigger] st[j]),
    ensures
        !produced.contains(b),
        none_repeated(produced.insert(b), st, b, vals, Search::Horizontal),
{
    assert(agrees_on(b, b, st, st.len() as int));
    assert(ahead(st, b, vals, true, b));
    assert forall|m: Map<int, RawValue>| #[trigger] produced.insert(b).contains(m) implies !ahead(st, b, vals, false, m) by {
        if m == b {
            if ahead(st, b, vals, false, m) {
                let j = choose|j: int| 0 <= j < st.len() && agrees_on(m, b, st, j) && #[trigger] vals[st[j]].contains(m[st[j]]);
                assert(b.contains_key(st[j]));
            }
        } else {
            assert(!ahead(st, b, vals, true, m));
        }
    }
}

/// Picking a variable and its distinct candidates keeps both properties.
proof fn lemma_fresh_pick(
    produced: Set<Map<int, RawValue>>,
    st: Seq<int>,
    b: Map<int, RawValue>,
    vals: Seq<Seq<RawValue>>,
    v: int,
    props: Seq<RawValue>,
)
    requires
        none_repeated(produced, st, b, vals, Search::Vertical),
        candidates_fresh(st, b, vals),
        !st.contains(v),
        !b.contains_key(v),
        forall|i: int| 0 <= i < st.len() ==> 0 <= #[trigger] st[i] < vals.len(),
        0 <= v < vals.len(),
        props.no_duplicates(),
    ensures
        none_repeated(produced, st.push(v), b, vals.update(v, props), Search::Horizontal),
        candidates_fresh(st.push(v), b, vals.update(v, props)),
{
    let st1 = st.push(v);
    let vals1 = vals.update(v, props);
    let k = st.len() as int;
    assert forall|m: Map<int, RawValue>| #[trigger] produced.contains(m) implies !ahead(st1, b, vals1, false, m) by {
        assert(!ahead(st, b, vals, true, m));
        if ahead(st1, b, vals1, false, m) {
            let j = choose|j: int| 0 <= j < st1.len() && agrees_on(m, b, st1, j) && #[trigger] vals1[st1[j]].contains(m[st1[j]]);
            assert(agrees_on(m, b, st, j)) by {
                assert forall|i: int| 0 <= i < j implies m.contains_key(#[trigger] st[i]) && b.contains_key(st[i]) && m[st[i]] == b[st[i]] by {
                    assert(st1[i] == st[i]);
                }
            }
            if j < k {
                assert(st1[j] == st[j] && st[j] != v);
                assert(vals[st[j]].contains(m[st[j]]));
            }
        }
    }
    assert forall|j: int| 0 <= j < st1.len() implies (#[trigger] vals1[st1[j]]).no_duplicates() && (b.contains_key(st1[j])
        ==> !vals1[st1[j]].contains(b[st1[j]])) by {
        if j < k {
            assert(st1[j] == st[j] && st[j] != v);
            assert(vals[st[j]].no_duplicates());
        }
    }
}

/// Binding the top variable to its last candidate keeps both properties.
proof fn lemma_fresh_bind(produced: Set<Map<int, RawValue>>, st: Seq<int>, b: Map<int, RawValue>, vals: Seq<Seq<RawValue>>)
    requires
        none_repeated(produced, st, b, vals, Search::Horizontal),
        candidates_fresh(st, b, vals),
        st.len() > 0,
        st.no_duplicates(),
        forall|i: int| 0 <= i < st.len() ==> 0 <= #[trigger] st[i] < vals.len(),
        vals[st[st.len() - 1]].len() > 0,
    ensures
        ({
            let t = st.len() - 1;
            let x = vals[st[t]].last();
            let b1 = b.insert(st[t], x);
            let vals1 = vals.update(st[t], vals[st[t]].drop_last());
            none_repeated(produced, st, b1, vals1, Search::Vertical) && candidates_fresh(st, b1, vals1)
        }),
{
    let t = st.len() - 1;
    let w = st[t];
    let cand = vals[w];
    let x = cand.last();
    let b1 = b.insert(w, x);
    let vals1 = vals.update(w, cand.drop_last());
    assert forall|m: Map<int, RawValue>| #[trigger] produced.contains(m) implies !ahead(st, b1, vals1, true, m) by {
        assert(!ahead(st, b, vals, false, m));
        if ahead(st, b1, vals1, true, m) {
            if agrees_on(m, b1, st, st.len() as int) {
                assert(agrees_on(m, b, st, t)) by {
                    assert forall|i: int| 0 <= i < t implies #[trigger] st[i] != w by {}
                }
                assert(m[st[t]] == x);
                assert(cand.contains(x)) by {
                    assert(cand[cand.len() - 1] == x);
                }
                assert(vals[st[t]].contains(m[st[t]]));
            } else {
                let j = choose|j: int| 0 <= j < st.len() && agrees_on(m, b1, st, j) && #[trigger] vals1[st[j]].contains(m[st[j]]);
                assert(agrees_on(m, b, st, j)) by {
                    assert forall|i: int| 0 <= i < j implies #[trigger] st[i] != w by {}
                }
                if j < t {
                    assert(st[j] != w);
                    assert(vals[st[j]].contains(m[st[j]]));
                } else {
                    let y = choose|y: int| 0 <= y < cand.drop_last().len() && cand.drop_last()[y] == m[w];
                    assert(cand[y] == m[w]);
                    assert(vals[st[j]].contains(m[st[j]]));
                }
            }
        }
    }
    assert forall|j: int| 0 <= j < st.len() implies (#[trigger] vals1[st[j]]).no_duplicates() && (b1.contains_key(st[j])
        ==> !vals1[st[j]].contains(b1[st[j]])) by {
        assert(vals[st[j]].no_duplicates());
        if j == t {
            assert forall|a: int, c: int| 0 <= a < c < cand.drop_last().len() implies cand.drop_last()[a] != cand.drop_last()[c] by {
                assert(cand[a] != cand[c]);
            }
            if cand.drop_last().contains(x) {
                let y = choose|y: int| 0 <= y < cand.drop_last().len() && cand.drop_last()[y] == x;
                assert(cand[y] == cand[cand.len() - 1]);
            }
        } else {
            assert(st[j] != w);
        }
    }
}

/// Leaving a variable whose candidates are used up keeps both properties.
proof fn lemma_fresh_backtrack(produced: Set<Map<int, RawValue>>, st: Seq<int>, b: Map<int, RawValue>, vals: Seq<Seq<RawValue>>)
    requires
        none_repeated(produced, st, b, vals, Search::Horizontal),
        candidates_fresh(st, b, vals),
        st.len() > 0,
        st.no_duplicates(),
        forall|i: int| 0 <= i < st.len() ==> 0 <= #[trigger] st[i] < vals.len(),
        vals[st[st.len() - 1]].len() == 0,
    ensures
        none_repeated(produced, st.take(st.len() - 1), b.remove(st[st.len() - 1]), vals, Search::Horizontal),
        candidates_fresh(st.take(st.len() - 1), b.remove(st[st.len() - 1]), vals),
{
    let t = st.len() - 1;
    let w = st[t];
    let st1 = st.take(t);
    let b1 = b.remove(w);
    assert forall|m: Map<int, RawValue>| #[trigger] produced.contains(m) implies !ahead(st1, b1, vals, false, m) by {
        assert(!ahead(st, b, vals, false, m));
        if ahead(st1, b1, vals, false, m) {
            let j = choose|j: int| 0 <= j < st1.len() && agrees_on(m, b1, st1, j) && #[trigger] vals[st1[j]].contains(m[st1[j]]);
            assert(st1[j] == st[j]);
            assert(agrees_on(m, b, st, j)) by {
                assert forall|i: int| 0 <= i < j implies m.contains_key(#[trigger] st[i]) && b.contains_key(st[i]) && m[st[i]] == b[st[i]] by {
                    assert(st1[i] == st[i]);
                    assert(st[i] != w);
                }
            }
            assert(vals[st[j]].contains(m[st[j]]));
        }
    }
    assert forall|j: int| 0 <= j < st1.len() implies (#[trigger] vals[st1[j]]).no_duplicates() && (b1.contains_key(st1[j])
        ==> !vals[st1[j]].contains(b1[st1[j]])) by {
        assert(st1[j] == st[j] && st[j] != w);
        assert(vals[st[j]].no_duplicates());
    }
}

/// The state of the search of a query.
#[derive(Clone, Copy, Debug, PartialEq, Eq, Structural)]
pub enum Search {
    /// Pick the next variable and its candidates.
    Vertical,
    /// Bind the current variable to its next candidate, backtracking when
    /// there is none.
    Horizontal,
    /// All solutions have been produced.
    Done,
}

/// A query: a search for the bindings of the variables of `constraint` that
/// it admits, each handed to `postprocessing`.
#[verifier::reject_recursive_types(R)]
pub struct Query<C, P: Fn(&Binding) -> R, R> {
    constraint: C,
    postprocessing: P,
    mode: Search,
    binding: Binding,
    stack: ArrayVec<VariableId, 128>,
    unbound: ArrayVec<VariableId, 128>,
    values: Vec<Vec<RawValue>>,
    produced: Ghost<Set<Map<int, RawValue>>>,
}

impl<C: Constraint, P: Fn(&Binding) -> R, R> Query<C, P, R> {
    /// The constraint of the query.
    pub closed spec fn spec_constraint(&self) -> C {
        self.constraint
    }

    /// The function applied to each solution.
    pub closed spec fn spec_postprocessing(&self) -> P {
        self.postprocessing
    }

    /// The variables bound so far, in the order they were picked.
    pub closed spec fn spec_stack(&self) -> Seq<int> {
        arrayvec_items(self.stack).map_values(|v: VariableId| v as int)
    }

    /// The variables not picked yet.
    pub closed spec fn spec_unbound(&self) -> Seq<int> {
        arrayvec_items(self.unbound).map_values(|v: VariableId| v as int)
    }

    /// The remaining candidates of variable `w`.
    pub closed spec fn spec_candidates(&self, w: int) -> Seq<RawValue> {
        self.values@[w]@
    }

    /// The solutions handed out so far.
    pub closed spec fn spec_produced(&self) -> Set<Map<int, RawValue>> {
        self.produced@
    }

    /// Whether the search is over.
    pub closed spec fn spec_done(&self) -> bool {
        self.mode == Search::Done
    }

    /// When the constraint is consistent, every solution was handed out
    /// already or is still ahead of the search.
    pub closed spec fn covers(&self) -> bool {
        consistent(self.constraint) ==> search_covers(
            self.constraint,
            self.produced@,
            self.spec_stack(),
            self.binding@,
            candidates_view(self.values@),
            self.mode,
        )
    }

    /// Every binding handed out so far is one the constraint can propose.
    pub closed spec fn sound(&self) -> bool {
        forall|m: Map<int, RawValue>| #[trigger] self.produced@.contains(m) ==> candidate(self.constraint, m)
    }

    /// No binding handed out is still ahead of the search, and the remaining
    /// candidates of each picked variable are distinct and exclude its
    /// current value: no solution is handed out twice.
    pub closed spec fn unrepeated(&self) -> bool {
        &&& none_repeated(self.produced@, self.spec_stack(), self.binding@, candidates_view(self.values@), self.mode)
        &&& candidates_fresh(self.spec_stack(), self.binding@, candidates_view(self.values@))
    }

    /// The measure of the search: the numbers of remaining candidates of the
    /// picked variables, most recent last, as digits.
    pub closed spec fn spec_digits(&self) -> Seq<nat> {
        Seq::new(
            128,
            |i: int|
                if i < self.spec_stack().len() {
                    self.spec_candidates(self.spec_stack()[i]).len()
                } else {
                    (measure_base() - 1) as nat
                },
        )
    }

    /// How much of the search is left: the measure of the candidates still
    /// ahead, counted twice, plus one while a binding waits to be checked.
    /// Every call of `next` that hands out a solution lowers it.
    pub closed spec fn spec_progress(&self) -> nat {
        2 * horner(self.spec_digits(), 128) + if self.mode == Search::Vertical {
            1nat
        } else {
            0nat
        }
    }

    /// The invariant of the search.
    pub closed spec fn wf(&self) -> bool {
        let c = self.constraint;
        let st = self.spec_stack();
        let ub = self.spec_unbound();
        let b = self.binding@;
        &&& self.values@.len() == 128
        &&& forall|bb: &Binding| #[trigger] call_requires(self.postprocessing, (bb,))
        &&& forall|v: int| #[trigger] c.spec_variables().contains(v) ==> 0 <= v < 128
        &&& st.len() + ub.len() <= 128
        &&& st.no_duplicates()
        &&& ub.no_duplicates()
        &&& forall|i: int, j: int| 0 <= i < st.len() && 0 <= j < ub.len() ==> st[i] != ub[j]
        &&& forall|i: int| 0 <= i < st.len() ==> c.spec_variables().contains(#[trigger] st[i])
        &&& forall|i: int| 0 <= i < ub.len() ==> c.spec_variables().contains(#[trigger] ub[i])
        &&& forall|v: int| #[trigger] c.spec_variables().contains(v) ==> st.contains(v) || ub.contains(v)
        &&& forall|w: int| 0 <= w < 128 ==> (#[trigger] self.values@[w])@.len() <= usize::MAX
        &&& forall|w: int| 0 <= w < 128 && !st.contains(w) ==> (#[trigger] self.values@[w])@.len() == 0
        &&& forall|v: int| #[trigger] b.contains_key(v) ==> st.contains(v)
        &&& forall|j: int| 0 <= j < st.len() - 1 ==> b.contains_key(#[trigger] st[j])
        &&& self.mode == Search::Vertical ==> forall|j: int| 0 <= j < st.len() ==> b.contains_key(#[trigger] st[j])
        &&& forall|j: int| 0 <= j < st.len() && #[trigger] b.contains_key(st[j]) ==> c.proposes(st[j], b.restrict(prefix_set(st, j)), b[st[j]])
        &&& forall|j: int, x: RawValue|
            0 <= j < st.len() && #[trigger] self.values@[st[j]]@.contains(x) ==> c.proposes(st[j], b.restrict(prefix_set(st, j)), x)
    }

    /// A query for the solutions of `constraint`, each handed to
    /// `postprocessing`.
    pub fn new(constraint: C, postprocessing: P) -> (r: Self)
        requires
            forall|bb: &Binding| #[trigger] call_requires(postprocessing, (bb,)),
        ensures
            r.wf(),
            r.spec_constraint() == constraint,
            r.spec_postprocessing() == postprocessing,
            r.spec_stack().len() == 0,
            r.spec_produced() == Set::<Map<int, RawValue>>::empty(),
            r.covers(),
            r.unrepeated(),
            r.sound(),
            !r.spec_done(),
    {
        let variables = constraint.variables();
        let vs = variables.to_vec();
        proof {
            variables.lemma_view_wf();
            assert forall|k: int| 0 <= k < vs@.len() implies vs@[k] >= k && vs@[k] < 128 by {
                lemma_increasing_at_least(vs@, k);
                assert(crate::query::variableset::domain().contains(vs@[k] as int));
            }
        }
        let mut unbound = variables_new();
        let mut i: usize = 0;
        while i < vs.len()
            invariant
                i <= vs@.len(),
                forall|k: int| 0 <= k < vs@.len() ==> vs@[k] >= k && vs@[k] < 128,
                arrayvec_items(unbound) == vs@.take(i as int).map_values(|v: usize| v as VariableId),
            decreases vs@.len() - i,
        {
            variables_push(&mut unbound, vs[i] as VariableId);
            proof {
                assert(arrayvec_items(unbound) =~= vs@.take(i + 1).map_values(|v: usize| v as VariableId));
            }
            i = i + 1;
        }
        let mut values: Vec<Vec<RawValue>> = Vec::new();
        let mut j: usize = 0;
        while j < 128
            invariant
                j <= 128,
                values@.len() == j,
                forall|w: int| 0 <= w < j ==> (#[trigger] values@[w])@.len() == 0,
            decreases 128 - j,
        {
            values.push(Vec::new());
            j = j + 1;
        }
        let q = Query {
            constraint,
            postprocessing,
            mode: Search::Vertical,
            binding: Binding::new(),
            stack: variables_new(),
            unbound,
            values,
            produced: Ghost(Set::empty()),
        };
        proof {
            let ub = q.spec_unbound();
            assert(vs@.take(vs@.len() as int) =~= vs@);
            assert(ub.len() == vs@.len());
            assert forall|k: int| 0 <= k < ub.len() implies ub[k] == vs@[k] as int by {
                assert((vs@[k] as VariableId) as int == vs@[k] as int);
            }
            if vs@.len() > 0 {
                assert(vs@[vs@.len() - 1] >= vs@.len() - 1);
            }
            assert(ub.no_duplicates()) by {
                assert forall|a: int, b: int| 0 <= a < ub.len() && 0 <= b < ub.len() && a != b implies ub[a] != ub[b] by {
                    if a < b {
                        assert(vs@[a] < vs@[b]);
                    } else {
                        assert(vs@[b] < vs@[a]);
                    }
                }
            }
            assert forall|v: int| #[trigger] constraint.spec_variables().contains(v) implies 0 <= v < 128 by {
                assert(crate::query::variableset::domain().contains(v));
            }
            assert forall|v: int| #[trigger] constraint.spec_variables().contains(v) implies q.spec_stack().contains(v) || ub.contains(v) by {
                let k = choose|k: int| 0 <= k < vs@.len() && vs@[k] == v;
                assert(ub[k] == v);
            }
            assert forall|m: Map<int, RawValue>| #[trigger] solution(constraint, m) implies agrees_on(
                m,
                q.binding@,
                q.spec_stack(),
                0,
            ) by {}
        }
        q
    }

    /// Once the search of a query whose constraint is consistent is over,
    /// every solution has been handed out: asking `next` until it answers
    /// `None` yields all the solutions.
    pub proof fn lemma_exhausted_query_complete(&self)
        requires
            self.covers(),
            self.spec_done(),
            consistent(self.spec_constraint()),
        ensures
            forall|m: Map<int, RawValue>| #[trigger] solution(self.spec_constraint(), m) ==> self.spec_produced().contains(m),
    {
    }

    /// Once the search of a query over a consistent constraint that proposes
    /// only what it admits is over, the bindings handed out are exactly its
    /// solutions. With `next` handing out each binding at most once and
    /// answering `None` from then on, a query yields every solution once.
    pub proof fn lemma_exhausted_query_exact(&self)
        requires
            self.covers(),
            self.sound(),
            self.spec_done(),
            consistent(self.spec_constraint()),
            exact(self.spec_constraint()),
        ensures
            forall|m: Map<int, RawValue>| #[trigger] self.spec_produced().contains(m) <==> solution(self.spec_constraint(), m),
    {
        assert forall|m: Map<int, RawValue>| #[trigger] self.spec_produced().contains(m) implies solution(self.spec_constraint(), m) by {
            lemma_exact_candidate_solution(self.spec_constraint(), m);
        }
    }

    /// The next solution, handed to the postprocessing function, or `None`
    /// when there are no more.
    #[verifier::rlimit(60)]
    pub fn next(&mut self) -> (r: Option<R>)
        requires
            old(self).wf(),
        ensures
            final(self).wf(),
            final(self).spec_constraint() == old(self).spec_constraint(),
            final(self).spec_postprocessing() == old(self).spec_postprocessing(),
            r matches Some(x) ==> exists|b: Binding|
                candidate(old(self).spec_constraint(), b@) && call_ensures(old(self).spec_postprocessing(), (&b,), x)
                    && final(self).spec_produced() == old(self).spec_produced().insert(b@)
                    && (old(self).unrepeated() ==> !old(self).spec_produced().contains(b@)),
            r is None ==> final(self).spec_done() && final(self).spec_produced() == old(self).spec_produced(),
            old(self).spec_done() ==> r is None,
            r is Some ==> final(self).spec_progress() < old(self).spec_progress(),
            old(self).covers() ==> final(self).covers(),
            old(self).unrepeated() ==> final(self).unrepeated(),
            old(self).sound() ==> final(self).sound(),
    {
        loop
            invariant
                self.wf(),
                self.constraint == old(self).constraint,
                self.postprocessing == old(self).postprocessing,
                self.produced@ == old(self).produced@,
                old(self).covers() ==> self.covers(),
                old(self).unrepeated() ==> self.unrepeated(),
                old(self).sound() ==> self.sound(),
                self.spec_progress() <= old(self).spec_progress(),
                old(self).spec_done() ==> self.spec_done(),
            decreases horner(self.spec_digits(), 128),
        {
            let ghost d0 = self.spec_digits();
            let ghost st0 = self.spec_stack();
            let ghost v0 = self.values@;
            let ghost b0 = self.binding@;
            let ghost produced0 = self.produced@;
            let ghost covered0 = consistent(self.constraint) ==> search_covers(
                self.constraint,
                produced0,
                st0,
                b0,
                candidates_view(v0),
                self.mode,
            );
            proof {
                assert(old(self).covers() ==> covered0);
            }
            match self.mode {
                Search::Vertical => {
                    let n = variables_len(&self.unbound);
                    if n == 0 {
                        self.mode = Search::Horizontal;
                        proof {
                            let c = self.constraint;
                            let st = self.spec_stack();
                            let b = self.binding@;
                            assert(candidate_derivation(c, st, b)) by {
                                assert(st.to_set() =~= c.spec_variables()) by {
                                    assert forall|v: int| #[trigger] c.spec_variables().contains(v) implies st.to_set().contains(v) by {
                                        assert(st.contains(v) || self.spec_unbound().contains(v));
                                    }
                                }
                                assert(b.dom() =~= c.spec_variables()) by {
                                    assert forall|v: int| #[trigger] b.dom().contains(v) implies c.spec_variables().contains(v) by {
                                        let i = choose|i: int| 0 <= i < st.len() && st[i] == v;
                                    }
                                    assert forall|v: int| #[trigger] c.spec_variables().contains(v) implies b.dom().contains(v) by {
                                        assert(st.contains(v) || self.spec_unbound().contains(v));
                                        let i = choose|i: int| 0 <= i < st.len() && st[i] == v;
                                        assert(b.contains_key(st[i]));
                                    }
                                }
                                assert forall|j: int| 0 <= j < st.len() implies c.proposes(st[j], b.restrict(prefix_set(st, j)), #[trigger] b[st[j]]) by {
                                    assert(b.contains_key(st[j]));
                                }
                            }
                            if consistent(c) && covered0 {
                                lemma_covers_produce(c, produced0, st, b, candidates_view(self.values@));
                            }
                            if old(self).unrepeated() {
                                lemma_fresh_produce(produced0, st, b, candidates_view(self.values@));
                            }
                        }
                        self.produced = Ghost(self.produced@.insert(self.binding@));
                        proof {
                            assert(self.spec_digits() =~= d0);
                            assert(candidate(self.constraint, self.binding@));
                        }
                        let r = (self.postprocessing)(&self.binding);
                        return Some(r);
                    }
                    let ghost ubi0 = arrayvec_items(self.unbound);
                    let next_variable: VariableId = if n == 1 {
                        match variables_pop(&mut self.unbound) {
                            Some(v) => {
                                proof {
                                    assert(ubi0.update(0, ubi0.last()).drop_last() =~= ubi0.drop_last());
                                    assert(exists|i: int|
                                        0 <= i < ubi0.len() && ubi0[i] == v && arrayvec_items(self.unbound) == ubi0.update(i, ubi0.last()).drop_last());
                                }
                                v
                            },
                            None => {
                                proof {
                                    assert(false);
                                }
                                return None;
                            },
                        }
                    } else {
                        proof {
                            assert(self.spec_unbound()[0] == arrayvec_items(self.unbound)[0] as int);
                        }
                        let first = variables_get(&self.unbound, 0);
                        let mut best_index: usize = 0;
                        let mut best = self.constraint.estimate(first, &self.binding);
                        let mut i: usize = 1;
                        while i < n
                            invariant
                                self.wf(),
                                n == arrayvec_items(self.unbound).len(),
                                best_index < n,
                                1 <= i <= n,
                            decreases n - i,
                        {
                            let v = variables_get(&self.unbound, i);
                            proof {
                                assert(self.spec_unbound()[i as int] == v as int);
                            }
                            let e = self.constraint.estimate(v, &self.binding);
                            if e < best {
                                best = e;
                                best_index = i;
                            }
                            i = i + 1;
                        }
                        let v = variables_swap_remove(&mut self.unbound, best_index);
                        proof {
                            assert(exists|i: int|
                                0 <= i < ubi0.len() && ubi0[i] == v && arrayvec_items(self.unbound) == ubi0.update(i, ubi0.last()).drop_last());
                        }
                        v
                    };
                    let ghost ub1 = self.spec_unbound();
                    let ghost ub0 = ubi0.map_values(|v: VariableId| v as int);
                    proof {
                        assert(ubi0.no_duplicates()) by {
                            assert forall|a: int, b: int| 0 <= a < ubi0.len() && 0 <= b < ubi0.len() && a != b implies ubi0[a] != ubi0[b] by {
                                assert(ub0[a] != ub0[b]);
                            }
                        }
                        // the picked variable leaves the unbound ones and is not on the stack
                        lemma_picked(ubi0, arrayvec_items(self.unbound), next_variable);
                        let k0 = choose|k0: int| 0 <= k0 < ubi0.len() && ubi0[k0] == next_variable;
                        assert(ub0[k0] == next_variable as int);
                        assert(!st0.contains(next_variable as int)) by {
                            if st0.contains(next_variable as int) {
                                let i = choose|i: int| 0 <= i < st0.len() && st0[i] == next_variable as int;
                                assert(st0[i] != ub0[k0]);
                            }
                        }
                        assert(self.constraint.spec_variables().contains(next_variable as int)) by {
                            assert(self.constraint.spec_variables().contains(ub0[k0]));
                        }
                        assert(ub1.no_duplicates());
                        assert forall|x: int| #[trigger] ub0.contains(x) <==> (ub1.contains(x) || x == next_variable as int) by {
                            if ub0.contains(x) {
                                let i = choose|i: int| 0 <= i < ub0.len() && ub0[i] == x;
                                assert(ubi0.contains(ubi0[i]));
                                if ubi0[i] != next_variable {
                                    assert(arrayvec_items(self.unbound).contains(ubi0[i]));
                                    let j = choose|j: int| 0 <= j < arrayvec_items(self.unbound).len() && arrayvec_items(self.unbound)[j] == ubi0[i];
                                    assert(ub1[j] == x);
                                }
                            }
                            if ub1.contains(x) {
                                let j = choose|j: int| 0 <= j < ub1.len() && ub1[j] == x;
                                assert(ubi0.contains(arrayvec_items(self.unbound)[j]));
                                let i = choose|i: int| 0 <= i < ubi0.len() && ubi0[i] == arrayvec_items(self.unbound)[j];
                                assert(ub0[i] == x);
                            }
                        }
                        assert(!ub1.contains(next_variable as int)) by {
                            if ub1.contains(next_variable as int) {
                                let j = choose|j: int| 0 <= j < ub1.len() && ub1[j] == next_variable as int;
                                assert(arrayvec_items(self.unbound)[j] == next_variable);
                            }
                        }
                    }
                    variables_push(&mut self.stack, next_variable);
                    let mut fresh: Vec<RawValue> = Vec::new();
                    self.constraint.propose(next_variable, &self.binding, &mut fresh);
                    let ghost props = fresh@;
                    let ghost flen = fresh@.len();
                    assert(fresh.len() == flen);
                    self.values.set(next_variable as usize, fresh);
                    self.mode = Search::Horizontal;
                    proof {
                        let c = self.constraint;
                        let st = self.spec_stack();
                        let b = self.binding@;
                        let k = st0.len();
                        assert(st =~= st0.push(next_variable as int));
                        assert(b.restrict(prefix_set(st, k as int)) =~= b) by {
                            assert forall|v: int| #[trigger] b.contains_key(v) implies prefix_set(st, k as int).contains(v) by {
                                let i = choose|i: int| 0 <= i < st0.len() && st0[i] == v;
                                assert(st[i] == v);
                            }
                        }
                        assert forall|j: int| 0 <= j < k implies prefix_set(st, j) =~= prefix_set(st0, j) by {
                            assert forall|v: int| #[trigger] prefix_set(st, j).contains(v) <==> prefix_set(st0, j).contains(v) by {
                                if prefix_set(st, j).contains(v) {
                                    let i = choose|i: int| 0 <= i < j && st[i] == v;
                                    assert(st0[i] == v);
                                }
                                if prefix_set(st0, j).contains(v) {
                                    let i = choose|i: int| 0 <= i < j && st0[i] == v;
                                    assert(st[i] == v);
                                }
                            }
                        }
                        assert forall|w: int| 0 <= w < 128 && w != next_variable implies self.values@[w] == v0[w] by {}
                        assert(st.no_duplicates());
                        assert forall|i: int, j: int| 0 <= i < st.len() && 0 <= j < self.spec_unbound().len() implies st[i] != self.spec_unbound()[j] by {
                            assert(ub1.contains(ub1[j]));
                            if i < k {
                                assert(ub0.contains(ub1[j]));
                                let m = choose|m: int| 0 <= m < ub0.len() && ub0[m] == ub1[j];
                                assert(st0[i] != ub0[m]);
                            }
                        }
                        assert forall|v: int| #[trigger] c.spec_variables().contains(v) implies st.contains(v) || self.spec_unbound().contains(v) by {
                            if st0.contains(v) {
                                let i = choose|i: int| 0 <= i < st0.len() && st0[i] == v;
                                assert(st[i] == v);
                            } else if v == next_variable {
                                assert(st[k as int] == v);
                            }
                        }
                        assert forall|j: int, x: RawValue|
                            0 <= j < st.len() && #[trigger] self.values@[st[j]]@.contains(x) implies c.proposes(st[j], b.restrict(prefix_set(st, j)), x) by {
                            if j < k {
                                assert(st[j] != next_variable);
                            }
                        }
                        assert forall|v: int| #[trigger] b.contains_key(v) implies st.contains(v) by {
                            let i = choose|i: int| 0 <= i < st0.len() && st0[i] == v;
                            assert(st[i] == v);
                        }
                        assert forall|j: int| 0 <= j < st.len() - 1 implies b.contains_key(#[trigger] st[j]) by {
                            assert(st[j] == st0[j]);
                        }
                        assert(!b.contains_key(next_variable as int));
                        assert forall|j: int| 0 <= j < st.len() && #[trigger] b.contains_key(st[j]) implies c.proposes(st[j], b.restrict(prefix_set(st, j)), b[st[j]]) by {
                            if j < k {
                                assert(st[j] == st0[j]);
                                assert(prefix_set(st, j) == prefix_set(st0, j));
                            }
                        }
                        assert forall|i: int| 0 <= i < st.len() implies c.spec_variables().contains(#[trigger] st[i]) by {
                            if i < k {
                                assert(st[i] == st0[i]);
                            }
                        }
                        assert forall|i: int| 0 <= i < ub1.len() implies c.spec_variables().contains(#[trigger] ub1[i]) by {
                            assert(ub1.contains(ub1[i]));
                            assert(ub0.contains(ub1[i]));
                            let m = choose|m: int| 0 <= m < ub0.len() && ub0[m] == ub1[i];
                            assert(c.spec_variables().contains(ub0[m]));
                        }
                        assert forall|w: int| 0 <= w < 128 && !st.contains(w) implies (#[trigger] self.values@[w])@.len() == 0 by {
                            assert(w != next_variable as int) by {
                                if w == next_variable as int {
                                    assert(st[k as int] == w);
                                }
                            }
                            assert(!st0.contains(w)) by {
                                if st0.contains(w) {
                                    let i = choose|i: int| 0 <= i < st0.len() && st0[i] == w;
                                    assert(st[i] == w);
                                }
                            }
                        }
                        let d1 = self.spec_digits();
                        assert forall|i: int| 0 <= i < k implies d1[i] == d0[i] by {
                            assert(st[i] == st0[i]);
                            assert(st0[i] != next_variable);
                        }
                        assert forall|i: int| 0 <= i < 128 implies #[trigger] d0[i] < measure_base() by {
                            if i < k {
                                assert(0 <= st0[i] < 128);
                            }
                        }
                        assert forall|i: int| 0 <= i < 128 implies #[trigger] d1[i] < measure_base() by {
                            if i < st.len() {
                                assert(0 <= st[i] < 128);
                            }
                        }
                        lemma_horner_lex(d0, d1, k as int, 128);
                        if consistent(c) && covered0 {
                            assert(b0.dom() =~= st0.to_set()) by {
                                assert forall|x: int| #[trigger] st0.to_set().contains(x) implies b0.dom().contains(x) by {
                                    let i = choose|i: int| 0 <= i < st0.len() && st0[i] == x;
                                    assert(b0.contains_key(st0[i]));
                                }
                            }
                            assert forall|i: int| 0 <= i < st0.len() implies 0 <= #[trigger] st0[i] < candidates_view(v0).len() by {
                                assert(c.spec_variables().contains(st0[i]));
                            }
                            assert forall|i: int| 0 <= i < st0.len() implies c.spec_variables().contains(#[trigger] st0[i]) by {}
                            lemma_covers_pick(c, produced0, st0, b0, candidates_view(v0), next_variable as int, props);
                            assert(candidates_view(self.values@) =~= candidates_view(v0).update(next_variable as int, props));
                        }
                        if old(self).unrepeated() {
                            assert forall|i: int| 0 <= i < st0.len() implies 0 <= #[trigger] st0[i] < candidates_view(v0).len() by {
                                assert(c.spec_variables().contains(st0[i]));
                            }
                            assert(!b0.contains_key(next_variable as int));
                            lemma_fresh_pick(produced0, st0, b0, candidates_view(v0), next_variable as int, props);
                            assert(candidates_view(self.values@) =~= candidates_view(v0).update(next_variable as int, props));
                        }
                    }
                },
                Search::Horizontal => {
                    loop
                        invariant_except_break
                            self.mode == Search::Horizontal,
                            forall|i: int| 0 <= i < self.spec_stack().len() ==> (#[trigger] self.values@[st0[i]])@ == v0[st0[i]]@,
                        invariant
                            self.wf(),
                            self.constraint == old(self).constraint,
                            self.postprocessing == old(self).postprocessing,
                            self.produced@ == old(self).produced@,
                            old(self).covers() ==> self.covers(),
                            old(self).unrepeated() ==> self.unrepeated(),
                            old(self).sound() ==> self.sound(),
                            2 * horner(d0, 128) <= old(self).spec_progress(),
                            self.mode == Search::Horizontal || self.mode == Search::Vertical,
                            self.spec_stack().len() <= st0.len(),
                            self.spec_stack() == st0.take(self.spec_stack().len() as int),
                            forall|i: int| 0 <= i < st0.len() ==> 0 <= #[trigger] st0[i] < 128,
                            forall|w: int| 0 <= w < 128 ==> (#[trigger] v0[w])@.len() <= usize::MAX,
                            v0.len() == 128,
                            d0 == Seq::new(
                                128,
                                |i: int|
                                    if i < st0.len() {
                                        v0[st0[i]]@.len()
                                    } else {
                                        (measure_base() - 1) as nat
                                    },
                            ),
                        ensures
                            self.wf(),
                            self.produced@ == old(self).produced@,
                            self.spec_progress() <= old(self).spec_progress(),
                            old(self).unrepeated() ==> self.unrepeated(),
                            old(self).sound() ==> self.sound(),
                            old(self).covers() ==> self.covers(),
                            self.mode == Search::Vertical,
                            self.constraint == old(self).constraint,
                            self.postprocessing == old(self).postprocessing,
                            horner(self.spec_digits(), 128) < horner(d0, 128),
                        decreases self.spec_stack().len(),
                    {
                        let ghost stc = self.spec_stack();
                        let ghost ubc = self.spec_unbound();
                        let ghost bc = self.binding@;
                        match variables_last(&self.stack) {
                            None => {
                                proof {
                                    if consistent(self.constraint) && old(self).covers() {
                                        lemma_covers_done(self.constraint, self.produced@, stc, bc, candidates_view(self.values@));
                                    }
                                }
                                self.mode = Search::Done;
                                return None;
                            },
                            Some(variable) => {
                                let ghost t: int = stc.len() - 1;
                                proof {
                                    assert(stc[t] == variable as int);
                                    assert(0 <= variable < 128);
                                }
                                let ghost vc = self.values@;
                                let popped = self.values[variable as usize].pop();
                                match popped {
                                    Some(assignment) => {
                                        proof {
                                            assert(v0[st0[t]]@.contains(assignment));
                                        }
                                        self.binding.set(variable, &assignment);
                                        self.mode = Search::Vertical;
                                        proof {
                                            let c = self.constraint;
                                            let st = self.spec_stack();
                                            let b = self.binding@;
                                            assert(!prefix_set(st, t).contains(variable as int)) by {
                                                if prefix_set(st, t).contains(variable as int) {
                                                    let i = choose|i: int| 0 <= i < t && st[i] == variable as int;
                                                    assert(st[i] == st[t]);
                                                }
                                            }
                                            assert forall|j: int| 0 <= j <= t implies #[trigger] b.restrict(prefix_set(st, j)) == bc.restrict(prefix_set(st, j)) by {
                                                assert(!prefix_set(st, j).contains(variable as int)) by {
                                                    if prefix_set(st, j).contains(variable as int) {
                                                        let i = choose|i: int| 0 <= i < j && st[i] == variable as int;
                                                        assert(st[i] == st[t]);
                                                    }
                                                }
                                                assert(b.restrict(prefix_set(st, j)) =~= bc.restrict(prefix_set(st, j)));
                                            }
                                            assert forall|j: int| 0 <= j < st.len() && #[trigger] b.contains_key(st[j]) implies c.proposes(st[j], b.restrict(prefix_set(st, j)), b[st[j]]) by {
                                                assert(b.restrict(prefix_set(st, j)) == bc.restrict(prefix_set(st, j)));
                                                if j < t {
                                                    assert(st[j] != st[t]);
                                                }
                                            }
                                            assert forall|j: int, x: RawValue|
                                                0 <= j < st.len() && #[trigger] self.values@[st[j]]@.contains(x) implies c.proposes(st[j], b.restrict(prefix_set(st, j)), x) by {
                                                assert(b.restrict(prefix_set(st, j)) == bc.restrict(prefix_set(st, j)));
                                                if j == t {
                                                    assert(self.values@[st[t]]@ == v0[st0[t]]@.drop_last());
                                                    let w = choose|w: int| 0 <= w < self.values@[st[j]]@.len() && self.values@[st[j]]@[w] == x;
                                                    assert(v0[st0[t]]@[w] == x);
                                                    assert(v0[st0[t]]@.contains(x));
                                                } else {
                                                    assert(st[j] != st[t]);
                                                }
                                            }
                                            let d1 = self.spec_digits();
                                            assert forall|i: int| 0 <= i < t implies d1[i] == d0[i] by {
                                                assert(st[i] == st0[i]);
                                                assert(st[i] != st[t]);
                                            }
                                            assert(d1[t] < d0[t]);
                                            assert forall|i: int| 0 <= i < 128 implies #[trigger] d0[i] < measure_base() by {
                                                if i < st0.len() {
                                                    assert(0 <= st0[i] < 128);
                                                    assert(v0[st0[i]]@.len() <= usize::MAX);
                                                }
                                            }
                                            assert forall|i: int| 0 <= i < 128 implies #[trigger] d1[i] < measure_base() by {
                                                if i < st.len() {
                                                    assert(0 <= st[i] < 128);
                                                }
                                            }
                                            lemma_horner_lex(d0, d1, t as int, 128);
                                            if consistent(c) && old(self).covers() {
                                                assert forall|i: int| 0 <= i < stc.len() implies 0 <= #[trigger] stc[i] < candidates_view(vc).len() by {
                                                    assert(c.spec_variables().contains(stc[i]));
                                                }
                                                lemma_covers_bind(c, self.produced@, stc, bc, candidates_view(vc));
                                                assert(candidates_view(self.values@) =~= candidates_view(vc).update(
                                                    stc[t],
                                                    candidates_view(vc)[stc[t]].drop_last(),
                                                ));
                                            }
                                            if old(self).unrepeated() {
                                                assert forall|i: int| 0 <= i < stc.len() implies 0 <= #[trigger] stc[i] < candidates_view(vc).len() by {
                                                    assert(c.spec_variables().contains(stc[i]));
                                                }
                                                lemma_fresh_bind(self.produced@, stc, bc, candidates_view(vc));
                                                assert(candidates_view(self.values@) =~= candidates_view(vc).update(
                                                    stc[t],
                                                    candidates_view(vc)[stc[t]].drop_last(),
                                                ));
                                            }
                                        }
                                        break;
                                    },
                                    None => {
                                        proof {
                                            assert forall|w: int| 0 <= w < 128 implies (#[trigger] self.values@[w])@ == vc[w]@ by {}
                                        }
                                        variables_pop(&mut self.stack);
                                        self.binding.unset(variable);
                                        variables_push(&mut self.unbound, variable);
                                        proof {
                                            let c = self.constraint;
                                            let st = self.spec_stack();
                                            let b = self.binding@;
                                            assert(st =~= stc.take(t as int));
                                            assert(st =~= st0.take(t as int));
                                            assert forall|j: int| 0 <= j < st.len() implies #[trigger] b.restrict(prefix_set(st, j)) == bc.restrict(prefix_set(stc, j)) by {
                                                assert(prefix_set(st, j) =~= prefix_set(stc, j)) by {
                                                    assert forall|v: int| #[trigger] prefix_set(st, j).contains(v) <==> prefix_set(stc, j).contains(v) by {
                                                        if prefix_set(stc, j).contains(v) {
                                                            let i = choose|i: int| 0 <= i < j && stc[i] == v;
                                                            assert(st[i] == v);
                                                        }
                                                        if prefix_set(st, j).contains(v) {
                                                            let i = choose|i: int| 0 <= i < j && st[i] == v;
                                                            assert(stc[i] == v);
                                                        }
                                                    }
                                                }
                                                assert(!prefix_set(stc, j).contains(variable as int)) by {
                                                    if prefix_set(stc, j).contains(variable as int) {
                                                        let i = choose|i: int| 0 <= i < j && stc[i] == variable as int;
                                                        assert(stc[i] == stc[t]);
                                                    }
                                                }
                                                assert(b.restrict(prefix_set(st, j)) =~= bc.restrict(prefix_set(stc, j)));
                                            }
                                            assert forall|v: int| #[trigger] b.contains_key(v) implies st.contains(v) by {
                                                assert(stc.contains(v));
                                                let i = choose|i: int| 0 <= i < stc.len() && stc[i] == v;
                                                assert(i != t);
                                                assert(st[i] == v);
                                            }
                                            assert forall|j: int| 0 <= j < st.len() && #[trigger] b.contains_key(st[j]) implies c.proposes(st[j], b.restrict(prefix_set(st, j)), b[st[j]]) by {
                                                assert(b.restrict(prefix_set(st, j)) == bc.restrict(prefix_set(stc, j)));
                                                assert(st[j] == stc[j]);
                                                assert(stc[j] != stc[t]);
                                            }
                                            assert forall|j: int, x: RawValue|
                                                0 <= j < st.len() && #[trigger] self.values@[st[j]]@.contains(x) implies c.proposes(st[j], b.restrict(prefix_set(st, j)), x) by {
                                                assert(b.restrict(prefix_set(st, j)) == bc.restrict(prefix_set(stc, j)));
                                                assert(st[j] == stc[j]);
                                                assert(stc[j] != stc[t]);
                                            }
                                            assert forall|w: int| 0 <= w < 128 && !st.contains(w) implies (#[trigger] self.values@[w])@.len() == 0 by {
                                                if w != variable as int {
                                                    assert(!stc.contains(w)) by {
                                                        if stc.contains(w) {
                                                            let i = choose|i: int| 0 <= i < stc.len() && stc[i] == w;
                                                            assert(i != t);
                                                            assert(st[i] == w);
                                                        }
                                                    }
                                                }
                                            }
                                            let ub = self.spec_unbound();
                                            assert(ub =~= ubc.push(variable as int));
                                            assert(ub.no_duplicates()) by {
                                                assert forall|a: int, bb: int| 0 <= a < ub.len() && 0 <= bb < ub.len() && a != bb implies ub[a] != ub[bb] by {
                                                    if a == ub.len() - 1 {
                                                        assert(ubc[bb] != stc[t]);
                                                    } else if bb == ub.len() - 1 {
                                                        assert(ubc[a] != stc[t]);
                                                    }
                                                }
                                            }
                                            assert forall|i: int, j: int| 0 <= i < st.len() && 0 <= j < ub.len() implies st[i] != ub[j] by {
                                                assert(stc[i] != stc[t]);
                                                if j < ubc.len() {
                                                    assert(stc[i] != ubc[j]);
                                                }
                                            }
                                            assert forall|v: int| #[trigger] c.spec_variables().contains(v) implies st.contains(v) || ub.contains(v) by {
                                                if ubc.contains(v) {
                                                    let j = choose|j: int| 0 <= j < ubc.len() && ubc[j] == v;
                                                    assert(ub[j] == v);
                                                }
                                                if stc.contains(v) && v != variable as int {
                                                    let i = choose|i: int| 0 <= i < stc.len() && stc[i] == v;
                                                    assert(st[i] == v);
                                                }
                                                if v == variable as int {
                                                    assert(ub[ub.len() - 1] == v);
                                                }
                                            }
                                            if consistent(c) && old(self).covers() {
                                                assert forall|i: int| 0 <= i < stc.len() implies 0 <= #[trigger] stc[i] < candidates_view(vc).len() by {
                                                    assert(c.spec_variables().contains(stc[i]));
                                                }
                                                lemma_covers_backtrack(c, self.produced@, stc, bc, candidates_view(vc));
                                                assert(candidates_view(self.values@) =~= candidates_view(vc));
                                            }
                                            if old(self).unrepeated() {
                                                assert forall|i: int| 0 <= i < stc.len() implies 0 <= #[trigger] stc[i] < candidates_view(vc).len() by {
                                                    assert(c.spec_variables().contains(stc[i]));
                                                }
                                                lemma_fresh_backtrack(self.produced@, stc, bc, candidates_view(vc));
                                                assert(candidates_view(self.values@) =~= candidates_view(vc));
                                            }
                                        }
                                    },
                                }
                            },
                        }
                    }
                },
                Search::Done => {
                    return None;
                },
            }
        }
    }
}

/// A strictly increasing sequence of naturals has `s[k] >= k`.
proof fn lemma_increasing_at_least(s: Seq<usize>, k: int)
    requires
        0 <= k < s.len(),
        forall|a: int, b: int| 0 <= a < b < s.len() ==> s[a] < s[b],
    ensures
        s[k] >= k,
    decreases k,
{
    if k > 0 {
        lemma_increasing_at_least(s, k - 1);
    }
}


/// Picking a variable from a list without repetitions leaves the others.
proof fn lemma_picked(before: Seq<VariableId>, after: Seq<VariableId>, picked: VariableId)
    requires
        before.no_duplicates(),
        exists|i: int|
            0 <= i < before.len() && before[i] == picked && after == before.update(i, before.last()).drop_last(),
    ensures
        after.no_duplicates(),
        after.len() + 1 == before.len(),
        !after.contains(picked),
        exists|k: int| 0 <= k < before.len() && before[k] == picked,
        forall|x: VariableId| #[trigger] before.contains(x) <==> (after.contains(x) || x == picked),
{
    let i = choose|i: int| 0 <= i < before.len() && before[i] == picked && after == before.update(i, before.last()).drop_last();
    let n = before.len();
    assert forall|a: int, b: int| 0 <= a < after.len() && 0 <= b < after.len() && a != b implies after[a] != after[b] by {
        let sa = if a == i { n - 1 } else { a };
        let sb = if b == i { n - 1 } else { b };
        assert(after[a] == before[sa]);
        assert(after[b] == before[sb]);
    }
    assert forall|x: VariableId| #[trigger] before.contains(x) <==> (after.contains(x) || x == picked) by {
        if before.contains(x) && x != picked {
            let k = choose|k: int| 0 <= k < n && before[k] == x;
            if k == n - 1 {
                assert(after[i] == x);
            } else {
                assert(k != i);
                assert(after[k] == x);
            }
        }
        if after.contains(x) {
            let k = choose|k: int| 0 <= k < after.len() && after[k] == x;
            let sk = if k == i { n - 1 } else { k };
            assert(before[sk] == x);
        }
    }
    assert(!after.contains(picked)) by {
        if after.contains(picked) {
            let k = choose|k: int| 0 <= k < after.len() && after[k] == picked;
            let sk = if k == i { n - 1 } else { k };
            assert(before[sk] == picked);
            assert(sk != i);
        }
    }
}

} // verus!
