//! Constraints that a variable takes one of the keys of a PATCH: a value
//! key, or an id key embedded in a value.
use vstd::prelude::*;

use crate::id::{id_from_value, id_into_value, spec_id_value, ID_LEN};
use crate::patch::node::{distinct_from, views_from};
use crate::patch::{IdentitySchema, PATCH};
use crate::query::variableset::VariableSet;
use crate::query::{extend_values, lemma_push_unseen, Binding, Constraint, ContainsConstraint, Variable, VariableId};
use crate::value::{RawValue, VALUE_LEN};

verus! {

/// The constraint that a variable is a key of a PATCH of values.
pub struct PatchValueConstraint<'a, T> {
    variable: Variable<T>,
    patch: &'a PATCH<VALUE_LEN, IdentitySchema, ()>,
}

impl<'a, T> PatchValueConstraint<'a, T> {
    /// The constrained variable.
    pub closed spec fn spec_variable(&self) -> VariableId {
        self.variable.index
    }

    /// The keys the variable can take.
    pub closed spec fn spec_keys(&self) -> Set<Seq<u8>> {
        self.patch@.dom()
    }

    /// The constraint that `variable` is a key of `patch`.
    pub fn new(variable: Variable<T>, patch: &'a PATCH<VALUE_LEN, IdentitySchema, ()>) -> (r: Self)
        ensures
            r.spec_variable() == variable.index,
            r.spec_keys() == patch@.dom(),
    {
        PatchValueConstraint { variable, patch }
    }
}

impl<'a, T> Constraint for PatchValueConstraint<'a, T> {
    open spec fn spec_variables(&self) -> Set<int> {
        if self.spec_variable() < 128 {
            Set::empty().insert(self.spec_variable() as int)
        } else {
            Set::empty()
        }
    }

    open spec fn spec_estimate(&self, variable: int, binding: Map<int, RawValue>) -> nat {
        (self.spec_keys().len() as usize) as nat
    }

    open spec fn admits(&self, variable: int, binding: Map<int, RawValue>, value: RawValue) -> bool {
        variable == self.spec_variable() && self.spec_keys().contains(value@)
    }

    open spec fn proposes(&self, variable: int, binding: Map<int, RawValue>, value: RawValue) -> bool {
        self.admits(variable, binding, value)
    }

    proof fn lemma_admitted_proposed(&self, variable: int, binding: Map<int, RawValue>, value: RawValue) {
    }

    fn variables(&self) -> (r: VariableSet) {
        if self.variable.index < 128 {
            VariableSet::new_singleton(self.variable.index as usize)
        } else {
            VariableSet::new_empty()
        }
    }

    fn variable(&self, variable: VariableId) -> (r: bool) {
        self.variable.index == variable && self.variable.index < 128
    }

    fn estimate(&self, variable: VariableId, binding: &Binding) -> (r: usize) {
        self.patch.len() as usize
    }

    fn propose(&self, variable: VariableId, binding: &Binding, proposals: &mut Vec<RawValue>) {
        if !self.variable(variable) {
            return;
        }
        let prefix: [u8; 0] = [];
        let keys = self.patch.infixes::<0, 32>(&prefix);
        proof {
            assert forall|x: RawValue| #[trigger] keys@.contains(x) <==> self.spec_keys().contains(x@) by {
                if keys@.contains(x) {
                    let j = choose|j: int| 0 <= j < keys@.len() && keys@[j] == x;
                    assert(views_from(keys@, 0).contains(keys@[j]@));
                }
                if self.spec_keys().contains(x@) {
                    assert(views_from(keys@, 0).contains(x@));
                    let j = choose|j: int| 0 <= j < keys@.len() && (#[trigger] keys@[j])@ == x@;
                    assert(keys@[j] =~= x);
                }
            }
        }
        extend_values(proposals, &keys);
    }

    fn confirm(&self, variable: VariableId, binding: &Binding, proposals: &mut Vec<RawValue>) {
        if !self.variable(variable) {
            return;
        }
        let mut kept: Vec<RawValue> = Vec::new();
        let mut i: usize = 0;
        while i < proposals.len()
            invariant
                i <= proposals@.len(),
                *proposals == *old(proposals),
                variable == self.spec_variable(),
                proposals@.no_duplicates() ==> kept@.no_duplicates(),
                forall|x: RawValue| #[trigger] kept@.contains(x) <==> (exists|j: int| 0 <= j < i && proposals@[j] == x)
                    && self.spec_keys().contains(x@),
            decreases proposals@.len() - i,
        {
            let ghost before = kept@;
            let v = proposals[i];
            let present = self.patch.has_prefix(&v);
            if present {
                proof {
                    if proposals@.no_duplicates() {
                        assert forall|x: RawValue| #[trigger] before.contains(x) implies exists|j: int| 0 <= j < i && proposals@[j] == x by {}
                        lemma_push_unseen(before, proposals@, i as int);
                    }
                }
                kept.push(v);
            }
            proof {
                assert forall|x: RawValue| #[trigger] kept@.contains(x) <==> (exists|j: int| 0 <= j < i + 1 && proposals@[j] == x)
                    && self.spec_keys().contains(x@) by {
                    if kept@.contains(x) {
                        let w = choose|w: int| 0 <= w < kept@.len() && kept@[w] == x;
                        if w < before.len() {
                            assert(before[w] == x);
                            assert(before.contains(x));
                            let j = choose|j: int| 0 <= j < i && proposals@[j] == x;
                            assert(0 <= j < i + 1 && proposals@[j] == x);
                        } else {
                            assert(x == v);
                            assert(0 <= i < i + 1 && proposals@[i as int] == x);
                        }
                    }
                    if (exists|j: int| 0 <= j < i + 1 && proposals@[j] == x) && self.spec_keys().contains(x@) {
                        let j = choose|j: int| 0 <= j < i + 1 && proposals@[j] == x;
                        if j < i {
                            assert(exists|j: int| 0 <= j < i && proposals@[j] == x);
                            assert(before.contains(x));
                            let w = choose|w: int| 0 <= w < before.len() && before[w] == x;
                            assert(kept@[w] == x);
                        } else {
                            assert(kept@[before.len() as int] == x);
                        }
                    }
                }
            }
            i = i + 1;
        }
        *proposals = kept;
        proof {
            assert forall|x: RawValue| #[trigger] proposals@.contains(x) <==> (old(proposals)@.contains(x)
                && self.admits(variable as int, binding@, x)) by {
                if old(proposals)@.contains(x) {
                    let j = choose|j: int| 0 <= j < old(proposals)@.len() && old(proposals)@[j] == x;
                }
            }
        }
    }
}

impl<'a, T> ContainsConstraint<T> for &'a PATCH<VALUE_LEN, IdentitySchema, ()> {
    type Constraint = PatchValueConstraint<'a, T>;

    fn has(self, v: Variable<T>) -> (r: PatchValueConstraint<'a, T>)
        ensures
            r.spec_variable() == v.index,
            r.spec_keys() == self@.dom(),
    {
        PatchValueConstraint::new(v, self)
    }
}

/// The constraint that a variable holds an id that is a key of a PATCH.
pub struct PatchIdConstraint<T> {
    variable: Variable<T>,
    patch: PATCH<ID_LEN, IdentitySchema, ()>,
}

impl<T> PatchIdConstraint<T> {
    /// The constrained variable.
    pub closed spec fn spec_variable(&self) -> VariableId {
        self.variable.index
    }

    /// The ids the variable can hold.
    pub closed spec fn spec_ids(&self) -> Set<Seq<u8>> {
        self.patch@.dom()
    }

    /// The constraint that `variable` holds a key of `patch`.
    pub fn new(variable: Variable<T>, patch: PATCH<ID_LEN, IdentitySchema, ()>) -> (r: Self)
        ensures
            r.spec_variable() == variable.index,
            r.spec_ids() == patch@.dom(),
    {
        PatchIdConstraint { variable, patch }
    }
}

impl<T> Constraint for PatchIdConstraint<T> {
    open spec fn spec_variables(&self) -> Set<int> {
        if self.spec_variable() < 128 {
            Set::empty().insert(self.spec_variable() as int)
        } else {
            Set::empty()
        }
    }

    open spec fn spec_estimate(&self, variable: int, binding: Map<int, RawValue>) -> nat {
        (self.spec_ids().len() as usize) as nat
    }

    open spec fn admits(&self, variable: int, binding: Map<int, RawValue>, value: RawValue) -> bool {
        variable == self.spec_variable() && exists|id: Seq<u8>| #[trigger] self.spec_ids().contains(id) && value@ == spec_id_value(id)
    }

    open spec fn proposes(&self, variable: int, binding: Map<int, RawValue>, value: RawValue) -> bool {
        self.admits(variable, binding, value)
    }

    proof fn lemma_admitted_proposed(&self, variable: int, binding: Map<int, RawValue>, value: RawValue) {
    }

    fn variables(&self) -> (r: VariableSet) {
        if self.variable.index < 128 {
            VariableSet::new_singleton(self.variable.index as usize)
        } else {
            VariableSet::new_empty()
        }
    }

    fn variable(&self, variable: VariableId) -> (r: bool) {
        self.variable.index == variable && self.variable.index < 128
    }

    fn estimate(&self, variable: VariableId, binding: &Binding) -> (r: usize) {
        self.patch.len() as usize
    }

    fn propose(&self, variable: VariableId, binding: &Binding, proposals: &mut Vec<RawValue>) {
        if !self.variable(variable) {
            return;
        }
        let prefix: [u8; 0] = [];
        let ids = self.patch.infixes::<0, 16>(&prefix);
        let ghost start = proposals@;
        let mut i: usize = 0;
        while i < ids.len()
            invariant
                i <= ids@.len(),
                views_from(ids@, 0) == self.spec_ids(),
                variable == self.spec_variable(),
                forall|x: RawValue| #[trigger] proposals@.contains(x) <==> (start.contains(x)
                    || exists|j: int| 0 <= j < i && x@ == spec_id_value(ids@[j]@)),
                distinct_from(ids@, 0),
                start.len() == 0 ==> proposals@.len() == i && proposals@.no_duplicates() && forall|w: int|
                    0 <= w < i ==> (#[trigger] proposals@[w])@ == spec_id_value(ids@[w]@),
            decreases ids@.len() - i,
        {
            let ghost before = proposals@;
            let v = id_into_value(&ids[i]);
            proposals.push(v);
            proof {
                if start.len() == 0 {
                    assert forall|a: int, b: int| 0 <= a < proposals@.len() && 0 <= b < proposals@.len() && a != b implies proposals@[a]
                        != proposals@[b] by {
                        if a == i || b == i {
                            let o = if a == i { b } else { a };
                            assert(proposals@[o] == before[o]);
                            assert(ids@[o]@ != ids@[i as int]@) by {
                                if o < i {
                                    assert(ids@[o]@ != ids@[i as int]@);
                                } else {
                                    assert(ids@[i as int]@ != ids@[o]@);
                                }
                            }
                            if proposals@[a] == proposals@[b] {
                                assert(ids@[o]@ =~= spec_id_value(ids@[o]@).subrange(16, 32));
                                assert(ids@[i as int]@ =~= spec_id_value(ids@[i as int]@).subrange(16, 32));
                            }
                        } else {
                            assert(proposals@[a] == before[a] && proposals@[b] == before[b]);
                        }
                    }
                    assert forall|w: int| 0 <= w < i + 1 implies (#[trigger] proposals@[w])@ == spec_id_value(ids@[w]@) by {
                        if w < i {
                            assert(proposals@[w] == before[w]);
                        }
                    }
                }
                assert forall|x: RawValue| #[trigger] proposals@.contains(x) <==> (start.contains(x)
                    || exists|j: int| 0 <= j < i + 1 && x@ == spec_id_value(ids@[j]@)) by {
                    if proposals@.contains(x) {
                        let w = choose|w: int| 0 <= w < proposals@.len() && proposals@[w] == x;
                        if w < before.len() {
                            assert(before[w] == x);
                            assert(before.contains(x));
                            if !start.contains(x) {
                                let j = choose|j: int| 0 <= j < i && x@ == spec_id_value(ids@[j]@);
                                assert(0 <= j < i + 1 && x@ == spec_id_value(ids@[j]@));
                            }
                        } else {
                            assert(x == v);
                        }
                    }
                    if start.contains(x) || exists|j: int| 0 <= j < i + 1 && x@ == spec_id_value(ids@[j]@) {
                        if start.contains(x) || exists|j: int| 0 <= j < i && x@ == spec_id_value(ids@[j]@) {
                            assert(before.contains(x));
                            let w = choose|w: int| 0 <= w < before.len() && before[w] == x;
                            assert(proposals@[w] == x);
                        } else {
                            assert(x@ == v@);
                            assert(x =~= v);
                            assert(proposals@[before.len() as int] == x);
                        }
                    }
                }
            }
            i = i + 1;
        }
        proof {
            assert forall|x: RawValue| #[trigger] proposals@.contains(x) <==> (old(proposals)@.contains(x)
                || self.admits(variable as int, binding@, x)) by {
                if exists|j: int| 0 <= j < ids@.len() && x@ == spec_id_value(ids@[j]@) {
                    let j = choose|j: int| 0 <= j < ids@.len() && x@ == spec_id_value(ids@[j]@);
                    assert(views_from(ids@, 0).contains(ids@[j]@));
                    assert(self.spec_ids().contains(ids@[j]@));
                }
                if self.admits(variable as int, binding@, x) {
                    let id = choose|id: Seq<u8>| #[trigger] self.spec_ids().contains(id) && x@ == spec_id_value(id);
                    assert(views_from(ids@, 0).contains(id));
                    let j = choose|j: int| 0 <= j < ids@.len() && (#[trigger] ids@[j])@ == id;
                    assert(0 <= j < ids@.len() && x@ == spec_id_value(ids@[j]@));
                }
            }
        }
    }

    fn confirm(&self, variable: VariableId, binding: &Binding, proposals: &mut Vec<RawValue>) {
        if !self.variable(variable) {
            return;
        }
        let mut kept: Vec<RawValue> = Vec::new();
        let mut i: usize = 0;
        while i < proposals.len()
            invariant
                i <= proposals@.len(),
                *proposals == *old(proposals),
                variable == self.spec_variable(),
                proposals@.no_duplicates() ==> kept@.no_duplicates(),
                forall|x: RawValue| #[trigger] kept@.contains(x) <==> (exists|j: int| 0 <= j < i && proposals@[j] == x)
                    && self.admits(variable as int, binding@, x),
            decreases proposals@.len() - i,
        {
            let ghost before = kept@;
            let v = proposals[i];
            let present = match id_from_value(&v) {
                Some(id) => {
                    let r = self.patch.has_prefix(&id);
                    proof {
                        if r {
                            assert(self.spec_ids().contains(id@));
                        }
                        if self.admits(variable as int, binding@, v) {
                            let other = choose|other: Seq<u8>| #[trigger] self.spec_ids().contains(other) && v@ == spec_id_value(other);
                            assert(v@.len() == 32);
                            assert(other.len() == 16);
                            assert forall|x: int| 0 <= x < 16 implies #[trigger] other[x] == v@.subrange(16, 32)[x] by {
                                assert(spec_id_value(other)[16 + x] == other[x]);
                            }
                            assert(other =~= v@.subrange(16, 32));
                            assert forall|x: int| 0 <= x < 16 implies #[trigger] id@[x] == v@.subrange(16, 32)[x] by {
                                assert(spec_id_value(id@)[16 + x] == id@[x]);
                            }
                            assert(id@ =~= v@.subrange(16, 32));
                        }
                    }
                    r
                },
                None => {
                    proof {
                        if self.admits(variable as int, binding@, v) {
                            let other = choose|other: Seq<u8>| #[trigger] self.spec_ids().contains(other) && v@ == spec_id_value(other);
                            let z = choose|z: int| 0 <= z < 16 && v@[z] != 0;
                            assert(spec_id_value(other)[z] == 0);
                        }
                    }
                    false
                },
            };
            if present {
                proof {
                    if proposals@.no_duplicates() {
                        assert forall|x: RawValue| #[trigger] before.contains(x) implies exists|j: int| 0 <= j < i && proposals@[j] == x by {}
                        lemma_push_unseen(before, proposals@, i as int);
                    }
                }
                kept.push(v);
            }
            proof {
                assert forall|x: RawValue| #[trigger] kept@.contains(x) <==> (exists|j: int| 0 <= j < i + 1 && proposals@[j] == x)
                    && self.admits(variable as int, binding@, x) by {
                    if kept@.contains(x) {
                        let w = choose|w: int| 0 <= w < kept@.len() && kept@[w] == x;
                        if w < before.len() {
                            assert(before[w] == x);
                            assert(before.contains(x));
                            let j = choose|j: int| 0 <= j < i && proposals@[j] == x;
                            assert(0 <= j < i + 1 && proposals@[j] == x);
                        } else {
                            assert(x == v);
                            assert(0 <= i < i + 1 && proposals@[i as int] == x);
                        }
                    }
                    if (exists|j: int| 0 <= j < i + 1 && proposals@[j] == x) && self.admits(variable as int, binding@, x) {
                        let j = choose|j: int| 0 <= j < i + 1 && proposals@[j] == x;
                        if j < i {
                            assert(exists|j: int| 0 <= j < i && proposals@[j] == x);
                            assert(before.contains(x));
                            let w = choose|w: int| 0 <= w < before.len() && before[w] == x;
                            assert(kept@[w] == x);
                        } else {
                            assert(kept@[before.len() as int] == x);
                        }
                    }
                }
            }
            i = i + 1;
        }
        *proposals = kept;
        proof {
            assert forall|x: RawValue| #[trigger] proposals@.contains(x) <==> (old(proposals)@.contains(x)
                && self.admits(variable as int, binding@, x)) by {
                if old(proposals)@.contains(x) {
                    let j = choose|j: int| 0 <= j < old(proposals)@.len() && old(proposals)@[j] == x;
                }
            }
        }
    }
}

impl<T> ContainsConstraint<T> for PATCH<ID_LEN, IdentitySchema, ()> {
    type Constraint = PatchIdConstraint<T>;

    fn has(self, v: Variable<T>) -> (r: PatchIdConstraint<T>)
        ensures
            r.spec_variable() == v.index,
            r.spec_ids() == self@.dom(),
    {
        PatchIdConstraint::new(v, self)
    }
}

} // verus!
