//! The constraint that a variable is a key of a map.
use vstd::prelude::*;

use crate::query::variableset::VariableSet;
use crate::query::{dedup_values, extend_values, retain_in, Binding, Constraint, Variable, VariableId};
use crate::value::RawValue;

verus! {

/// The constraint that a variable is one of the keys of a map, given by
/// the list of its keys.
pub struct KeysConstraint<S> {
    variable: Variable<S>,
    keys: Vec<RawValue>,
}

impl<S> KeysConstraint<S> {
    /// The constrained variable.
    pub closed spec fn spec_variable(&self) -> VariableId {
        self.variable.index
    }

    /// Each value is listed once.
    #[verifier::type_invariant]
    spec fn inv(&self) -> bool {
        self.keys@.no_duplicates()
    }

    /// The values the variable can take, each once.
    pub closed spec fn spec_values(&self) -> Seq<RawValue> {
        self.keys@
    }

    /// The constraint that `variable` is one of `keys`.
    pub fn new(variable: Variable<S>, keys: Vec<RawValue>) -> (r: Self)
        ensures
            r.spec_variable() == variable.index,
            forall|x: RawValue| #[trigger] r.spec_values().contains(x) <==> keys@.contains(x),
    {
        let keys = dedup_values(&keys);
        KeysConstraint { variable, keys }
    }
}

impl<S> Constraint for KeysConstraint<S> {
    open spec fn spec_variables(&self) -> Set<int> {
        if self.spec_variable() < 128 {
            Set::empty().insert(self.spec_variable() as int)
        } else {
            Set::empty()
        }
    }

    open spec fn spec_estimate(&self, variable: int, binding: Map<int, RawValue>) -> nat {
        self.spec_values().len()
    }

    open spec fn admits(&self, variable: int, binding: Map<int, RawValue>, value: RawValue) -> bool {
        variable == self.spec_variable() && self.spec_values().contains(value)
    }

    open spec fn proposes(&self, variable: int, binding: Map<int, RawValue>, value: RawValue) -> bool {
        self.admits(variable, binding, value)
    }

    proof fn lemma_admitted_proposed(&self, variable: int, binding: Map<int, RawValue>, value: RawValue) {
    }

    fn variables(&self) -> (r: VariableSet) {
        if self.variable.index < 128 {
            VariableSet::new_singleton(self.variable.index as usize)
        } else {
            VariableSet::new_empty()
        }
    }

    fn variable(&self, variable: VariableId) -> (r: bool) {
        self.variable.index == variable && self.variable.index < 128
    }

    fn estimate(&self, variable: VariableId, binding: &Binding) -> (r: usize) {
        self.keys.len()
    }

    fn propose(&self, variable: VariableId, binding: &Binding, proposals: &mut Vec<RawValue>) {
        if !self.variable(variable) {
            return;
        }
        proof {
            use_type_invariant(self);
        }
        extend_values(proposals, &self.keys);
    }

    fn confirm(&self, variable: VariableId, binding: &Binding, proposals: &mut Vec<RawValue>) {
        if !self.variable(variable) {
            return;
        }
        retain_in(proposals, &self.keys);
    }
}

} // verus!
