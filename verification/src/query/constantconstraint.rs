//! The constraint that a variable equals a constant.
use vstd::prelude::*;

use crate::query::variableset::VariableSet;
use crate::query::{consistent, lemma_binding_free_consistent, retain_equal, Binding, Constraint, Variable, VariableId};
use crate::value::RawValue;

verus! {

/// Binds one variable to one constant value.
pub struct ConstantConstraint {
    variable: VariableId,
    constant: RawValue,
}

impl ConstantConstraint {
    /// The constrained variable.
    pub closed spec fn spec_variable(&self) -> VariableId {
        self.variable
    }

    /// The value the variable must take.
    pub closed spec fn spec_constant(&self) -> RawValue {
        self.constant
    }

    /// The constraint that `variable` equals `constant`.
    pub fn new<T>(variable: Variable<T>, constant: RawValue) -> (r: Self)
        ensures
            r.spec_variable() == variable.index,
            r.spec_constant() == constant,
    {
        ConstantConstraint { variable: variable.index, constant }
    }
}

impl Constraint for ConstantConstraint {
    open spec fn spec_variables(&self) -> Set<int> {
        if self.spec_variable() < 128 {
            Set::empty().insert(self.spec_variable() as int)
        } else {
            Set::empty()
        }
    }

    open spec fn spec_estimate(&self, variable: int, binding: Map<int, RawValue>) -> nat {
        1
    }

    open spec fn admits(&self, variable: int, binding: Map<int, RawValue>, value: RawValue) -> bool {
        variable == self.spec_variable() && value == self.spec_constant()
    }

    open spec fn proposes(&self, variable: int, binding: Map<int, RawValue>, value: RawValue) -> bool {
        self.admits(variable, binding, value)
    }

    proof fn lemma_admitted_proposed(&self, variable: int, binding: Map<int, RawValue>, value: RawValue) {
    }

    fn variables(&self) -> (r: VariableSet) {
        if self.variable < 128 {
            VariableSet::new_singleton(self.variable as usize)
        } else {
            VariableSet::new_empty()
        }
    }

    fn variable(&self, variable: VariableId) -> (r: bool) {
        self.variable == variable && self.variable < 128
    }

    fn estimate(&self, variable: VariableId, binding: &Binding) -> (r: usize) {
        1
    }

    fn propose(&self, variable: VariableId, binding: &Binding, proposals: &mut Vec<RawValue>)
        ensures
            self.spec_variables().contains(variable as int) ==> final(proposals)@ == old(proposals)@.push(self.spec_constant()),
    {
        if !self.variable(variable) {
            return;
        }
        proposals.push(self.constant);
        proof {
            assert forall|x: RawValue| #[trigger] proposals@.contains(x) <==> (old(proposals)@.contains(x)
                || self.admits(variable as int, binding@, x)) by {
                if old(proposals)@.contains(x) {
                    let j = choose|j: int| 0 <= j < old(proposals)@.len() && old(proposals)@[j] == x;
                    assert(proposals@[j] == x);
                }
                if x == self.constant {
                    assert(proposals@[old(proposals)@.len() as int] == x);
                }
                if proposals@.contains(x) {
                    let j = choose|j: int| 0 <= j < proposals@.len() && proposals@[j] == x;
                    if j < old(proposals)@.len() {
                        assert(old(proposals)@[j] == x);
                    }
                }
            }
        }
    }

    fn confirm(&self, variable: VariableId, binding: &Binding, proposals: &mut Vec<RawValue>)
        ensures
            self.spec_variables().contains(variable as int) ==> final(proposals)@ == old(proposals)@.filter(
                |x: RawValue| x == self.spec_constant(),
            ),
    {
        if !self.variable(variable) {
            return;
        }
        retain_equal(proposals, &self.constant);
    }
}

/// The constraint is consistent: its verdicts do not depend on the binding,
/// so a query over it yields every solution.
pub proof fn lemma_constant_consistent(c: ConstantConstraint)
    ensures
        consistent(c),
{
    lemma_binding_free_consistent(c);
}

} // verus!
