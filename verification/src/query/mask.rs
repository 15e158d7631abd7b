//! Hides some variables of a constraint from the query.
use vstd::prelude::*;

use crate::query::variableset::VariableSet;
use crate::query::{exact, Binding, Constraint, VariableId};
use crate::value::RawValue;

verus! {

/// A constraint whose variables outside `mask` are hidden.
pub struct MaskConstraint<C> {
    mask: VariableSet,
    constraint: C,
}

impl<C: Constraint> MaskConstraint<C> {
    /// The visible variables.
    pub closed spec fn spec_mask(&self) -> Set<int> {
        self.mask@
    }

    /// The masked constraint.
    pub closed spec fn spec_constraint(&self) -> C {
        self.constraint
    }

    /// `constraint` with only the variables in `mask` visible.
    pub fn new(mask: VariableSet, constraint: C) -> (r: Self)
        ensures
            r.spec_mask() == mask@,
            r.spec_constraint() == constraint,
    {
        MaskConstraint { mask, constraint }
    }
}

impl<C: Constraint> Constraint for MaskConstraint<C> {
    open spec fn spec_variables(&self) -> Set<int> {
        self.spec_constraint().spec_variables().intersect(self.spec_mask())
    }

    open spec fn spec_estimate(&self, variable: int, binding: Map<int, RawValue>) -> nat {
        self.spec_constraint().spec_estimate(variable, binding)
    }

    open spec fn admits(&self, variable: int, binding: Map<int, RawValue>, value: RawValue) -> bool {
        self.spec_constraint().admits(variable, binding, value)
    }

    open spec fn proposes(&self, variable: int, binding: Map<int, RawValue>, value: RawValue) -> bool {
        self.spec_constraint().proposes(variable, binding, value)
    }

    proof fn lemma_admitted_proposed(&self, variable: int, binding: Map<int, RawValue>, value: RawValue) {
        self.spec_constraint().lemma_admitted_proposed(variable, binding, value);
    }

    fn variables(&self) -> (r: VariableSet) {
        self.constraint.variables().intersect(self.mask)
    }

    fn variable(&self, variable: VariableId) -> (r: bool) {
        proof {
            self.mask.lemma_view_wf();
        }
        if (variable as usize) < 128 && self.mask.is_set(variable as usize) {
            self.constraint.variable(variable)
        } else {
            proof {
                if self.mask@.contains(variable as int) {
                    assert(crate::query::variableset::domain().contains(variable as int));
                }
            }
            false
        }
    }

    fn estimate(&self, variable: VariableId, binding: &Binding) -> (r: usize) {
        self.constraint.estimate(variable, binding)
    }

    fn propose(&self, variable: VariableId, binding: &Binding, proposals: &mut Vec<RawValue>) {
        if !self.variable(variable) {
            return;
        }
        self.constraint.propose(variable, binding, proposals);
    }

    fn confirm(&self, variable: VariableId, binding: &Binding, proposals: &mut Vec<RawValue>) {
        if !self.variable(variable) {
            return;
        }
        self.constraint.confirm(variable, binding, proposals);
    }
}

/// Masking a constraint that proposes only what it admits keeps it so.
pub proof fn lemma_mask_exact<C: Constraint>(m: MaskConstraint<C>)
    requires
        exact(m.spec_constraint()),
    ensures
        exact(m),
{
    assert forall|v: int, b: Map<int, RawValue>, x: RawValue| #[trigger] m.proposes(v, b, x) implies m.admits(v, b, x) by {
        assert(m.spec_constraint().proposes(v, b, x));
    }
}

} // verus!
