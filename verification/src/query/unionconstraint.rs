//! The disjunction of constraints over the same variables: a value is
//! admitted when one of the constraints admits it.
use vstd::prelude::*;

use crate::query::variableset::VariableSet;
use crate::query::{dedup_values, exact, extend_values, Binding, Constraint, VariableId};
use crate::value::RawValue;

verus! {

/// Whether one of the first `n` constraints admits `value` for `variable`.
pub open spec fn some_admit<C: Constraint>(cs: Seq<C>, n: int, variable: int, binding: Map<int, RawValue>, value: RawValue) -> bool {
    exists|i: int| 0 <= i < n && (#[trigger] cs[i]).admits(variable, binding, value)
}

/// One of the first `n` constraints of `cs` may propose `value` for
/// `variable` under `binding`.
pub open spec fn some_propose<C: Constraint>(cs: Seq<C>, n: int, variable: int, binding: Map<int, RawValue>, value: RawValue) -> bool {
    exists|i: int| 0 <= i < n && (#[trigger] cs[i]).proposes(variable, binding, value)
}

/// Constraints that all restrict the same variables.
pub open spec fn same_variables<C: Constraint>(cs: Seq<C>) -> bool {
    forall|i: int| 0 <= i < cs.len() ==> (#[trigger] cs[i]).spec_variables() == cs[0].spec_variables()
}

/// Copies a list of values.
fn copy_values(values: &Vec<RawValue>) -> (r: Vec<RawValue>)
    ensures
        r@ == values@,
{
    let mut out: Vec<RawValue> = Vec::new();
    extend_values(&mut out, values);
    proof {
        assert(out@ =~= values@);
    }
    out
}

/// The sum, capped at `usize::MAX`, of the estimates for `variable` under
/// `binding` of the first `n` constraints.
pub open spec fn total_estimate<C: Constraint>(cs: Seq<C>, n: int, variable: int, binding: Map<int, RawValue>) -> nat
    decreases n,
{
    if n <= 0 {
        0
    } else {
        let t = total_estimate(cs, n - 1, variable, binding) + cs[n - 1].spec_estimate(variable, binding);
        if t > usize::MAX {
            usize::MAX as nat
        } else {
            t
        }
    }
}

/// A value is admitted when one of the constraints admits it.
pub struct UnionConstraint<C: Constraint> {
    constraints: Vec<C>,
}

impl<C: Constraint> UnionConstraint<C> {
    #[verifier::type_invariant]
    spec fn inv(self) -> bool {
        same_variables(self.constraints@)
    }

    /// The combined constraints.
    pub closed spec fn spec_constraints(&self) -> Seq<C> {
        self.constraints@
    }

    /// The disjunction of `constraints`, which must all restrict the same
    /// variables.
    pub fn new(constraints: Vec<C>) -> (r: Self)
        requires
            same_variables(constraints@),
        ensures
            r.spec_constraints() == constraints@,
    {
        UnionConstraint { constraints }
    }
}

impl<C: Constraint> Constraint for UnionConstraint<C> {
    open spec fn spec_variables(&self) -> Set<int> {
        if self.spec_constraints().len() == 0 {
            Set::empty()
        } else {
            self.spec_constraints()[0].spec_variables()
        }
    }

    open spec fn spec_estimate(&self, variable: int, binding: Map<int, RawValue>) -> nat {
        total_estimate(self.spec_constraints(), self.spec_constraints().len() as int, variable, binding)
    }

    open spec fn admits(&self, variable: int, binding: Map<int, RawValue>, value: RawValue) -> bool {
        some_admit(self.spec_constraints(), self.spec_constraints().len() as int, variable, binding, value)
    }

    open spec fn proposes(&self, variable: int, binding: Map<int, RawValue>, value: RawValue) -> bool {
        some_propose(self.spec_constraints(), self.spec_constraints().len() as int, variable, binding, value)
    }

    proof fn lemma_admitted_proposed(&self, variable: int, binding: Map<int, RawValue>, value: RawValue) {
        let cs = self.spec_constraints();
        let k = choose|k: int| 0 <= k < cs.len() && (#[trigger] cs[k]).admits(variable, binding, value);
        cs[k].lemma_admitted_proposed(variable, binding, value);
    }

    fn variables(&self) -> (r: VariableSet) {
        proof {
            use_type_invariant(self);
        }
        if self.constraints.len() == 0 {
            let r = VariableSet::new_empty();
            proof {
                assert(r@ =~= Set::<int>::empty());
            }
            r
        } else {
            self.constraints[0].variables()
        }
    }

    fn variable(&self, variable: VariableId) -> (r: bool) {
        proof {
            use_type_invariant(self);
        }
        if self.constraints.len() == 0 {
            false
        } else {
            self.constraints[0].variable(variable)
        }
    }

    fn estimate(&self, variable: VariableId, binding: &Binding) -> (r: usize) {
        proof {
            use_type_invariant(self);
        }
        if !self.variable(variable) {
            return 0;
        }
        let mut total: usize = 0;
        let mut i: usize = 0;
        while i < self.constraints.len()
            invariant
                i <= self.constraints@.len(),
                same_variables(self.constraints@),
                self.constraints@[0].spec_variables().contains(variable as int),
                total == total_estimate(self.constraints@, i as int, variable as int, binding@),
            decreases self.constraints@.len() - i,
        {
            let e = self.constraints[i].estimate(variable, binding);
            total = total.saturating_add(e);
            i = i + 1;
        }
        total
    }

    fn propose(&self, variable: VariableId, binding: &Binding, proposals: &mut Vec<RawValue>) {
        if !self.variable(variable) {
            return;
        }
        proof {
            use_type_invariant(self);
        }
        let ghost cs = self.constraints@;
        let ghost v = variable as int;
        let mut i: usize = 0;
        while i < self.constraints.len()
            invariant
                i <= self.constraints@.len(),
                cs == self.constraints@,
                v == variable,
                same_variables(cs),
                cs[0].spec_variables().contains(v),
                forall|x: RawValue| #[trigger] proposals@.contains(x) ==> (old(proposals)@.contains(x)
                    || some_propose(cs, i as int, v, binding@, x)),
                forall|x: RawValue| (old(proposals)@.contains(x) || some_admit(cs, i as int, v, binding@, x))
                    ==> #[trigger] proposals@.contains(x),
            decreases self.constraints@.len() - i,
        {
            let ghost before = proposals@;
            self.constraints[i].propose(variable, binding, proposals);
            proof {
                assert forall|x: RawValue| #[trigger] proposals@.contains(x) implies (old(proposals)@.contains(x)
                    || some_propose(cs, i + 1, v, binding@, x)) by {
                    if before.contains(x) {
                        if some_propose(cs, i as int, v, binding@, x) {
                            let k = choose|k: int| 0 <= k < i && (#[trigger] cs[k]).proposes(v, binding@, x);
                            assert(0 <= k < i + 1);
                        }
                    } else {
                        assert(cs[i as int].proposes(v, binding@, x));
                    }
                }
                assert forall|x: RawValue| (old(proposals)@.contains(x) || some_admit(cs, i + 1, v, binding@, x))
                    implies #[trigger] proposals@.contains(x) by {
                    if some_admit(cs, i + 1, v, binding@, x) && !old(proposals)@.contains(x) {
                        let k = choose|k: int| 0 <= k < i + 1 && (#[trigger] cs[k]).admits(v, binding@, x);
                        if k < i {
                            assert(some_admit(cs, i as int, v, binding@, x));
                            assert(before.contains(x));
                        }
                    }
                    if old(proposals)@.contains(x) {
                        assert(before.contains(x));
                    }
                }
            }
            i = i + 1;
        }
        let unique = dedup_values(proposals);
        *proposals = unique;
    }

    fn confirm(&self, variable: VariableId, binding: &Binding, proposals: &mut Vec<RawValue>) {
        if !self.variable(variable) {
            return;
        }
        proof {
            use_type_invariant(self);
        }
        let ghost cs = self.constraints@;
        let ghost v = variable as int;
        let mut union: Vec<RawValue> = Vec::new();
        let mut i: usize = 0;
        while i < self.constraints.len()
            invariant
                i <= self.constraints@.len(),
                cs == self.constraints@,
                v == variable,
                *proposals == *old(proposals),
                same_variables(cs),
                cs[0].spec_variables().contains(v),
                forall|x: RawValue| #[trigger] union@.contains(x) <==> (proposals@.contains(x)
                    && some_admit(cs, i as int, v, binding@, x)),
            decreases self.constraints@.len() - i,
        {
            let mut confirmed = copy_values(proposals);
            self.constraints[i].confirm(variable, binding, &mut confirmed);
            extend_values(&mut union, &confirmed);
            proof {
                assert forall|x: RawValue| #[trigger] union@.contains(x) <==> (proposals@.contains(x)
                    && some_admit(cs, i + 1, v, binding@, x)) by {
                    if some_admit(cs, i + 1, v, binding@, x) {
                        let k = choose|k: int| 0 <= k < i + 1 && (#[trigger] cs[k]).admits(v, binding@, x);
                        if k < i {
                            assert(some_admit(cs, i as int, v, binding@, x));
                        }
                    }
                    if cs[i as int].admits(v, binding@, x) {
                        assert(some_admit(cs, i + 1, v, binding@, x));
                    }
                    if some_admit(cs, i as int, v, binding@, x) {
                        let k = choose|k: int| 0 <= k < i && (#[trigger] cs[k]).admits(v, binding@, x);
                        assert(0 <= k < i + 1);
                    }
                }
            }
            i = i + 1;
        }
        let unique = dedup_values(&union);
        *proposals = unique;
    }
}

/// A union of constraints that each propose only what they admit proposes
/// only what it admits.
pub proof fn lemma_union_exact<C: Constraint>(u: UnionConstraint<C>)
    requires
        forall|i: int| 0 <= i < u.spec_constraints().len() ==> exact(#[trigger] u.spec_constraints()[i]),
    ensures
        exact(u),
{
    let cs = u.spec_constraints();
    assert forall|v: int, b: Map<int, RawValue>, x: RawValue| #[trigger] u.proposes(v, b, x) implies u.admits(v, b, x) by {
        let k = choose|k: int| 0 <= k < cs.len() && (#[trigger] cs[k]).proposes(v, b, x);
        assert(exact(cs[k]));
        assert(cs[k].admits(v, b, x));
    }
}

} // verus!
