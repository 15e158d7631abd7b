//! The conjunction of constraints: a value is admitted when every constraint
//! on the variable admits it.
use vstd::prelude::*;

use crate::query::variableset::VariableSet;
use crate::query::{exact, extend_values, Binding, Constraint, VariableId};
use crate::value::RawValue;

verus! {

/// The variables of the first `n` constraints.
pub open spec fn variables_upto<C: Constraint>(cs: Seq<C>, n: int) -> Set<int>
    decreases n,
{
    if n <= 0 {
        Set::empty()
    } else {
        variables_upto(cs, n - 1).union(cs[n - 1].spec_variables())
    }
}

proof fn lemma_variables_upto<C: Constraint>(cs: Seq<C>, n: int)
    requires
        0 <= n <= cs.len(),
    ensures
        forall|v: int| #[trigger] variables_upto(cs, n).contains(v) <==> exists|i: int|
            0 <= i < n && (#[trigger] cs[i]).spec_variables().contains(v),
    decreases n,
{
    if n > 0 {
        lemma_variables_upto(cs, n - 1);
        assert forall|v: int| #[trigger] variables_upto(cs, n).contains(v) <==> exists|i: int|
            0 <= i < n && (#[trigger] cs[i]).spec_variables().contains(v) by {
            if exists|i: int| 0 <= i < n && (#[trigger] cs[i]).spec_variables().contains(v) {
                let i = choose|i: int| 0 <= i < n && (#[trigger] cs[i]).spec_variables().contains(v);
                if i < n - 1 {
                    assert(variables_upto(cs, n - 1).contains(v));
                }
            }
            if variables_upto(cs, n).contains(v) {
                if variables_upto(cs, n - 1).contains(v) {
                    let i = choose|i: int| 0 <= i < n - 1 && (#[trigger] cs[i]).spec_variables().contains(v);
                    assert(0 <= i < n && cs[i].spec_variables().contains(v));
                } else {
                    assert(cs[n - 1].spec_variables().contains(v));
                }
            }
        }
    }
}

/// Whether every constraint among the first `n` that restricts `variable`
/// admits `value` for it.
pub open spec fn all_admit<C: Constraint>(cs: Seq<C>, n: int, variable: int, binding: Map<int, RawValue>, value: RawValue) -> bool {
    forall|i: int| 0 <= i < n && (#[trigger] cs[i]).spec_variables().contains(variable) ==> cs[i].admits(variable, binding, value)
}

/// Each of the first `n` constraints of `cs` that restricts `variable` may
/// propose `value` under `binding`.
pub open spec fn all_propose<C: Constraint>(cs: Seq<C>, n: int, variable: int, binding: Map<int, RawValue>, value: RawValue) -> bool {
    forall|i: int| 0 <= i < n && (#[trigger] cs[i]).spec_variables().contains(variable) ==> cs[i].proposes(variable, binding, value)
}

/// The least estimate, for `variable` under `binding`, of the first `n`
/// constraints that restrict `variable`, if any does.
pub open spec fn least_estimate<C: Constraint>(cs: Seq<C>, n: int, variable: int, binding: Map<int, RawValue>) -> Option<nat>
    decreases n,
{
    if n <= 0 {
        None
    } else {
        let rest = least_estimate(cs, n - 1, variable, binding);
        if cs[n - 1].spec_variables().contains(variable) {
            let e = cs[n - 1].spec_estimate(variable, binding);
            match rest {
                Some(b) => Some(if e < b { e } else { b }),
                None => Some(e),
            }
        } else {
            rest
        }
    }
}

/// A value is admitted when all of the constraints admit it.
pub struct IntersectionConstraint<C> {
    constraints: Vec<C>,
}

impl<C: Constraint> IntersectionConstraint<C> {
    /// The combined constraints.
    pub closed spec fn spec_constraints(&self) -> Seq<C> {
        self.constraints@
    }

    /// The conjunction of `constraints`.
    pub fn new(constraints: Vec<C>) -> (r: Self)
        ensures
            r.spec_constraints() == constraints@,
    {
        IntersectionConstraint { constraints }
    }
}

impl<C: Constraint> Constraint for IntersectionConstraint<C> {
    open spec fn spec_variables(&self) -> Set<int> {
        variables_upto(self.spec_constraints(), self.spec_constraints().len() as int)
    }

    open spec fn spec_estimate(&self, variable: int, binding: Map<int, RawValue>) -> nat {
        match least_estimate(self.spec_constraints(), self.spec_constraints().len() as int, variable, binding) {
            Some(b) => b,
            None => 0,
        }
    }

    open spec fn admits(&self, variable: int, binding: Map<int, RawValue>, value: RawValue) -> bool {
        all_admit(self.spec_constraints(), self.spec_constraints().len() as int, variable, binding, value)
    }

    open spec fn proposes(&self, variable: int, binding: Map<int, RawValue>, value: RawValue) -> bool {
        all_propose(self.spec_constraints(), self.spec_constraints().len() as int, variable, binding, value)
    }

    proof fn lemma_admitted_proposed(&self, variable: int, binding: Map<int, RawValue>, value: RawValue) {
        let cs = self.spec_constraints();
        assert forall|i: int| 0 <= i < cs.len() && (#[trigger] cs[i]).spec_variables().contains(variable) implies cs[i].proposes(
            variable,
            binding,
            value,
        ) by {
            cs[i].lemma_admitted_proposed(variable, binding, value);
        }
    }

    fn variables(&self) -> (r: VariableSet) {
        let mut vs = VariableSet::new_empty();
        let mut i: usize = 0;
        while i < self.constraints.len()
            invariant
                i <= self.constraints@.len(),
                vs@ == variables_upto(self.constraints@, i as int),
            decreases self.constraints@.len() - i,
        {
            vs = vs.union(self.constraints[i].variables());
            i = i + 1;
        }
        vs
    }

    fn variable(&self, variable: VariableId) -> (r: bool) {
        proof {
            lemma_variables_upto(self.constraints@, self.constraints@.len() as int);
        }
        let mut i: usize = 0;
        while i < self.constraints.len()
            invariant
                i <= self.constraints@.len(),
                forall|j: int| 0 <= j < i ==> !(#[trigger] self.constraints@[j]).spec_variables().contains(variable as int),
            decreases self.constraints@.len() - i,
        {
            if self.constraints[i].variable(variable) {
                proof {
                    lemma_variables_upto(self.constraints@, self.constraints@.len() as int);
                }
                return true;
            }
            i = i + 1;
        }
        proof {
            lemma_variables_upto(self.constraints@, self.constraints@.len() as int);
        }
        false
    }

    fn estimate(&self, variable: VariableId, binding: &Binding) -> (r: usize) {
        let mut best: Option<usize> = None;
        let mut i: usize = 0;
        while i < self.constraints.len()
            invariant
                i <= self.constraints@.len(),
                match least_estimate(self.constraints@, i as int, variable as int, binding@) {
                    Some(x) => best == Some(x as usize) && x <= usize::MAX,
                    None => best is None,
                },
            decreases self.constraints@.len() - i,
        {
            if self.constraints[i].variable(variable) {
                let e = self.constraints[i].estimate(variable, binding);
                best = match best {
                    Some(b) => if e < b { Some(e) } else { Some(b) },
                    None => Some(e),
                };
            }
            i = i + 1;
        }
        match best {
            Some(b) => b,
            None => 0,
        }
    }

    fn propose(&self, variable: VariableId, binding: &Binding, proposals: &mut Vec<RawValue>) {
        if !self.variable(variable) {
            return;
        }
        let ghost cs = self.constraints@;
        let ghost n = cs.len() as int;
        let ghost v = variable as int;
        proof {
            lemma_variables_upto(cs, n);
        }
        // the proposing constraint is the relevant one with the smallest estimate
        let mut best: usize = 0;
        let mut best_estimate: Option<usize> = None;
        let mut i: usize = 0;
        while i < self.constraints.len()
            invariant
                i <= self.constraints@.len(),
                cs == self.constraints@,
                v == variable,
                best_estimate is Some ==> best < i && cs[best as int].spec_variables().contains(v),
                best_estimate is None ==> forall|j: int| 0 <= j < i ==> !(#[trigger] cs[j]).spec_variables().contains(v),
            decreases self.constraints@.len() - i,
        {
            if self.constraints[i].variable(variable) {
                let e = self.constraints[i].estimate(variable, binding);
                let better = match best_estimate {
                    Some(b) => e < b,
                    None => true,
                };
                if better {
                    best = i;
                    best_estimate = Some(e);
                }
            }
            i = i + 1;
        }
        if best_estimate.is_none() {
            proof {
                let k = choose|k: int| 0 <= k < n && (#[trigger] cs[k]).spec_variables().contains(v);
                assert(!cs[k].spec_variables().contains(v));
            }
            return;
        }
        let mut fresh: Vec<RawValue> = Vec::new();
        self.constraints[best].propose(variable, binding, &mut fresh);
        let mut j: usize = 0;
        while j < self.constraints.len()
            invariant
                j <= self.constraints@.len(),
                cs == self.constraints@,
                best < cs.len(),
                cs[best as int].spec_variables().contains(v),
                v == variable,
                forall|x: RawValue| #[trigger] fresh@.contains(x) ==> cs[best as int].proposes(v, binding@, x)
                    && forall|k: int| 0 <= k < j && k != best && (#[trigger] cs[k]).spec_variables().contains(v) ==> cs[k].admits(
                    v,
                    binding@,
                    x,
                ),
                forall|x: RawValue| cs[best as int].admits(v, binding@, x) && all_admit(cs, j as int, v, binding@, x)
                    ==> #[trigger] fresh@.contains(x),
                fresh@.no_duplicates(),
            decreases self.constraints@.len() - j,
        {
            let ghost before = fresh@;
            if j != best && self.constraints[j].variable(variable) {
                self.constraints[j].confirm(variable, binding, &mut fresh);
            }
            proof {
                assert forall|x: RawValue| #[trigger] fresh@.contains(x) implies cs[best as int].proposes(v, binding@, x)
                    && forall|k: int| 0 <= k < j + 1 && k != best && (#[trigger] cs[k]).spec_variables().contains(v) ==> cs[k].admits(
                    v,
                    binding@,
                    x,
                ) by {
                    assert(before.contains(x));
                }
                assert forall|x: RawValue| cs[best as int].admits(v, binding@, x) && all_admit(cs, j + 1, v, binding@, x)
                    implies #[trigger] fresh@.contains(x) by {
                    assert forall|k: int| 0 <= k < j && (#[trigger] cs[k]).spec_variables().contains(v) implies cs[k].admits(v, binding@, x) by {
                        assert(0 <= k < j + 1);
                    }
                    assert(before.contains(x));
                    if cs[j as int].spec_variables().contains(v) {
                        assert(cs[j as int].admits(v, binding@, x));
                    }
                }
            }
            j = j + 1;
        }
        proof {
            assert forall|x: RawValue| #[trigger] fresh@.contains(x) implies self.proposes(v, binding@, x) by {
                assert forall|k: int| 0 <= k < n && (#[trigger] cs[k]).spec_variables().contains(v) implies cs[k].proposes(v, binding@, x) by {
                    if k != best {
                        cs[k].lemma_admitted_proposed(v, binding@, x);
                    }
                }
            }
            assert forall|x: RawValue| self.admits(v, binding@, x) implies #[trigger] fresh@.contains(x) by {
                assert(cs[best as int].admits(v, binding@, x));
            }
        }
        extend_values(proposals, &fresh);
    }

    fn confirm(&self, variable: VariableId, binding: &Binding, proposals: &mut Vec<RawValue>) {
        if !self.variable(variable) {
            return;
        }
        let ghost cs = self.constraints@;
        let ghost v = variable as int;
        let mut j: usize = 0;
        while j < self.constraints.len()
            invariant
                j <= self.constraints@.len(),
                cs == self.constraints@,
                v == variable,
                forall|x: RawValue| #[trigger] proposals@.contains(x) <==> (old(proposals)@.contains(x)
                    && all_admit(cs, j as int, v, binding@, x)),
                old(proposals)@.no_duplicates() ==> proposals@.no_duplicates(),
            decreases self.constraints@.len() - j,
        {
            if self.constraints[j].variable(variable) {
                self.constraints[j].confirm(variable, binding, proposals);
            }
            proof {
                assert forall|x: RawValue| #[trigger] proposals@.contains(x) <==> (old(proposals)@.contains(x)
                    && all_admit(cs, j + 1, v, binding@, x)) by {
                    if all_admit(cs, j + 1, v, binding@, x) {
                        assert forall|k: int| 0 <= k < j && (#[trigger] cs[k]).spec_variables().contains(v) implies cs[k].admits(v, binding@, x) by {
                            assert(0 <= k < j + 1);
                        }
                        if cs[j as int].spec_variables().contains(v) {
                            assert(cs[j as int].admits(v, binding@, x));
                        }
                    }
                }
            }
            j = j + 1;
        }
    }
}

/// An intersection of constraints that each propose only what they admit
/// proposes only what it admits.
pub proof fn lemma_intersection_exact<C: Constraint>(c: IntersectionConstraint<C>)
    requires
        forall|i: int| 0 <= i < c.spec_constraints().len() ==> exact(#[trigger] c.spec_constraints()[i]),
    ensures
        exact(c),
{
    let cs = c.spec_constraints();
    assert forall|v: int, b: Map<int, RawValue>, x: RawValue| #[trigger] c.proposes(v, b, x) implies c.admits(v, b, x) by {
        assert forall|i: int| 0 <= i < cs.len() && (#[trigger] cs[i]).spec_variables().contains(v) implies cs[i].admits(v, b, x) by {
            assert(exact(cs[i]));
            assert(cs[i].proposes(v, b, x));
        }
    }
}

} // verus!
