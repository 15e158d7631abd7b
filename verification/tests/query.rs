use triblespace::id::id_into_value;
use triblespace::patch::entry::Entry;
use triblespace::patch::{IdentitySchema, PATCH};
use triblespace::query::constantconstraint::ConstantConstraint;
use triblespace::query::hashmapconstraint::KeysConstraint;
use triblespace::query::hashsetconstraint::SetConstraint;
use triblespace::query::intersectionconstraint::IntersectionConstraint;
use triblespace::query::mask::MaskConstraint;
use triblespace::query::patchconstraint::{PatchIdConstraint, PatchValueConstraint};
use triblespace::query::regularpathconstraint::{PathOp, RegularPathConstraint};
use triblespace::query::unionconstraint::UnionConstraint;
use triblespace::query::variableset::VariableSet;
use triblespace::query::{Binding, Constraint, Query, Variable, VariableContext};

fn val(x: u8) -> [u8; 32] {
    let mut v = [0u8; 32];
    v[31] = x;
    v
}

fn run<C: Constraint, R, P: Fn(&Binding) -> R>(mut q: Query<C, P, R>) -> Vec<R> {
    let mut out = Vec::new();
    while let Some(r) = q.next() {
        out.push(r);
    }
    out
}

#[test]
fn query_constant_has_one_solution() {
    let mut ctx = VariableContext::new();
    let v: Variable<()> = ctx.next_variable();
    let c = v.is(val(42));
    let results = run(Query::new(c, |b: &Binding| *b.get(0).unwrap()));
    assert_eq!(results, vec![val(42)]);
}

#[test]
fn query_intersection_of_sets() {
    let mut ctx = VariableContext::new();
    let v: Variable<()> = ctx.next_variable();
    let a = SetConstraint::new(v.clone(), vec![val(1), val(2), val(3)]);
    let b = SetConstraint::new(v.clone(), vec![val(2), val(3), val(4)]);
    let q = Query::new(IntersectionConstraint::new(vec![a, b]), |b: &Binding| *b.get(0).unwrap());
    let mut results = run(q);
    results.sort();
    assert_eq!(results, vec![val(2), val(3)]);
}

#[test]
fn query_union_of_sets() {
    let mut ctx = VariableContext::new();
    let v: Variable<()> = ctx.next_variable();
    let a = KeysConstraint::new(v.clone(), vec![val(1), val(2)]);
    let b = KeysConstraint::new(v.clone(), vec![val(2), val(3)]);
    let q = Query::new(UnionConstraint::new(vec![a, b]), |b: &Binding| *b.get(0).unwrap());
    let mut results = run(q);
    results.sort();
    assert_eq!(results, vec![val(1), val(2), val(3)]);
}

#[test]
fn query_two_variables_cross_product() {
    let mut ctx = VariableContext::new();
    let x: Variable<()> = ctx.next_variable();
    let y: Variable<()> = ctx.next_variable();
    let a = SetConstraint::new(x, vec![val(1), val(2)]);
    let b = SetConstraint::new(y, vec![val(7), val(8), val(9)]);
    let q = Query::new(IntersectionConstraint::new(vec![a, b]), |b: &Binding| (*b.get(0).unwrap(), *b.get(1).unwrap()));
    let mut results = run(q);
    results.sort();
    assert_eq!(results.len(), 6);
    assert_eq!(results[0], (val(1), val(7)));
    assert_eq!(results[5], (val(2), val(9)));
}

#[test]
fn query_patch_values() {
    let mut patch = PATCH::<32, IdentitySchema, ()>::new();
    patch.insert(Entry::new(&val(5)));
    patch.insert(Entry::new(&val(6)));
    let mut ctx = VariableContext::new();
    let v: Variable<()> = ctx.next_variable();
    let c = PatchValueConstraint::new(v, &patch);
    let mut results = run(Query::new(c, |b: &Binding| *b.get(0).unwrap()));
    results.sort();
    assert_eq!(results, vec![val(5), val(6)]);
}

#[test]
fn query_patch_ids() {
    let mut patch = PATCH::<16, IdentitySchema, ()>::new();
    patch.insert(Entry::new(&[3u8; 16]));
    let mut ctx = VariableContext::new();
    let v: Variable<()> = ctx.next_variable();
    let c = PatchIdConstraint::new(v, patch);
    let results = run(Query::new(c, |b: &Binding| *b.get(0).unwrap()));
    assert_eq!(results, vec![id_into_value(&[3u8; 16])]);
}

#[test]
fn query_mask_keeps_variables() {
    let mut ctx = VariableContext::new();
    let v: Variable<()> = ctx.next_variable();
    let inner = ConstantConstraint::new(v, val(1));
    let mut mask = VariableSet::new_empty();
    mask.set(0);
    let c = MaskConstraint::new(mask, inner);
    assert!(c.variable(0));
    assert!(c.variables().is_set(0));
    let mut other = VariableSet::new_empty();
    other.set(1);
    let hidden = MaskConstraint::new(other, ConstantConstraint::new(Variable::<()>::new(0), val(1)));
    assert!(!hidden.variable(0));
    assert!(hidden.variables().is_empty());
}

fn id(x: u8) -> [u8; 16] {
    [x; 16]
}

fn link(e: u8, a: u8, d: u8) -> [u8; 64] {
    let mut t = [0u8; 64];
    t[0..16].copy_from_slice(&id(e));
    t[16..32].copy_from_slice(&id(a));
    t[48..64].copy_from_slice(&id(d));
    t
}

fn paths(tribles: &Vec<[u8; 64]>, ops: &[PathOp]) -> Vec<([u8; 32], [u8; 32])> {
    let mut ctx = VariableContext::new();
    let s: Variable<()> = ctx.next_variable();
    let e: Variable<()> = ctx.next_variable();
    let c = RegularPathConstraint::new(tribles, s, e, ops);
    let mut starts = Vec::new();
    c.propose(0, &Binding::new(), &mut starts);
    let mut results = Vec::new();
    for start in starts {
        let mut binding = Binding::new();
        binding.set(0, &start);
        let mut ends = Vec::new();
        c.propose(1, &binding, &mut ends);
        c.confirm(1, &binding, &mut ends);
        for end in ends {
            results.push((start, end));
        }
    }
    results.sort();
    results
}

#[test]
fn regular_path_propose_gives_every_node() {
    let mut ctx = VariableContext::new();
    let s: Variable<()> = ctx.next_variable();
    let e: Variable<()> = ctx.next_variable();
    let c = RegularPathConstraint::new(&graph(), s, e, &[PathOp::Attr(id(11))]);
    let mut binding = Binding::new();
    binding.set(0, &v(2));
    let mut proposals = Vec::new();
    c.propose(1, &binding, &mut proposals);
    proposals.sort();
    assert_eq!(proposals, vec![v(1), v(2), v(3), v(4)]);
}

fn graph() -> Vec<[u8; 64]> {
    // 1 -a-> 2 -a-> 3, 1 -b-> 4, and a trible whose value is no id
    let mut not_a_link = link(3, 10, 1);
    not_a_link[40] = 1;
    vec![link(1, 10, 2), link(2, 10, 3), link(1, 11, 4), not_a_link]
}

fn v(x: u8) -> [u8; 32] {
    id_into_value(&id(x))
}

#[test]
fn regular_path_single_attribute() {
    let results = paths(&graph(), &[PathOp::Attr(id(10))]);
    assert_eq!(results, vec![(v(1), v(2)), (v(2), v(3))]);
}

#[test]
fn regular_path_plus() {
    let results = paths(&graph(), &[PathOp::Attr(id(10)), PathOp::Plus]);
    assert_eq!(results, vec![(v(1), v(2)), (v(1), v(3)), (v(2), v(3))]);
}

#[test]
fn regular_path_union_and_concat() {
    let union = paths(&graph(), &[PathOp::Attr(id(10)), PathOp::Attr(id(11)), PathOp::Union]);
    assert_eq!(union, vec![(v(1), v(2)), (v(1), v(4)), (v(2), v(3))]);
    let concat = paths(&graph(), &[PathOp::Attr(id(10)), PathOp::Attr(id(10)), PathOp::Concat]);
    assert_eq!(concat, vec![(v(1), v(3))]);
}

#[test]
fn regular_path_star_includes_empty_path() {
    let results = paths(&graph(), &[PathOp::Attr(id(10)), PathOp::Star]);
    assert_eq!(
        results,
        vec![(v(1), v(1)), (v(1), v(2)), (v(1), v(3)), (v(2), v(2)), (v(2), v(3)), (v(3), v(3)), (v(4), v(4))]
    );
}

#[test]
fn regular_path_estimate_and_confirm() {
    let mut ctx = VariableContext::new();
    let s: Variable<()> = ctx.next_variable();
    let e: Variable<()> = ctx.next_variable();
    let c = RegularPathConstraint::new(&graph(), s, e, &[PathOp::Attr(id(11))]);
    let mut binding = Binding::new();
    assert_eq!(c.estimate(0, &binding), 4);
    binding.set(0, &v(1));
    let mut proposals = vec![v(2), v(4), val(9)];
    c.confirm(1, &binding, &mut proposals);
    assert_eq!(proposals, vec![v(4)]);
    binding.set(0, &val(9));
    let mut proposals = vec![v(4)];
    c.confirm(1, &binding, &mut proposals);
    assert!(proposals.is_empty());
}

#[test]
fn intersection_estimate_is_least_of_relevant() {
    let mut ctx = VariableContext::new();
    let v: Variable<()> = ctx.next_variable();
    let w: Variable<()> = ctx.next_variable();
    let a = SetConstraint::new(v.clone(), vec![val(1), val(2), val(3)]);
    let b = SetConstraint::new(v.clone(), vec![val(2), val(3)]);
    let c = SetConstraint::new(w.clone(), vec![val(9)]);
    let i = IntersectionConstraint::new(vec![a, b, c]);
    let binding = Binding::new();
    assert_eq!(i.estimate(0, &binding), 2);
    assert_eq!(i.estimate(1, &binding), 1);
}

#[test]
fn union_estimate_is_sum() {
    let mut ctx = VariableContext::new();
    let v: Variable<()> = ctx.next_variable();
    let a = KeysConstraint::new(v.clone(), vec![val(1), val(2)]);
    let b = KeysConstraint::new(v.clone(), vec![val(2), val(3), val(4)]);
    let u = UnionConstraint::new(vec![a, b]);
    assert_eq!(u.estimate(0, &Binding::new()), 5);
}

fn short(s: &str) -> [u8; 32] {
    let mut v = [0u8; 32];
    v[..s.len()].copy_from_slice(s.as_bytes());
    v
}

#[test]
fn and_set() {
    let books = vec![short("LOTR"), short("Dragonrider"), short("Highlander")];
    let movies = vec![short("LOTR"), short("Highlander")];

    let mut ctx = VariableContext::new();
    let a: Variable<()> = ctx.next_variable();
    let both = IntersectionConstraint::new(vec![
        SetConstraint::new(a.clone(), books.clone()),
        SetConstraint::new(a.clone(), movies.clone()),
    ]);
    assert_eq!(run(Query::new(both, |b: &Binding| *b.get(0).unwrap())).len(), 2);

    let mut ctx = VariableContext::new();
    let a: Variable<()> = ctx.next_variable();
    let b: Variable<()> = ctx.next_variable();
    let pairs = IntersectionConstraint::new(vec![
        SetConstraint::new(a.clone(), books.clone()),
        SetConstraint::new(b.clone(), movies.clone()),
    ]);
    assert_eq!(run(Query::new(pairs, |bd: &Binding| (*bd.get(0).unwrap(), *bd.get(1).unwrap()))).len(), 6);

    let mut ctx = VariableContext::new();
    let a: Variable<()> = ctx.next_variable();
    let lotr = IntersectionConstraint::new(vec![
        SetConstraint::new(a.clone(), books.clone()),
        SetConstraint::new(a.clone(), vec![short("LOTR")]),
    ]);
    assert_eq!(run(Query::new(lotr, |b: &Binding| *b.get(0).unwrap())).len(), 1);
}

#[test]
fn finished_query_stays_finished() {
    let mut ctx = VariableContext::new();
    let v: Variable<()> = ctx.next_variable();
    let mut q = Query::new(SetConstraint::new(v.clone(), vec![val(1), val(1), val(2)]), |b: &Binding| *b.get(0).unwrap());
    let mut seen = Vec::new();
    while let Some(x) = q.next() {
        seen.push(x);
    }
    seen.sort();
    assert_eq!(seen, vec![val(1), val(2)]);
    assert!(q.next().is_none());
    assert!(q.next().is_none());
}

#[test]
fn union_of_nothing_restricts_nothing() {
    let u = UnionConstraint::<ConstantConstraint>::new(Vec::new());
    for v in 0..128u8 {
        assert!(!u.variable(v));
    }
}

#[test]
fn constraints_leave_foreign_variables_alone() {
    let mut ctx = VariableContext::new();
    let v: Variable<()> = ctx.next_variable();
    let c = v.is(val(42));
    let binding = Binding::new();
    let mut proposals = vec![val(1), val(2)];
    c.propose(5, &binding, &mut proposals);
    assert_eq!(proposals, vec![val(1), val(2)]);
    c.confirm(5, &binding, &mut proposals);
    assert_eq!(proposals, vec![val(1), val(2)]);
    c.propose(0, &binding, &mut proposals);
    assert_eq!(proposals, vec![val(1), val(2), val(42)]);

    let s: Variable<()> = ctx.next_variable();
    let e: Variable<()> = ctx.next_variable();
    let p = RegularPathConstraint::new(&graph(), s, e, &[PathOp::Attr(id(10))]);
    let mut proposals = vec![val(7)];
    p.propose(9, &binding, &mut proposals);
    p.confirm(9, &binding, &mut proposals);
    assert_eq!(proposals, vec![val(7)]);
}
