//! The constraint that two variables are the ends of a path through a graph
//! whose sequence of edge labels matches a regular expression. The expression
//! is given in postfix form and compiled into a nondeterministic automaton
//! (Thompson's construction) whose transitions are kept in a PATCH keyed by
//! source state, label and target state; label nil marks an epsilon move.
use vstd::prelude::*;

use crate::id::fucid::{be_value, pow256};
use crate::id::{id_from_value, id_into_value, spec_id_value, RawId};
use crate::query::pathlang::{
    accepts, lemma_automaton_language, lemma_path_search_meaning, no_nil_attr, no_nil_edges, path_language, walk_in_language, Word,
};
use crate::query::variableset::VariableSet;
use crate::query::{extend_values, Binding, Constraint, Variable, VariableId};
use crate::value::RawValue;
use crate::patch::entry::Entry;
use crate::patch::node::views_from;
use crate::patch::{lemma_identity_tree_key, IdentitySchema, PATCH};

verus! {

/// An operator of a path expression in postfix form.
#[derive(Clone, Copy, Debug)]
pub enum PathOp {
    /// An edge with this attribute.
    Attr(RawId),
    /// The two topmost expressions, one after the other.
    Concat,
    /// One of the two topmost expressions.
    Union,
    /// The topmost expression, any number of times.
    Star,
    /// The topmost expression, at least once.
    Plus,
}

/// The bytes of a state in a transition key.
pub const STATE_LEN: usize = 8;

/// The length of a transition key: source state, label, target state.
pub const EDGE_KEY_LEN: usize = 32;

/// The label of epsilon moves.
pub const NIL_ID: RawId = [0, 0, 0, 0, 0, 0, 0, 0, 0, 0, 0, 0, 0, 0, 0, 0];

/// The eight big-endian bytes of `x`.
pub open spec fn be8(x: u64) -> Seq<u8> {
    Seq::new(8, |i: int| ((x as nat / pow256((7 - i) as nat)) % 256) as u8)
}

/// The key of the transition from `from` to `to` labelled `label`.
pub open spec fn edge_key(from: u64, label: Seq<u8>, to: u64) -> Seq<u8> {
    be8(from) + label + be8(to)
}

/// The nil label.
pub open spec fn nil() -> Seq<u8> {
    Seq::new(16, |i: int| 0u8)
}

proof fn lemma_pow256_succ(n: nat)
    ensures
        pow256(n + 1) == pow256(n) * 256,
        pow256(n) > 0,
    decreases n,
{
    if n > 0 {
        lemma_pow256_succ((n - 1) as nat);
    }
}

/// The big-endian bytes of a state read back give the state.
pub proof fn lemma_be8_value(x: u64)
    ensures
        be_value(be8(x)) == x,
{
    let s = be8(x);
    assert forall|k: int| 0 <= k <= 8 implies #[trigger] be_value(s.subrange(0, k)) == x as nat / pow256((8 - k) as nat) by {
        lemma_be8_prefix(x, k);
    }
    assert(s.subrange(0, 8) =~= s);
    assert(pow256(0) == 1);
    assert(be_value(s.subrange(0, 8)) == x as nat / pow256(0));
    assert(x as nat / 1 == x);
}

proof fn lemma_be8_prefix(x: u64, k: int)
    requires
        0 <= k <= 8,
    ensures
        be_value(be8(x).subrange(0, k)) == x as nat / pow256((8 - k) as nat),
    decreases k,
{
    let s = be8(x);
    if k == 0 {
        reveal_with_fuel(pow256, 9);
        assert(pow256(8) == 0x1_0000_0000_0000_0000);
        assert(s.subrange(0, 0).len() == 0);
        assert(be_value(s.subrange(0, 0)) == 0);
        assert(x as nat / 0x1_0000_0000_0000_0000nat == 0);
    } else {
        lemma_be8_prefix(x, k - 1);
        assert(s.subrange(0, k).drop_last() =~= s.subrange(0, k - 1));
        let p = pow256((8 - k) as nat);
        lemma_pow256_succ((8 - k) as nat);
        assert(pow256((8 - (k - 1)) as nat) == p * 256);
        let q = x as nat / p;
        vstd::arithmetic::div_mod::lemma_div_denominator(x as int, p as int, 256);
        assert((x as nat / (p * 256)) == q / 256);
        assert(s[k - 1] == q % 256);
        assert(q == (q / 256) * 256 + q % 256) by (nonlinear_arith)
            requires
                q >= 0,
        {
            vstd::arithmetic::div_mod::lemma_fundamental_div_mod(q as int, 256);
        }
        let sub = s.subrange(0, k);
        assert(sub.last() == s[k - 1]);
        assert(be_value(sub) == (be_value(sub.drop_last()) * 256 + sub.last()) as nat);
        assert(be_value(sub) == (q / 256) * 256 + q % 256);
    }
}

/// The eight big-endian bytes of `x`.
pub fn encode_state(x: u64) -> (r: [u8; 8])
    ensures
        r@ == be8(x),
{
    let mut out = [0u8; 8];
    let mut v: u64 = x;
    let mut i: usize = 8;
    proof {
        assert(pow256(0) == 1);
        assert(x as nat / 1 == x);
    }
    while i > 0
        invariant
            i <= 8,
            out@.len() == 8,
            v as nat == x as nat / pow256((8 - i) as nat),
            forall|j: int| i <= j < 8 ==> out@[j] == be8(x)[j],
        decreases i,
    {
        i = i - 1;
        proof {
            lemma_pow256_succ((7 - i) as nat);
            vstd::arithmetic::div_mod::lemma_div_denominator(x as int, pow256((7 - i) as nat) as int, 256);
        }
        out[i] = (v % 256) as u8;
        v = v / 256;
    }
    proof {
        assert(out@ =~= be8(x));
    }
    out
}

/// The state whose big-endian bytes are `b`.
pub fn decode_state(b: &[u8; 8]) -> (r: u64)
    ensures
        r as nat == be_value(b@),
{
    let mut v: u64 = 0;
    let mut i: usize = 0;
    while i < 8
        invariant
            i <= 8,
            v as nat == be_value(b@.subrange(0, i as int)),
            v < pow256(i as nat),
        decreases 8 - i,
    {
        proof {
            assert(b@.subrange(0, i + 1).drop_last() =~= b@.subrange(0, i as int));
            lemma_pow256_succ(i as nat);
            reveal_with_fuel(pow256, 9);
            assert(pow256(i as nat) <= pow256(7)) by {
                lemma_pow256_le(i as nat, 7);
            }
            assert(v * 256 + b@[i as int] < pow256(i as nat) * 256) by (nonlinear_arith)
                requires
                    v < pow256(i as nat),
                    b@[i as int] < 256,
            ;
        }
        v = v * 256 + b[i] as u64;
        i = i + 1;
    }
    proof {
        assert(b@.subrange(0, 8) =~= b@);
    }
    v
}

proof fn lemma_pow256_le(a: nat, b: nat)
    requires
        a <= b,
    ensures
        pow256(a) <= pow256(b),
    decreases b - a,
{
    if a < b {
        lemma_pow256_le(a, (b - 1) as nat);
        lemma_pow256_succ((b - 1) as nat);
    }
}

/// The automaton under construction: the keys of its transitions, the
/// stack of fragments (start and accept state) and the number of states.
pub struct Build {
    pub edges: Set<Seq<u8>>,
    pub stack: Seq<(u64, u64)>,
    pub counter: nat,
}

/// The number of fragments an operator takes off the stack.
pub open spec fn arity(op: PathOp) -> nat {
    match op {
        PathOp::Attr(_) => 0,
        PathOp::Concat => 2,
        PathOp::Union => 2,
        PathOp::Star => 1,
        PathOp::Plus => 1,
    }
}

/// One step of Thompson's construction. New states are numbered from the
/// counter on; an operator joins the fragments it takes by epsilon moves.
pub open spec fn build_step(b: Build, op: PathOp) -> Build {
    let n = b.stack.len();
    let s = b.counter as u64;
    let e = (b.counter + 1) as u64;
    match op {
        PathOp::Attr(id) => Build {
            edges: b.edges.insert(edge_key(s, id@, e)),
            stack: b.stack.push((s, e)),
            counter: b.counter + 2,
        },
        PathOp::Concat => {
            let y = b.stack[n - 1];
            let x = b.stack[n - 2];
            Build {
                edges: b.edges.insert(edge_key(x.1, nil(), y.0)),
                stack: b.stack.subrange(0, n - 2).push((x.0, y.1)),
                counter: b.counter,
            }
        },
        PathOp::Union => {
            let y = b.stack[n - 1];
            let x = b.stack[n - 2];
            Build {
                edges: b.edges.insert(edge_key(s, nil(), x.0)).insert(edge_key(s, nil(), y.0)).insert(
                    edge_key(x.1, nil(), e),
                ).insert(edge_key(y.1, nil(), e)),
                stack: b.stack.subrange(0, n - 2).push((s, e)),
                counter: b.counter + 2,
            }
        },
        PathOp::Star => {
            let x = b.stack[n - 1];
            Build {
                edges: b.edges.insert(edge_key(s, nil(), x.0)).insert(edge_key(s, nil(), e)).insert(
                    edge_key(x.1, nil(), x.0),
                ).insert(edge_key(x.1, nil(), e)),
                stack: b.stack.subrange(0, n - 1).push((s, e)),
                counter: b.counter + 2,
            }
        },
        PathOp::Plus => {
            let x = b.stack[n - 1];
            Build {
                edges: b.edges.insert(edge_key(s, nil(), x.0)).insert(edge_key(x.1, nil(), x.0)).insert(
                    edge_key(x.1, nil(), e),
                ),
                stack: b.stack.subrange(0, n - 1).push((s, e)),
                counter: b.counter + 2,
            }
        },
    }
}

/// Thompson's construction applied to `ops`, one operator after the other.
pub open spec fn build(ops: Seq<PathOp>) -> Build
    decreases ops.len(),
{
    if ops.len() == 0 {
        Build { edges: Set::empty(), stack: Seq::empty(), counter: 0 }
    } else {
        build_step(build(ops.drop_last()), ops.last())
    }
}

/// Whether `ops` is a postfix expression: no operator finds fewer fragments
/// on the stack than it takes, and at least one fragment is left at the end.
pub open spec fn well_formed(ops: Seq<PathOp>) -> bool {
    &&& forall|n: int| 0 <= n < ops.len() ==> #[trigger] build(ops.take(n)).stack.len() >= arity(ops[n])
    &&& build(ops).stack.len() >= 1
}

/// A nondeterministic automaton: its transitions, and its start and accept
/// states.
pub struct Automaton {
    transitions: PATCH<32, IdentitySchema, ()>,
    start: u64,
    accept: u64,
    states: Ghost<nat>,
}

impl Automaton {
    /// The keys of the transitions.
    pub closed spec fn spec_edges(&self) -> Set<Seq<u8>> {
        self.transitions@.dom()
    }

    /// The start state.
    pub closed spec fn spec_start(&self) -> u64 {
        self.start
    }

    /// The accepting state.
    pub closed spec fn spec_accept(&self) -> u64 {
        self.accept
    }

    /// The number of states: they are numbered from 0.
    pub closed spec fn spec_states(&self) -> nat {
        self.states@
    }

    /// Every transition joins two of the states, and the start and accept
    /// states are states.
    pub open spec fn wf(&self) -> bool {
        &&& self.spec_start() < self.spec_states()
        &&& self.spec_accept() < self.spec_states()
        &&& self.spec_edges().finite()
        &&& forall|k: Seq<u8>| #[trigger] self.spec_edges().contains(k) ==> exists|f: u64, l: Seq<u8>, t: u64|
            k == edge_key(f, l, t) && l.len() == 16 && f < self.spec_states() && t < self.spec_states()
    }

    /// The automaton of the postfix expression `ops`: Thompson's
    /// construction, its start and accept states those of the last fragment
    /// left on the stack.
    #[verifier::spinoff_prover]
    pub fn new(ops: &[PathOp]) -> (r: Self)
        requires
            well_formed(ops@),
            ops.len() < 0x1000_0000_0000_0000,
        ensures
            r.wf(),
            r.spec_edges() == build(ops@).edges,
            r.spec_start() == build(ops@).stack.last().0,
            r.spec_accept() == build(ops@).stack.last().1,
            r.spec_states() == build(ops@).counter,
            no_nil_attr(ops@) ==> forall|w: Word|
                #[trigger] accepts(r.spec_edges(), r.spec_start(), w, r.spec_accept()) <==> path_language(ops@).contains(w),
    {
        let mut trans: PATCH<32, IdentitySchema, ()> = PATCH::new();
        let mut counter: u64 = 0;
        let mut stack: Vec<(u64, u64)> = Vec::new();
        let mut i: usize = 0;
        proof {
            assert(ops@.take(0) =~= Seq::<PathOp>::empty());
            assert(trans@.dom() =~= Set::<Seq<u8>>::empty());
        }
        while i < ops.len()
            invariant
                i <= ops.len(),
                ops.len() < 0x1000_0000_0000_0000,
                well_formed(ops@),
                trans@.dom() == build(ops@.take(i as int)).edges,
                trans@.dom().finite(),
                trans@.len() <= 4 * i,
                stack@ == build(ops@.take(i as int)).stack,
                counter == build(ops@.take(i as int)).counter,
                counter <= 2 * i,
                forall|j: int| 0 <= j < stack@.len() ==> #[trigger] stack@[j].0 < counter && stack@[j].1 < counter,
                forall|k: Seq<u8>| #[trigger] trans@.dom().contains(k) ==> exists|f: u64, l: Seq<u8>, t: u64|
                    k == edge_key(f, l, t) && l.len() == 16 && f < counter && t < counter,
            decreases ops.len() - i,
        {
            let ghost before = build(ops@.take(i as int));
            proof {
                assert(ops@.take(i + 1).drop_last() =~= ops@.take(i as int));
                assert(ops@.take(i + 1).last() == ops@[i as int]);
                assert(before.stack.len() >= arity(ops@[i as int]));
                assert(NIL_ID@ =~= nil());
            }
            match ops[i] {
                PathOp::Attr(id) => {
                    let s = counter;
                    let e = counter + 1;
                    counter = counter + 2;
                    insert_edge(&mut trans, s, &id, e);
                    stack.push((s, e));
                    proof {
                        assert(trans@.dom() =~= build(ops@.take(i + 1)).edges);
                    }
                },
                PathOp::Concat => {
                    let y = stack.pop().unwrap();
                    let x = stack.pop().unwrap();
                    insert_edge(&mut trans, x.1, &NIL_ID, y.0);
                    stack.push((x.0, y.1));
                    proof {
                        assert(stack@ =~= before.stack.subrange(0, before.stack.len() - 2).push((x.0, y.1)));
                        assert(trans@.dom() =~= build(ops@.take(i + 1)).edges);
                    }
                },
                PathOp::Union => {
                    let y = stack.pop().unwrap();
                    let x = stack.pop().unwrap();
                    let s = counter;
                    let e = counter + 1;
                    counter = counter + 2;
                    insert_edge(&mut trans, s, &NIL_ID, x.0);
                    insert_edge(&mut trans, s, &NIL_ID, y.0);
                    insert_edge(&mut trans, x.1, &NIL_ID, e);
                    insert_edge(&mut trans, y.1, &NIL_ID, e);
                    stack.push((s, e));
                    proof {
                        assert(stack@ =~= before.stack.subrange(0, before.stack.len() - 2).push((s, e)));
                        assert(trans@.dom() =~= build(ops@.take(i + 1)).edges);
                    }
                },
                PathOp::Star => {
                    let x = stack.pop().unwrap();
                    let s = counter;
                    let e = counter + 1;
                    counter = counter + 2;
                    insert_edge(&mut trans, s, &NIL_ID, x.0);
                    insert_edge(&mut trans, s, &NIL_ID, e);
                    insert_edge(&mut trans, x.1, &NIL_ID, x.0);
                    insert_edge(&mut trans, x.1, &NIL_ID, e);
                    stack.push((s, e));
                    proof {
                        assert(stack@ =~= before.stack.subrange(0, before.stack.len() - 1).push((s, e)));
                        assert(trans@.dom() =~= build(ops@.take(i + 1)).edges);
                    }
                },
                PathOp::Plus => {
                    let x = stack.pop().unwrap();
                    let s = counter;
                    let e = counter + 1;
                    counter = counter + 2;
                    insert_edge(&mut trans, s, &NIL_ID, x.0);
                    insert_edge(&mut trans, x.1, &NIL_ID, x.0);
                    insert_edge(&mut trans, x.1, &NIL_ID, e);
                    stack.push((s, e));
                    proof {
                        assert(stack@ =~= before.stack.subrange(0, before.stack.len() - 1).push((s, e)));
                        assert(trans@.dom() =~= build(ops@.take(i + 1)).edges);
                    }
                },
            }
            i = i + 1;
        }
        proof {
            assert(ops@.take(ops.len() as int) =~= ops@);
        }
        let last = stack.pop().unwrap();
        proof {
            if no_nil_attr(ops@) {
                assert forall|w: Word| #[trigger] accepts(build(ops@).edges, last.0, w, last.1) <==> path_language(ops@).contains(w) by {
                    lemma_automaton_language(ops@, w);
                }
            }
        }
        Automaton { transitions: trans, start: last.0, accept: last.1, states: Ghost(counter as nat) }
    }
}

/// Adds the transition from `from` to `to` labelled `label`.
fn insert_edge(trans: &mut PATCH<32, IdentitySchema, ()>, from: u64, label: &RawId, to: u64)
    requires
        old(trans)@.len() < u64::MAX,
        old(trans)@.dom().finite(),
    ensures
        final(trans)@.dom() == old(trans)@.dom().insert(edge_key(from, label@, to)),
        final(trans)@.dom().finite(),
        final(trans)@.len() <= old(trans)@.len() + 1,
{
    let f = encode_state(from);
    let t = encode_state(to);
    let mut key = [0u8; 32];
    let mut j: usize = 0;
    while j < 8
        invariant
            j <= 8,
            key@.len() == 32,
            forall|x: int| 0 <= x < j ==> key@[x] == f@[x],
        decreases 8 - j,
    {
        key[j] = f[j];
        j = j + 1;
    }
    while j < 24
        invariant
            8 <= j <= 24,
            key@.len() == 32,
            forall|x: int| 0 <= x < 8 ==> key@[x] == f@[x],
            forall|x: int| 8 <= x < j ==> key@[x] == label@[x - 8],
        decreases 24 - j,
    {
        key[j] = label[j - 8];
        j = j + 1;
    }
    while j < 32
        invariant
            24 <= j <= 32,
            key@.len() == 32,
            forall|x: int| 0 <= x < 8 ==> key@[x] == f@[x],
            forall|x: int| 8 <= x < 24 ==> key@[x] == label@[x - 8],
            forall|x: int| 24 <= x < j ==> key@[x] == t@[x - 24],
        decreases 32 - j,
    {
        key[j] = t[j - 24];
        j = j + 1;
    }
    proof {
        assert(key@ =~= edge_key(from, label@, to));
        lemma_identity_tree_key::<32>(key@);
    }
    trans.insert(Entry::new(&key));
}

/// A key that agrees with `be8(state) + label` on its first 24 bytes and is
/// the key of some transition is the key of a transition from `state` with
/// `label`, and its last eight bytes are the target's.
proof fn lemma_edge_key_parts(f: u64, l: Seq<u8>, t: u64, state: u64, label: Seq<u8>)
    requires
        l.len() == 16,
        label.len() == 16,
    ensures
        edge_key(f, l, t).len() == 32,
        edge_key(f, l, t).subrange(24, 32) == be8(t),
        crate::patch::node::agrees(edge_key(f, l, t), be8(state) + label, 0, 24) <==> (f == state && l == label),
{
    let k = edge_key(f, l, t);
    let p = be8(state) + label;
    assert(k.subrange(24, 32) =~= be8(t));
    if crate::patch::node::agrees(k, p, 0, 24) {
        assert(be8(f) =~= be8(state)) by {
            assert forall|i: int| 0 <= i < 8 implies be8(f)[i] == be8(state)[i] by {
                assert(k[i] == p[i]);
            }
        }
        lemma_be8_value(f);
        lemma_be8_value(state);
        assert(l =~= label) by {
            assert forall|i: int| 0 <= i < 16 implies l[i] == label[i] by {
                assert(k[8 + i] == p[8 + i]);
            }
        }
    }
}

/// Whether every epsilon move out of `s` leads back into `s`.
pub open spec fn eps_closed(edges: Set<Seq<u8>>, s: Set<u64>) -> bool {
    forall|x: u64, y: u64|
        #![trigger s.contains(x), edges.contains(edge_key(x, nil(), y))]
        s.contains(x) && edges.contains(edge_key(x, nil(), y)) ==> s.contains(y)
}

/// Whether `q` can be reached from the states `init` by epsilon moves: it
/// lies in every set of states that holds `init` and is closed under them.
pub open spec fn in_eps_closure(edges: Set<Seq<u8>>, init: Set<u64>, q: u64) -> bool {
    forall|t: Set<u64>| #![trigger eps_closed(edges, t)] init.subset_of(t) && eps_closed(edges, t) ==> t.contains(q)
}

/// A sequence of distinct states below `n` has at most `n` states.
proof fn lemma_distinct_bounded(s: Seq<u64>, n: nat)
    requires
        s.no_duplicates(),
        forall|i: int| 0 <= i < s.len() ==> s[i] < n,
    ensures
        s.len() <= n,
{
    let ints = s.map_values(|x: u64| x as int);
    assert(ints.no_duplicates()) by {
        assert forall|i: int, j: int| 0 <= i < ints.len() && 0 <= j < ints.len() && i != j implies ints[i] != ints[j] by {
            assert(s[i] != s[j]);
        }
    }
    ints.unique_seq_to_set();
    let range = vstd::set_lib::set_int_range(0, n as int);
    assert(ints.to_set().subset_of(range)) by {
        assert forall|v: int| #[trigger] ints.to_set().contains(v) implies range.contains(v) by {
            let i = choose|i: int| 0 <= i < ints.len() && ints[i] == v;
            assert(s[i] < n);
        }
    }
    vstd::set_lib::lemma_int_range(0, n as int);
    vstd::set_lib::lemma_len_subset(ints.to_set(), range);
}

impl Automaton {
    /// The targets of the transitions from `state` labelled `label`, each once.
    pub fn transitions_from(&self, state: u64, label: &RawId) -> (r: Vec<u64>)
        requires
            self.wf(),
        ensures
            forall|t: u64| #[trigger] r@.contains(t) <==> self.spec_edges().contains(edge_key(state, label@, t)),
            r@.no_duplicates(),
            forall|i: int| 0 <= i < r@.len() ==> r@[i] < self.spec_states(),
    {
        let f = encode_state(state);
        let mut prefix = [0u8; 24];
        let mut j: usize = 0;
        while j < 24
            invariant
                j <= 24,
                prefix@.len() == 24,
                f@ == be8(state),
                forall|x: int| 0 <= x < j ==> prefix@[x] == (be8(state) + label@)[x],
            decreases 24 - j,
        {
            proof {
                if j < 8 {
                    assert((be8(state) + label@)[j as int] == f@[j as int]);
                } else {
                    assert((be8(state) + label@)[j as int] == label@[j - 8]);
                }
            }
            if j < 8 {
                prefix[j] = f[j];
            } else {
                prefix[j] = label[j - 8];
            }
            j = j + 1;
        }
        proof {
            assert(prefix@ =~= be8(state) + label@);
        }
        let targets = self.transitions.infixes::<24, 8>(&prefix);
        let ghost m = self.transitions@;
        let ghost want = crate::patch::node::infix_set(m, prefix@, 24, 8);
        let mut out: Vec<u64> = Vec::new();
        let mut i: usize = 0;
        while i < targets.len()
            invariant
                i <= targets@.len(),
                self.wf(),
                m == self.transitions@,
                prefix@ == be8(state) + label@,
                want == crate::patch::node::infix_set(m, prefix@, 24, 8),
                views_from(targets@, 0) == want,
                crate::patch::node::distinct_from(targets@, 0),
                out@.len() == i,
                forall|x: int| 0 <= x < i ==> be8(#[trigger] out@[x]) == targets@[x]@,
                forall|x: int| 0 <= x < i ==> self.spec_edges().contains(edge_key(state, label@, #[trigger] out@[x])),
                forall|x: int| 0 <= x < i ==> #[trigger] out@[x] < self.spec_states(),
            decreases targets@.len() - i,
        {
            let t = decode_state(&targets[i]);
            proof {
                assert(views_from(targets@, 0).contains(targets@[i as int]@));
                assert(want.contains(targets@[i as int]@));
                let k = choose|k: Seq<u8>| #[trigger] m.contains_key(k) && crate::patch::node::agrees(k, prefix@, 0, 24)
                    && targets@[i as int]@ == k.subrange(24, 32);
                assert(self.spec_edges().contains(k));
                let (f1, l1, t1) = choose|f1: u64, l1: Seq<u8>, t1: u64|
                    k == edge_key(f1, l1, t1) && l1.len() == 16 && f1 < self.spec_states() && t1 < self.spec_states();
                lemma_edge_key_parts(f1, l1, t1, state, label@);
                lemma_be8_value(t1);
                assert(t == t1);
            }
            out.push(t);
            i = i + 1;
        }
        proof {
            assert forall|t: u64| #[trigger] out@.contains(t) <==> self.spec_edges().contains(edge_key(state, label@, t)) by {
                if self.spec_edges().contains(edge_key(state, label@, t)) {
                    let k = edge_key(state, label@, t);
                    lemma_edge_key_parts(state, label@, t, state, label@);
                    assert(m.contains_key(k));
                    assert(want.contains(be8(t)));
                    let x = choose|x: int| 0 <= x < targets@.len() && (#[trigger] targets@[x])@ == be8(t);
                    lemma_be8_value(t);
                    lemma_be8_value(out@[x]);
                    assert(out@[x] == t);
                }
            }
            assert forall|a: int, b: int| 0 <= a < out@.len() && 0 <= b < out@.len() && a != b implies out@[a] != out@[b] by {
                if a < b {
                    assert(targets@[a]@ != targets@[b]@);
                } else {
                    assert(targets@[b]@ != targets@[a]@);
                }
            }
        }
        out
    }
}

impl Automaton {
    /// The states reachable from `states` by epsilon moves, `states`
    /// included, each new one once.
    pub fn epsilon_closure(&self, states: Vec<u64>) -> (r: Vec<u64>)
        requires
            self.wf(),
            forall|i: int| 0 <= i < states@.len() ==> states@[i] < self.spec_states(),
        ensures
            forall|q: u64| #[trigger] r@.contains(q) <==> in_eps_closure(self.spec_edges(), states@.to_set(), q),
            forall|i: int| 0 <= i < r@.len() ==> r@[i] < self.spec_states(),
    {
        let ghost edges = self.spec_edges();
        let ghost init = states@.to_set();
        let ghost n = self.spec_states();
        let init_len = states.len();
        let mut result = states.clone();
        let mut stack = states;
        proof {
            assert(result@ =~= stack@);
            assert forall|q: u64| #[trigger] result@.contains(q) implies in_eps_closure(edges, init, q) by {
                assert forall|t: Set<u64>| #![trigger eps_closed(edges, t)] init.subset_of(t) && eps_closed(edges, t) implies t.contains(q) by {
                    assert(init.contains(q));
                }
            }
            assert(result@.subrange(init_len as int, result@.len() as int).len() == 0);
        }
        while stack.len() > 0
            invariant
                self.wf(),
                edges == self.spec_edges(),
                n == self.spec_states(),
                init == states@.to_set(),
                init_len <= result@.len(),
                forall|q: u64| init.contains(q) ==> #[trigger] result@.contains(q),
                forall|q: u64| #[trigger] result@.contains(q) ==> in_eps_closure(edges, init, q),
                forall|i: int| 0 <= i < result@.len() ==> result@[i] < n,
                forall|i: int| 0 <= i < stack@.len() ==> result@.contains(#[trigger] stack@[i]),
                result@.subrange(init_len as int, result@.len() as int).no_duplicates(),
                forall|x: u64, y: u64|
                    #![trigger result@.contains(x), edges.contains(edge_key(x, nil(), y))]
                    result@.contains(x) && edges.contains(edge_key(x, nil(), y)) ==> result@.contains(y) || stack@.contains(x),
            decreases n - (result@.len() - init_len), stack@.len(),
        {
            proof {
                lemma_distinct_bounded(result@.subrange(init_len as int, result@.len() as int), n);
            }
            let ghost st0 = stack@;
            let s = stack.pop().unwrap();
            let ghost popped = stack@;
            let dests = self.transitions_from(s, &NIL_ID);
            proof {
                assert(NIL_ID@ =~= nil());
                assert(st0 =~= popped.push(s));
                assert(result@.contains(st0[st0.len() - 1]));
                assert(dests@.subrange(0, dests@.len() as int) =~= dests@);
                assert(stack@.subrange(0, popped.len() as int) =~= popped);
                assert forall|x: u64, y: u64|
                    #![trigger result@.contains(x), edges.contains(edge_key(x, nil(), y))]
                    result@.contains(x) && edges.contains(edge_key(x, nil(), y)) implies result@.contains(y) || stack@.contains(x)
                        || (x == s && dests@.subrange(0, dests@.len() as int).contains(y)) by {
                    if !result@.contains(y) && x != s {
                        assert(st0.contains(x));
                        let i = choose|i: int| 0 <= i < st0.len() && st0[i] == x;
                        assert(i < popped.len());
                        assert(stack@[i] == x);
                    }
                    if x == s && !result@.contains(y) {
                        assert(dests@.contains(y));
                    }
                }
            }
            let mut j: usize = 0;
            let ghost r0 = result@.len();
            while j < dests.len()
                invariant
                    j <= dests@.len(),
                    self.wf(),
                    edges == self.spec_edges(),
                    n == self.spec_states(),
                    init == states@.to_set(),
                    init_len <= r0 <= result@.len(),
                    NIL_ID@ == nil(),
                    result@.contains(s),
                    forall|t: u64| #[trigger] dests@.contains(t) <==> edges.contains(edge_key(s, nil(), t)),
                    forall|i: int| 0 <= i < dests@.len() ==> dests@[i] < n,
                    forall|q: u64| init.contains(q) ==> #[trigger] result@.contains(q),
                    forall|q: u64| #[trigger] result@.contains(q) ==> in_eps_closure(edges, init, q),
                    forall|i: int| 0 <= i < result@.len() ==> result@[i] < n,
                    forall|i: int| 0 <= i < stack@.len() ==> result@.contains(#[trigger] stack@[i]),
                    result@.subrange(init_len as int, result@.len() as int).no_duplicates(),
                    stack@.len() == popped.len() + (result@.len() - r0),
                    stack@.subrange(0, popped.len() as int) == popped,
                    forall|x: u64, y: u64|
                        #![trigger result@.contains(x), edges.contains(edge_key(x, nil(), y))]
                        result@.contains(x) && edges.contains(edge_key(x, nil(), y)) ==> result@.contains(y) || stack@.contains(x)
                            || (x == s && dests@.subrange(j as int, dests@.len() as int).contains(y)),
                decreases dests@.len() - j,
            {
                let dest = dests[j];
                let ghost before = result@;
                let ghost sb = stack@;
                if !contains_state(&result, dest) {
                    result.push(dest);
                    stack.push(dest);
                    proof {
                        assert(result@ =~= before.push(dest));
                        assert(stack@ =~= sb.push(dest));
                        assert forall|q: u64| before.contains(q) implies #[trigger] result@.contains(q) by {
                            let i = choose|i: int| 0 <= i < before.len() && before[i] == q;
                            assert(result@[i] == q);
                        }
                        assert(result@[before.len() as int] == dest);
                        assert(in_eps_closure(edges, init, dest)) by {
                            assert(dests@.contains(dests@[j as int]));
                            assert(edges.contains(edge_key(s, nil(), dest)));
                            assert forall|t: Set<u64>| #![trigger eps_closed(edges, t)] init.subset_of(t) && eps_closed(edges, t) implies t.contains(dest) by {
                                assert(in_eps_closure(edges, init, s));
                                assert(t.contains(s));
                            }
                        }
                        assert forall|q: u64| #[trigger] result@.contains(q) implies in_eps_closure(edges, init, q) by {
                            if q != dest {
                                assert(before.contains(q));
                            }
                        }
                        assert(result@.subrange(init_len as int, result@.len() as int) =~= before.subrange(
                            init_len as int,
                            before.len() as int,
                        ).push(dest));
                        assert(!before.subrange(init_len as int, before.len() as int).contains(dest)) by {
                            if before.subrange(init_len as int, before.len() as int).contains(dest) {
                                let i = choose|i: int| 0 <= i < before.len() - init_len && before.subrange(init_len as int, before.len() as int)[i] == dest;
                                assert(before[init_len + i] == dest);
                            }
                        }
                        assert(stack@.subrange(0, popped.len() as int) =~= sb.subrange(0, popped.len() as int));
                        assert forall|i: int| 0 <= i < stack@.len() implies result@.contains(#[trigger] stack@[i]) by {
                            if i < sb.len() {
                                assert(stack@[i] == sb[i]);
                                assert(before.contains(sb[i]));
                            } else {
                                assert(stack@[i] == dest);
                                assert(result@[result@.len() - 1] == dest);
                            }
                        }
                        assert forall|q: u64| init.contains(q) implies #[trigger] result@.contains(q) by {
                            assert(before.contains(q));
                        }
                        assert forall|i: int| 0 <= i < result@.len() implies result@[i] < n by {
                            if i < before.len() {
                                assert(result@[i] == before[i]);
                            }
                        }
                    }
                }
                proof {
                    assert(result@.contains(dest));
                    assert forall|q: u64| before.contains(q) implies #[trigger] result@.contains(q) by {
                        let i = choose|i: int| 0 <= i < before.len() && before[i] == q;
                        assert(result@[i] == q);
                    }
                    assert forall|q: u64| sb.contains(q) implies #[trigger] stack@.contains(q) by {
                        let i = choose|i: int| 0 <= i < sb.len() && sb[i] == q;
                        assert(stack@[i] == q);
                    }
                    assert forall|x: u64, y: u64|
                        #![trigger result@.contains(x), edges.contains(edge_key(x, nil(), y))]
                        result@.contains(x) && edges.contains(edge_key(x, nil(), y)) implies result@.contains(y) || stack@.contains(x)
                            || (x == s && dests@.subrange(j + 1, dests@.len() as int).contains(y)) by {
                        if before.contains(x) {
                            if x == s && dests@.subrange(j as int, dests@.len() as int).contains(y) && y != dest {
                                let i = choose|i: int| 0 <= i < dests@.len() - j && dests@.subrange(j as int, dests@.len() as int)[i] == y;
                                assert(i != 0);
                                assert(dests@.subrange(j + 1, dests@.len() as int)[i - 1] == y);
                            }
                        } else {
                            assert(x == dest);
                            assert(stack@[stack@.len() - 1] == x);
                        }
                    }
                }
                j = j + 1;
            }
            proof {
                lemma_distinct_bounded(result@.subrange(init_len as int, result@.len() as int), n);
                assert forall|x: u64, y: u64|
                    #![trigger result@.contains(x), edges.contains(edge_key(x, nil(), y))]
                    result@.contains(x) && edges.contains(edge_key(x, nil(), y)) implies result@.contains(y) || stack@.contains(x) by {
                    if x == s {
                        assert(dests@.contains(y));
                    }
                }
            }
        }
        proof {
            assert forall|q: u64| #[trigger] in_eps_closure(edges, init, q) implies result@.contains(q) by {
                let t = result@.to_set();
                assert(init.subset_of(t));
                assert(eps_closed(edges, t));
            }
        }
        result
    }
}

/// Whether `states` holds `q`.
fn contains_state(states: &Vec<u64>, q: u64) -> (r: bool)
    ensures
        r == states@.contains(q),
{
    let mut i: usize = 0;
    while i < states.len()
        invariant
            i <= states@.len(),
            forall|j: int| 0 <= j < i ==> states@[j] != q,
        decreases states@.len() - i,
    {
        if states[i] == q {
            return true;
        }
        i = i + 1;
    }
    false
}

/// Whether a trible (entity, attribute, value) links two entities: its
/// value is an id, sixteen zero bytes then the id.
pub open spec fn links(t: Seq<u8>) -> bool {
    forall|i: int| 32 <= i < 48 ==> t[i] == 0
}

/// The graph key of a linking trible: entity, attribute, linked entity.
pub open spec fn link_key(t: Seq<u8>) -> Seq<u8> {
    t.subrange(0, 32) + t.subrange(48, 64)
}

/// The graph of the linking tribles of `ts`, as keys.
pub open spec fn graph_of(ts: Seq<[u8; 64]>) -> Set<Seq<u8>> {
    Set::new(|k: Seq<u8>| exists|i: int| 0 <= i < ts.len() && links(ts[i]@) && k == link_key(ts[i]@))
}

/// The entities that the linking tribles of `ts` join.
pub open spec fn nodes_of(ts: Seq<[u8; 64]>) -> Set<Seq<u8>> {
    Set::new(
        |n: Seq<u8>|
            exists|i: int|
                0 <= i < ts.len() && links(ts[i]@) && (n == ts[i]@.subrange(0, 16) || n == ts[i]@.subrange(48, 64)),
    )
}

/// Whether there is an edge from `n` to `d` labelled `a` in `graph`.
pub open spec fn graph_edge(graph: Set<Seq<u8>>, n: Seq<u8>, a: Seq<u8>, d: Seq<u8>) -> bool {
    a.len() == 16 && graph.contains(n + a + d)
}

/// One step through the graph and the automaton together: an edge from `n`
/// to `d` labelled `a`, a transition from `q` labelled `a`, then epsilon
/// moves to `q2`.
pub open spec fn pair_step(graph: Set<Seq<u8>>, trans: Set<Seq<u8>>, n: Seq<u8>, q: u64, d: Seq<u8>, q2: u64) -> bool {
    exists|a: Seq<u8>, q1: u64|
        #![trigger graph_edge(graph, n, a, d), trans.contains(edge_key(q, a, q1))]
        graph_edge(graph, n, a, d) && trans.contains(edge_key(q, a, q1)) && in_eps_closure(trans, set![q1], q2)
}

/// Whether a set of (entity, state) pairs is closed under steps.
pub open spec fn pairs_closed(graph: Set<Seq<u8>>, trans: Set<Seq<u8>>, p: Set<(Seq<u8>, u64)>) -> bool {
    forall|n: Seq<u8>, q: u64, d: Seq<u8>, q2: u64|
        #![trigger p.contains((n, q)), pair_step(graph, trans, n, q, d, q2)]
        p.contains((n, q)) && pair_step(graph, trans, n, q, d, q2) ==> p.contains((d, q2))
}

/// Whether `p` holds the pairs the search starts from: `from` with every
/// state reachable from `start` by epsilon moves.
pub open spec fn starts_from(trans: Set<Seq<u8>>, start: u64, from: Seq<u8>, p: Set<(Seq<u8>, u64)>) -> bool {
    forall|q: u64| #[trigger] in_eps_closure(trans, set![start], q) ==> p.contains((from, q))
}

/// Whether a path from `from` to `to` through `graph` spells a word the
/// automaton accepts: the pair of `to` and the accepting state lies in every
/// set of pairs that holds the starting pairs and is closed under steps.
pub open spec fn reaches(graph: Set<Seq<u8>>, trans: Set<Seq<u8>>, start: u64, accept: u64, from: Seq<u8>, to: Seq<u8>) -> bool {
    forall|p: Set<(Seq<u8>, u64)>|
        #![trigger pairs_closed(graph, trans, p)]
        starts_from(trans, start, from, p) && pairs_closed(graph, trans, p) ==> p.contains((to, accept))
}

/// The constraint that the variables `start` and `end` are entities joined
/// by a path whose labels spell a word of a path expression.
pub struct RegularPathConstraint {
    start: VariableId,
    end: VariableId,
    automaton: Automaton,
    edges: PATCH<48, IdentitySchema, ()>,
    nodes: Vec<RawValue>,
}

impl RegularPathConstraint {
    #[verifier::type_invariant]
    spec fn inv(self) -> bool {
        &&& self.automaton.wf()
        &&& self.edges@.dom().finite()
        &&& forall|k: Seq<u8>| #[trigger] self.edges@.dom().contains(k) ==> k.len() == 48
        &&& forall|k: Seq<u8>| #[trigger] self.edges@.dom().contains(k) ==> self.spec_nodes().contains(k.subrange(0, 16))
            && self.spec_nodes().contains(k.subrange(32, 48))
        &&& forall|i: int, j: int| 0 <= i < j < self.nodes@.len() ==> self.nodes@[i] != self.nodes@[j]
        &&& forall|i: int| 0 <= i < self.nodes@.len() ==> self.nodes@[i]@ == spec_id_value(#[trigger] self.nodes@[i]@.subrange(16, 32))
    }

    /// The variable at the start of the path.
    pub closed spec fn spec_start(&self) -> VariableId {
        self.start
    }

    /// The variable at the end of the path.
    pub closed spec fn spec_end(&self) -> VariableId {
        self.end
    }

    /// The keys of the edges of the graph: entity, attribute, linked entity.
    pub closed spec fn spec_graph(&self) -> Set<Seq<u8>> {
        self.edges@.dom()
    }

    /// The ids of the entities of the graph.
    pub closed spec fn spec_nodes(&self) -> Set<Seq<u8>> {
        self.nodes@.map_values(|v: RawValue| v@.subrange(16, 32)).to_set()
    }

    /// The automaton of the path expression.
    pub closed spec fn spec_automaton(&self) -> Automaton {
        self.automaton
    }

    /// The values of the entities of the graph, in the order they are
    /// proposed.
    pub closed spec fn spec_node_list(&self) -> Seq<RawValue> {
        self.nodes@
    }

    /// The values of the entities of the graph.
    pub closed spec fn spec_node_values(&self) -> Set<RawValue> {
        self.nodes@.to_set()
    }

    /// Whether a path from `from` to `to` through the graph spells a word of
    /// the path expression.
    pub open spec fn spec_reaches(&self, from: Seq<u8>, to: Seq<u8>) -> bool {
        reaches(
            self.spec_graph(),
            self.spec_automaton().spec_edges(),
            self.spec_automaton().spec_start(),
            self.spec_automaton().spec_accept(),
            from,
            to,
        )
    }

    /// The constraint that a path from `start` to `end` through the graph of
    /// the linking tribles of `tribles` spells a word of the postfix path
    /// expression `ops`.
    pub fn new<T>(tribles: &Vec<[u8; 64]>, start: Variable<T>, end: Variable<T>, ops: &[PathOp]) -> (r: Self)
        requires
            well_formed(ops@),
            ops.len() < 0x1000_0000_0000_0000,
            tribles.len() < 0x1000_0000_0000_0000,
        ensures
            r.spec_start() == start.index,
            r.spec_end() == end.index,
            r.spec_graph() == graph_of(tribles@),
            r.spec_nodes() == nodes_of(tribles@),
            forall|v: RawValue| #[trigger] r.spec_node_values().contains(v) <==> nodes_of(tribles@).contains(v@.subrange(16, 32))
                && v@ == spec_id_value(v@.subrange(16, 32)),
            r.spec_automaton().spec_edges() == build(ops@).edges,
            r.spec_automaton().spec_start() == build(ops@).stack.last().0,
            r.spec_automaton().spec_accept() == build(ops@).stack.last().1,
            no_nil_attr(ops@) && no_nil_edges(graph_of(tribles@)) ==> forall|from: Seq<u8>, to: Seq<u8>|
                #[trigger] r.spec_reaches(from, to) <==> walk_in_language(graph_of(tribles@), ops@, from, to),
    {
        let automaton = Automaton::new(ops);
        let (edges, node_set) = build_graph(tribles);
        let nodes = node_values(&node_set);
        proof {
            lemma_graph_nodes(tribles@);
            let mv = nodes@.map_values(|v: RawValue| v@.subrange(16, 32));
            assert forall|v: RawValue| #[trigger] nodes@.to_set().contains(v) <==> nodes_of(tribles@).contains(v@.subrange(16, 32))
                && v@ == spec_id_value(v@.subrange(16, 32)) by {
                if nodes@.to_set().contains(v) {
                    let y = choose|y: int| 0 <= y < nodes@.len() && nodes@[y] == v;
                    assert(mv[y] == v@.subrange(16, 32));
                    assert(mv.to_set().contains(mv[y]));
                }
                if nodes_of(tribles@).contains(v@.subrange(16, 32)) && v@ == spec_id_value(v@.subrange(16, 32)) {
                    assert(mv.to_set().contains(v@.subrange(16, 32)));
                    let y = choose|y: int| 0 <= y < mv.len() && mv[y] == v@.subrange(16, 32);
                    assert(nodes@[y]@ == spec_id_value(nodes@[y]@.subrange(16, 32)));
                    assert(nodes@[y]@ =~= v@);
                    assert(nodes@[y] == v);
                }
            }
        }
        let r = RegularPathConstraint { start: start.index, end: end.index, automaton, edges, nodes };
        proof {
            if no_nil_attr(ops@) && no_nil_edges(graph_of(tribles@)) {
                assert forall|from: Seq<u8>, to: Seq<u8>| #[trigger] r.spec_reaches(from, to) <==> walk_in_language(
                    graph_of(tribles@),
                    ops@,
                    from,
                    to,
                ) by {
                    lemma_path_search_meaning(graph_of(tribles@), ops@, from, to);
                }
            }
        }
        r
    }
}

/// The graph of the linking tribles of `tribles` and the entities they join.
fn build_graph(tribles: &Vec<[u8; 64]>) -> (r: (PATCH<48, IdentitySchema, ()>, PATCH<16, IdentitySchema, ()>))
    requires
        tribles.len() < 0x1000_0000_0000_0000,
    ensures
        r.0@.dom() == graph_of(tribles@),
        r.1@.dom() == nodes_of(tribles@),
        r.0@.dom().finite(),
{
        let mut edges: PATCH<48, IdentitySchema, ()> = PATCH::new();
        let mut node_set: PATCH<16, IdentitySchema, ()> = PATCH::new();
        let mut i: usize = 0;
        proof {
            assert(edges@.dom() =~= graph_of(tribles@.take(0)));
            assert(node_set@.dom() =~= nodes_of(tribles@.take(0)));
        }
        while i < tribles.len()
            invariant
                i <= tribles@.len(),
                tribles.len() < 0x1000_0000_0000_0000,
                edges@.dom() == graph_of(tribles@.take(i as int)),
                node_set@.dom() == nodes_of(tribles@.take(i as int)),
                edges@.dom().finite(),
                node_set@.dom().finite(),
                edges@.len() <= i,
                node_set@.len() <= 2 * i,
            decreases tribles@.len() - i,
        {
            let t = &tribles[i];
            let mut zero = true;
            let mut j: usize = 32;
            while j < 48
                invariant
                    32 <= j <= 48,
                    zero <==> forall|x: int| 32 <= x < j ==> t@[x] == 0,
                decreases 48 - j,
            {
                if t[j] != 0 {
                    zero = false;
                }
                j = j + 1;
            }
            let ghost ts = tribles@.take(i + 1);
            proof {
                assert(tribles@.take(i + 1).drop_last() =~= tribles@.take(i as int));
                assert(ts[i as int] == *t);
            }
            if zero {
                let mut key = [0u8; 48];
                let mut e = [0u8; 16];
                let mut d = [0u8; 16];
                let mut x: usize = 0;
                while x < 16
                    invariant
                        x <= 16,
                        key@.len() == 48,
                        e@.len() == 16,
                        d@.len() == 16,
                        forall|y: int| 0 <= y < x ==> key@[y] == t@[y],
                        forall|y: int| 16 <= y < 16 + x ==> key@[y] == t@[y],
                        forall|y: int| 32 <= y < 32 + x ==> key@[y] == t@[y + 16],
                        forall|y: int| 0 <= y < x ==> e@[y] == t@[y],
                        forall|y: int| 0 <= y < x ==> d@[y] == t@[y + 48],
                    decreases 16 - x,
                {
                    key[x] = t[x];
                    key[16 + x] = t[16 + x];
                    key[32 + x] = t[48 + x];
                    e[x] = t[x];
                    d[x] = t[48 + x];
                    x = x + 1;
                }
                proof {
                    assert(key@ =~= link_key(t@));
                    assert(e@ =~= t@.subrange(0, 16));
                    assert(d@ =~= t@.subrange(48, 64));
                    lemma_identity_tree_key::<48>(key@);
                    lemma_identity_tree_key::<16>(e@);
                    lemma_identity_tree_key::<16>(d@);
                }
                edges.insert(Entry::new(&key));
                node_set.insert(Entry::new(&e));
                node_set.insert(Entry::new(&d));
                proof {
                    assert(edges@.dom() =~= graph_of(ts)) by {
                        assert forall|k: Seq<u8>| #[trigger] graph_of(ts).contains(k) implies edges@.dom().contains(k) by {
                            let y = choose|y: int| 0 <= y < ts.len() && links(ts[y]@) && k == link_key(ts[y]@);
                            if y < i {
                                assert(graph_of(tribles@.take(i as int)).contains(k)) by {
                                    assert(tribles@.take(i as int)[y] == ts[y]);
                                }
                            }
                        }
                        assert forall|k: Seq<u8>| #[trigger] edges@.dom().contains(k) implies graph_of(ts).contains(k) by {
                            if k != key@ {
                                assert(graph_of(tribles@.take(i as int)).contains(k));
                                let y = choose|y: int| 0 <= y < i && links(tribles@.take(i as int)[y]@) && k == link_key(tribles@.take(i as int)[y]@);
                                assert(ts[y] == tribles@.take(i as int)[y]);
                            } else {
                                assert(links(ts[i as int]@));
                            }
                        }
                    }
                    assert(node_set@.dom() =~= nodes_of(ts)) by {
                        assert forall|n: Seq<u8>| #[trigger] nodes_of(ts).contains(n) implies node_set@.dom().contains(n) by {
                            let y = choose|y: int| 0 <= y < ts.len() && links(ts[y]@) && (n == ts[y]@.subrange(0, 16) || n == ts[y]@.subrange(48, 64));
                            if y < i {
                                assert(nodes_of(tribles@.take(i as int)).contains(n)) by {
                                    assert(tribles@.take(i as int)[y] == ts[y]);
                                }
                            }
                        }
                        assert forall|n: Seq<u8>| #[trigger] node_set@.dom().contains(n) implies nodes_of(ts).contains(n) by {
                            if n != e@ && n != d@ {
                                assert(nodes_of(tribles@.take(i as int)).contains(n));
                                let y = choose|y: int|
                                    0 <= y < i && links(tribles@.take(i as int)[y]@) && (n == tribles@.take(i as int)[y]@.subrange(0, 16) || n
                                        == tribles@.take(i as int)[y]@.subrange(48, 64));
                                assert(ts[y] == tribles@.take(i as int)[y]);
                            } else {
                                assert(links(ts[i as int]@));
                            }
                        }
                    }
                }
            } else {
                proof {
                    assert(!links(t@));
                    assert(edges@.dom() =~= graph_of(ts)) by {
                        assert forall|k: Seq<u8>| #[trigger] graph_of(ts).contains(k) implies edges@.dom().contains(k) by {
                            let y = choose|y: int| 0 <= y < ts.len() && links(ts[y]@) && k == link_key(ts[y]@);
                            assert(y != i);
                            assert(graph_of(tribles@.take(i as int)).contains(k)) by {
                                assert(tribles@.take(i as int)[y] == ts[y]);
                            }
                        }
                        assert forall|k: Seq<u8>| #[trigger] edges@.dom().contains(k) implies graph_of(ts).contains(k) by {
                            let y = choose|y: int| 0 <= y < i && links(tribles@.take(i as int)[y]@) && k == link_key(tribles@.take(i as int)[y]@);
                            assert(ts[y] == tribles@.take(i as int)[y]);
                        }
                    }
                    assert(node_set@.dom() =~= nodes_of(ts)) by {
                        assert forall|n: Seq<u8>| #[trigger] nodes_of(ts).contains(n) implies node_set@.dom().contains(n) by {
                            let y = choose|y: int| 0 <= y < ts.len() && links(ts[y]@) && (n == ts[y]@.subrange(0, 16) || n == ts[y]@.subrange(48, 64));
                            assert(y != i);
                            assert(nodes_of(tribles@.take(i as int)).contains(n)) by {
                                assert(tribles@.take(i as int)[y] == ts[y]);
                            }
                        }
                        assert forall|n: Seq<u8>| #[trigger] node_set@.dom().contains(n) implies nodes_of(ts).contains(n) by {
                            let y = choose|y: int|
                                0 <= y < i && links(tribles@.take(i as int)[y]@) && (n == tribles@.take(i as int)[y]@.subrange(0, 16) || n
                                    == tribles@.take(i as int)[y]@.subrange(48, 64));
                            assert(ts[y] == tribles@.take(i as int)[y]);
                        }
                    }
                }
            }
            i = i + 1;
        }
        proof {
            assert(tribles@.take(tribles@.len() as int) =~= tribles@);
        }
        (edges, node_set)
}

/// The values of the ids of `node_set`, each once.
fn node_values(node_set: &PATCH<16, IdentitySchema, ()>) -> (r: Vec<RawValue>)
    ensures
        forall|i: int, j: int| 0 <= i < j < r@.len() ==> r@[i] != r@[j],
        forall|i: int| 0 <= i < r@.len() ==> r@[i]@ == spec_id_value(#[trigger] r@[i]@.subrange(16, 32)),
        r@.map_values(|v: RawValue| v@.subrange(16, 32)).to_set() == node_set@.dom(),
{
        let prefix: [u8; 0] = [];
        let ids = node_set.infixes::<0, 16>(&prefix);
        let mut nodes: Vec<RawValue> = Vec::new();
        let mut k: usize = 0;
        while k < ids.len()
            invariant
                k <= ids@.len(),
                nodes@.len() == k,
                crate::patch::node::distinct_from(ids@, 0),
                views_from(ids@, 0) == node_set@.dom(),
                forall|y: int| 0 <= y < k ==> (#[trigger] nodes@[y])@ == spec_id_value(ids@[y]@),
            decreases ids@.len() - k,
        {
            let v = id_into_value(&ids[k]);
            nodes.push(v);
            k = k + 1;
        }
        proof {
            assert forall|y: int| 0 <= y < nodes@.len() implies nodes@[y]@.subrange(16, 32) == ids@[y]@ by {
                assert(nodes@[y]@.subrange(16, 32) =~= ids@[y]@);
            }
            let mv = nodes@.map_values(|v: RawValue| v@.subrange(16, 32));
            assert(mv.to_set() =~= node_set@.dom()) by {
                assert forall|n: Seq<u8>| #[trigger] mv.to_set().contains(n) <==> node_set@.dom().contains(n) by {
                    if mv.to_set().contains(n) {
                        let y = choose|y: int| 0 <= y < mv.len() && mv[y] == n;
                        assert(views_from(ids@, 0).contains(ids@[y]@));
                    }
                    if node_set@.dom().contains(n) {
                        assert(views_from(ids@, 0).contains(n));
                        let y = choose|y: int| 0 <= y < ids@.len() && (#[trigger] ids@[y])@ == n;
                        assert(mv[y] == n);
                    }
                }
            }
            assert forall|a: int, b: int| 0 <= a < b < nodes@.len() implies nodes@[a] != nodes@[b] by {
                assert(ids@[a]@ != ids@[b]@);
                if nodes@[a] == nodes@[b] {
                    assert(nodes@[a]@.subrange(16, 32) == nodes@[b]@.subrange(16, 32));
                }
            }
            assert forall|y: int| 0 <= y < nodes@.len() implies nodes@[y]@ == spec_id_value(#[trigger] nodes@[y]@.subrange(16, 32)) by {
                assert(nodes@[y]@.subrange(16, 32) == ids@[y]@);
            }
        }
        nodes
}

/// The edges of the graph join entities of the graph.
proof fn lemma_graph_nodes(ts: Seq<[u8; 64]>)
    ensures
        forall|key: Seq<u8>| #[trigger] graph_of(ts).contains(key) ==> key.len() == 48 && nodes_of(ts).contains(key.subrange(0, 16))
            && nodes_of(ts).contains(key.subrange(32, 48)),
{
    assert forall|key: Seq<u8>| #[trigger] graph_of(ts).contains(key) implies key.len() == 48 && nodes_of(ts).contains(key.subrange(0, 16))
        && nodes_of(ts).contains(key.subrange(32, 48)) by {
        let y = choose|y: int| 0 <= y < ts.len() && links(ts[y]@) && key == link_key(ts[y]@);
        let t = ts[y]@;
        assert(key.subrange(0, 16) =~= t.subrange(0, 16));
        assert(key.subrange(32, 48) =~= t.subrange(48, 64));
        assert(nodes_of(ts).contains(t.subrange(0, 16)));
        assert(nodes_of(ts).contains(t.subrange(48, 64)));
    }
}

/// The label part of the tail of a graph key.
pub open spec fn tail_label(tail: Seq<u8>) -> Seq<u8> {
    tail.subrange(0, 16)
}

/// The target part of the tail of a graph key.
pub open spec fn tail_target(tail: Seq<u8>) -> Seq<u8> {
    tail.subrange(16, 32)
}

/// The (entity, state) pairs of `s`.
pub open spec fn pair_set(s: Seq<(RawId, u64)>) -> Set<(Seq<u8>, u64)> {
    Set::new(|pq: (Seq<u8>, u64)| exists|i: int| 0 <= i < s.len() && (#[trigger] s[i]).0@ == pq.0 && s[i].1 == pq.1)
}

/// Whether the pair lies in every set of pairs that holds the starting pairs
/// and is closed under steps.
pub open spec fn reachable_pair(graph: Set<Seq<u8>>, trans: Set<Seq<u8>>, start: u64, from: Seq<u8>, n: Seq<u8>, q: u64) -> bool {
    forall|p: Set<(Seq<u8>, u64)>|
        #![trigger pairs_closed(graph, trans, p)]
        starts_from(trans, start, from, p) && pairs_closed(graph, trans, p) ==> p.contains((n, q))
}

/// Whether `s` holds the pair.
fn contains_pair(s: &Vec<(RawId, u64)>, n: &RawId, q: u64) -> (r: bool)
    ensures
        r == pair_set(s@).contains((n@, q)),
{
    let mut i: usize = 0;
    while i < s.len()
        invariant
            i <= s@.len(),
            forall|j: int| 0 <= j < i ==> !((#[trigger] s@[j]).0@ == n@ && s@[j].1 == q),
        decreases s@.len() - i,
    {
        if s[i].1 == q && ids_equal(&s[i].0, n) {
            proof {
                assert(s@[i as int].0@ == n@ && s@[i as int].1 == q);
            }
            return true;
        }
        i = i + 1;
    }
    false
}

/// Whether two ids are the same.
fn ids_equal(a: &RawId, b: &RawId) -> (r: bool)
    ensures
        r == (a@ == b@),
{
    let mut i: usize = 0;
    while i < 16
        invariant
            i <= 16,
            forall|j: int| 0 <= j < i ==> a@[j] == b@[j],
        decreases 16 - i,
    {
        if a[i] != b[i] {
            return false;
        }
        i = i + 1;
    }
    proof {
        assert(a@ =~= b@);
    }
    true
}

/// The label and the target of an edge key's tail.
fn split_tail(t: &[u8; 32]) -> (r: (RawId, RawId))
    ensures
        r.0@ + r.1@ == t@,
{
    let mut a = [0u8; 16];
    let mut d = [0u8; 16];
    let mut i: usize = 0;
    while i < 16
        invariant
            i <= 16,
            a@.len() == 16,
            d@.len() == 16,
            forall|j: int| 0 <= j < i ==> a@[j] == t@[j],
            forall|j: int| 0 <= j < i ==> d@[j] == t@[j + 16],
        decreases 16 - i,
    {
        a[i] = t[i];
        d[i] = t[i + 16];
        i = i + 1;
    }
    proof {
        assert(a@ + d@ =~= t@);
    }
    (a, d)
}

/// Distinct integers below `m`, at least zero, number at most `m`.
proof fn lemma_distinct_ints_bounded(s: Seq<int>, m: int)
    requires
        m >= 0,
        s.no_duplicates(),
        forall|i: int| 0 <= i < s.len() ==> 0 <= #[trigger] s[i] < m,
    ensures
        s.len() <= m,
{
    s.unique_seq_to_set();
    let range = vstd::set_lib::set_int_range(0, m);
    assert(s.to_set().subset_of(range)) by {
        assert forall|v: int| #[trigger] s.to_set().contains(v) implies range.contains(v) by {
            let i = choose|i: int| 0 <= i < s.len() && s[i] == v;
        }
    }
    vstd::set_lib::lemma_int_range(0, m);
    vstd::set_lib::lemma_len_subset(s.to_set(), range);
}

/// The position of `x` among `l`, or the length of `l` when it is not there.
spec fn slot_of(l: Seq<Seq<u8>>, x: Seq<u8>) -> int {
    if l.contains(x) {
        l.index_of(x)
    } else {
        l.len() as int
    }
}

/// Distinct pairs whose entities are among `l` or are `from`, and whose
/// states are below `n`, number at most `(l.len() + 1) * n`.
proof fn lemma_pairs_bounded(v: Seq<(RawId, u64)>, l: Seq<Seq<u8>>, from: Seq<u8>, n: nat)
    requires
        forall|i: int, j: int| 0 <= i < j < v.len() ==> !((#[trigger] v[i]).0@ == (#[trigger] v[j]).0@ && v[i].1 == v[j].1),
        forall|i: int| 0 <= i < v.len() ==> (l.contains((#[trigger] v[i]).0@) || v[i].0@ == from) && v[i].1 < n,
    ensures
        v.len() <= (l.len() + 1) * n,
{
    let codes = Seq::new(v.len(), |i: int| slot_of(l, v[i].0@) * n + v[i].1);
    assert forall|i: int| 0 <= i < codes.len() implies 0 <= #[trigger] codes[i] < (l.len() + 1) * n by {
        let s = slot_of(l, v[i].0@);
        assert(0 <= s <= l.len());
        let q = v[i].1 as int;
        assert(0 <= s * n + q < (l.len() + 1) * n) by (nonlinear_arith)
            requires
                0 <= s <= l.len(),
                0 <= q < n,
        ;
    }
    assert(codes.no_duplicates()) by {
        assert forall|i: int, j: int| 0 <= i < codes.len() && 0 <= j < codes.len() && i != j implies codes[i] != codes[j] by {
            let si = slot_of(l, v[i].0@);
            let sj = slot_of(l, v[j].0@);
            let qi = v[i].1 as int;
            let qj = v[j].1 as int;
            if codes[i] == codes[j] {
                assert(si == sj && qi == qj) by (nonlinear_arith)
                    requires
                        si * n + qi == sj * n + qj,
                        0 <= qi < n,
                        0 <= qj < n,
                        0 <= si,
                        0 <= sj,
                {
                    if si < sj {
                        assert(si * n + qi < sj * n);
                    } else if sj < si {
                        assert(sj * n + qj < si * n);
                    }
                }
                assert(v[i].0@ == v[j].0@) by {
                    if l.contains(v[i].0@) {
                        assert(l[l.index_of(v[i].0@)] == v[i].0@);
                    }
                    if l.contains(v[j].0@) {
                        assert(l[l.index_of(v[j].0@)] == v[j].0@);
                    }
                }
                if i < j {
                    assert(!(v[i].0@ == v[j].0@ && v[i].1 == v[j].1));
                } else {
                    assert(!(v[j].0@ == v[i].0@ && v[j].1 == v[i].1));
                }
            }
        }
    }
    lemma_distinct_ints_bounded(codes, ((l.len() + 1) * n) as int);
}

/// The state of the search for a path: every visited pair is reachable,
/// the starting pairs are visited, the pairs to explore are visited, the
/// target pair is explored if visited, the visited pairs are distinct and
/// bounded, and every step out of a visited pair leads to a visited pair
/// unless the pair is still to be explored or is `current`.
spec fn search_inv(
    graph: Set<Seq<u8>>,
    trans: Set<Seq<u8>>,
    start: u64,
    accept: u64,
    from: Seq<u8>,
    to: Seq<u8>,
    l: Seq<Seq<u8>>,
    n: nat,
    visited: Seq<(RawId, u64)>,
    work: Seq<(RawId, u64)>,
    current: Option<(Seq<u8>, u64)>,
) -> bool {
    let v = pair_set(visited);
    let w = pair_set(work);
    &&& forall|pq: (Seq<u8>, u64)| #[trigger] v.contains(pq) ==> reachable_pair(graph, trans, start, from, pq.0, pq.1)
    &&& starts_from(trans, start, from, v)
    &&& forall|pq: (Seq<u8>, u64)| #[trigger] w.contains(pq) ==> v.contains(pq)
    &&& v.contains((to, accept)) ==> w.contains((to, accept))
    &&& forall|i: int, j: int| 0 <= i < j < visited.len() ==> !((#[trigger] visited[i]).0@ == (#[trigger] visited[j]).0@ && visited[i].1 == visited[j].1)
    &&& forall|i: int| 0 <= i < visited.len() ==> (l.contains((#[trigger] visited[i]).0@) || visited[i].0@ == from) && visited[i].1 < n
    &&& forall|x: Seq<u8>, q: u64, d: Seq<u8>, q2: u64|
        #![trigger v.contains((x, q)), pair_step(graph, trans, x, q, d, q2)]
        v.contains((x, q)) && pair_step(graph, trans, x, q, d, q2) ==> v.contains((d, q2)) || w.contains((x, q)) || current == Some((x, q))
}

impl RegularPathConstraint {
    /// Whether a path from `from` to `to` through the graph spells a word of
    /// the path expression.
    fn has_path(&self, from: &RawId, to: &RawId) -> (r: bool)
        ensures
            r == reaches(
                self.spec_graph(),
                self.automaton.spec_edges(),
                self.automaton.spec_start(),
                self.automaton.spec_accept(),
                from@,
                to@,
            ),
    {
        proof {
            use_type_invariant(self);
        }
        let ghost g = self.spec_graph();
        let ghost t = self.automaton.spec_edges();
        let ghost st = self.automaton.spec_start();
        let ghost acc = self.automaton.spec_accept();
        let ghost n = self.automaton.spec_states();
        let ghost l = self.nodes@.map_values(|v: RawValue| v@.subrange(16, 32));
        let accept = self.automaton.accept;
        let mut init: Vec<u64> = Vec::new();
        init.push(self.automaton.start);
        proof {
            assert(init@.len() == 1 && init@[0] == st);
            assert forall|v: u64| #[trigger] init@.to_set().contains(v) <==> set![st].contains(v) by {
                if init@.to_set().contains(v) {
                    let k = choose|k: int| 0 <= k < init@.len() && init@[k] == v;
                }
                if v == st {
                    assert(init@[0] == v);
                }
            }
            assert(init@.to_set() =~= set![st]);
        }
        let start_states = self.automaton.epsilon_closure(init);
        let mut visited: Vec<(RawId, u64)> = Vec::new();
        let mut work: Vec<(RawId, u64)> = Vec::new();
        let mut i: usize = 0;
        while i < start_states.len()
            invariant
                i <= start_states@.len(),
                visited@ == work@,
                forall|q: u64| #[trigger] start_states@.contains(q) <==> in_eps_closure(t, set![st], q),
                forall|k: int| 0 <= k < start_states@.len() ==> start_states@[k] < n,
                forall|k: int| 0 <= k < i ==> pair_set(visited@).contains((from@, #[trigger] start_states@[k])),
                forall|pq: (Seq<u8>, u64)| #[trigger] pair_set(visited@).contains(pq) ==> pq.0 == from@ && in_eps_closure(t, set![st], pq.1),
                forall|a: int, b: int| 0 <= a < b < visited@.len() ==> !((#[trigger] visited@[a]).0@ == (#[trigger] visited@[b]).0@ && visited@[a].1 == visited@[b].1),
                forall|k: int| 0 <= k < visited@.len() ==> (#[trigger] visited@[k]).0@ == from@ && visited@[k].1 < n,
            decreases start_states@.len() - i,
        {
            let q = start_states[i];
            let ghost before = visited@;
            proof {
                assert(start_states@.contains(q));
            }
            if !contains_pair(&visited, from, q) {
                visited.push((*from, q));
                work.push((*from, q));
                proof {
                    assert(visited@[before.len() as int] == (*from, q));
                    assert forall|pq: (Seq<u8>, u64)| #[trigger] pair_set(visited@).contains(pq) implies pq.0 == from@ && in_eps_closure(t, set![st], pq.1) by {
                        let x = choose|x: int| 0 <= x < visited@.len() && (#[trigger] visited@[x]).0@ == pq.0 && visited@[x].1 == pq.1;
                        if x < before.len() {
                            assert(pair_set(before).contains(pq)) by {
                                assert(before[x] == visited@[x]);
                            }
                        }
                    }
                    assert forall|k: int| 0 <= k < i + 1 implies pair_set(visited@).contains((from@, #[trigger] start_states@[k])) by {
                        if k < i {
                            assert(pair_set(before).contains((from@, start_states@[k])));
                            let x = choose|x: int| 0 <= x < before.len() && (#[trigger] before[x]).0@ == from@ && before[x].1 == start_states@[k];
                            assert(visited@[x] == before[x]);
                        } else {
                            assert(visited@[before.len() as int].0@ == from@);
                        }
                    }
                    assert forall|a: int, b: int| 0 <= a < b < visited@.len() implies !((#[trigger] visited@[a]).0@ == (#[trigger] visited@[b]).0@
                        && visited@[a].1 == visited@[b].1) by {
                        if b == before.len() {
                            if visited@[a].0@ == from@ && visited@[a].1 == q {
                                assert(pair_set(before).contains((from@, q))) by {
                                    assert(before[a] == visited@[a]);
                                }
                            }
                        } else {
                            assert(before[a] == visited@[a] && before[b] == visited@[b]);
                        }
                    }
                }
            } else {
                proof {
                    assert forall|k: int| 0 <= k < i + 1 implies pair_set(visited@).contains((from@, #[trigger] start_states@[k])) by {
                    }
                }
            }
            i = i + 1;
        }
        proof {
            let v = pair_set(visited@);
            assert forall|pq: (Seq<u8>, u64)| #[trigger] v.contains(pq) implies reachable_pair(g, t, st, from@, pq.0, pq.1) by {
                assert forall|p: Set<(Seq<u8>, u64)>| #![trigger pairs_closed(g, t, p)] starts_from(t, st, from@, p) && pairs_closed(g, t, p) implies p.contains((pq.0, pq.1)) by {
                    assert(in_eps_closure(t, set![st], pq.1));
                }
            }
            assert(starts_from(t, st, from@, v)) by {
                assert forall|q: u64| #[trigger] in_eps_closure(t, set![st], q) implies v.contains((from@, q)) by {
                    assert(start_states@.contains(q));
                    let k = choose|k: int| 0 <= k < start_states@.len() && start_states@[k] == q;
                }
            }
            assert forall|x: Seq<u8>, q: u64, d: Seq<u8>, q2: u64|
                #![trigger v.contains((x, q)), pair_step(g, t, x, q, d, q2)]
                v.contains((x, q)) && pair_step(g, t, x, q, d, q2) implies v.contains((d, q2)) || pair_set(work@).contains((x, q)) by {
            }
            assert(search_inv(g, t, st, acc, from@, to@, l, n, visited@, work@, None));
            lemma_pairs_bounded(visited@, l, from@, n);
        }
        while work.len() > 0
            invariant
                search_inv(g, t, st, acc, from@, to@, l, n, visited@, work@, None),
                g == self.spec_graph(),
                t == self.automaton.spec_edges(),
                st == self.automaton.spec_start(),
                acc == self.automaton.spec_accept(),
                accept == acc,
                n == self.automaton.spec_states(),
                l == self.nodes@.map_values(|v: RawValue| v@.subrange(16, 32)),
                self.automaton.wf(),
                self.edges@.dom().finite(),
                forall|k: Seq<u8>| #[trigger] self.edges@.dom().contains(k) ==> k.len() == 48,
                forall|k: Seq<u8>| #[trigger] self.edges@.dom().contains(k) ==> l.to_set().contains(k.subrange(32, 48)),
                visited@.len() <= (l.len() + 1) * n,
            decreases (l.len() + 1) * n - visited@.len(), work@.len(),
        {
            let ghost w0 = work@;
            let (node, q) = work.pop().unwrap();
            let ghost popped = work@;
            proof {
                assert(w0 =~= popped.push((node, q)));
                assert(pair_set(w0).contains((node@, q))) by {
                    assert(w0[w0.len() - 1] == (node, q));
                }
            }
            if ids_equal(&node, to) && q == accept {
                proof {
                    assert(pair_set(visited@).contains((to@, acc)));
                    assert(reachable_pair(g, t, st, from@, to@, acc));
                }
                return true;
            }
            proof {
                assert(search_inv(g, t, st, acc, from@, to@, l, n, visited@, work@, Some((node@, q)))) by {
                    let v = pair_set(visited@);
                    assert forall|pq: (Seq<u8>, u64)| #[trigger] pair_set(work@).contains(pq) implies v.contains(pq) by {
                        let x = choose|x: int| 0 <= x < popped.len() && (#[trigger] popped[x]).0@ == pq.0 && popped[x].1 == pq.1;
                        assert(w0[x] == popped[x]);
                        assert(pair_set(w0).contains(pq));
                    }
                    assert forall|pq: (Seq<u8>, u64)| #[trigger] pair_set(w0).contains(pq) && pq != (node@, q) implies pair_set(popped).contains(pq) by {
                        let x = choose|x: int| 0 <= x < w0.len() && (#[trigger] w0[x]).0@ == pq.0 && w0[x].1 == pq.1;
                        if x == w0.len() - 1 {
                            assert(w0[x] == (node, q));
                        } else {
                            assert(popped[x] == w0[x]);
                        }
                    }
                    if v.contains((to@, acc)) {
                        assert(pair_set(w0).contains((to@, acc)));
                        assert((to@, acc) != (node@, q));
                    }
                }
            }
            let ghost vlen0 = visited@.len();
            let succ = self.edges.infixes::<16, 32>(&node);
            let mut e: usize = 0;
            while e < succ.len()
                invariant
                    e <= succ@.len(),
                    search_inv(g, t, st, acc, from@, to@, l, n, visited@, work@, Some((node@, q))),
                    pair_set(visited@).contains((node@, q)),
                    reachable_pair(g, t, st, from@, node@, q),
                    q < n,
                    views_from(succ@, 0) == crate::patch::node::infix_set(self.edges@, node@, 16, 32),
                    g == self.spec_graph(),
                    g == self.edges@.dom(),
                    t == self.automaton.spec_edges(),
                    n == self.automaton.spec_states(),
                    l == self.nodes@.map_values(|v: RawValue| v@.subrange(16, 32)),
                    self.automaton.wf(),
                    forall|k: Seq<u8>| #[trigger] self.edges@.dom().contains(k) ==> k.len() == 48,
                    forall|k: Seq<u8>| #[trigger] self.edges@.dom().contains(k) ==> l.to_set().contains(k.subrange(32, 48)),
                    visited@.len() >= vlen0,
                    work@.len() == popped.len() + (visited@.len() - vlen0),
                    forall|x: int, q1: u64, q2: u64|
                        #![trigger succ@[x], t.contains(edge_key(q, tail_label(succ@[x]@), q1)), pair_set(visited@).contains((tail_target(succ@[x]@), q2))]
                        0 <= x < e && t.contains(edge_key(q, tail_label(succ@[x]@), q1)) && in_eps_closure(t, set![q1], q2)
                            ==> pair_set(visited@).contains((tail_target(succ@[x]@), q2)),
                decreases succ@.len() - e,
            {
                let (attr, d) = split_tail(&succ[e]);
                proof {
                    assert(views_from(succ@, 0).contains(succ@[e as int]@));
                    let k = choose|k: Seq<u8>| #[trigger] self.edges@.contains_key(k) && crate::patch::node::agrees(k, node@, 0, 16)
                        && succ@[e as int]@ == k.subrange(16, 48);
                    assert(self.edges@.dom().contains(k));
                    assert(k.len() == 48);
                    assert forall|x: int| 0 <= x < 48 implies k[x] == (node@ + attr@ + d@)[x] by {
                        if x < 16 {
                            assert(k[x] == node@[x]);
                        } else {
                            assert(k[x] == k.subrange(16, 48)[x - 16]);
                            assert((attr@ + d@)[x - 16] == (node@ + attr@ + d@)[x]);
                        }
                    }
                    assert(k =~= node@ + attr@ + d@);
                    assert(graph_edge(g, node@, attr@, d@));
                    assert(l.to_set().contains(d@)) by {
                        assert(k.subrange(32, 48) =~= d@);
                    }
                }
                let qs1 = self.automaton.transitions_from(q, &attr);
                let mut j: usize = 0;
                while j < qs1.len()
                    invariant
                        j <= qs1@.len(),
                        search_inv(g, t, st, acc, from@, to@, l, n, visited@, work@, Some((node@, q))),
                        pair_set(visited@).contains((node@, q)),
                        reachable_pair(g, t, st, from@, node@, q),
                        graph_edge(g, node@, attr@, d@),
                        l.to_set().contains(d@),
                        forall|q1: u64| #[trigger] qs1@.contains(q1) <==> t.contains(edge_key(q, attr@, q1)),
                        forall|x: int| 0 <= x < qs1@.len() ==> qs1@[x] < n,
                        t == self.automaton.spec_edges(),
                        n == self.automaton.spec_states(),
                        self.automaton.wf(),
                        visited@.len() >= vlen0,
                        work@.len() == popped.len() + (visited@.len() - vlen0),
                        attr@ + d@ == succ@[e as int]@,
                        e < succ@.len(),
                        forall|x: int, q1: u64, q2: u64|
                            #![trigger succ@[x], t.contains(edge_key(q, tail_label(succ@[x]@), q1)), pair_set(visited@).contains((tail_target(succ@[x]@), q2))]
                            0 <= x < e && t.contains(edge_key(q, tail_label(succ@[x]@), q1)) && in_eps_closure(t, set![q1], q2)
                                ==> pair_set(visited@).contains((tail_target(succ@[x]@), q2)),
                        forall|x: int, q2: u64|
                            #![trigger qs1@[x], pair_set(visited@).contains((d@, q2))]
                            0 <= x < j && in_eps_closure(t, set![qs1@[x]], q2) ==> pair_set(visited@).contains((d@, q2)),
                    decreases qs1@.len() - j,
                {
                    let q1 = qs1[j];
                    let mut one: Vec<u64> = Vec::new();
                    one.push(q1);
                    proof {
                        assert(one@.len() == 1 && one@[0] == q1);
                        assert forall|v: u64| #[trigger] one@.to_set().contains(v) <==> set![q1].contains(v) by {
                            if one@.to_set().contains(v) {
                                let k = choose|k: int| 0 <= k < one@.len() && one@[k] == v;
                            }
                            if v == q1 {
                                assert(one@[0] == v);
                            }
                        }
                        assert(one@.to_set() =~= set![q1]);
                        assert(qs1@.contains(q1));
                    }
                    let qs2 = self.automaton.epsilon_closure(one);
                    let mut k: usize = 0;
                    while k < qs2.len()
                        invariant
                            k <= qs2@.len(),
                            search_inv(g, t, st, acc, from@, to@, l, n, visited@, work@, Some((node@, q))),
                            pair_set(visited@).contains((node@, q)),
                            reachable_pair(g, t, st, from@, node@, q),
                            graph_edge(g, node@, attr@, d@),
                            l.to_set().contains(d@),
                            t.contains(edge_key(q, attr@, q1)),
                            forall|q2: u64| #[trigger] qs2@.contains(q2) <==> in_eps_closure(t, set![q1], q2),
                            forall|x: int| 0 <= x < qs2@.len() ==> qs2@[x] < n,
                            visited@.len() >= vlen0,
                            work@.len() == popped.len() + (visited@.len() - vlen0),
                            j < qs1@.len(),
                            qs1@[j as int] == q1,
                            forall|x: int, q1x: u64, q2: u64|
                                #![trigger succ@[x], t.contains(edge_key(q, tail_label(succ@[x]@), q1x)), pair_set(visited@).contains((tail_target(succ@[x]@), q2))]
                                0 <= x < e && t.contains(edge_key(q, tail_label(succ@[x]@), q1x)) && in_eps_closure(t, set![q1x], q2)
                                    ==> pair_set(visited@).contains((tail_target(succ@[x]@), q2)),
                            forall|x: int, q2: u64|
                                #![trigger qs1@[x], pair_set(visited@).contains((d@, q2))]
                                0 <= x < j && in_eps_closure(t, set![qs1@[x]], q2) ==> pair_set(visited@).contains((d@, q2)),
                            forall|x: int| 0 <= x < k ==> pair_set(visited@).contains((d@, #[trigger] qs2@[x])),
                        decreases qs2@.len() - k,
                    {
                        let q2 = qs2[k];
                        let ghost vb = visited@;
                        let ghost wb = work@;
                        proof {
                            assert(qs2@.contains(q2));
                        }
                        if !contains_pair(&visited, &d, q2) {
                            visited.push((d, q2));
                            work.push((d, q2));
                            proof {
                                lemma_pushed_pair(g, t, st, acc, from@, to@, l, n, vb, wb, node@, q, attr@, d, q1, q2);
                            }
                        }
                        proof {
                            assert forall|pq: (Seq<u8>, u64)| pair_set(vb).contains(pq) implies #[trigger] pair_set(visited@).contains(pq) by {
                                let x = choose|x: int| 0 <= x < vb.len() && (#[trigger] vb[x]).0@ == pq.0 && vb[x].1 == pq.1;
                                assert(visited@[x] == vb[x]);
                            }
                            assert(pair_set(visited@).contains((d@, q2))) by {
                                if vb.len() < visited@.len() {
                                    assert(visited@[vb.len() as int] == (d, q2));
                                }
                            }
                        }
                        k = k + 1;
                    }
                    proof {
                        assert forall|x: int, q2: u64|
                            #![trigger qs1@[x], pair_set(visited@).contains((d@, q2))]
                            0 <= x < j + 1 && in_eps_closure(t, set![qs1@[x]], q2) implies pair_set(visited@).contains((d@, q2)) by {
                            if x == j {
                                assert(qs2@.contains(q2));
                                let y = choose|y: int| 0 <= y < qs2@.len() && qs2@[y] == q2;
                            }
                        }
                    }
                    j = j + 1;
                }
                proof {
                    assert(tail_label(succ@[e as int]@) =~= attr@);
                    assert(tail_target(succ@[e as int]@) =~= d@);
                    assert forall|x: int, q1: u64, q2: u64|
                        #![trigger succ@[x], t.contains(edge_key(q, tail_label(succ@[x]@), q1)), pair_set(visited@).contains((tail_target(succ@[x]@), q2))]
                        0 <= x < e + 1 && t.contains(edge_key(q, tail_label(succ@[x]@), q1)) && in_eps_closure(t, set![q1], q2)
                            implies pair_set(visited@).contains((tail_target(succ@[x]@), q2)) by {
                        if x == e {
                            assert(qs1@.contains(q1));
                            let y = choose|y: int| 0 <= y < qs1@.len() && qs1@[y] == q1;
                        }
                    }
                }
                e = e + 1;
            }
            proof {
                lemma_popped_closed(g, t, st, acc, from@, to@, l, n, visited@, work@, node@, q, self.edges@, succ@);
                lemma_pairs_bounded(visited@, l, from@, n);
            }
        }
        proof {
            let v = pair_set(visited@);
            assert(pairs_closed(g, t, v)) by {
                assert forall|x: Seq<u8>, q: u64, d: Seq<u8>, q2: u64|
                    #![trigger v.contains((x, q)), pair_step(g, t, x, q, d, q2)]
                    v.contains((x, q)) && pair_step(g, t, x, q, d, q2) implies v.contains((d, q2)) by {
                    assert(!pair_set(work@).contains((x, q)));
                }
            }
            if reaches(g, t, st, acc, from@, to@) {
                assert(v.contains((to@, acc)));
                assert(pair_set(work@).contains((to@, acc)));
                let x = choose|x: int| 0 <= x < work@.len() && (#[trigger] work@[x]).0@ == to@ && work@[x].1 == acc;
            }
        }
        false
    }
}

/// Pushing a pair adds it to the pairs of a sequence.
proof fn lemma_pair_set_push(s: Seq<(RawId, u64)>, p: (RawId, u64))
    ensures
        pair_set(s.push(p)) == pair_set(s).insert((p.0@, p.1)),
{
    let s2 = s.push(p);
    assert forall|pq: (Seq<u8>, u64)| #[trigger] pair_set(s2).contains(pq) <==> pair_set(s).insert((p.0@, p.1)).contains(pq) by {
        if pair_set(s2).contains(pq) {
            let x = choose|x: int| 0 <= x < s2.len() && (#[trigger] s2[x]).0@ == pq.0 && s2[x].1 == pq.1;
            if x < s.len() {
                assert(s[x] == s2[x]);
                assert(pair_set(s).contains(pq));
            }
        }
        if pair_set(s).contains(pq) {
            let x = choose|x: int| 0 <= x < s.len() && (#[trigger] s[x]).0@ == pq.0 && s[x].1 == pq.1;
            assert(s2[x] == s[x]);
        }
        if pq == (p.0@, p.1) {
            assert(s2[s.len() as int] == p);
        }
    }
    assert(pair_set(s2) =~= pair_set(s).insert((p.0@, p.1)));
}

/// Visiting a pair one step away from a reachable pair keeps the state of
/// the search.
proof fn lemma_pushed_pair(
    g: Set<Seq<u8>>,
    t: Set<Seq<u8>>,
    st: u64,
    acc: u64,
    from: Seq<u8>,
    to: Seq<u8>,
    l: Seq<Seq<u8>>,
    n: nat,
    vb: Seq<(RawId, u64)>,
    wb: Seq<(RawId, u64)>,
    node: Seq<u8>,
    q: u64,
    attr: Seq<u8>,
    d: RawId,
    q1: u64,
    q2: u64,
)
    requires
        search_inv(g, t, st, acc, from, to, l, n, vb, wb, Some((node, q))),
        reachable_pair(g, t, st, from, node, q),
        graph_edge(g, node, attr, d@),
        l.to_set().contains(d@),
        t.contains(edge_key(q, attr, q1)),
        in_eps_closure(t, set![q1], q2),
        q2 < n,
        !pair_set(vb).contains((d@, q2)),
    ensures
        search_inv(g, t, st, acc, from, to, l, n, vb.push((d, q2)), wb.push((d, q2)), Some((node, q))),
{
    let v = pair_set(vb);
    let w = pair_set(wb);
    let v2 = pair_set(vb.push((d, q2)));
    let w2 = pair_set(wb.push((d, q2)));
    lemma_pair_set_push(vb, (d, q2));
    lemma_pair_set_push(wb, (d, q2));
    assert(pair_step(g, t, node, q, d@, q2));
    assert(reachable_pair(g, t, st, from, d@, q2)) by {
        assert forall|p: Set<(Seq<u8>, u64)>| #![trigger pairs_closed(g, t, p)] starts_from(t, st, from, p) && pairs_closed(g, t, p) implies p.contains((d@, q2)) by {
            assert(p.contains((node, q)));
        }
    }
    assert forall|pq: (Seq<u8>, u64)| #[trigger] v2.contains(pq) implies reachable_pair(g, t, st, from, pq.0, pq.1) by {
        if pq != (d@, q2) {
            assert(v.contains(pq));
        }
    }
    assert(starts_from(t, st, from, v2)) by {
        assert forall|x: u64| #[trigger] in_eps_closure(t, set![st], x) implies v2.contains((from, x)) by {
            assert(v.contains((from, x)));
        }
    }
    let vs = vb.push((d, q2));
    assert forall|i: int, j: int| 0 <= i < j < vs.len() implies !((#[trigger] vs[i]).0@ == (#[trigger] vs[j]).0@ && vs[i].1 == vs[j].1) by {
        if j == vb.len() {
            if vs[i].0@ == d@ && vs[i].1 == q2 {
                assert(vb[i] == vs[i]);
                assert(v.contains((d@, q2)));
            }
        } else {
            assert(vb[i] == vs[i] && vb[j] == vs[j]);
        }
    }
    assert forall|i: int| 0 <= i < vs.len() implies (l.contains((#[trigger] vs[i]).0@) || vs[i].0@ == from) && vs[i].1 < n by {
        if i < vb.len() {
            assert(vb[i] == vs[i]);
        } else {
            assert(vs[i] == (d, q2));
            let k = choose|k: int| 0 <= k < l.len() && l[k] == d@;
        }
    }
    assert forall|x: Seq<u8>, qq: u64, dd: Seq<u8>, qq2: u64|
        #![trigger v2.contains((x, qq)), pair_step(g, t, x, qq, dd, qq2)]
        v2.contains((x, qq)) && pair_step(g, t, x, qq, dd, qq2) implies v2.contains((dd, qq2)) || w2.contains((x, qq)) || Some((node, q))
            == Some((x, qq)) by {
        if (x, qq) != (d@, q2) {
            assert(v.contains((x, qq)));
        }
    }
}

/// Once every step out of the pair being explored leads to a visited pair,
/// the pair needs no exception.
proof fn lemma_popped_closed(
    g: Set<Seq<u8>>,
    t: Set<Seq<u8>>,
    st: u64,
    acc: u64,
    from: Seq<u8>,
    to: Seq<u8>,
    l: Seq<Seq<u8>>,
    n: nat,
    visited: Seq<(RawId, u64)>,
    work: Seq<(RawId, u64)>,
    node: Seq<u8>,
    q: u64,
    edges: Map<Seq<u8>, ()>,
    succ: Seq<[u8; 32]>,
)
    requires
        search_inv(g, t, st, acc, from, to, l, n, visited, work, Some((node, q))),
        node.len() == 16,
        g == edges.dom(),
        views_from(succ, 0) == crate::patch::node::infix_set(edges, node, 16, 32),
        forall|k: Seq<u8>| #[trigger] edges.dom().contains(k) ==> k.len() == 48,
        forall|x: int, q1: u64, q2: u64|
            #![trigger succ[x], t.contains(edge_key(q, tail_label(succ[x]@), q1)), pair_set(visited).contains((tail_target(succ[x]@), q2))]
            0 <= x < succ.len() && t.contains(edge_key(q, tail_label(succ[x]@), q1)) && in_eps_closure(t, set![q1], q2)
                ==> pair_set(visited).contains((tail_target(succ[x]@), q2)),
    ensures
        search_inv(g, t, st, acc, from, to, l, n, visited, work, None),
{
    let v = pair_set(visited);
    let w = pair_set(work);
    assert forall|x: Seq<u8>, qq: u64, dd: Seq<u8>, qq2: u64|
        #![trigger v.contains((x, qq)), pair_step(g, t, x, qq, dd, qq2)]
        v.contains((x, qq)) && pair_step(g, t, x, qq, dd, qq2) implies v.contains((dd, qq2)) || w.contains((x, qq)) by {
        if (x, qq) == (node, q) {
            let (a, q1) = choose|a: Seq<u8>, q1: u64|
                #![trigger graph_edge(g, node, a, dd), t.contains(edge_key(qq, a, q1))]
                graph_edge(g, x, a, dd) && t.contains(edge_key(qq, a, q1)) && in_eps_closure(t, set![q1], qq2);
            let k = node + a + dd;
            assert(edges.contains_key(k));
            assert(crate::patch::node::agrees(k, node, 0, 16));
            assert(k.len() == 48);
            assert(k.subrange(16, 48) =~= a + dd) by {
                assert(a.len() == 16);
            }
            assert(crate::patch::node::infix_set(edges, node, 16, 32).contains(a + dd));
            assert(views_from(succ, 0).contains(a + dd));
            let y = choose|y: int| 0 <= y < succ.len() && (#[trigger] succ[y])@ == a + dd;
            assert(tail_label(succ[y]@) =~= a);
            assert(tail_target(succ[y]@) =~= dd);
        }
    }
}

/// Whether a value holds an id: its first sixteen bytes are zero.
pub open spec fn is_id_value(v: RawValue) -> bool {
    forall|i: int| 0 <= i < 16 ==> v@[i] == 0
}

impl RegularPathConstraint {
    /// Whether the path condition holds for `value` as `variable` under
    /// `binding`, where `value` is the value of an entity of the graph.
    fn path_admits(&self, variable: VariableId, binding: &Binding, value: &RawValue) -> (r: bool)
        requires
            self.spec_node_values().contains(*value),
        ensures
            r == self.admits(variable as int, binding@, *value),
    {
        proof {
            use_type_invariant(self);
            binding.lemma_dom();
            let y = choose|y: int| 0 <= y < self.nodes@.len() && self.nodes@[y] == *value;
            assert(value@ == spec_id_value(value@.subrange(16, 32)));
        }
        let other = if variable == self.start { self.end } else { self.start };
        if other >= 128 {
            return true;
        }
        match binding.get(other) {
            None => true,
            Some(ov) => match id_from_value(ov) {
                None => false,
                Some(oid) => {
                    let vid = match id_from_value(value) {
                        Some(id) => id,
                        None => {
                            proof {
                                assert(value@[0] == spec_id_value(value@.subrange(16, 32))[0]);
                            }
                            return false;
                        },
                    };
                    proof {
                        assert(vid@ =~= value@.subrange(16, 32));
                        assert(oid@ =~= ov@.subrange(16, 32));
                        assert(is_id_value(*ov));
                    }
                    if variable == self.start {
                        self.has_path(&vid, &oid)
                    } else {
                        self.has_path(&oid, &vid)
                    }
                },
            },
        }
    }
}

impl Constraint for RegularPathConstraint {
    open spec fn spec_variables(&self) -> Set<int> {
        Set::new(|v: int| (v == self.spec_start() || v == self.spec_end()) && 0 <= v < 128)
    }

    open spec fn spec_estimate(&self, variable: int, binding: Map<int, RawValue>) -> nat {
        self.spec_node_values().len()
    }

    open spec fn admits(&self, variable: int, binding: Map<int, RawValue>, value: RawValue) -> bool {
        let other = if variable == self.spec_start() { self.spec_end() as int } else { self.spec_start() as int };
        &&& self.spec_node_values().contains(value)
        &&& binding.contains_key(other) ==> is_id_value(binding[other]) && if variable == self.spec_start() {
            self.spec_reaches(value@.subrange(16, 32), binding[other]@.subrange(16, 32))
        } else {
            self.spec_reaches(binding[other]@.subrange(16, 32), value@.subrange(16, 32))
        }
    }

    open spec fn proposes(&self, variable: int, binding: Map<int, RawValue>, value: RawValue) -> bool {
        self.spec_node_values().contains(value)
    }

    proof fn lemma_admitted_proposed(&self, variable: int, binding: Map<int, RawValue>, value: RawValue) {
    }

    fn variables(&self) -> (r: VariableSet) {
        let mut vars = VariableSet::new_empty();
        if self.start < 128 {
            vars.set(self.start as usize);
        }
        if self.end < 128 {
            vars.set(self.end as usize);
        }
        proof {
            assert(vars@ =~= self.spec_variables());
        }
        vars
    }

    fn variable(&self, variable: VariableId) -> (r: bool) {
        (variable == self.start || variable == self.end) && variable < 128
    }

    fn estimate(&self, variable: VariableId, binding: &Binding) -> (r: usize) {
        proof {
            use_type_invariant(self);
            self.nodes@.unique_seq_to_set();
        }
        self.nodes.len()
    }

    fn propose(&self, variable: VariableId, binding: &Binding, proposals: &mut Vec<RawValue>)
        ensures
            self.spec_variables().contains(variable as int) ==> final(proposals)@ == old(proposals)@ + self.spec_node_list(),
            self.spec_node_list().no_duplicates(),
            self.spec_node_list().to_set() == self.spec_node_values(),
    {
        proof {
            use_type_invariant(self);
        }
        if !self.variable(variable) {
            return;
        }
        extend_values(proposals, &self.nodes);
        proof {
            assert forall|x: RawValue| #[trigger] self.nodes@.to_set().contains(x) <==> self.nodes@.contains(x) by {}
        }
    }

    fn confirm(&self, variable: VariableId, binding: &Binding, proposals: &mut Vec<RawValue>) {
        if !self.variable(variable) {
            return;
        }
        proof {
            use_type_invariant(self);
        }
        let mut kept: Vec<RawValue> = Vec::new();
        let mut i: usize = 0;
        while i < proposals.len()
            invariant
                i <= proposals@.len(),
                forall|x: RawValue| #[trigger] kept@.contains(x) <==> (exists|k: int|
                    0 <= k < i && proposals@[k] == x) && self.admits(variable as int, binding@, x),
                proposals@.no_duplicates() ==> kept@.no_duplicates(),
            decreases proposals@.len() - i,
        {
            let p = proposals[i];
            let ghost kb = kept@;
            let keep = if crate::query::value_in(&self.nodes, &p) {
                proof {
                    assert(self.nodes@.to_set().contains(p));
                }
                self.path_admits(variable, binding, &p)
            } else {
                false
            };
            if keep {
                proof {
                    if proposals@.no_duplicates() {
                        assert forall|x: RawValue| #[trigger] kb.contains(x) implies exists|j: int| 0 <= j < i && proposals@[j] == x by {}
                        crate::query::lemma_push_unseen(kb, proposals@, i as int);
                    }
                }
                kept.push(p);
            }
            proof {
                assert forall|x: RawValue| #[trigger] kept@.contains(x) <==> (exists|k: int| 0 <= k < i + 1 && proposals@[k] == x)
                    && self.admits(variable as int, binding@, x) by {
                    if kept@.contains(x) {
                        let y = choose|y: int| 0 <= y < kept@.len() && kept@[y] == x;
                        if y < kb.len() {
                            assert(kb[y] == x);
                            assert(kb.contains(x));
                        } else {
                            assert(x == p);
                        }
                    }
                    if (exists|k: int| 0 <= k < i + 1 && proposals@[k] == x) && self.admits(variable as int, binding@, x) {
                        let k = choose|k: int| 0 <= k < i + 1 && proposals@[k] == x;
                        if k < i {
                            assert(kb.contains(x));
                            let y = choose|y: int| 0 <= y < kb.len() && kb[y] == x;
                            assert(kept@[y] == x);
                        } else {
                            assert(x == p);
                            assert(self.nodes@.to_set().contains(p));
                            assert(self.nodes@.contains(p));
                            assert(kept@[kept@.len() - 1] == x);
                        }
                    }
                }
            }
            i = i + 1;
        }
        proof {
            assert forall|x: RawValue| #[trigger] kept@.contains(x) <==> (old(proposals)@.contains(x) && self.admits(variable as int, binding@, x)) by {
                if old(proposals)@.contains(x) {
                    let k = choose|k: int| 0 <= k < old(proposals)@.len() && old(proposals)@[k] == x;
                }
            }
        }
        *proposals = kept;
    }
}

} // verus!
