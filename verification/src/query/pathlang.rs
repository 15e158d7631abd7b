//! The words a path expression denotes, and the proof that the automaton
//! built for it by Thompson's construction accepts exactly those words.
use vstd::prelude::*;

use crate::id::RawId;
use crate::query::regularpathconstraint::{
    arity, be8, build, build_step, edge_key, eps_closed, graph_edge, in_eps_closure, lemma_be8_value, nil, pair_step, pairs_closed,
    reaches, starts_from, Build, PathOp,
};

verus! {

/// A word: a sequence of attribute ids (each sixteen bytes).
pub type Word = Seq<Seq<u8>>;

/// The words made of a word of `x` followed by a word of `y`.
pub open spec fn concat_lang(x: Set<Word>, y: Set<Word>) -> Set<Word> {
    Set::new(|w: Word| exists|u: Word, v: Word| x.contains(u) && y.contains(v) && w == u + v)
}

/// The words made of words of `x` one after the other: any number of them,
/// or at least one when `at_least_one`.
pub open spec fn repeat_lang(x: Set<Word>, at_least_one: bool) -> Set<Word> {
    Set::new(
        |w: Word|
            exists|ws: Seq<Word>|
                (at_least_one ==> ws.len() > 0) && (forall|i: int| 0 <= i < ws.len() ==> x.contains(#[trigger] ws[i])) && w
                    == ws.flatten(),
    )
}

/// One step of the evaluation of a postfix expression on a stack of
/// languages.
pub open spec fn lang_step(ls: Seq<Set<Word>>, op: PathOp) -> Seq<Set<Word>> {
    let n = ls.len() as int;
    match op {
        PathOp::Attr(id) => ls.push(Set::empty().insert(seq![id@])),
        PathOp::Concat => ls.subrange(0, n - 2).push(concat_lang(ls[n - 2], ls[n - 1])),
        PathOp::Union => ls.subrange(0, n - 2).push(ls[n - 2].union(ls[n - 1])),
        PathOp::Star => ls.subrange(0, n - 1).push(repeat_lang(ls[n - 1], false)),
        PathOp::Plus => ls.subrange(0, n - 1).push(repeat_lang(ls[n - 1], true)),
    }
}

/// The languages of the expressions left on the stack by `ops`.
pub open spec fn langs(ops: Seq<PathOp>) -> Seq<Set<Word>>
    decreases ops.len(),
{
    if ops.len() == 0 {
        Seq::empty()
    } else {
        lang_step(langs(ops.drop_last()), ops.last())
    }
}

/// The words the postfix path expression `ops` denotes.
pub open spec fn path_language(ops: Seq<PathOp>) -> Set<Word> {
    langs(ops).last()
}

/// The word spelled by a sequence of labels: the labels other than nil.
pub open spec fn word_of(labels: Seq<Seq<u8>>) -> Word
    decreases labels.len(),
{
    if labels.len() == 0 {
        Seq::empty()
    } else {
        word_of(labels.drop_last()) + if labels.last() == nil() {
            Seq::<Seq<u8>>::empty()
        } else {
            seq![labels.last()]
        }
    }
}

/// `states` and `labels` are a run of the automaton with transitions
/// `edges`: each label (of sixteen bytes) leads from one state to the next.
pub open spec fn is_run(edges: Set<Seq<u8>>, states: Seq<u64>, labels: Seq<Seq<u8>>) -> bool {
    &&& states.len() == labels.len() + 1
    &&& forall|i: int|
        0 <= i < labels.len() ==> (#[trigger] labels[i]).len() == 16 && edges.contains(edge_key(states[i], labels[i], states[i + 1]))
}

/// Some run from `p` to `q` spells `w`.
pub open spec fn accepts(edges: Set<Seq<u8>>, p: u64, w: Word, q: u64) -> bool {
    exists|states: Seq<u64>, labels: Seq<Seq<u8>>|
        #[trigger] is_run(edges, states, labels) && states[0] == p && states.last() == q && word_of(labels) == w
}

/// The word of two label sequences one after the other.
pub proof fn lemma_word_add(a: Seq<Seq<u8>>, b: Seq<Seq<u8>>)
    ensures
        word_of(a + b) == word_of(a) + word_of(b),
    decreases b.len(),
{
    if b.len() == 0 {
        assert(a + b =~= a);
        assert(word_of(b) =~= Seq::<Seq<u8>>::empty());
        assert(word_of(a) + word_of(b) =~= word_of(a));
    } else {
        lemma_word_add(a, b.drop_last());
        assert((a + b).drop_last() =~= a + b.drop_last());
        assert((a + b).last() == b.last());
        let tail = if b.last() == nil() {
            Seq::<Seq<u8>>::empty()
        } else {
            seq![b.last()]
        };
        assert(word_of(a) + word_of(b.drop_last()) + tail =~= word_of(a) + (word_of(b.drop_last()) + tail));
    }
}

/// Keys of transitions determine their source, label and target.
pub proof fn lemma_edge_key_inj(f1: u64, l1: Seq<u8>, t1: u64, f2: u64, l2: Seq<u8>, t2: u64)
    requires
        l1.len() == 16,
        l2.len() == 16,
        edge_key(f1, l1, t1) == edge_key(f2, l2, t2),
    ensures
        f1 == f2,
        l1 == l2,
        t1 == t2,
{
    let k = edge_key(f1, l1, t1);
    assert(k.subrange(0, 8) =~= be8(f1));
    assert(edge_key(f2, l2, t2).subrange(0, 8) =~= be8(f2));
    assert(k.subrange(8, 24) =~= l1);
    assert(edge_key(f2, l2, t2).subrange(8, 24) =~= l2);
    assert(k.subrange(24, 32) =~= be8(t1));
    assert(edge_key(f2, l2, t2).subrange(24, 32) =~= be8(t2));
    lemma_be8_value(f1);
    lemma_be8_value(f2);
    lemma_be8_value(t1);
    lemma_be8_value(t2);
}

/// A run with more transitions is a run.
pub proof fn lemma_run_mono(e1: Set<Seq<u8>>, e2: Set<Seq<u8>>, states: Seq<u64>, labels: Seq<Seq<u8>>)
    requires
        is_run(e1, states, labels),
        e1.subset_of(e2),
    ensures
        is_run(e2, states, labels),
{
}

/// Two runs meeting in a state make a run, which spells both words one
/// after the other.
pub proof fn lemma_run_join(
    edges: Set<Seq<u8>>,
    s1: Seq<u64>,
    l1: Seq<Seq<u8>>,
    s2: Seq<u64>,
    l2: Seq<Seq<u8>>,
)
    requires
        is_run(edges, s1, l1),
        is_run(edges, s2, l2),
        s1.last() == s2[0],
    ensures
        is_run(edges, s1 + s2.drop_first(), l1 + l2),
        (s1 + s2.drop_first())[0] == s1[0],
        (s1 + s2.drop_first()).last() == s2.last(),
        word_of(l1 + l2) == word_of(l1) + word_of(l2),
{
    let s = s1 + s2.drop_first();
    let l = l1 + l2;
    assert forall|i: int| 0 <= i < l.len() implies (#[trigger] l[i]).len() == 16 && edges.contains(edge_key(s[i], l[i], s[i + 1])) by {
        if i < l1.len() {
            assert(l[i] == l1[i]);
            assert(s[i] == s1[i]);
            if i + 1 < s1.len() {
                assert(s[i + 1] == s1[i + 1]);
            } else {
                assert(s[i + 1] == s2[0]);
            }
        } else {
            let j = i - l1.len();
            assert(l[i] == l2[j]);
            if j == 0 {
                assert(s[i] == s1.last());
            } else {
                assert(s[i] == s2[j]);
            }
            assert(s[i + 1] == s2[j + 1]);
        }
    }
    if s2.len() == 1 {
        assert(s.last() == s1.last());
    }
    lemma_word_add(l1, l2);
}

/// A single transition is a run.
pub proof fn lemma_run_single(edges: Set<Seq<u8>>, p: u64, l: Seq<u8>, q: u64)
    requires
        l.len() == 16,
        edges.contains(edge_key(p, l, q)),
    ensures
        is_run(edges, seq![p, q], seq![l]),
        word_of(seq![l]) == if l == nil() {
            Seq::<Seq<u8>>::empty()
        } else {
            seq![l]
        },
{
    assert(seq![l].drop_last() =~= Seq::<Seq<u8>>::empty());
    assert(word_of(Seq::<Seq<u8>>::empty()) =~= Seq::<Seq<u8>>::empty());
    if l != nil() {
        assert(Seq::<Seq<u8>>::empty() + seq![l] =~= seq![l]);
    } else {
        assert(Seq::<Seq<u8>>::empty() + Seq::<Seq<u8>>::empty() =~= Seq::<Seq<u8>>::empty());
    }
}

/// The part of a run from step `a` on is a run, and its word with that of
/// the part before makes the whole word.
pub proof fn lemma_run_split(edges: Set<Seq<u8>>, states: Seq<u64>, labels: Seq<Seq<u8>>, a: int)
    requires
        is_run(edges, states, labels),
        0 <= a <= labels.len(),
    ensures
        is_run(edges, states.subrange(0, a + 1), labels.subrange(0, a)),
        is_run(edges, states.subrange(a, states.len() as int), labels.subrange(a, labels.len() as int)),
        word_of(labels) == word_of(labels.subrange(0, a)) + word_of(labels.subrange(a, labels.len() as int)),
{
    let l1 = labels.subrange(0, a);
    let l2 = labels.subrange(a, labels.len() as int);
    let s1 = states.subrange(0, a + 1);
    let s2 = states.subrange(a, states.len() as int);
    assert forall|i: int| 0 <= i < l1.len() implies (#[trigger] l1[i]).len() == 16 && edges.contains(edge_key(s1[i], l1[i], s1[i + 1])) by {
        assert(l1[i] == labels[i]);
    }
    assert forall|i: int| 0 <= i < l2.len() implies (#[trigger] l2[i]).len() == 16 && edges.contains(edge_key(s2[i], l2[i], s2[i + 1])) by {
        assert(l2[i] == labels[a + i]);
    }
    assert(l1 + l2 =~= labels);
    lemma_word_add(l1, l2);
}

/// A run whose transitions all belong to `small` is a run of `small`.
pub proof fn lemma_run_restrict(small: Set<Seq<u8>>, big: Set<Seq<u8>>, states: Seq<u64>, labels: Seq<Seq<u8>>)
    requires
        is_run(big, states, labels),
        forall|i: int| 0 <= i < labels.len() ==> small.contains(#[trigger] edge_key(states[i], labels[i], states[i + 1])),
    ensures
        is_run(small, states, labels),
{
}

/// Whether state `x` lies in the span `sp` of state numbers.
pub open spec fn in_span(sp: (int, int), x: u64) -> bool {
    sp.0 <= x < sp.1
}

/// One step of tracking the state numbers each fragment on the stack owns:
/// a new fragment owns those of the fragments it takes and its new states.
pub open spec fn span_step(sp: Seq<(int, int)>, op: PathOp, c: int) -> Seq<(int, int)> {
    let n = sp.len() as int;
    match op {
        PathOp::Attr(_) => sp.push((c, c + 2)),
        PathOp::Concat => sp.subrange(0, n - 2).push((sp[n - 2].0, sp[n - 1].1)),
        PathOp::Union => sp.subrange(0, n - 2).push((sp[n - 2].0, c + 2)),
        PathOp::Star => sp.subrange(0, n - 1).push((sp[n - 1].0, c + 2)),
        PathOp::Plus => sp.subrange(0, n - 1).push((sp[n - 1].0, c + 2)),
    }
}

/// The state numbers owned by the fragments left on the stack by `ops`.
pub open spec fn spans(ops: Seq<PathOp>) -> Seq<(int, int)>
    decreases ops.len(),
{
    if ops.len() == 0 {
        Seq::empty()
    } else {
        span_step(spans(ops.drop_last()), ops.last(), build(ops.drop_last()).counter as int)
    }
}

/// The transition of step `k` of a run.
pub open spec fn step_key(states: Seq<u64>, labels: Seq<Seq<u8>>, k: int) -> Seq<u8> {
    edge_key(states[k], labels[k], states[k + 1])
}

/// Every transition joins two states of one span.
pub open spec fn edges_within(edges: Set<Seq<u8>>, sp: Seq<(int, int)>) -> bool {
    forall|f: u64, l: Seq<u8>, t: u64|
        #![trigger edges.contains(edge_key(f, l, t))]
        l.len() == 16 && edges.contains(edge_key(f, l, t)) ==> exists|i: int|
            0 <= i < sp.len() && in_span(sp[i], f) && in_span(sp[i], t)
}

/// The spans come one after the other.
pub open spec fn spans_ordered(sp: Seq<(int, int)>) -> bool {
    forall|i: int, j: int| 0 <= i < j < sp.len() ==> (#[trigger] sp[i]).1 <= (#[trigger] sp[j]).0
}

/// The invariant of Thompson's construction: each fragment on the stack
/// owns a span of states, the transitions stay within spans, nothing leaves
/// the accept state of a fragment, and the runs from a fragment's start to
/// its accept state spell exactly the words of its language.
pub open spec fn frag_inv(b: Build, ls: Seq<Set<Word>>, sp: Seq<(int, int)>) -> bool {
    &&& b.stack.len() == ls.len()
    &&& ls.len() == sp.len()
    &&& forall|i: int| 0 <= i < sp.len() ==> 0 <= (#[trigger] sp[i]).0 < sp[i].1 <= b.counter
    &&& spans_ordered(sp)
    &&& forall|i: int|
        0 <= i < sp.len() ==> in_span(sp[i], (#[trigger] b.stack[i]).0) && in_span(sp[i], b.stack[i].1) && b.stack[i].0 != b.stack[i].1
    &&& edges_within(b.edges, sp)
    &&& forall|i: int, l: Seq<u8>, t: u64|
        0 <= i < sp.len() && l.len() == 16 ==> !b.edges.contains(#[trigger] edge_key(b.stack[i].1, l, t))
    &&& forall|i: int, w: Word|
        #![trigger ls[i].contains(w)]
        #![trigger accepts(b.edges, b.stack[i].0, w, b.stack[i].1)]
        0 <= i < ls.len() ==> (accepts(b.edges, b.stack[i].0, w, b.stack[i].1) <==> ls[i].contains(w))
}

/// A run that starts in a span stays in it.
pub proof fn lemma_confined(edges: Set<Seq<u8>>, sp: Seq<(int, int)>, j: int, states: Seq<u64>, labels: Seq<Seq<u8>>, k: int)
    requires
        edges_within(edges, sp),
        spans_ordered(sp),
        0 <= j < sp.len(),
        is_run(edges, states, labels),
        in_span(sp[j], states[0]),
        0 <= k < states.len(),
    ensures
        in_span(sp[j], states[k]),
    decreases k,
{
    if k > 0 {
        lemma_confined(edges, sp, j, states, labels, k - 1);
        assert(labels[k - 1].len() == 16);
        assert(edges.contains(edge_key(states[k - 1], labels[k - 1], states[k])));
        let i = choose|i: int| 0 <= i < sp.len() && in_span(sp[i], states[k - 1]) && in_span(sp[i], states[k]);
        if i < j {
            assert(sp[i].1 <= sp[j].0);
        } else if j < i {
            assert(sp[j].1 <= sp[i].0);
        }
    }
}

/// From step `a` on, a run either keeps to the transitions of `small`, or
/// leaves them first at some step `k`.
pub proof fn lemma_first_new(small: Set<Seq<u8>>, states: Seq<u64>, labels: Seq<Seq<u8>>, a: int)
    requires
        states.len() == labels.len() + 1,
        0 <= a <= labels.len(),
    ensures
        (forall|k: int| a <= k < labels.len() ==> small.contains(#[trigger] step_key(states, labels, k))) || exists|k: int|
            a <= k < labels.len() && !small.contains(#[trigger] step_key(states, labels, k)) && forall|j: int|
                a <= j < k ==> small.contains(#[trigger] step_key(states, labels, j)),
    decreases labels.len() - a,
{
    if a < labels.len() {
        lemma_first_new(small, states, labels, a + 1);
    }
}

/// A fragment that an operator leaves alone keeps its runs: within its
/// span the new transitions are old ones.
pub proof fn lemma_untouched(
    old_edges: Set<Seq<u8>>,
    new_edges: Set<Seq<u8>>,
    sp: Seq<(int, int)>,
    i: int,
    p: u64,
    w: Word,
    q: u64,
)
    requires
        old_edges.subset_of(new_edges),
        edges_within(new_edges, sp),
        spans_ordered(sp),
        0 <= i < sp.len(),
        in_span(sp[i], p),
        forall|f: u64, l: Seq<u8>, t: u64|
            #![trigger new_edges.contains(edge_key(f, l, t))]
            l.len() == 16 && new_edges.contains(edge_key(f, l, t)) && in_span(sp[i], f) ==> old_edges.contains(edge_key(f, l, t)),
    ensures
        accepts(new_edges, p, w, q) <==> accepts(old_edges, p, w, q),
{
    if accepts(new_edges, p, w, q) {
        let (states, labels) = choose|states: Seq<u64>, labels: Seq<Seq<u8>>|
            #[trigger] is_run(new_edges, states, labels) && states[0] == p && states.last() == q && word_of(labels) == w;
        assert forall|k: int| 0 <= k < labels.len() implies old_edges.contains(#[trigger] edge_key(states[k], labels[k], states[k + 1])) by {
            lemma_confined(new_edges, sp, i, states, labels, k);
            assert(labels[k].len() == 16);
        }
        lemma_run_restrict(old_edges, new_edges, states, labels);
    }
    if accepts(old_edges, p, w, q) {
        let (states, labels) = choose|states: Seq<u64>, labels: Seq<Seq<u8>>|
            #[trigger] is_run(old_edges, states, labels) && states[0] == p && states.last() == q && word_of(labels) == w;
        lemma_run_mono(old_edges, new_edges, states, labels);
    }
}

/// The parts of the invariant that do not speak of runs, after an operator
/// that adds a fragment with span `(lo, c + 2)` on top of the first `m`
/// fragments, where `lo` is the start of the first fragment it takes (or
/// `c` when it takes none), and whose new transitions `added` join states
/// of its span, none leaving its accept state `e` or an old accept state.
pub proof fn lemma_shape(
    b: Build,
    ls: Seq<Set<Word>>,
    sp: Seq<(int, int)>,
    nb: Build,
    nsp: Seq<(int, int)>,
    m: int,
    added: Set<Seq<u8>>,
)
    requires
        frag_inv(b, ls, sp),
        0 <= m <= sp.len(),
        nsp.len() == m + 1,
        nb.stack.len() == m + 1,
        forall|i: int| 0 <= i < m ==> #[trigger] nsp[i] == sp[i] && nb.stack[i] == b.stack[i],
        nsp[m].0 == if m < sp.len() { sp[m].0 } else { b.counter as int },
        nsp[m].1 <= nb.counter,
        forall|i: int| m <= i < sp.len() ==> #[trigger] sp[i].1 <= nsp[m].1,
        m == sp.len() ==> b.counter <= nsp[m].1,
        nb.counter >= b.counter,
        nb.edges == b.edges + added,
        in_span(nsp[m], nb.stack[m].0),
        in_span(nsp[m], nb.stack[m].1),
        nb.stack[m].0 != nb.stack[m].1,
        forall|f: u64, l: Seq<u8>, t: u64|
            #![trigger added.contains(edge_key(f, l, t))]
            l.len() == 16 && added.contains(edge_key(f, l, t)) ==> in_span(nsp[m], f) && in_span(nsp[m], t) && f != nb.stack[m].1,
        forall|f: u64, l: Seq<u8>, t: u64, i: int|
            #![trigger added.contains(edge_key(f, l, t)), sp[i]]
            l.len() == 16 && added.contains(edge_key(f, l, t)) && 0 <= i < sp.len() && f == b.stack[i].1 ==> m <= i,
        forall|l: Seq<u8>, t: u64| #![trigger edge_key(nb.stack[m].1, l, t)] l.len() == 16 ==> !b.edges.contains(edge_key(nb.stack[m].1, l, t)),
    ensures
        forall|i: int| 0 <= i < nsp.len() ==> 0 <= (#[trigger] nsp[i]).0 < nsp[i].1 <= nb.counter,
        spans_ordered(nsp),
        forall|i: int|
            0 <= i < nsp.len() ==> in_span(nsp[i], (#[trigger] nb.stack[i]).0) && in_span(nsp[i], nb.stack[i].1) && nb.stack[i].0
                != nb.stack[i].1,
        edges_within(nb.edges, nsp),
        forall|i: int, l: Seq<u8>, t: u64|
            0 <= i < nsp.len() && l.len() == 16 ==> !nb.edges.contains(#[trigger] edge_key(nb.stack[i].1, l, t)),
        forall|i: int, f: u64, l: Seq<u8>, t: u64|
            #![trigger nb.edges.contains(edge_key(f, l, t)), nsp[i]]
            0 <= i < m && l.len() == 16 && nb.edges.contains(edge_key(f, l, t)) && in_span(nsp[i], f) ==> b.edges.contains(
                edge_key(f, l, t),
            ),
{
    assert forall|i: int| 0 <= i < nsp.len() implies 0 <= (#[trigger] nsp[i]).0 < nsp[i].1 <= nb.counter by {
        if i < m {
            assert(nsp[i] == sp[i]);
        } else {
            if m < sp.len() {
                assert(0 <= sp[m].0);
            }
            assert(nsp[m].0 <= nb.stack[m].0 < nsp[m].1);
        }
    }
    assert forall|i: int, j: int| 0 <= i < j < nsp.len() implies (#[trigger] nsp[i]).1 <= (#[trigger] nsp[j]).0 by {
        assert(nsp[i] == sp[i]);
        if j < m {
            assert(nsp[j] == sp[j]);
        } else if m < sp.len() {
            assert(sp[i].1 <= sp[m].0);
        } else {
            assert(sp[i].1 <= b.counter);
        }
    }
    assert forall|i: int|
        0 <= i < nsp.len() implies in_span(nsp[i], (#[trigger] nb.stack[i]).0) && in_span(nsp[i], nb.stack[i].1) && nb.stack[i].0
            != nb.stack[i].1 by {
        if i < m {
            assert(nsp[i] == sp[i] && nb.stack[i] == b.stack[i]);
        }
    }
    assert forall|f: u64, l: Seq<u8>, t: u64|
        l.len() == 16 && nb.edges.contains(edge_key(f, l, t)) implies exists|i: int|
            0 <= i < nsp.len() && in_span(nsp[i], f) && in_span(nsp[i], t) by {
        if b.edges.contains(edge_key(f, l, t)) {
            let i = choose|i: int| 0 <= i < sp.len() && in_span(sp[i], f) && in_span(sp[i], t);
            if i < m {
                assert(nsp[i] == sp[i]);
            } else {
                assert(sp[m].0 <= sp[i].0) by {
                    if m < i {
                        assert(sp[m].1 <= sp[i].0);
                    }
                }
                assert(sp[i].1 <= nsp[m].1);
                assert(in_span(nsp[m], f) && in_span(nsp[m], t));
            }
        } else {
            assert(added.contains(edge_key(f, l, t)));
        }
    }
    assert forall|i: int, l: Seq<u8>, t: u64|
        0 <= i < nsp.len() && l.len() == 16 implies !nb.edges.contains(#[trigger] edge_key(nb.stack[i].1, l, t)) by {
        let x = nb.stack[i].1;
        if i < m {
            assert(nb.stack[i] == b.stack[i]);
            assert(!b.edges.contains(edge_key(b.stack[i].1, l, t)));
            if added.contains(edge_key(x, l, t)) {
                assert(sp[i] == sp[i]);
                assert(m <= i);
            }
        } else {
            if added.contains(edge_key(x, l, t)) {
                assert(x != nb.stack[m].1);
            }
        }
    }
    assert forall|i: int, f: u64, l: Seq<u8>, t: u64|
        0 <= i < m && l.len() == 16 && nb.edges.contains(edge_key(f, l, t)) && in_span(nsp[i], f) implies b.edges.contains(
        edge_key(f, l, t),
    ) by {
        if added.contains(edge_key(f, l, t)) {
            assert(in_span(nsp[m], f));
            assert(nsp[i] == sp[i]);
            assert(nsp[i].1 <= nsp[m].0) by {
                if m < sp.len() {
                    assert(sp[i].1 <= sp[m].0);
                } else {
                    assert(sp[i].1 <= b.counter);
                }
            }
        }
    }
}

/// A fresh state has no transitions.
pub proof fn lemma_fresh_state(b: Build, ls: Seq<Set<Word>>, sp: Seq<(int, int)>, x: u64, l: Seq<u8>, t: u64)
    requires
        frag_inv(b, ls, sp),
        x >= b.counter,
        l.len() == 16,
    ensures
        !b.edges.contains(edge_key(x, l, t)),
        !b.edges.contains(edge_key(t, l, x)),
{
    if b.edges.contains(edge_key(x, l, t)) {
        let i = choose|i: int| 0 <= i < sp.len() && in_span(sp[i], x) && in_span(sp[i], t);
    }
    if b.edges.contains(edge_key(t, l, x)) {
        let i = choose|i: int| 0 <= i < sp.len() && in_span(sp[i], t) && in_span(sp[i], x);
    }
}

/// The runs of the fragment of an attribute spell just that attribute.
proof fn lemma_attr_lang(b: Build, ls: Seq<Set<Word>>, sp: Seq<(int, int)>, id: RawId, w: Word)
    requires
        frag_inv(b, ls, sp),
        id@ != nil(),
        b.counter + 2 <= u64::MAX,
    ensures
        ({
            let c = b.counter as u64;
            let e = (b.counter + 1) as u64;
            accepts(b.edges.insert(edge_key(c, id@, e)), c, w, e) <==> w == seq![id@]
        }),
{
    let c = b.counter as u64;
    let e = (b.counter + 1) as u64;
    let key = edge_key(c, id@, e);
    let ne = b.edges.insert(key);
    if accepts(ne, c, w, e) {
        let (states, labels) = choose|states: Seq<u64>, labels: Seq<Seq<u8>>|
            #[trigger] is_run(ne, states, labels) && states[0] == c && states.last() == e && word_of(labels) == w;
        assert(labels.len() >= 1);
        assert(labels[0].len() == 16);
        lemma_fresh_state(b, ls, sp, c, labels[0], states[1]);
        assert(ne.contains(edge_key(states[0], labels[0], states[1])));
        lemma_edge_key_inj(c, labels[0], states[1], c, id@, e);
        if labels.len() >= 2 {
            assert(labels[1].len() == 16);
            assert(ne.contains(edge_key(states[1], labels[1], states[2])));
            lemma_fresh_state(b, ls, sp, e, labels[1], states[2]);
            lemma_edge_key_inj(e, labels[1], states[2], c, id@, e);
        }
        assert(labels =~= seq![id@]);
        lemma_run_single(ne, c, id@, e);
    }
    if w == seq![id@] {
        lemma_run_single(ne, c, id@, e);
        assert(is_run(ne, seq![c, e], seq![id@]));
    }
}

/// The runs of fragments that an operator leaves alone, after it.
proof fn lemma_untouched_all(
    b: Build,
    ls: Seq<Set<Word>>,
    sp: Seq<(int, int)>,
    nb: Build,
    nls: Seq<Set<Word>>,
    nsp: Seq<(int, int)>,
    m: int,
)
    requires
        frag_inv(b, ls, sp),
        0 <= m <= sp.len(),
        nsp.len() == m + 1,
        nls.len() == m + 1,
        nb.stack.len() == m + 1,
        forall|i: int| 0 <= i < m ==> #[trigger] nsp[i] == sp[i] && nb.stack[i] == b.stack[i] && nls[i] == ls[i],
        b.edges.subset_of(nb.edges),
        edges_within(nb.edges, nsp),
        spans_ordered(nsp),
        forall|i: int, f: u64, l: Seq<u8>, t: u64|
            #![trigger nb.edges.contains(edge_key(f, l, t)), nsp[i]]
            0 <= i < m && l.len() == 16 && nb.edges.contains(edge_key(f, l, t)) && in_span(nsp[i], f) ==> b.edges.contains(
                edge_key(f, l, t),
            ),
    ensures
        forall|i: int, w: Word|
            #![trigger nls[i].contains(w)]
            #![trigger accepts(nb.edges, nb.stack[i].0, w, nb.stack[i].1)]
            0 <= i < m ==> (accepts(nb.edges, nb.stack[i].0, w, nb.stack[i].1) <==> nls[i].contains(w)),
{
    assert forall|i: int, w: Word| 0 <= i < m implies (accepts(nb.edges, nb.stack[i].0, w, nb.stack[i].1) <==> #[trigger] nls[i].contains(
        w,
    )) by {
        assert(nsp[i] == sp[i]);
        assert(nb.stack[i] == b.stack[i]);
        assert(nls[i] == ls[i]);
        assert forall|f: u64, l: Seq<u8>, t: u64|
            l.len() == 16 && nb.edges.contains(edge_key(f, l, t)) && in_span(nsp[i], f) implies b.edges.contains(
            edge_key(f, l, t),
        ) by {
            assert(nsp[i] == nsp[i]);
        }
        lemma_untouched(b.edges, nb.edges, nsp, i, nb.stack[i].0, w, nb.stack[i].1);
        assert(accepts(b.edges, b.stack[i].0, w, b.stack[i].1) <==> ls[i].contains(w));
    }
}

/// An attribute keeps the invariant.
proof fn lemma_step_attr(b: Build, ls: Seq<Set<Word>>, sp: Seq<(int, int)>, id: RawId)
    requires
        frag_inv(b, ls, sp),
        id@ != nil(),
        b.counter + 2 <= u64::MAX,
    ensures
        frag_inv(build_step(b, PathOp::Attr(id)), lang_step(ls, PathOp::Attr(id)), span_step(sp, PathOp::Attr(id), b.counter as int)),
{
    let op = PathOp::Attr(id);
    let nb = build_step(b, op);
    let nls = lang_step(ls, op);
    let nsp = span_step(sp, op, b.counter as int);
    let c = b.counter as u64;
    let e = (b.counter + 1) as u64;
    let key = edge_key(c, id@, e);
    let added = Set::<Seq<u8>>::empty().insert(key);
    let m = sp.len() as int;
    assert(nb.edges =~= b.edges + added);
    assert forall|f: u64, l: Seq<u8>, t: u64|
        l.len() == 16 && added.contains(edge_key(f, l, t)) implies in_span(nsp[m], f) && in_span(nsp[m], t) && f != nb.stack[m].1 by {
        lemma_edge_key_inj(f, l, t, c, id@, e);
    }
    assert forall|f: u64, l: Seq<u8>, t: u64, i: int|
        l.len() == 16 && added.contains(edge_key(f, l, t)) && 0 <= i < sp.len() && f == b.stack[i].1 implies m <= i by {
        lemma_edge_key_inj(f, l, t, c, id@, e);
        assert(in_span(sp[i], b.stack[i].1));
    }
    assert forall|l: Seq<u8>, t: u64| l.len() == 16 implies !b.edges.contains(#[trigger] edge_key(nb.stack[m].1, l, t)) by {
        lemma_fresh_state(b, ls, sp, e, l, t);
    }
    lemma_shape(b, ls, sp, nb, nsp, m, added);
    lemma_untouched_all(b, ls, sp, nb, nls, nsp, m);
    assert forall|w: Word| #![trigger nls[m].contains(w)] accepts(nb.edges, nb.stack[m].0, w, nb.stack[m].1) <==> nls[m].contains(w) by {
        lemma_attr_lang(b, ls, sp, id, w);
        assert(nb.edges == b.edges.insert(key));
    }
}

/// The steps `a..k` of a run are a run of `edges` when those steps are
/// transitions of `edges`; the word from `a` on is the word of `a..k` and
/// then the word from `k` on.
pub proof fn lemma_run_slice(edges: Set<Seq<u8>>, big: Set<Seq<u8>>, states: Seq<u64>, labels: Seq<Seq<u8>>, a: int, k: int)
    requires
        is_run(big, states, labels),
        0 <= a <= k <= labels.len(),
        forall|i: int| a <= i < k ==> edges.contains(#[trigger] step_key(states, labels, i)),
    ensures
        is_run(edges, states.subrange(a, k + 1), labels.subrange(a, k)),
        states.subrange(a, k + 1)[0] == states[a],
        states.subrange(a, k + 1).last() == states[k],
        word_of(labels.subrange(a, labels.len() as int)) == word_of(labels.subrange(a, k)) + word_of(
            labels.subrange(k, labels.len() as int),
        ),
{
    let ss = states.subrange(a, k + 1);
    let ls = labels.subrange(a, k);
    assert forall|i: int| 0 <= i < ls.len() implies (#[trigger] ls[i]).len() == 16 && edges.contains(edge_key(ss[i], ls[i], ss[i + 1])) by {
        assert(ls[i] == labels[a + i]);
        assert(edges.contains(step_key(states, labels, a + i)));
    }
    let rest = labels.subrange(a, labels.len() as int);
    assert(rest.subrange(0, k - a) =~= ls);
    assert(rest.subrange(k - a, rest.len() as int) =~= labels.subrange(k, labels.len() as int));
    assert(rest == rest.subrange(0, k - a) + rest.subrange(k - a, rest.len() as int));
    lemma_word_add(rest.subrange(0, k - a), rest.subrange(k - a, rest.len() as int));
}

/// A run of the old transitions and some `extra` ones that is in the span of
/// fragment `j` at step `a`, where no extra transition leaves that span
/// except from the fragment's accept state, keeps to the old transitions
/// and the span until it reaches the accept state; so if it ends outside
/// the span, it passes the accept state at some step `k` after a part
/// that spells a word of the fragment when it started at the fragment's
/// start.
pub proof fn lemma_leave_fragment(
    b: Build,
    ls: Seq<Set<Word>>,
    sp: Seq<(int, int)>,
    j: int,
    extra: Set<Seq<u8>>,
    states: Seq<u64>,
    labels: Seq<Seq<u8>>,
    a: int,
)
    requires
        frag_inv(b, ls, sp),
        0 <= j < sp.len(),
        is_run(b.edges + extra, states, labels),
        0 <= a < states.len(),
        in_span(sp[j], states[a]),
        !in_span(sp[j], states.last()),
        forall|f: u64, l: Seq<u8>, t: u64|
            #![trigger extra.contains(edge_key(f, l, t))]
            l.len() == 16 && extra.contains(edge_key(f, l, t)) && in_span(sp[j], f) ==> f == b.stack[j].1,
    ensures
        exists|k: int|
            #![trigger step_key(states, labels, k)]
            a <= k < labels.len() && states[k] == b.stack[j].1 && !b.edges.contains(step_key(states, labels, k)) && extra.contains(
                step_key(states, labels, k),
            ) && (forall|i: int| a <= i < k ==> b.edges.contains(#[trigger] step_key(states, labels, i))) && (states[a]
                == b.stack[j].0 ==> ls[j].contains(word_of(labels.subrange(a, k)))),
{
    let e = b.edges + extra;
    lemma_first_new(b.edges, states, labels, a);
    if forall|k: int| a <= k < labels.len() ==> b.edges.contains(#[trigger] step_key(states, labels, k)) {
        lemma_run_slice(b.edges, e, states, labels, a, labels.len() as int);
        let ss = states.subrange(a, labels.len() as int + 1);
        let ll = labels.subrange(a, labels.len() as int);
        lemma_confined(b.edges, sp, j, ss, ll, ss.len() - 1);
        assert(ss.last() == states.last());
    } else {
        let k = choose|k: int|
            a <= k < labels.len() && !b.edges.contains(#[trigger] step_key(states, labels, k)) && forall|i: int|
                a <= i < k ==> b.edges.contains(#[trigger] step_key(states, labels, i));
        lemma_run_slice(b.edges, e, states, labels, a, k);
        let ss = states.subrange(a, k + 1);
        let ll = labels.subrange(a, k);
        lemma_confined(b.edges, sp, j, ss, ll, ss.len() - 1);
        assert(in_span(sp[j], states[k]));
        assert(labels[k].len() == 16);
        assert(e.contains(step_key(states, labels, k)));
        assert(extra.contains(edge_key(states[k], labels[k], states[k + 1])));
        if states[a] == b.stack[j].0 {
            assert(is_run(b.edges, ss, ll));
            assert(accepts(b.edges, b.stack[j].0, word_of(ll), b.stack[j].1));
        }
    }
}

/// A run of the old transitions and some `extra` ones that is in the span of
/// fragment `j` at step `a`, where no extra transition leaves that span,
/// keeps to the old transitions and the span from there on.
pub proof fn lemma_stay_in_fragment(
    b: Build,
    ls: Seq<Set<Word>>,
    sp: Seq<(int, int)>,
    j: int,
    extra: Set<Seq<u8>>,
    states: Seq<u64>,
    labels: Seq<Seq<u8>>,
    a: int,
)
    requires
        frag_inv(b, ls, sp),
        0 <= j < sp.len(),
        is_run(b.edges + extra, states, labels),
        0 <= a < states.len(),
        in_span(sp[j], states[a]),
        forall|f: u64, l: Seq<u8>, t: u64|
            #![trigger extra.contains(edge_key(f, l, t))]
            l.len() == 16 && extra.contains(edge_key(f, l, t)) ==> !in_span(sp[j], f),
    ensures
        forall|i: int| a <= i < labels.len() ==> b.edges.contains(#[trigger] step_key(states, labels, i)),
        in_span(sp[j], states.last()),
{
    let e = b.edges + extra;
    lemma_first_new(b.edges, states, labels, a);
    if exists|k: int|
        a <= k < labels.len() && !b.edges.contains(#[trigger] step_key(states, labels, k)) && forall|i: int|
            a <= i < k ==> b.edges.contains(#[trigger] step_key(states, labels, i)) {
        let k = choose|k: int|
            a <= k < labels.len() && !b.edges.contains(#[trigger] step_key(states, labels, k)) && forall|i: int|
                a <= i < k ==> b.edges.contains(#[trigger] step_key(states, labels, i));
        lemma_run_slice(b.edges, e, states, labels, a, k);
        let ss = states.subrange(a, k + 1);
        let ll = labels.subrange(a, k);
        lemma_confined(b.edges, sp, j, ss, ll, ss.len() - 1);
        assert(labels[k].len() == 16);
        assert(e.contains(step_key(states, labels, k)));
        assert(extra.contains(edge_key(states[k], labels[k], states[k + 1])));
    }
    lemma_run_slice(b.edges, e, states, labels, a, labels.len() as int);
    let ss = states.subrange(a, labels.len() as int + 1);
    let ll = labels.subrange(a, labels.len() as int);
    lemma_confined(b.edges, sp, j, ss, ll, ss.len() - 1);
    assert(ss.last() == states.last());
}

/// Two fragments' spans do not overlap.
pub proof fn lemma_spans_apart(b: Build, ls: Seq<Set<Word>>, sp: Seq<(int, int)>, i: int, j: int, x: u64)
    requires
        frag_inv(b, ls, sp),
        0 <= i < sp.len(),
        0 <= j < sp.len(),
        i != j,
        in_span(sp[i], x),
    ensures
        !in_span(sp[j], x),
{
    if i < j {
        assert(sp[i].1 <= sp[j].0);
    } else {
        assert(sp[j].1 <= sp[i].0);
    }
}

/// The runs from the start of the first of two fragments to the accept
/// state of the second, once an epsilon move joins them, spell exactly
/// a word of the first followed by a word of the second.
proof fn lemma_concat_lang(b: Build, ls: Seq<Set<Word>>, sp: Seq<(int, int)>, w: Word)
    requires
        frag_inv(b, ls, sp),
        sp.len() >= 2,
    ensures
        ({
            let n = sp.len() as int;
            let x = b.stack[n - 2];
            let y = b.stack[n - 1];
            accepts(b.edges.insert(edge_key(x.1, nil(), y.0)), x.0, w, y.1) <==> concat_lang(ls[n - 2], ls[n - 1]).contains(w)
        }),
{
    let n = sp.len() as int;
    let x = b.stack[n - 2];
    let y = b.stack[n - 1];
    let key = edge_key(x.1, nil(), y.0);
    let extra = Set::<Seq<u8>>::empty().insert(key);
    let e = b.edges + extra;
    assert(b.edges.insert(key) =~= e);
    assert(in_span(sp[n - 2], x.0) && in_span(sp[n - 2], x.1) && in_span(sp[n - 1], y.0) && in_span(sp[n - 1], y.1));
    if accepts(e, x.0, w, y.1) {
        let (states, labels) = choose|states: Seq<u64>, labels: Seq<Seq<u8>>|
            #[trigger] is_run(e, states, labels) && states[0] == x.0 && states.last() == y.1 && word_of(labels) == w;
        lemma_spans_apart(b, ls, sp, n - 1, n - 2, y.1);
        assert forall|f: u64, l: Seq<u8>, t: u64|
            l.len() == 16 && extra.contains(edge_key(f, l, t)) && in_span(sp[n - 2], f) implies f == b.stack[n - 2].1 by {
            lemma_edge_key_inj(f, l, t, x.1, nil(), y.0);
        }
        lemma_leave_fragment(b, ls, sp, n - 2, extra, states, labels, 0);
        let k = choose|k: int|
            #![trigger step_key(states, labels, k)]
            0 <= k < labels.len() && states[k] == b.stack[n - 2].1 && !b.edges.contains(step_key(states, labels, k)) && extra.contains(
                step_key(states, labels, k),
            ) && (forall|i: int| 0 <= i < k ==> b.edges.contains(#[trigger] step_key(states, labels, i))) && (states[0]
                == b.stack[n - 2].0 ==> ls[n - 2].contains(word_of(labels.subrange(0, k))));
        assert(labels[k].len() == 16);
        lemma_edge_key_inj(states[k], labels[k], states[k + 1], x.1, nil(), y.0);
        assert forall|f: u64, l: Seq<u8>, t: u64|
            l.len() == 16 && extra.contains(edge_key(f, l, t)) implies !in_span(sp[n - 1], f) by {
            lemma_edge_key_inj(f, l, t, x.1, nil(), y.0);
            lemma_spans_apart(b, ls, sp, n - 2, n - 1, x.1);
        }
        lemma_stay_in_fragment(b, ls, sp, n - 1, extra, states, labels, k + 1);
        lemma_run_slice(b.edges, e, states, labels, k + 1, labels.len() as int);
        let s3 = states.subrange(k + 1, labels.len() as int + 1);
        let l3 = labels.subrange(k + 1, labels.len() as int);
        assert(s3.last() == states.last());
        assert(accepts(b.edges, y.0, word_of(l3), y.1));
        assert(ls[n - 1].contains(word_of(l3)));
        // the word splits at the epsilon move
        lemma_run_slice(e, e, states, labels, 0, k);
        lemma_run_slice(e, e, states, labels, k, k + 1);
        assert(labels.subrange(0, labels.len() as int) =~= labels);
        assert(labels.subrange(k, k + 1) =~= seq![nil()]);
        lemma_run_single(e, x.1, nil(), y.0);
        assert(word_of(labels.subrange(k, k + 1)) =~= Seq::<Seq<u8>>::empty());
        assert(word_of(labels.subrange(k + 1, labels.len() as int)) == word_of(l3));
        assert(w =~= word_of(labels.subrange(0, k)) + word_of(l3));
        assert(ls[n - 2].contains(word_of(labels.subrange(0, k))));
    }
    if concat_lang(ls[n - 2], ls[n - 1]).contains(w) {
        let (u, v) = choose|u: Word, v: Word| ls[n - 2].contains(u) && ls[n - 1].contains(v) && w == u + v;
        assert(accepts(b.edges, x.0, u, x.1));
        assert(accepts(b.edges, y.0, v, y.1));
        let (s1, l1) = choose|states: Seq<u64>, labels: Seq<Seq<u8>>|
            #[trigger] is_run(b.edges, states, labels) && states[0] == x.0 && states.last() == x.1 && word_of(labels) == u;
        let (s3, l3) = choose|states: Seq<u64>, labels: Seq<Seq<u8>>|
            #[trigger] is_run(b.edges, states, labels) && states[0] == y.0 && states.last() == y.1 && word_of(labels) == v;
        lemma_run_mono(b.edges, e, s1, l1);
        lemma_run_mono(b.edges, e, s3, l3);
        lemma_run_single(e, x.1, nil(), y.0);
        let s2 = seq![x.1, y.0];
        let l2 = seq![nil()];
        lemma_run_join(e, s1, l1, s2, l2);
        let s12 = s1 + s2.drop_first();
        let l12 = l1 + l2;
        lemma_run_join(e, s12, l12, s3, l3);
        assert(word_of(l2) =~= Seq::<Seq<u8>>::empty());
        assert(word_of(l12 + l3) =~= u + v);
        assert(is_run(e, s12 + s3.drop_first(), l12 + l3));
    }
}

/// Joining two fragments keeps the invariant.
proof fn lemma_step_concat(b: Build, ls: Seq<Set<Word>>, sp: Seq<(int, int)>)
    requires
        frag_inv(b, ls, sp),
        sp.len() >= 2,
    ensures
        frag_inv(build_step(b, PathOp::Concat), lang_step(ls, PathOp::Concat), span_step(sp, PathOp::Concat, b.counter as int)),
{
    let op = PathOp::Concat;
    let nb = build_step(b, op);
    let nls = lang_step(ls, op);
    let nsp = span_step(sp, op, b.counter as int);
    let n = sp.len() as int;
    let m = n - 2;
    let x = b.stack[n - 2];
    let y = b.stack[n - 1];
    let key = edge_key(x.1, nil(), y.0);
    let added = Set::<Seq<u8>>::empty().insert(key);
    assert(nb.edges =~= b.edges + added);
    assert(in_span(sp[n - 2], x.0) && in_span(sp[n - 2], x.1) && in_span(sp[n - 1], y.0) && in_span(sp[n - 1], y.1));
    assert(sp[n - 2].1 <= sp[n - 1].0);
    assert forall|i: int| 0 <= i < m implies #[trigger] nsp[i] == sp[i] && nb.stack[i] == b.stack[i] && nls[i] == ls[i] by {}
    assert forall|i: int| m <= i < sp.len() implies #[trigger] sp[i].1 <= nsp[m].1 by {}
    assert forall|f: u64, l: Seq<u8>, t: u64|
        l.len() == 16 && added.contains(edge_key(f, l, t)) implies in_span(nsp[m], f) && in_span(nsp[m], t) && f != nb.stack[m].1 by {
        lemma_edge_key_inj(f, l, t, x.1, nil(), y.0);
    }
    assert forall|f: u64, l: Seq<u8>, t: u64, i: int|
        l.len() == 16 && added.contains(edge_key(f, l, t)) && 0 <= i < sp.len() && f == b.stack[i].1 implies m <= i by {
        lemma_edge_key_inj(f, l, t, x.1, nil(), y.0);
        if i < m {
            assert(in_span(sp[i], b.stack[i].1));
            lemma_spans_apart(b, ls, sp, i, n - 2, f);
        }
    }
    assert forall|l: Seq<u8>, t: u64| l.len() == 16 implies !b.edges.contains(#[trigger] edge_key(nb.stack[m].1, l, t)) by {
        assert(nb.stack[m].1 == b.stack[n - 1].1);
    }
    lemma_shape(b, ls, sp, nb, nsp, m, added);
    lemma_untouched_all(b, ls, sp, nb, nls, nsp, m);
    assert forall|w: Word| #![trigger nls[m].contains(w)] accepts(nb.edges, nb.stack[m].0, w, nb.stack[m].1) <==> nls[m].contains(w) by {
        lemma_concat_lang(b, ls, sp, w);
    }
}

/// A run reaching a state without transitions ends there.
pub proof fn lemma_run_ends(edges: Set<Seq<u8>>, states: Seq<u64>, labels: Seq<Seq<u8>>, k: int)
    requires
        is_run(edges, states, labels),
        0 <= k < states.len(),
        forall|l: Seq<u8>, t: u64| l.len() == 16 ==> !edges.contains(#[trigger] edge_key(states[k], l, t)),
    ensures
        k == labels.len(),
{
    if k < labels.len() {
        assert(labels[k].len() == 16);
        assert(edges.contains(edge_key(states[k], labels[k], states[k + 1])));
    }
}

/// The word of the part from step `a` on of a run that is at the start of
/// fragment `j` at step `a` and leaves it from its accept state by an
/// epsilon move to `e`, where the run ends, is a word of the fragment.
proof fn lemma_through_fragment(
    b: Build,
    ls: Seq<Set<Word>>,
    sp: Seq<(int, int)>,
    j: int,
    added: Set<Seq<u8>>,
    states: Seq<u64>,
    labels: Seq<Seq<u8>>,
    a: int,
    e: u64,
)
    requires
        frag_inv(b, ls, sp),
        0 <= j < sp.len(),
        is_run(b.edges + added, states, labels),
        0 <= a < states.len(),
        states[a] == b.stack[j].0,
        states.last() == e,
        !in_span(sp[j], e),
        forall|f: u64, l: Seq<u8>, t: u64|
            #![trigger added.contains(edge_key(f, l, t))]
            l.len() == 16 && added.contains(edge_key(f, l, t)) && in_span(sp[j], f) ==> f == b.stack[j].1 && l == nil() && t
                == e,
        forall|l: Seq<u8>, t: u64| l.len() == 16 ==> !(b.edges + added).contains(#[trigger] edge_key(e, l, t)),
    ensures
        ls[j].contains(word_of(labels.subrange(a, labels.len() as int))),
{
    let ee = b.edges + added;
    assert(in_span(sp[j], b.stack[j].0));
    lemma_leave_fragment(b, ls, sp, j, added, states, labels, a);
    let k = choose|k: int|
        #![trigger step_key(states, labels, k)]
        a <= k < labels.len() && states[k] == b.stack[j].1 && !b.edges.contains(step_key(states, labels, k)) && added.contains(
            step_key(states, labels, k),
        ) && (forall|i: int| a <= i < k ==> b.edges.contains(#[trigger] step_key(states, labels, i))) && (states[a]
            == b.stack[j].0 ==> ls[j].contains(word_of(labels.subrange(a, k))));
    assert(labels[k].len() == 16);
    assert(in_span(sp[j], b.stack[j].1));
    assert(added.contains(edge_key(states[k], labels[k], states[k + 1])));
    assert(states[k + 1] == e && labels[k] == nil());
    lemma_run_ends(ee, states, labels, k + 1);
    lemma_run_slice(ee, ee, states, labels, a, k);
    lemma_run_slice(ee, ee, states, labels, k, k + 1);
    assert(labels.subrange(k, k + 1) =~= seq![nil()]);
    assert(labels.subrange(k + 1, labels.len() as int) =~= Seq::<Seq<u8>>::empty());
    lemma_run_single(ee, states[k], nil(), states[k + 1]);
    assert(word_of(seq![nil()]) =~= Seq::<Seq<u8>>::empty());
    assert(word_of(Seq::<Seq<u8>>::empty()) =~= Seq::<Seq<u8>>::empty());
    assert(word_of(labels.subrange(a, labels.len() as int)) =~= word_of(labels.subrange(a, k)));
}

/// The runs of the union of two fragments spell exactly the words of
/// either.
proof fn lemma_union_lang(b: Build, ls: Seq<Set<Word>>, sp: Seq<(int, int)>, w: Word)
    requires
        frag_inv(b, ls, sp),
        sp.len() >= 2,
        b.counter + 2 <= u64::MAX,
    ensures
        ({
            let n = sp.len() as int;
            let x = b.stack[n - 2];
            let y = b.stack[n - 1];
            let c = b.counter as u64;
            let e = (b.counter + 1) as u64;
            let ne = b.edges.insert(edge_key(c, nil(), x.0)).insert(edge_key(c, nil(), y.0)).insert(edge_key(x.1, nil(), e)).insert(
                edge_key(y.1, nil(), e),
            );
            accepts(ne, c, w, e) <==> ls[n - 2].union(ls[n - 1]).contains(w)
        }),
{
    let n = sp.len() as int;
    let x = b.stack[n - 2];
    let y = b.stack[n - 1];
    let c = b.counter as u64;
    let e = (b.counter + 1) as u64;
    let k1 = edge_key(c, nil(), x.0);
    let k2 = edge_key(c, nil(), y.0);
    let k3 = edge_key(x.1, nil(), e);
    let k4 = edge_key(y.1, nil(), e);
    let added = Set::<Seq<u8>>::empty().insert(k1).insert(k2).insert(k3).insert(k4);
    let ne = b.edges + added;
    assert(b.edges.insert(k1).insert(k2).insert(k3).insert(k4) =~= ne);
    assert(in_span(sp[n - 2], x.0) && in_span(sp[n - 2], x.1) && in_span(sp[n - 1], y.0) && in_span(sp[n - 1], y.1));
    assert(sp[n - 2].1 <= sp[n - 1].0);
    assert(sp[n - 1].1 <= b.counter);
    assert forall|l: Seq<u8>, t: u64| l.len() == 16 implies !ne.contains(#[trigger] edge_key(e, l, t)) by {
        lemma_fresh_state(b, ls, sp, e, l, t);
        if added.contains(edge_key(e, l, t)) {
            if edge_key(e, l, t) == k1 {
                lemma_edge_key_inj(e, l, t, c, nil(), x.0);
            } else if edge_key(e, l, t) == k2 {
                lemma_edge_key_inj(e, l, t, c, nil(), y.0);
            } else if edge_key(e, l, t) == k3 {
                lemma_edge_key_inj(e, l, t, x.1, nil(), e);
            } else {
                lemma_edge_key_inj(e, l, t, y.1, nil(), e);
            }
        }
    }
    if accepts(ne, c, w, e) {
        let (states, labels) = choose|states: Seq<u64>, labels: Seq<Seq<u8>>|
            #[trigger] is_run(ne, states, labels) && states[0] == c && states.last() == e && word_of(labels) == w;
        assert(labels.len() >= 1);
        assert(labels[0].len() == 16);
        assert(ne.contains(edge_key(c, labels[0], states[1])));
        lemma_fresh_state(b, ls, sp, c, labels[0], states[1]);
        let first = edge_key(c, labels[0], states[1]);
        if first == k3 {
            lemma_edge_key_inj(c, labels[0], states[1], x.1, nil(), e);
        } else if first == k4 {
            lemma_edge_key_inj(c, labels[0], states[1], y.1, nil(), e);
        }
        let j = if first == k1 {
            lemma_edge_key_inj(c, labels[0], states[1], c, nil(), x.0);
            n - 2
        } else {
            lemma_edge_key_inj(c, labels[0], states[1], c, nil(), y.0);
            n - 1
        };
        assert forall|f: u64, l: Seq<u8>, t: u64|
            l.len() == 16 && added.contains(edge_key(f, l, t)) && in_span(sp[j], f) implies f == b.stack[j].1 && l == nil() && t
                == e by {
            let kk = edge_key(f, l, t);
            if kk == k1 {
                lemma_edge_key_inj(f, l, t, c, nil(), x.0);
            } else if kk == k2 {
                lemma_edge_key_inj(f, l, t, c, nil(), y.0);
            } else if kk == k3 {
                lemma_edge_key_inj(f, l, t, x.1, nil(), e);
                if j == n - 1 {
                    lemma_spans_apart(b, ls, sp, n - 2, n - 1, x.1);
                }
            } else {
                lemma_edge_key_inj(f, l, t, y.1, nil(), e);
                if j == n - 2 {
                    lemma_spans_apart(b, ls, sp, n - 1, n - 2, y.1);
                }
            }
        }
        lemma_through_fragment(b, ls, sp, j, added, states, labels, 1, e);
        lemma_run_slice(ne, ne, states, labels, 0, 1);
        assert(labels.subrange(0, labels.len() as int) =~= labels);
        assert(labels.subrange(0, 1) =~= seq![nil()]);
        lemma_run_single(ne, c, nil(), states[1]);
        assert(word_of(labels) =~= word_of(labels.subrange(1, labels.len() as int)));
    }
    if ls[n - 2].union(ls[n - 1]).contains(w) {
        let j = if ls[n - 2].contains(w) {
            n - 2
        } else {
            n - 1
        };
        let z = b.stack[j];
        assert(accepts(b.edges, z.0, w, z.1));
        let (s2, l2) = choose|states: Seq<u64>, labels: Seq<Seq<u8>>|
            #[trigger] is_run(b.edges, states, labels) && states[0] == z.0 && states.last() == z.1 && word_of(labels) == w;
        lemma_run_mono(b.edges, ne, s2, l2);
        lemma_run_single(ne, c, nil(), z.0);
        lemma_run_single(ne, z.1, nil(), e);
        let s1 = seq![c, z.0];
        let l1 = seq![nil()];
        let s3 = seq![z.1, e];
        let l3 = seq![nil()];
        lemma_run_join(ne, s1, l1, s2, l2);
        lemma_run_join(ne, s1 + s2.drop_first(), l1 + l2, s3, l3);
        assert(word_of(l1) =~= Seq::<Seq<u8>>::empty());
        assert(word_of(l3) =~= Seq::<Seq<u8>>::empty());
        assert(word_of(l1 + l2 + l3) =~= w);
        assert(is_run(ne, s1 + s2.drop_first() + s3.drop_first(), l1 + l2 + l3));
    }
}

/// The union of two fragments keeps the invariant.
proof fn lemma_step_union(b: Build, ls: Seq<Set<Word>>, sp: Seq<(int, int)>)
    requires
        frag_inv(b, ls, sp),
        sp.len() >= 2,
        b.counter + 2 <= u64::MAX,
    ensures
        frag_inv(build_step(b, PathOp::Union), lang_step(ls, PathOp::Union), span_step(sp, PathOp::Union, b.counter as int)),
{
    let op = PathOp::Union;
    let nb = build_step(b, op);
    let nls = lang_step(ls, op);
    let nsp = span_step(sp, op, b.counter as int);
    let n = sp.len() as int;
    let m = n - 2;
    let x = b.stack[n - 2];
    let y = b.stack[n - 1];
    let c = b.counter as u64;
    let e = (b.counter + 1) as u64;
    let k1 = edge_key(c, nil(), x.0);
    let k2 = edge_key(c, nil(), y.0);
    let k3 = edge_key(x.1, nil(), e);
    let k4 = edge_key(y.1, nil(), e);
    let added = Set::<Seq<u8>>::empty().insert(k1).insert(k2).insert(k3).insert(k4);
    assert(nb.edges =~= b.edges + added);
    assert(in_span(sp[n - 2], x.0) && in_span(sp[n - 2], x.1) && in_span(sp[n - 1], y.0) && in_span(sp[n - 1], y.1));
    assert(sp[n - 2].1 <= sp[n - 1].0);
    assert(sp[n - 1].1 <= b.counter);
    assert forall|i: int| 0 <= i < m implies #[trigger] nsp[i] == sp[i] && nb.stack[i] == b.stack[i] && nls[i] == ls[i] by {}
    assert forall|i: int| m <= i < sp.len() implies #[trigger] sp[i].1 <= nsp[m].1 by {}
    assert forall|f: u64, l: Seq<u8>, t: u64|
        l.len() == 16 && added.contains(edge_key(f, l, t)) implies in_span(nsp[m], f) && in_span(nsp[m], t) && f != nb.stack[m].1 by {
        let kk = edge_key(f, l, t);
        if kk == k1 {
            lemma_edge_key_inj(f, l, t, c, nil(), x.0);
        } else if kk == k2 {
            lemma_edge_key_inj(f, l, t, c, nil(), y.0);
        } else if kk == k3 {
            lemma_edge_key_inj(f, l, t, x.1, nil(), e);
        } else {
            lemma_edge_key_inj(f, l, t, y.1, nil(), e);
        }
    }
    assert forall|f: u64, l: Seq<u8>, t: u64, i: int|
        l.len() == 16 && added.contains(edge_key(f, l, t)) && 0 <= i < sp.len() && f == b.stack[i].1 implies m <= i by {
        assert(in_span(sp[i], b.stack[i].1));
        let kk = edge_key(f, l, t);
        if kk == k1 {
            lemma_edge_key_inj(f, l, t, c, nil(), x.0);
        } else if kk == k2 {
            lemma_edge_key_inj(f, l, t, c, nil(), y.0);
        } else if kk == k3 {
            lemma_edge_key_inj(f, l, t, x.1, nil(), e);
            if i < m {
                lemma_spans_apart(b, ls, sp, i, n - 2, f);
            }
        } else {
            lemma_edge_key_inj(f, l, t, y.1, nil(), e);
            if i < m {
                lemma_spans_apart(b, ls, sp, i, n - 1, f);
            }
        }
    }
    assert forall|l: Seq<u8>, t: u64| l.len() == 16 implies !b.edges.contains(#[trigger] edge_key(nb.stack[m].1, l, t)) by {
        lemma_fresh_state(b, ls, sp, e, l, t);
    }
    lemma_shape(b, ls, sp, nb, nsp, m, added);
    lemma_untouched_all(b, ls, sp, nb, nls, nsp, m);
    assert forall|w: Word| #![trigger nls[m].contains(w)] accepts(nb.edges, nb.stack[m].0, w, nb.stack[m].1) <==> nls[m].contains(w) by {
        lemma_union_lang(b, ls, sp, w);
    }
}

/// Flattening a word followed by more words.
pub proof fn lemma_flatten_cons(u: Word, ws: Seq<Word>)
    ensures
        (seq![u] + ws).flatten() == u + ws.flatten(),
{
    let s = seq![u] + ws;
    assert(s.len() > 0);
    assert(s.first() == u);
    assert(s.drop_first() =~= ws);
}

/// The part from step `a` on of a run that is at the start of fragment `j`
/// at step `a`, may go back from the fragment's accept state to its start,
/// and ends by an epsilon move from the accept state to `e`, spells one or
/// more words of the fragment.
proof fn lemma_repeat_tail(
    b: Build,
    ls: Seq<Set<Word>>,
    sp: Seq<(int, int)>,
    j: int,
    added: Set<Seq<u8>>,
    states: Seq<u64>,
    labels: Seq<Seq<u8>>,
    a: int,
    e: u64,
)
    requires
        frag_inv(b, ls, sp),
        0 <= j < sp.len(),
        is_run(b.edges + added, states, labels),
        0 <= a < states.len(),
        states[a] == b.stack[j].0,
        states.last() == e,
        !in_span(sp[j], e),
        forall|f: u64, l: Seq<u8>, t: u64|
            #![trigger added.contains(edge_key(f, l, t))]
            l.len() == 16 && added.contains(edge_key(f, l, t)) && in_span(sp[j], f) ==> f == b.stack[j].1 && l == nil() && (t
                == e || t == b.stack[j].0),
        forall|l: Seq<u8>, t: u64| l.len() == 16 ==> !(b.edges + added).contains(#[trigger] edge_key(e, l, t)),
    ensures
        repeat_lang(ls[j], true).contains(word_of(labels.subrange(a, labels.len() as int))),
    decreases labels.len() - a,
{
    let ee = b.edges + added;
    assert(in_span(sp[j], b.stack[j].0));
    lemma_leave_fragment(b, ls, sp, j, added, states, labels, a);
    let k = choose|k: int|
        #![trigger step_key(states, labels, k)]
        a <= k < labels.len() && states[k] == b.stack[j].1 && !b.edges.contains(step_key(states, labels, k)) && added.contains(
            step_key(states, labels, k),
        ) && (forall|i: int| a <= i < k ==> b.edges.contains(#[trigger] step_key(states, labels, i))) && (states[a]
            == b.stack[j].0 ==> ls[j].contains(word_of(labels.subrange(a, k))));
    let u = word_of(labels.subrange(a, k));
    assert(labels[k].len() == 16);
    assert(in_span(sp[j], b.stack[j].1));
    assert(added.contains(edge_key(states[k], labels[k], states[k + 1])));
    assert(labels[k] == nil());
    lemma_run_slice(ee, ee, states, labels, a, k);
    lemma_run_slice(ee, ee, states, labels, k, k + 1);
    assert(labels.subrange(k, k + 1) =~= seq![nil()]);
    lemma_run_single(ee, states[k], nil(), states[k + 1]);
    assert(word_of(seq![nil()]) =~= Seq::<Seq<u8>>::empty());
    if states[k + 1] == e {
        lemma_run_ends(ee, states, labels, k + 1);
        assert(labels.subrange(k + 1, labels.len() as int) =~= Seq::<Seq<u8>>::empty());
        assert(word_of(Seq::<Seq<u8>>::empty()) =~= Seq::<Seq<u8>>::empty());
        assert(word_of(labels.subrange(a, labels.len() as int)) =~= u);
        let ws = seq![u];
        lemma_flatten_cons(u, Seq::<Word>::empty());
        assert(seq![u] + Seq::<Word>::empty() =~= ws);
        assert(Seq::<Word>::empty().flatten() =~= Seq::<Seq<u8>>::empty());
        assert(ws.flatten() =~= u);
        assert(forall|i: int| 0 <= i < ws.len() ==> ls[j].contains(#[trigger] ws[i]));
    } else {
        assert(states[k + 1] == b.stack[j].0);
        lemma_repeat_tail(b, ls, sp, j, added, states, labels, k + 1, e);
        let rest = word_of(labels.subrange(k + 1, labels.len() as int));
        let ws2 = choose|ws: Seq<Word>|
            (true ==> ws.len() > 0) && (forall|i: int| 0 <= i < ws.len() ==> ls[j].contains(#[trigger] ws[i])) && rest
                == ws.flatten();
        let ws = seq![u] + ws2;
        lemma_flatten_cons(u, ws2);
        lemma_run_slice(ee, ee, states, labels, k + 1, labels.len() as int);
        assert(word_of(labels.subrange(k, labels.len() as int)) == word_of(labels.subrange(k, k + 1)) + rest);
        assert(word_of(labels.subrange(a, labels.len() as int)) =~= ws.flatten());
        assert forall|i: int| 0 <= i < ws.len() implies ls[j].contains(#[trigger] ws[i]) by {
            if i > 0 {
                assert(ws[i] == ws2[i - 1]);
            }
        }
    }
}

/// One or more words of fragment `j` are spelled by a run from its start
/// that goes back from its accept state to its start between them and ends
/// by an epsilon move to `e`.
proof fn lemma_repeat_build(
    b: Build,
    ls: Seq<Set<Word>>,
    sp: Seq<(int, int)>,
    j: int,
    added: Set<Seq<u8>>,
    ws: Seq<Word>,
    e: u64,
)
    requires
        frag_inv(b, ls, sp),
        0 <= j < sp.len(),
        added.contains(edge_key(b.stack[j].1, nil(), b.stack[j].0)),
        added.contains(edge_key(b.stack[j].1, nil(), e)),
        ws.len() > 0,
        forall|i: int| 0 <= i < ws.len() ==> ls[j].contains(#[trigger] ws[i]),
    ensures
        accepts(b.edges + added, b.stack[j].0, ws.flatten(), e),
    decreases ws.len(),
{
    let ee = b.edges + added;
    let z = b.stack[j];
    assert(ls[j].contains(ws[0]));
    assert(accepts(b.edges, z.0, ws[0], z.1));
    let (s1, l1) = choose|states: Seq<u64>, labels: Seq<Seq<u8>>|
        #[trigger] is_run(b.edges, states, labels) && states[0] == z.0 && states.last() == z.1 && word_of(labels) == ws[0];
    lemma_run_mono(b.edges, ee, s1, l1);
    assert(seq![ws[0]] + ws.drop_first() =~= ws);
    lemma_flatten_cons(ws[0], ws.drop_first());
    assert(word_of(seq![nil()]) =~= Seq::<Seq<u8>>::empty()) by {
        lemma_run_single(ee, z.1, nil(), e);
    }
    if ws.len() == 1 {
        lemma_run_single(ee, z.1, nil(), e);
        let s2 = seq![z.1, e];
        let l2 = seq![nil()];
        lemma_run_join(ee, s1, l1, s2, l2);
        assert(ws.drop_first().flatten() =~= Seq::<Seq<u8>>::empty());
        assert(word_of(l1 + l2) =~= ws.flatten());
        assert(is_run(ee, s1 + s2.drop_first(), l1 + l2));
    } else {
        assert forall|i: int| 0 <= i < ws.drop_first().len() implies ls[j].contains(#[trigger] ws.drop_first()[i]) by {
            assert(ws.drop_first()[i] == ws[i + 1]);
        }
        lemma_repeat_build(b, ls, sp, j, added, ws.drop_first(), e);
        let (s3, l3) = choose|states: Seq<u64>, labels: Seq<Seq<u8>>|
            #[trigger] is_run(ee, states, labels) && states[0] == z.0 && states.last() == e && word_of(labels)
                == ws.drop_first().flatten();
        lemma_run_single(ee, z.1, nil(), z.0);
        let s2 = seq![z.1, z.0];
        let l2 = seq![nil()];
        lemma_run_join(ee, s1, l1, s2, l2);
        lemma_run_join(ee, s1 + s2.drop_first(), l1 + l2, s3, l3);
        assert(word_of(l1 + l2 + l3) =~= ws.flatten());
        assert(is_run(ee, s1 + s2.drop_first() + s3.drop_first(), l1 + l2 + l3));
    }
}

/// The transitions a star (or, without the move that skips the fragment,
/// a plus) adds around the top fragment.
pub open spec fn repeat_added(b: Build, star: bool) -> Set<Seq<u8>> {
    let z = b.stack[b.stack.len() - 1];
    let c = b.counter as u64;
    let e = (b.counter + 1) as u64;
    let base = Set::<Seq<u8>>::empty().insert(edge_key(c, nil(), z.0)).insert(edge_key(z.1, nil(), z.0)).insert(
        edge_key(z.1, nil(), e),
    );
    if star {
        base.insert(edge_key(c, nil(), e))
    } else {
        base
    }
}

/// The runs of a star (or a plus) of the top fragment spell exactly the
/// words made of its words, any number (at least one) of them.
proof fn lemma_repeat_lang(b: Build, ls: Seq<Set<Word>>, sp: Seq<(int, int)>, star: bool, w: Word)
    requires
        frag_inv(b, ls, sp),
        sp.len() >= 1,
        b.counter + 2 <= u64::MAX,
    ensures
        accepts(b.edges + repeat_added(b, star), b.counter as u64, w, (b.counter + 1) as u64) <==> repeat_lang(
            ls[sp.len() - 1],
            !star,
        ).contains(w),
{
    let n = sp.len() as int;
    let j = n - 1;
    let z = b.stack[j];
    let c = b.counter as u64;
    let e = (b.counter + 1) as u64;
    let added = repeat_added(b, star);
    let ee = b.edges + added;
    let ka = edge_key(c, nil(), z.0);
    let kb = edge_key(z.1, nil(), z.0);
    let kc = edge_key(z.1, nil(), e);
    let kd = edge_key(c, nil(), e);
    assert(in_span(sp[j], z.0) && in_span(sp[j], z.1));
    assert(sp[j].1 <= b.counter);
    assert forall|f: u64, l: Seq<u8>, t: u64|
        l.len() == 16 && added.contains(edge_key(f, l, t)) implies l == nil() && ((f == c && (t == z.0 || (star && t == e))) || (f
            == z.1 && (t == z.0 || t == e))) by {
        let kk = edge_key(f, l, t);
        if kk == ka {
            lemma_edge_key_inj(f, l, t, c, nil(), z.0);
        } else if kk == kb {
            lemma_edge_key_inj(f, l, t, z.1, nil(), z.0);
        } else if kk == kc {
            lemma_edge_key_inj(f, l, t, z.1, nil(), e);
        } else {
            lemma_edge_key_inj(f, l, t, c, nil(), e);
        }
    }
    assert forall|l: Seq<u8>, t: u64| l.len() == 16 implies !ee.contains(#[trigger] edge_key(e, l, t)) by {
        lemma_fresh_state(b, ls, sp, e, l, t);
        if added.contains(edge_key(e, l, t)) {
            assert(e != c && e != z.1);
        }
    }
    assert(word_of(seq![nil()]) =~= Seq::<Seq<u8>>::empty()) by {
        lemma_run_single(ee, c, nil(), z.0);
    }
    if accepts(ee, c, w, e) {
        let (states, labels) = choose|states: Seq<u64>, labels: Seq<Seq<u8>>|
            #[trigger] is_run(ee, states, labels) && states[0] == c && states.last() == e && word_of(labels) == w;
        assert(labels.len() >= 1);
        assert(labels[0].len() == 16);
        assert(ee.contains(edge_key(c, labels[0], states[1])));
        lemma_fresh_state(b, ls, sp, c, labels[0], states[1]);
        assert(added.contains(edge_key(c, labels[0], states[1])));
        lemma_run_slice(ee, ee, states, labels, 0, 1);
        assert(labels.subrange(0, labels.len() as int) =~= labels);
        assert(labels.subrange(0, 1) =~= seq![nil()]);
        assert(word_of(labels) =~= word_of(labels.subrange(1, labels.len() as int)));
        if states[1] == e {
            lemma_run_ends(ee, states, labels, 1);
            assert(labels.subrange(1, labels.len() as int) =~= Seq::<Seq<u8>>::empty());
            assert(word_of(Seq::<Seq<u8>>::empty()) =~= Seq::<Seq<u8>>::empty());
            let ws = Seq::<Word>::empty();
            assert(ws.flatten() =~= w);
        } else {
            assert(states[1] == z.0);
            lemma_repeat_tail(b, ls, sp, j, added, states, labels, 1, e);
        }
    }
    if repeat_lang(ls[j], !star).contains(w) {
        let ws = choose|ws: Seq<Word>|
            (!star ==> ws.len() > 0) && (forall|i: int| 0 <= i < ws.len() ==> ls[j].contains(#[trigger] ws[i])) && w
                == ws.flatten();
        if ws.len() == 0 {
            lemma_run_single(ee, c, nil(), e);
            assert(ws.flatten() =~= Seq::<Seq<u8>>::empty());
            assert(is_run(ee, seq![c, e], seq![nil()]));
        } else {
            lemma_repeat_build(b, ls, sp, j, added, ws, e);
            let (s2, l2) = choose|states: Seq<u64>, labels: Seq<Seq<u8>>|
                #[trigger] is_run(ee, states, labels) && states[0] == z.0 && states.last() == e && word_of(labels) == ws.flatten();
            lemma_run_single(ee, c, nil(), z.0);
            let s1 = seq![c, z.0];
            let l1 = seq![nil()];
            lemma_run_join(ee, s1, l1, s2, l2);
            assert(word_of(l1 + l2) =~= w);
            assert(is_run(ee, s1 + s2.drop_first(), l1 + l2));
        }
    }
}

/// A star (or a plus) of the top fragment keeps the invariant.
proof fn lemma_step_repeat(b: Build, ls: Seq<Set<Word>>, sp: Seq<(int, int)>, star: bool)
    requires
        frag_inv(b, ls, sp),
        sp.len() >= 1,
        b.counter + 2 <= u64::MAX,
    ensures
        ({
            let op = if star {
                PathOp::Star
            } else {
                PathOp::Plus
            };
            frag_inv(build_step(b, op), lang_step(ls, op), span_step(sp, op, b.counter as int))
        }),
{
    let op = if star {
        PathOp::Star
    } else {
        PathOp::Plus
    };
    let nb = build_step(b, op);
    let nls = lang_step(ls, op);
    let nsp = span_step(sp, op, b.counter as int);
    let n = sp.len() as int;
    let m = n - 1;
    let z = b.stack[n - 1];
    let c = b.counter as u64;
    let e = (b.counter + 1) as u64;
    let added = repeat_added(b, star);
    let ka = edge_key(c, nil(), z.0);
    let kb = edge_key(z.1, nil(), z.0);
    let kc = edge_key(z.1, nil(), e);
    let kd = edge_key(c, nil(), e);
    assert(nb.edges =~= b.edges + added);
    assert(in_span(sp[n - 1], z.0) && in_span(sp[n - 1], z.1));
    assert(sp[n - 1].1 <= b.counter);
    assert forall|i: int| 0 <= i < m implies #[trigger] nsp[i] == sp[i] && nb.stack[i] == b.stack[i] && nls[i] == ls[i] by {}
    assert forall|i: int| m <= i < sp.len() implies #[trigger] sp[i].1 <= nsp[m].1 by {}
    assert forall|f: u64, l: Seq<u8>, t: u64|
        l.len() == 16 && added.contains(edge_key(f, l, t)) implies in_span(nsp[m], f) && in_span(nsp[m], t) && f != nb.stack[m].1 by {
        let kk = edge_key(f, l, t);
        if kk == ka {
            lemma_edge_key_inj(f, l, t, c, nil(), z.0);
        } else if kk == kb {
            lemma_edge_key_inj(f, l, t, z.1, nil(), z.0);
        } else if kk == kc {
            lemma_edge_key_inj(f, l, t, z.1, nil(), e);
        } else {
            lemma_edge_key_inj(f, l, t, c, nil(), e);
        }
    }
    assert forall|f: u64, l: Seq<u8>, t: u64, i: int|
        l.len() == 16 && added.contains(edge_key(f, l, t)) && 0 <= i < sp.len() && f == b.stack[i].1 implies m <= i by {
        assert(in_span(sp[i], b.stack[i].1));
        let kk = edge_key(f, l, t);
        if kk == ka {
            lemma_edge_key_inj(f, l, t, c, nil(), z.0);
        } else if kk == kb {
            lemma_edge_key_inj(f, l, t, z.1, nil(), z.0);
            if i < m {
                lemma_spans_apart(b, ls, sp, i, n - 1, f);
            }
        } else if kk == kc {
            lemma_edge_key_inj(f, l, t, z.1, nil(), e);
            if i < m {
                lemma_spans_apart(b, ls, sp, i, n - 1, f);
            }
        } else {
            lemma_edge_key_inj(f, l, t, c, nil(), e);
        }
    }
    assert forall|l: Seq<u8>, t: u64| l.len() == 16 implies !b.edges.contains(#[trigger] edge_key(nb.stack[m].1, l, t)) by {
        lemma_fresh_state(b, ls, sp, e, l, t);
    }
    lemma_shape(b, ls, sp, nb, nsp, m, added);
    lemma_untouched_all(b, ls, sp, nb, nls, nsp, m);
    assert forall|w: Word| #![trigger nls[m].contains(w)] accepts(nb.edges, nb.stack[m].0, w, nb.stack[m].1) <==> nls[m].contains(w) by {
        lemma_repeat_lang(b, ls, sp, star, w);
    }
}

/// Every attribute of `ops` is other than the nil label (which marks
/// epsilon moves).
pub open spec fn no_nil_attr(ops: Seq<PathOp>) -> bool {
    forall|n: int| 0 <= n < ops.len() ==> (#[trigger] ops[n] matches PathOp::Attr(id) ==> id@ != nil())
}

/// Each operator numbers at most two new states.
pub proof fn lemma_counter_bound(ops: Seq<PathOp>)
    ensures
        build(ops).counter <= 2 * ops.len(),
    decreases ops.len(),
{
    if ops.len() > 0 {
        lemma_counter_bound(ops.drop_last());
    }
}

/// The invariant holds after every prefix of operators that never finds too
/// few fragments on the stack.
proof fn lemma_frag_inv_all(ops: Seq<PathOp>)
    requires
        forall|n: int| 0 <= n < ops.len() ==> #[trigger] build(ops.take(n)).stack.len() >= arity(ops[n]),
        no_nil_attr(ops),
        ops.len() < 0x1000_0000_0000_0000,
    ensures
        frag_inv(build(ops), langs(ops), spans(ops)),
    decreases ops.len(),
{
    if ops.len() == 0 {
        let b = build(ops);
        assert(edges_within(b.edges, spans(ops)));
    } else {
        let prev = ops.drop_last();
        let last = ops.last();
        assert forall|n: int| 0 <= n < prev.len() implies #[trigger] build(prev.take(n)).stack.len() >= arity(prev[n]) by {
            assert(prev.take(n) =~= ops.take(n));
            assert(build(ops.take(n)).stack.len() >= arity(ops[n]));
        }
        assert forall|n: int| 0 <= n < prev.len() implies (#[trigger] prev[n] matches PathOp::Attr(id) ==> id@ != nil()) by {
            assert(prev[n] == ops[n]);
        }
        lemma_frag_inv_all(prev);
        lemma_counter_bound(prev);
        let b = build(prev);
        assert(ops.take(ops.len() - 1) =~= prev);
        assert(b.stack.len() >= arity(ops[ops.len() - 1]));
        assert(last == ops[ops.len() - 1]);
        match last {
            PathOp::Attr(id) => {
                lemma_step_attr(b, langs(prev), spans(prev), id);
            },
            PathOp::Concat => {
                lemma_step_concat(b, langs(prev), spans(prev));
            },
            PathOp::Union => {
                lemma_step_union(b, langs(prev), spans(prev));
            },
            PathOp::Star => {
                lemma_step_repeat(b, langs(prev), spans(prev), true);
            },
            PathOp::Plus => {
                lemma_step_repeat(b, langs(prev), spans(prev), false);
            },
        }
    }
}

/// The automaton Thompson's construction builds for a well-formed path
/// expression whose attributes are not nil, read from its start to its
/// accept state, spells exactly the words of the expression.
pub proof fn lemma_automaton_language(ops: Seq<PathOp>, w: Word)
    requires
        crate::query::regularpathconstraint::well_formed(ops),
        no_nil_attr(ops),
        ops.len() < 0x1000_0000_0000_0000,
    ensures
        accepts(build(ops).edges, build(ops).stack.last().0, w, build(ops).stack.last().1) <==> path_language(ops).contains(w),
{
    lemma_frag_inv_all(ops);
    let i = build(ops).stack.len() - 1;
    assert(build(ops).stack.last() == build(ops).stack[i]);
    assert(langs(ops).last() == langs(ops)[i]);
}

/// A run all of whose labels are nil: a chain of epsilon moves.
pub open spec fn is_eps_run(edges: Set<Seq<u8>>, states: Seq<u64>, labels: Seq<Seq<u8>>) -> bool {
    &&& is_run(edges, states, labels)
    &&& forall|i: int| 0 <= i < labels.len() ==> #[trigger] labels[i] == nil()
}

/// The states a chain of epsilon moves leads to from `q0`.
pub open spec fn eps_reachable(edges: Set<Seq<u8>>, q0: u64) -> Set<u64> {
    Set::new(
        |q: u64|
            exists|states: Seq<u64>, labels: Seq<Seq<u8>>|
                #[trigger] is_eps_run(edges, states, labels) && states[0] == q0 && states.last() == q,
    )
}

/// A chain of epsilon moves spells the empty word.
pub proof fn lemma_eps_word(labels: Seq<Seq<u8>>)
    requires
        forall|i: int| 0 <= i < labels.len() ==> #[trigger] labels[i] == nil(),
    ensures
        word_of(labels) == Seq::<Seq<u8>>::empty(),
    decreases labels.len(),
{
    if labels.len() > 0 {
        lemma_eps_word(labels.drop_last());
        assert(labels.last() == labels[labels.len() - 1]);
        assert(word_of(labels) =~= word_of(labels.drop_last()));
    }
}

/// The epsilon closure of a state is the set of states chains of epsilon
/// moves lead to from it.
pub proof fn lemma_eps_closure_runs(edges: Set<Seq<u8>>, q0: u64, q: u64)
    ensures
        in_eps_closure(edges, set![q0], q) <==> eps_reachable(edges, q0).contains(q),
{
    let r = eps_reachable(edges, q0);
    assert(r.contains(q0)) by {
        assert(is_eps_run(edges, seq![q0], Seq::<Seq<u8>>::empty()));
    }
    assert(eps_closed(edges, r)) by {
        assert forall|x: u64, y: u64| r.contains(x) && edges.contains(edge_key(x, nil(), y)) implies r.contains(y) by {
            let (states, labels) = choose|states: Seq<u64>, labels: Seq<Seq<u8>>|
                #[trigger] is_eps_run(edges, states, labels) && states[0] == q0 && states.last() == x;
            lemma_run_single(edges, x, nil(), y);
            lemma_run_join(edges, states, labels, seq![x, y], seq![nil()]);
            let s2 = states + seq![x, y].drop_first();
            let l2 = labels + seq![nil()];
            assert forall|i: int| 0 <= i < l2.len() implies #[trigger] l2[i] == nil() by {
                if i < labels.len() {
                    assert(l2[i] == labels[i]);
                }
            }
            assert(is_eps_run(edges, s2, l2));
        }
    }
    assert(set![q0].subset_of(r));
    if r.contains(q) {
        let (states, labels) = choose|states: Seq<u64>, labels: Seq<Seq<u8>>|
            #[trigger] is_eps_run(edges, states, labels) && states[0] == q0 && states.last() == q;
        assert forall|t: Set<u64>| #[trigger] eps_closed(edges, t) && set![q0].subset_of(t) implies t.contains(q) by {
            lemma_eps_run_in(edges, t, states, labels, states.len() - 1);
        }
    }
}

/// A chain of epsilon moves that starts in a set closed under them stays in
/// it.
proof fn lemma_eps_run_in(edges: Set<Seq<u8>>, t: Set<u64>, states: Seq<u64>, labels: Seq<Seq<u8>>, k: int)
    requires
        is_eps_run(edges, states, labels),
        eps_closed(edges, t),
        t.contains(states[0]),
        0 <= k < states.len(),
    ensures
        t.contains(states[k]),
    decreases k,
{
    if k > 0 {
        lemma_eps_run_in(edges, t, states, labels, k - 1);
        assert(labels[k - 1] == nil());
        assert(edges.contains(edge_key(states[k - 1], labels[k - 1], states[k])));
    }
}

/// `nodes` and `attrs` are a walk through `graph`: each attribute labels an
/// edge from one node to the next.
pub open spec fn is_walk(graph: Set<Seq<u8>>, nodes: Seq<Seq<u8>>, attrs: Seq<Seq<u8>>) -> bool {
    &&& nodes.len() == attrs.len() + 1
    &&& forall|i: int| 0 <= i < attrs.len() ==> #[trigger] graph_edge(graph, nodes[i], attrs[i], nodes[i + 1])
}

/// Some walk from `from` to `to` through `graph` spells a word that the
/// automaton with transitions `trans` accepts from `start` to `accept`.
pub open spec fn walk_accepted(graph: Set<Seq<u8>>, trans: Set<Seq<u8>>, start: u64, accept: u64, from: Seq<u8>, to: Seq<u8>) -> bool {
    exists|nodes: Seq<Seq<u8>>, attrs: Seq<Seq<u8>>|
        #[trigger] is_walk(graph, nodes, attrs) && nodes[0] == from && nodes.last() == to && accepts(trans, start, attrs, accept)
}

/// No edge of the graph carries the nil label.
pub open spec fn no_nil_edges(graph: Set<Seq<u8>>) -> bool {
    forall|n: Seq<u8>, a: Seq<u8>, d: Seq<u8>| #[trigger] graph_edge(graph, n, a, d) ==> a != nil()
}

/// Some walk from `from` to `n` spells the word of some run of the
/// automaton from `start` to `q`.
pub open spec fn walk_run(graph: Set<Seq<u8>>, trans: Set<Seq<u8>>, start: u64, from: Seq<u8>, n: Seq<u8>, q: u64) -> bool {
    exists|nodes: Seq<Seq<u8>>, attrs: Seq<Seq<u8>>, states: Seq<u64>, labels: Seq<Seq<u8>>|
        #![trigger is_walk(graph, nodes, attrs), is_run(trans, states, labels)]
        is_walk(graph, nodes, attrs) && nodes[0] == from && nodes.last() == n && is_run(trans, states, labels) && states[0] == start
            && states.last() == q && word_of(labels) == attrs
}

/// A pair the product search reaches is the end of a walk and a run that
/// spell the same word.
proof fn lemma_reaches_sound(graph: Set<Seq<u8>>, trans: Set<Seq<u8>>, start: u64, accept: u64, from: Seq<u8>, to: Seq<u8>)
    requires
        no_nil_edges(graph),
        reaches(graph, trans, start, accept, from, to),
    ensures
        walk_accepted(graph, trans, start, accept, from, to),
{
    let pstar = Set::new(|p: (Seq<u8>, u64)| walk_run(graph, trans, start, from, p.0, p.1));
    assert(starts_from(trans, start, from, pstar)) by {
        assert forall|q: u64| #[trigger] in_eps_closure(trans, set![start], q) implies pstar.contains((from, q)) by {
            lemma_eps_closure_runs(trans, start, q);
            let (states, labels) = choose|states: Seq<u64>, labels: Seq<Seq<u8>>|
                #[trigger] is_eps_run(trans, states, labels) && states[0] == start && states.last() == q;
            lemma_eps_word(labels);
            assert(is_walk(graph, seq![from], Seq::<Seq<u8>>::empty()));
            assert(word_of(labels) =~= Seq::<Seq<u8>>::empty());
        }
    }
    assert(pairs_closed(graph, trans, pstar)) by {
        assert forall|n: Seq<u8>, q: u64, d: Seq<u8>, q2: u64|
            pstar.contains((n, q)) && pair_step(graph, trans, n, q, d, q2) implies pstar.contains((d, q2)) by {
            let (nodes, attrs, states, labels) = choose|nodes: Seq<Seq<u8>>, attrs: Seq<Seq<u8>>, states: Seq<u64>, labels: Seq<Seq<u8>>|
                #![trigger is_walk(graph, nodes, attrs), is_run(trans, states, labels)]
                is_walk(graph, nodes, attrs) && nodes[0] == from && nodes.last() == n && is_run(trans, states, labels) && states[0]
                    == start && states.last() == q && word_of(labels) == attrs;
            let (a, q1) = choose|a: Seq<u8>, q1: u64|
                #![trigger graph_edge(graph, n, a, d), trans.contains(edge_key(q, a, q1))]
                graph_edge(graph, n, a, d) && trans.contains(edge_key(q, a, q1)) && in_eps_closure(trans, set![q1], q2);
            lemma_eps_closure_runs(trans, q1, q2);
            let (es, el) = choose|states: Seq<u64>, labels: Seq<Seq<u8>>|
                #[trigger] is_eps_run(trans, states, labels) && states[0] == q1 && states.last() == q2;
            lemma_eps_word(el);
            // the walk, one edge longer
            let nodes2 = nodes.push(d);
            let attrs2 = attrs.push(a);
            assert(is_walk(graph, nodes2, attrs2)) by {
                assert forall|i: int| 0 <= i < attrs2.len() implies #[trigger] graph_edge(graph, nodes2[i], attrs2[i], nodes2[i + 1]) by {
                    if i < attrs.len() {
                        assert(graph_edge(graph, nodes[i], attrs[i], nodes[i + 1]));
                    } else {
                        assert(nodes2[i] == nodes.last());
                    }
                }
            }
            // the run, one transition and some epsilon moves longer
            lemma_run_single(trans, q, a, q1);
            lemma_run_join(trans, states, labels, seq![q, q1], seq![a]);
            let s1 = states + seq![q, q1].drop_first();
            let l1 = labels + seq![a];
            lemma_run_join(trans, s1, l1, es, el);
            let s2 = s1 + es.drop_first();
            let l2 = l1 + el;
            assert(a != nil());
            assert(word_of(l2) =~= attrs2);
            assert(is_walk(graph, nodes2, attrs2) && nodes2[0] == from && nodes2.last() == d && is_run(trans, s2, l2) && s2[0]
                == start && s2.last() == q2 && word_of(l2) == attrs2);
        }
    }
    assert(pstar.contains((to, accept)));
    let (nodes, attrs, states, labels) = choose|nodes: Seq<Seq<u8>>, attrs: Seq<Seq<u8>>, states: Seq<u64>, labels: Seq<Seq<u8>>|
        #![trigger is_walk(graph, nodes, attrs), is_run(trans, states, labels)]
        is_walk(graph, nodes, attrs) && nodes[0] == from && nodes.last() == to && is_run(trans, states, labels) && states[0] == start
            && states.last() == accept && word_of(labels) == attrs;
    assert(accepts(trans, start, attrs, accept));
}

/// The number of attributes the first `r` labels of a run spell.
pub open spec fn spelled(labels: Seq<Seq<u8>>, r: int) -> int {
    word_of(labels.subrange(0, r)).len() as int
}

/// Following a run of the automaton along a walk that spells its word, the
/// product search reaches, at each step `r` of the run, the node the walk
/// is at after the attributes spelled so far together with the run's
/// state; the state is reached by epsilon moves from the start, or from the
/// target of the transition that spelled the last attribute.
proof fn lemma_walk_anchor(
    graph: Set<Seq<u8>>,
    trans: Set<Seq<u8>>,
    start: u64,
    from: Seq<u8>,
    p: Set<(Seq<u8>, u64)>,
    nodes: Seq<Seq<u8>>,
    attrs: Seq<Seq<u8>>,
    states: Seq<u64>,
    labels: Seq<Seq<u8>>,
    r: int,
)
    requires
        starts_from(trans, start, from, p),
        pairs_closed(graph, trans, p),
        is_walk(graph, nodes, attrs),
        nodes[0] == from,
        is_run(trans, states, labels),
        states[0] == start,
        word_of(labels) == attrs,
        0 <= r < states.len(),
    ensures
        0 <= spelled(labels, r) <= attrs.len(),
        word_of(labels.subrange(0, r)) == attrs.subrange(0, spelled(labels, r)),
        p.contains((nodes[spelled(labels, r)], states[r])),
        spelled(labels, r) == 0 ==> in_eps_closure(trans, set![start], states[r]),
        spelled(labels, r) > 0 ==> exists|c: int|
            0 <= c < r && p.contains((nodes[spelled(labels, r) - 1], states[c])) && labels[c] == attrs[spelled(labels, r) - 1]
                && #[trigger] in_eps_closure(trans, set![states[c + 1]], states[r]),
    decreases r,
{
    let i = spelled(labels, r);
    lemma_run_split(trans, states, labels, r);
    assert(labels.subrange(r, labels.len() as int) == labels.subrange(r, labels.len() as int));
    assert(attrs =~= word_of(labels.subrange(0, r)) + word_of(labels.subrange(r, labels.len() as int)));
    assert(word_of(labels.subrange(0, r)) =~= attrs.subrange(0, i));
    if r == 0 {
        assert(labels.subrange(0, 0) =~= Seq::<Seq<u8>>::empty());
        assert(in_eps_closure(trans, set![start], states[0])) by {
            assert forall|t: Set<u64>| #[trigger] eps_closed(trans, t) && set![start].subset_of(t) implies t.contains(states[0]) by {
                assert(set![start].contains(start));
            }
        }
        assert(p.contains((from, states[0])));
    } else {
        lemma_walk_anchor(graph, trans, start, from, p, nodes, attrs, states, labels, r - 1);
        let i0 = spelled(labels, r - 1);
        let l = labels[r - 1];
        assert(labels.subrange(0, r).drop_last() =~= labels.subrange(0, r - 1));
        assert(labels.subrange(0, r).last() == l);
        assert(l.len() == 16);
        assert(trans.contains(edge_key(states[r - 1], l, states[r])));
        if l == nil() {
            assert(word_of(labels.subrange(0, r)) =~= word_of(labels.subrange(0, r - 1)));
            assert(i == i0);
            if i == 0 {
                assert forall|t: Set<u64>| #[trigger] eps_closed(trans, t) && set![start].subset_of(t) implies t.contains(states[r]) by {
                    assert(t.contains(states[r - 1]));
                }
                assert(in_eps_closure(trans, set![start], states[r]));
                assert(p.contains((from, states[r])));
            } else {
                let c = choose|c: int|
                    0 <= c < r - 1 && p.contains((nodes[i0 - 1], states[c])) && labels[c] == attrs[i0 - 1]
                        && #[trigger] in_eps_closure(trans, set![states[c + 1]], states[r - 1]);
                assert forall|t: Set<u64>| #[trigger] eps_closed(trans, t) && set![states[c + 1]].subset_of(t) implies t.contains(
                    states[r],
                ) by {
                    assert(t.contains(states[r - 1]));
                }
                assert(in_eps_closure(trans, set![states[c + 1]], states[r]));
                let k = i - 1;
                assert(graph_edge(graph, nodes[k], attrs[k], nodes[k + 1]));
                assert(k + 1 == i);
                assert(labels[c].len() == 16);
                assert(trans.contains(edge_key(states[c], labels[c], states[c + 1])));
                assert(pair_step(graph, trans, nodes[k], states[c], nodes[i], states[r]));
                assert(p.contains((nodes[i], states[r])));
            }
        } else {
            assert(word_of(labels.subrange(0, r)) =~= word_of(labels.subrange(0, r - 1)).push(l));
            assert(i == i0 + 1);
            assert(attrs[i0] == l) by {
                assert(word_of(labels.subrange(0, r))[i0] == l);
            }
            assert(in_eps_closure(trans, set![states[r]], states[r])) by {
                assert forall|t: Set<u64>| #[trigger] eps_closed(trans, t) && set![states[r]].subset_of(t) implies t.contains(states[r]) by {
                    assert(set![states[r]].contains(states[r]));
                }
            }
            assert(graph_edge(graph, nodes[i0], attrs[i0], nodes[i0 + 1]));
            assert(pair_step(graph, trans, nodes[i0], states[r - 1], nodes[i], states[r]));
            assert(p.contains((nodes[i], states[r])));
            assert(0 <= r - 1 < r && p.contains((nodes[i - 1], states[r - 1])) && labels[r - 1] == attrs[i - 1] && in_eps_closure(
                trans,
                set![states[(r - 1) + 1]],
                states[r],
            ));
        }
    }
}

/// A walk that spells a word the automaton accepts is found by the product
/// search.
proof fn lemma_reaches_complete(graph: Set<Seq<u8>>, trans: Set<Seq<u8>>, start: u64, accept: u64, from: Seq<u8>, to: Seq<u8>)
    requires
        walk_accepted(graph, trans, start, accept, from, to),
    ensures
        reaches(graph, trans, start, accept, from, to),
{
    let (nodes, attrs) = choose|nodes: Seq<Seq<u8>>, attrs: Seq<Seq<u8>>|
        #[trigger] is_walk(graph, nodes, attrs) && nodes[0] == from && nodes.last() == to && accepts(trans, start, attrs, accept);
    let (states, labels) = choose|states: Seq<u64>, labels: Seq<Seq<u8>>|
        #[trigger] is_run(trans, states, labels) && states[0] == start && states.last() == accept && word_of(labels) == attrs;
    assert forall|p: Set<(Seq<u8>, u64)>| #[trigger] pairs_closed(graph, trans, p) && starts_from(trans, start, from, p) implies p.contains(
        (to, accept),
    ) by {
        let r = states.len() - 1;
        lemma_walk_anchor(graph, trans, start, from, p, nodes, attrs, states, labels, r);
        assert(labels.subrange(0, r) =~= labels);
        assert(spelled(labels, r) == attrs.len());
    }
}

/// The product search relates `from` and `to` exactly when some walk from
/// `from` to `to` through a graph without nil labels spells a word that the
/// automaton accepts.
pub proof fn lemma_reaches_walks(graph: Set<Seq<u8>>, trans: Set<Seq<u8>>, start: u64, accept: u64, from: Seq<u8>, to: Seq<u8>)
    requires
        no_nil_edges(graph),
    ensures
        reaches(graph, trans, start, accept, from, to) <==> walk_accepted(graph, trans, start, accept, from, to),
{
    if reaches(graph, trans, start, accept, from, to) {
        lemma_reaches_sound(graph, trans, start, accept, from, to);
    }
    if walk_accepted(graph, trans, start, accept, from, to) {
        lemma_reaches_complete(graph, trans, start, accept, from, to);
    }
}

/// Some walk from `from` to `to` through `graph` spells a word of the path
/// expression `ops`.
pub open spec fn walk_in_language(graph: Set<Seq<u8>>, ops: Seq<PathOp>, from: Seq<u8>, to: Seq<u8>) -> bool {
    exists|nodes: Seq<Seq<u8>>, attrs: Seq<Seq<u8>>|
        #[trigger] is_walk(graph, nodes, attrs) && nodes[0] == from && nodes.last() == to && path_language(ops).contains(attrs)
}

/// Searching the graph together with the automaton of a path expression
/// relates `from` and `to` exactly when some walk between them spells a
/// word of the expression (for expressions and graphs without nil labels).
pub proof fn lemma_path_search_meaning(graph: Set<Seq<u8>>, ops: Seq<PathOp>, from: Seq<u8>, to: Seq<u8>)
    requires
        crate::query::regularpathconstraint::well_formed(ops),
        no_nil_attr(ops),
        ops.len() < 0x1000_0000_0000_0000,
        no_nil_edges(graph),
    ensures
        reaches(graph, build(ops).edges, build(ops).stack.last().0, build(ops).stack.last().1, from, to) <==> walk_in_language(
            graph,
            ops,
            from,
            to,
        ),
{
    let b = build(ops);
    let start = b.stack.last().0;
    let accept = b.stack.last().1;
    lemma_reaches_walks(graph, b.edges, start, accept, from, to);
    if walk_accepted(graph, b.edges, start, accept, from, to) {
        let (nodes, attrs) = choose|nodes: Seq<Seq<u8>>, attrs: Seq<Seq<u8>>|
            #[trigger] is_walk(graph, nodes, attrs) && nodes[0] == from && nodes.last() == to && accepts(b.edges, start, attrs, accept);
        lemma_automaton_language(ops, attrs);
    }
    if walk_in_language(graph, ops, from, to) {
        let (nodes, attrs) = choose|nodes: Seq<Seq<u8>>, attrs: Seq<Seq<u8>>|
            #[trigger] is_walk(graph, nodes, attrs) && nodes[0] == from && nodes.last() == to && path_language(ops).contains(attrs);
        lemma_automaton_language(ops, attrs);
    }
}

} // verus!
