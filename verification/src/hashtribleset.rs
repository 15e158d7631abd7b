//! A set of tribles (entity, attribute, value) with an index for each
//! ordering and each pair of their parts, so that every lookup by some of
//! the parts is a prefix lookup.
use vstd::prelude::*;

use crate::patch::entry::Entry;
use crate::patch::{lemma_identity_tree_key, IdentitySchema, PATCH};

verus! {

/// A trible: a 16-byte entity, a 16-byte attribute and a 32-byte value.
pub type Trible = [u8; 64];

/// The kinds of index of a trible set, by the parts their keys are made of,
/// in key order.
pub open spec fn index_key(which: int, t: Seq<u8>) -> Seq<u8> {
    let e = t.subrange(0, 16);
    let a = t.subrange(16, 32);
    let v = t.subrange(32, 64);
    if which == 0 {
        e
    } else if which == 1 {
        a
    } else if which == 2 {
        v
    } else if which == 3 {
        e + a
    } else if which == 4 {
        e + v
    } else if which == 5 {
        a + e
    } else if which == 6 {
        a + v
    } else if which == 7 {
        v + e
    } else if which == 8 {
        v + a
    } else if which == 9 {
        e + v + a
    } else if which == 10 {
        a + v + e
    } else {
        t
    }
}

/// The keys of index `which` for the tribles `s`.
pub open spec fn index_of(s: Set<Seq<u8>>, which: int) -> Set<Seq<u8>> {
    s.map(|t: Seq<u8>| index_key(which, t))
}

/// Adding a trible adds its key to each index.
proof fn lemma_index_insert(s: Set<Seq<u8>>, which: int, t: Seq<u8>)
    ensures
        index_of(s.insert(t), which) == index_of(s, which).insert(index_key(which, t)),
{
    let f = |x: Seq<u8>| index_key(which, x);
    assert(index_of(s.insert(t), which) == s.insert(t).map(f));
    assert(index_of(s, which) == s.map(f));
    assert(s.insert(t).map(f) =~= s.map(f).insert(f(t))) by {
        assert forall|y: Seq<u8>| #[trigger] s.map(f).insert(f(t)).contains(y) implies s.insert(t).map(f).contains(y) by {
            if y == f(t) {
                assert(s.insert(t).contains(t));
            } else {
                let x = choose|x: Seq<u8>| s.contains(x) && f(x) == y;
                assert(s.insert(t).contains(x));
            }
        }
    }
}

/// An index has no more keys than there are tribles.
proof fn lemma_index_len(s: Set<Seq<u8>>, which: int)
    requires
        s.finite(),
    ensures
        index_of(s, which).finite(),
        index_of(s, which).len() <= s.len(),
{
    let f = |x: Seq<u8>| index_key(which, x);
    assert(index_of(s, which) == s.map(f));
    vstd::set_lib::lemma_map_size_bound(s, s.map(f), f);
}

/// Copies `len` bytes of `t` from `from` into `dst` at `at`.
fn copy_part<const N: usize>(dst: &mut [u8; N], at: usize, t: &Trible, from: usize, len: usize)
    requires
        at + len <= N,
        from + len <= 64,
    ensures
        final(dst)@ == old(dst)@.subrange(0, at as int) + t@.subrange(from as int, from + len) + old(dst)@.subrange(
            at + len,
            N as int,
        ),
{
    let ghost d0 = dst@;
    let mut i: usize = 0;
    while i < len
        invariant
            i <= len,
            at + len <= N,
            from + len <= 64,
            dst@.len() == N,
            forall|j: int| 0 <= j < at ==> dst@[j] == d0[j],
            forall|j: int| at <= j < at + i ==> dst@[j] == t@[from + j - at],
            forall|j: int| at + i <= j < N ==> dst@[j] == d0[j],
        decreases len - i,
    {
        dst[at + i] = t[from + i];
        i = i + 1;
    }
    assert(dst@ =~= d0.subrange(0, at as int) + t@.subrange(from as int, from + len) + d0.subrange(at + len, N as int));
}

/// The key of a trible in a 16-byte index: one part.
fn key16(t: &Trible, which: usize) -> (r: [u8; 16])
    requires
        which <= 1,
    ensures
        r@ == index_key(which as int, t@),
{
    let mut k = [0u8; 16];
    copy_part(&mut k, 0, t, 16 * which, 16);
    assert(k@ =~= index_key(which as int, t@));
    k
}

/// The key of a trible in a 32-byte index: the value, or entity and
/// attribute in either order.
fn key32(t: &Trible, which: usize) -> (r: [u8; 32])
    requires
        which == 2 || which == 3 || which == 5,
    ensures
        r@ == index_key(which as int, t@),
{
    let mut k = [0u8; 32];
    if which == 2 {
        copy_part(&mut k, 0, t, 32, 32);
    } else if which == 3 {
        copy_part(&mut k, 0, t, 0, 16);
        copy_part(&mut k, 16, t, 16, 16);
    } else {
        copy_part(&mut k, 0, t, 16, 16);
        copy_part(&mut k, 16, t, 0, 16);
    }
    assert(k@ =~= index_key(which as int, t@));
    k
}

/// The key of a trible in a 48-byte index: an id part and the value, in
/// either order.
fn key48(t: &Trible, which: usize) -> (r: [u8; 48])
    requires
        which == 4 || which == 6 || which == 7 || which == 8,
    ensures
        r@ == index_key(which as int, t@),
{
    let mut k = [0u8; 48];
    if which == 4 {
        copy_part(&mut k, 0, t, 0, 16);
        copy_part(&mut k, 16, t, 32, 32);
    } else if which == 6 {
        copy_part(&mut k, 0, t, 16, 16);
        copy_part(&mut k, 16, t, 32, 32);
    } else if which == 7 {
        copy_part(&mut k, 0, t, 32, 32);
        copy_part(&mut k, 32, t, 0, 16);
    } else {
        copy_part(&mut k, 0, t, 32, 32);
        copy_part(&mut k, 32, t, 16, 16);
    }
    assert(k@ =~= index_key(which as int, t@));
    k
}

/// The key of a trible in a 64-byte index: all three parts.
fn key64(t: &Trible, which: usize) -> (r: [u8; 64])
    requires
        9 <= which <= 11,
    ensures
        r@ == index_key(which as int, t@),
{
    let mut k = [0u8; 64];
    if which == 9 {
        copy_part(&mut k, 0, t, 0, 16);
        copy_part(&mut k, 16, t, 32, 32);
        copy_part(&mut k, 48, t, 16, 16);
    } else if which == 10 {
        copy_part(&mut k, 0, t, 16, 16);
        copy_part(&mut k, 16, t, 32, 32);
        copy_part(&mut k, 48, t, 0, 16);
    } else {
        copy_part(&mut k, 0, t, 0, 64);
    }
    assert(k@ =~= index_key(which as int, t@));
    k
}

/// Adds `k` to the set `p`.
fn add_key<const N: usize>(p: &mut PATCH<N, IdentitySchema, ()>, k: &[u8; N])
    requires
        old(p)@.len() < u64::MAX,
    ensures
        final(p)@.dom() == old(p)@.dom().insert(k@),
        final(p)@.dom().finite(),
{
    proof {
        lemma_identity_tree_key::<N>(k@);
    }
    p.insert(Entry::new(k));
    assert(p@.dom() =~= old(p)@.dom().insert(k@));
}

/// A set of tribles, indexed by every part, every pair of parts and every
/// ordering that puts a different part last.
pub struct HashTribleSet {
    e: PATCH<16, IdentitySchema, ()>,
    a: PATCH<16, IdentitySchema, ()>,
    v: PATCH<32, IdentitySchema, ()>,
    ea: PATCH<32, IdentitySchema, ()>,
    ev: PATCH<48, IdentitySchema, ()>,
    ae: PATCH<32, IdentitySchema, ()>,
    av: PATCH<48, IdentitySchema, ()>,
    ve: PATCH<48, IdentitySchema, ()>,
    va: PATCH<48, IdentitySchema, ()>,
    eva: PATCH<64, IdentitySchema, ()>,
    ave: PATCH<64, IdentitySchema, ()>,
    all: PATCH<64, IdentitySchema, ()>,
}

impl HashTribleSet {
    /// Every index holds the keys of exactly the tribles of the set, and the
    /// set is small enough to count.
    #[verifier::type_invariant]
    spec fn inv(&self) -> bool {
        let s = self.all@.dom();
        &&& s.finite()
        &&& s.len() <= usize::MAX
        &&& self.e@.dom() == index_of(s, 0)
        &&& self.a@.dom() == index_of(s, 1)
        &&& self.v@.dom() == index_of(s, 2)
        &&& self.ea@.dom() == index_of(s, 3)
        &&& self.ev@.dom() == index_of(s, 4)
        &&& self.ae@.dom() == index_of(s, 5)
        &&& self.av@.dom() == index_of(s, 6)
        &&& self.ve@.dom() == index_of(s, 7)
        &&& self.va@.dom() == index_of(s, 8)
        &&& self.eva@.dom() == index_of(s, 9)
        &&& self.ave@.dom() == index_of(s, 10)
    }

    /// The tribles of the set, as byte sequences.
    pub closed spec fn spec_tribles(&self) -> Set<Seq<u8>> {
        self.all@.dom()
    }

    /// The keys of index `which` (see `index_key`).
    pub closed spec fn spec_index(&self, which: int) -> Set<Seq<u8>> {
        index_of(self.all@.dom(), which)
    }

    /// An empty set.
    pub fn new() -> (r: Self)
        ensures
            r.spec_tribles() == Set::<Seq<u8>>::empty(),
            r.spec_tribles().finite(),
    {
        let e: PATCH<16, IdentitySchema, ()> = PATCH::new();
        let a: PATCH<16, IdentitySchema, ()> = PATCH::new();
        let v: PATCH<32, IdentitySchema, ()> = PATCH::new();
        let ea: PATCH<32, IdentitySchema, ()> = PATCH::new();
        let ev: PATCH<48, IdentitySchema, ()> = PATCH::new();
        let ae: PATCH<32, IdentitySchema, ()> = PATCH::new();
        let av: PATCH<48, IdentitySchema, ()> = PATCH::new();
        let ve: PATCH<48, IdentitySchema, ()> = PATCH::new();
        let va: PATCH<48, IdentitySchema, ()> = PATCH::new();
        let eva: PATCH<64, IdentitySchema, ()> = PATCH::new();
        let ave: PATCH<64, IdentitySchema, ()> = PATCH::new();
        let all: PATCH<64, IdentitySchema, ()> = PATCH::new();
        proof {
            let s = Set::<Seq<u8>>::empty();
            assert(all@.dom() =~= s);
            assert forall|w: int| #[trigger] index_of(s, w) =~= Set::<Seq<u8>>::empty() by {}
            assert(e@.dom() =~= index_of(s, 0));
            assert(a@.dom() =~= index_of(s, 1));
            assert(v@.dom() =~= index_of(s, 2));
            assert(ea@.dom() =~= index_of(s, 3));
            assert(ev@.dom() =~= index_of(s, 4));
            assert(ae@.dom() =~= index_of(s, 5));
            assert(av@.dom() =~= index_of(s, 6));
            assert(ve@.dom() =~= index_of(s, 7));
            assert(va@.dom() =~= index_of(s, 8));
            assert(eva@.dom() =~= index_of(s, 9));
            assert(ave@.dom() =~= index_of(s, 10));
        }
        let r = HashTribleSet { e, a, v, ea, ev, ae, av, ve, va, eva, ave, all };
        r
    }

    /// The number of tribles.
    pub fn len(&self) -> (r: usize)
        ensures
            r == self.spec_tribles().len(),
            self.spec_tribles().finite(),
    {
        proof {
            use_type_invariant(self);
        }
        self.all.len() as usize
    }

    /// Adds `trible` to the set and to every index.
    pub fn add(&mut self, trible: &Trible)
        requires
            old(self).spec_tribles().len() < usize::MAX,
        ensures
            final(self).spec_tribles() == old(self).spec_tribles().insert(trible@),
            final(self).spec_tribles().finite(),
    {
        proof {
            use_type_invariant(&*self);
        }
        let ghost s = self.all@.dom();
        let ghost s0 = self.spec_tribles();
        let ghost t = trible@;
        proof {
            assert forall|w: int| #[trigger] index_of(s, w).len() <= s.len() by {
                lemma_index_len(s, w);
            }
            assert forall|w: int| #[trigger] index_of(s.insert(t), w) == index_of(s, w).insert(index_key(w, t)) by {
                lemma_index_insert(s, w, t);
            }
            assert(self.all@.len() == s.len());
        }
        let mut this = HashTribleSet::new();
        std::mem::swap(&mut this, self);
        proof {
            use_type_invariant(&this);
        }
        let HashTribleSet { mut e, mut a, mut v, mut ea, mut ev, mut ae, mut av, mut ve, mut va, mut eva, mut ave, mut all } = this;
        proof {
            assert(e@.len() == index_of(s, 0).len());
            assert(a@.len() == index_of(s, 1).len());
            assert(v@.len() == index_of(s, 2).len());
            assert(ea@.len() == index_of(s, 3).len());
            assert(ev@.len() == index_of(s, 4).len());
            assert(ae@.len() == index_of(s, 5).len());
            assert(av@.len() == index_of(s, 6).len());
            assert(ve@.len() == index_of(s, 7).len());
            assert(va@.len() == index_of(s, 8).len());
            assert(eva@.len() == index_of(s, 9).len());
            assert(ave@.len() == index_of(s, 10).len());
        }
        add_key(&mut e, &key16(trible, 0));
        add_key(&mut a, &key16(trible, 1));
        add_key(&mut v, &key32(trible, 2));
        add_key(&mut ea, &key32(trible, 3));
        add_key(&mut ev, &key48(trible, 4));
        add_key(&mut ae, &key32(trible, 5));
        add_key(&mut av, &key48(trible, 6));
        add_key(&mut ve, &key48(trible, 7));
        add_key(&mut va, &key48(trible, 8));
        add_key(&mut eva, &key64(trible, 9));
        add_key(&mut ave, &key64(trible, 10));
        add_key(&mut all, trible);
        proof {
            assert(index_key(11, t) == t);
            lemma_index_len(s.insert(t), 0);
        }
        *self = HashTribleSet { e, a, v, ea, ev, ae, av, ve, va, eva, ave, all };
    }
}

} // verus!
