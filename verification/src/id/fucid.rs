//! Fast Unsafe Compressable IDs: a random salt combined with a counter, so
//! that the ids of one generator differ only in their low bits.
use vstd::prelude::*;

use crate::id::{FreshId, RawId};

verus! {

/// `256` to the power `n`.
pub open spec fn pow256(n: nat) -> nat
    decreases n,
{
    if n == 0 {
        1
    } else {
        256 * pow256((n - 1) as nat)
    }
}

/// The number whose big-endian bytes are `bytes`.
pub open spec fn be_value(bytes: Seq<u8>) -> nat
    decreases bytes.len(),
{
    if bytes.len() == 0 {
        0
    } else {
        (be_value(bytes.drop_last()) * 256 + bytes.last()) as nat
    }
}

/// The sixteen big-endian bytes of `x`.
pub open spec fn be_bytes(x: u128) -> Seq<u8> {
    Seq::new(16, |i: int| ((x >> (8 * (15 - i)) as u128) & 0xffu128) as u8)
}

/// Draws sixteen random bytes from the thread's generator.
#[verifier::external_body]
pub(crate) fn random_bytes() -> (r: [u8; 16]) {
    let mut rng = rand::thread_rng();
    let mut bytes = [0u8; 16];
    rand::RngCore::fill_bytes(&mut rng, &mut bytes);
    bytes
}

/// A generator of ids: the `n`-th id is the counter `n` xor the salt.
pub struct FUCIDgen {
    salt: u128,
    counter: u128,
}

impl FUCIDgen {
    /// The salt of the generator.
    pub closed spec fn spec_salt(&self) -> u128 {
        self.salt
    }

    /// The number of ids handed out so far.
    pub closed spec fn spec_counter(&self) -> u128 {
        self.counter
    }

    /// The ids handed out so far: those of the counts below the counter.
    pub closed spec fn spec_issued(&self) -> Set<Seq<u8>> {
        Set::new(|x: Seq<u8>| exists|c: u128| c < self.counter && x == be_bytes(c ^ self.salt))
    }

    /// A generator with a random salt.
    pub fn new() -> (r: Self)
        ensures
            r.spec_counter() == 0,
            r.spec_issued() == Set::<Seq<u8>>::empty(),
    {
        Self::new_salted(random_bytes())
    }

    /// A generator whose salt has the big-endian bytes `salt`.
    pub fn new_salted(salt: [u8; 16]) -> (r: Self)
        ensures
            r.spec_salt() == be_value(salt@),
            r.spec_counter() == 0,
            r.spec_issued() == Set::<Seq<u8>>::empty(),
    {
        let mut x: u128 = 0;
        let mut i: usize = 0;
        while i < 16
            invariant
                i <= 16,
                x == be_value(salt@.subrange(0, i as int)),
                x < pow256(i as nat),
            decreases 16 - i,
        {
            proof {
                assert(salt@.subrange(0, i + 1).drop_last() =~= salt@.subrange(0, i as int));
                reveal_with_fuel(pow256, 17);
                assert(pow256(15) * 256 == 0x1_0000_0000_0000_0000_0000_0000_0000_0000);
                assert(pow256(i as nat) <= pow256(15)) by {
                    lemma_pow256_mono(i as nat, 15);
                }
                assert(x * 256 + salt@[i as int] < pow256(i as nat) * 256) by (nonlinear_arith)
                    requires
                        x < pow256(i as nat),
                        salt@[i as int] < 256,
                ;
            }
            x = x * 256 + salt[i] as u128;
            i = i + 1;
        }
        proof {
            assert(salt@.subrange(0, 16) =~= salt@);
        }
        let r = FUCIDgen { salt: x, counter: 0 };
        proof {
            assert(r.spec_issued() =~= Set::<Seq<u8>>::empty());
        }
        r
    }

    /// The next id: the big-endian bytes of the counter xor the salt. The
    /// counter then moves on by one.
    pub fn next(&mut self) -> (r: FreshId)
        requires
            old(self).spec_counter() < u128::MAX,
        ensures
            r.raw@ == be_bytes(old(self).spec_counter() ^ old(self).spec_salt()),
            final(self).spec_salt() == old(self).spec_salt(),
            final(self).spec_counter() == old(self).spec_counter() + 1,
            !old(self).spec_issued().contains(r.raw@),
            final(self).spec_issued() == old(self).spec_issued().insert(r.raw@),
    {
        let next_id = self.counter ^ self.salt;
        self.counter = self.counter + 1;
        let mut raw: RawId = [0u8; 16];
        let mut i: usize = 0;
        while i < 16
            invariant
                i <= 16,
                forall|j: int| 0 <= j < i ==> raw@[j] == be_bytes(next_id)[j],
            decreases 16 - i,
        {
            let shift: u32 = (8 * (15 - i)) as u32;
            raw[i] = ((next_id >> shift) & 0xffu128) as u8;
            i = i + 1;
        }
        proof {
            assert(raw@ =~= be_bytes(next_id));
            let c0 = old(self).counter;
            let s = self.salt;
            if old(self).spec_issued().contains(raw@) {
                let c = choose|c: u128| c < c0 && raw@ == be_bytes(c ^ s);
                lemma_fucid_distinct(s, c, c0);
            }
            assert(self.spec_issued() =~= old(self).spec_issued().insert(raw@)) by {
                assert forall|x: Seq<u8>| #[trigger] self.spec_issued().contains(x) implies old(self).spec_issued().insert(raw@).contains(x) by {
                    let c = choose|c: u128| c < self.counter && x == be_bytes(c ^ s);
                    if c < c0 {
                        assert(old(self).spec_issued().contains(x));
                    }
                }
                assert forall|x: Seq<u8>| #[trigger] old(self).spec_issued().insert(raw@).contains(x) implies self.spec_issued().contains(x) by {
                    if x == raw@ {
                        assert(c0 < self.counter && x == be_bytes(c0 ^ s));
                    } else {
                        let c = choose|c: u128| c < c0 && x == be_bytes(c ^ s);
                        assert(c < self.counter);
                    }
                }
            }
        }
        FreshId { raw }
    }
}

proof fn lemma_pow256_mono(a: nat, b: nat)
    requires
        a <= b,
    ensures
        pow256(a) <= pow256(b),
    decreases b,
{
    if a < b {
        lemma_pow256_mono(a, (b - 1) as nat);
    }
}

/// The low byte of `x` shifted right by `sh` is the byte the narrowing
/// cast gives.
proof fn lemma_byte_eq(x: u128, y: u128, sh: u128)
    by (bit_vector)
    requires
        sh < 128,
        ((x >> sh) & 0xffu128) as u8 == ((y >> sh) & 0xffu128) as u8,
    ensures
        (x >> sh) & 0xffu128 == (y >> sh) & 0xffu128,
{
}

/// A generator never hands out the same id twice: the ids handed out at
/// different counts differ.
pub proof fn lemma_fucid_distinct(salt: u128, c1: u128, c2: u128)
    requires
        c1 != c2,
    ensures
        be_bytes(c1 ^ salt) != be_bytes(c2 ^ salt),
{
    let x = c1 ^ salt;
    let y = c2 ^ salt;
    assert(x != y) by (bit_vector)
        requires
            c1 != c2,
            x == c1 ^ salt,
            y == c2 ^ salt,
    ;
    if be_bytes(x) == be_bytes(y) {
        assert(be_bytes(x)[0] == be_bytes(y)[0]);
        lemma_byte_eq(x, y, 120u128);
        assert(be_bytes(x)[1] == be_bytes(y)[1]);
        lemma_byte_eq(x, y, 112u128);
        assert(be_bytes(x)[2] == be_bytes(y)[2]);
        lemma_byte_eq(x, y, 104u128);
        assert(be_bytes(x)[3] == be_bytes(y)[3]);
        lemma_byte_eq(x, y, 96u128);
        assert(be_bytes(x)[4] == be_bytes(y)[4]);
        lemma_byte_eq(x, y, 88u128);
        assert(be_bytes(x)[5] == be_bytes(y)[5]);
        lemma_byte_eq(x, y, 80u128);
        assert(be_bytes(x)[6] == be_bytes(y)[6]);
        lemma_byte_eq(x, y, 72u128);
        assert(be_bytes(x)[7] == be_bytes(y)[7]);
        lemma_byte_eq(x, y, 64u128);
        assert(be_bytes(x)[8] == be_bytes(y)[8]);
        lemma_byte_eq(x, y, 56u128);
        assert(be_bytes(x)[9] == be_bytes(y)[9]);
        lemma_byte_eq(x, y, 48u128);
        assert(be_bytes(x)[10] == be_bytes(y)[10]);
        lemma_byte_eq(x, y, 40u128);
        assert(be_bytes(x)[11] == be_bytes(y)[11]);
        lemma_byte_eq(x, y, 32u128);
        assert(be_bytes(x)[12] == be_bytes(y)[12]);
        lemma_byte_eq(x, y, 24u128);
        assert(be_bytes(x)[13] == be_bytes(y)[13]);
        lemma_byte_eq(x, y, 16u128);
        assert(be_bytes(x)[14] == be_bytes(y)[14]);
        lemma_byte_eq(x, y, 8u128);
        assert(be_bytes(x)[15] == be_bytes(y)[15]);
        lemma_byte_eq(x, y, 0u128);
        assert(x == y) by (bit_vector)
            requires
                (x >> 120u128) & 0xffu128 == (y >> 120u128) & 0xffu128,
                (x >> 112u128) & 0xffu128 == (y >> 112u128) & 0xffu128,
                (x >> 104u128) & 0xffu128 == (y >> 104u128) & 0xffu128,
                (x >> 96u128) & 0xffu128 == (y >> 96u128) & 0xffu128,
                (x >> 88u128) & 0xffu128 == (y >> 88u128) & 0xffu128,
                (x >> 80u128) & 0xffu128 == (y >> 80u128) & 0xffu128,
                (x >> 72u128) & 0xffu128 == (y >> 72u128) & 0xffu128,
                (x >> 64u128) & 0xffu128 == (y >> 64u128) & 0xffu128,
                (x >> 56u128) & 0xffu128 == (y >> 56u128) & 0xffu128,
                (x >> 48u128) & 0xffu128 == (y >> 48u128) & 0xffu128,
                (x >> 40u128) & 0xffu128 == (y >> 40u128) & 0xffu128,
                (x >> 32u128) & 0xffu128 == (y >> 32u128) & 0xffu128,
                (x >> 24u128) & 0xffu128 == (y >> 24u128) & 0xffu128,
                (x >> 16u128) & 0xffu128 == (y >> 16u128) & 0xffu128,
                (x >> 8u128) & 0xffu128 == (y >> 8u128) & 0xffu128,
                (x >> 0u128) & 0xffu128 == (y >> 0u128) & 0xffu128,
        ;
    }
}

/// A fresh id from a generator with a random salt.
pub fn fucid() -> (r: FreshId) {
    let mut generator = FUCIDgen::new();
    generator.next()
}

} // verus!
