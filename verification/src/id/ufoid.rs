//! Unique Fast Ordered IDs: the low 32 bits of a millisecond timestamp,
//! big-endian, followed by twelve random bytes, so that ids minted close in
//! time share a prefix.
use vstd::prelude::*;

use crate::id::fucid::random_bytes;
use crate::id::RawId;

verus! {

/// The four big-endian bytes of `t`.
pub open spec fn be32(t: u32) -> Seq<u8> {
    seq![(t >> 24u32) as u8, (t >> 16u32) as u8, (t >> 8u32) as u8, t as u8]
}

/// An id minted at `now_in_ms` milliseconds since the Unix epoch: the low
/// 32 bits of the timestamp, big-endian, then the last twelve bytes of
/// `random`.
pub fn ufoid_from(now_in_ms: u128, random: [u8; 16]) -> (r: RawId)
    ensures
        r@ == be32(now_in_ms as u32) + random@.subrange(4, 16),
{
    let t = now_in_ms as u32;
    let mut id = [0u8; 16];
    id[0] = (t >> 24u32) as u8;
    id[1] = (t >> 16u32) as u8;
    id[2] = (t >> 8u32) as u8;
    id[3] = t as u8;
    let mut i: usize = 4;
    while i < 16
        invariant
            4 <= i <= 16,
            id@.subrange(0, 4) == be32(t),
            forall|j: int| 4 <= j < i ==> id@[j] == random@[j],
        decreases 16 - i,
    {
        let ghost before = id@;
        id[i] = random[i];
        proof {
            assert(id@.subrange(0, 4) =~= before.subrange(0, 4));
        }
        i = i + 1;
    }
    proof {
        let want = be32(now_in_ms as u32) + random@.subrange(4, 16);
        assert forall|j: int| 0 <= j < 4 implies id@[j] == want[j] by {
            assert(id@.subrange(0, 4)[j] == be32(t)[j]);
        }
        assert(id@ =~= want);
    }
    id
}

/// An id minted at `now_in_ms` milliseconds since the Unix epoch: the low
/// 32 bits of the timestamp, big-endian, then twelve random bytes.
pub fn ufoid_at(now_in_ms: u128) -> (r: RawId)
    ensures
        r@.subrange(0, 4) == be32(now_in_ms as u32),
{
    let random = random_bytes();
    let r = ufoid_from(now_in_ms, random);
    proof {
        assert(r@.subrange(0, 4) =~= be32(now_in_ms as u32));
    }
    r
}

} // verus!
