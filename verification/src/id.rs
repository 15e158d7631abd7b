//! Identifiers: 128-bit persistent identifiers for entities, and their
//! embedding into 32-byte values (sixteen zero bytes followed by the id).
pub mod fucid;
pub mod rngid;
pub mod ufoid;

use vstd::prelude::*;

use crate::value::RawValue;

verus! {

/// The number of bytes of an id.
pub const ID_LEN: usize = 16;

/// The bytes of an id.
pub type RawId = [u8; 16];

/// An id that was freshly minted and is owned by whoever holds it.
#[derive(Debug, Copy, Clone, PartialEq, Eq)]
pub struct FreshId {
    pub raw: RawId,
}

impl FreshId {
    /// Claims `id` as fresh. The caller vouches that nobody else holds it.
    pub fn new(id: RawId) -> (r: Self)
        ensures
            r.raw == id,
    {
        FreshId { raw: id }
    }
}

/// The value holding an id: sixteen zero bytes, then the id.
pub open spec fn spec_id_value(id: Seq<u8>) -> Seq<u8> {
    Seq::new(16, |i: int| 0u8) + id
}

/// The value holding `id`: sixteen zero bytes, then the id.
pub fn id_into_value(id: &RawId) -> (r: RawValue)
    ensures
        r@ == spec_id_value(id@),
{
    let mut data = [0u8; 32];
    let mut i: usize = 0;
    while i < 16
        invariant
            i <= 16,
            forall|j: int| 0 <= j < 16 ==> data@[j] == 0,
            forall|j: int| 16 <= j < 16 + i ==> data@[j] == id@[j - 16],
        decreases 16 - i,
    {
        data[16 + i] = id[i];
        i = i + 1;
    }
    proof {
        assert(data@ =~= spec_id_value(id@));
    }
    data
}

/// The id held by a value, or `None` when its first sixteen bytes are not
/// all zero.
pub fn id_from_value(value: &RawValue) -> (r: Option<RawId>)
    ensures
        r is None <==> exists|i: int| 0 <= i < 16 && value@[i] != 0,
        r matches Some(id) ==> value@ == spec_id_value(id@),
{
    let mut i: usize = 0;
    while i < 16
        invariant
            i <= 16,
            forall|j: int| 0 <= j < i ==> value@[j] == 0,
        decreases 16 - i,
    {
        if value[i] != 0 {
            return None;
        }
        i = i + 1;
    }
    let mut id = [0u8; 16];
    let mut j: usize = 0;
    while j < 16
        invariant
            j <= 16,
            forall|x: int| 0 <= x < 16 ==> value@[x] == 0,
            forall|x: int| 0 <= x < j ==> id@[x] == value@[16 + x],
        decreases 16 - j,
    {
        id[j] = value[16 + j];
        j = j + 1;
    }
    proof {
        assert(value@ =~= spec_id_value(id@));
    }
    Some(id)
}

} // verus!
