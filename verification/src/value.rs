//! Values: fixed-size 32-byte strings, the unit of data a query binds.
use vstd::prelude::*;

verus! {

/// The number of bytes of a value.
pub const VALUE_LEN: usize = 32;

/// The bytes of a value.
pub type RawValue = [u8; 32];

/// Whether two values hold the same bytes.
pub fn value_eq(a: &RawValue, b: &RawValue) -> (r: bool)
    ensures
        r == (*a == *b),
{
    let mut i: usize = 0;
    while i < 32
        invariant
            i <= 32,
            forall|j: int| 0 <= j < i ==> a[j] == b[j],
        decreases 32 - i,
    {
        if a[i] != b[i] {
            return false;
        }
        i = i + 1;
    }
    proof {
        assert(*a =~= *b);
    }
    true
}

} // verus!
