//! Random Number Generated IDs: 128 bits from a cryptographic random
//! source, with as much entropy as an id can hold and no locality at all.
use vstd::prelude::*;

use crate::id::fucid::random_bytes;
use crate::id::{FreshId, RawId};

verus! {

/// Sixteen random bytes.
pub fn genid() -> (r: RawId) {
    random_bytes()
}

/// A fresh id made of sixteen random bytes. That they are all zero, the
/// nil id, has probability 2^-128 and is not checked.
pub fn rngid() -> (r: FreshId) {
    FreshId::new(random_bytes())
}

} // verus!
