//! Remote heads: branch heads kept in an object store, moved by
//! compare-and-swap.
pub mod head;
