pub mod hashtribleset;
pub mod id;
pub mod patch;
pub mod patchblobset;
pub mod pile;
pub mod query;
pub mod remote;
pub mod repo;
pub mod value;
