use vstd::prelude::*;

pub mod backing;
pub mod store;
pub mod codec;
pub mod map;
pub mod topic;

verus! {

/// Fixed upper bound, in bytes, on the encoded form of one topic record.
/// Records are stored in fixed-maximum-size slots of the durable map, so
/// every encoding must stay within this bound.
pub const MAX_RECORD_SIZE: u64 = 5000;

} // verus!
