pub mod glob;
pub mod store;
pub mod sweep;
pub mod coordinator;
pub mod report;
pub mod laws;

use vstd::prelude::*;

verus! {

/// Upper bound on the number of scan pages a single sweep will consume.
pub const MAX_ITERATIONS: u64 = 100000;

} // verus!
