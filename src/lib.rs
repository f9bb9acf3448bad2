//! An embedded, file-backed record store with segment files, a write buffer
//! and time-to-live eviction.
use vstd::prelude::*;

pub mod codec;
pub mod error;
pub mod store;
pub mod ttl;

verus! {

/// Largest number of records that one segment file holds.
pub const MAX_ENTRIES_PER_FILE: usize = 10000;

} // verus!
