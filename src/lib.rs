//! Cooperative allocation of disjoint port ranges between processes that
//! share a state directory.
//!
//! The library holds the allocation table (reserved ranges with their lease
//! expiry and a scan cursor), its numeric encoding for persistence, and the
//! decisions of the allocation search. Locking, file access and bind probes
//! are left to the caller, which feeds their outcomes back into the search.

use vstd::prelude::*;

pub mod laws;
pub mod search;
pub mod table;

verus! {

/// Lowest port of the managed window.
pub const LOW: u16 = 10000;

/// Highest port of the managed window.
pub const HIGH: u16 = 32000;

/// Lease granted to a new reservation, in seconds.
pub const ALLOCATION_TIME_SECS: u64 = 120;

} // verus!
