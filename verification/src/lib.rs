//! A persistent, log-structured key/value store.
//!
//! The store keeps an append-only log of mutation records together with an
//! in-memory index that maps each live key to the location of its most
//! recent `Put` record. Obsolete records are reclaimed by compaction.

pub mod client;
pub mod error;
pub mod index;
pub mod kv_store;
pub mod laws;
pub mod location;
pub mod log;
pub mod logpointer;
pub mod protocol;
pub mod server;
pub mod record;
pub mod text;
pub mod utils;
pub mod wait_group;

use vstd::prelude::*;

verus! {

/// Maximum number of records written into one compacted passive file.
pub const RECORDS_IN_COMPACTED: usize = 100;

} // verus!
