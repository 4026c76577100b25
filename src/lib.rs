//! A string interner that stores each distinct string once and hands out
//! one-word handles to it, with reference counting and reclamation of
//! strings that no handle refers to any more.
//!
//! A [`Pool`] is split into shards by [`selector::get_shard`]; each shard
//! maps content to the slot of the atom that holds it. [`intern`] hands out a
//! [`Symbol`] and counts it; [`Symbol::release`] gives it back, and the last
//! release of a string removes it from the pool.

use vstd::prelude::*;

pub mod laws;
pub mod pool;
pub mod selector;
pub mod shard;

pub use pool::{capacity, intern, shrink_to_fit, size, Pool, Symbol};

verus! {

} // verus!
