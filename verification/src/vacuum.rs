//! Statistics of a maintenance pass over the on-disk store: the cache is
//! rebuilt from the logs and space is reclaimed. The pass itself is file
//! work done by the program around the library.

use vstd::prelude::*;

verus! {

/// What a maintenance pass observed.
#[derive(Debug)]
pub struct VacuumResult {
    /// Cache size before, in bytes.
    pub size_before: u64,
    /// Cache size after, in bytes.
    pub size_after: u64,
    /// How many items the store holds.
    pub item_count: usize,
    /// How many live edges the store holds.
    pub edge_count: usize,
}

} // verus!
