//! Batches of writes as the layers hand them down.

use vstd::prelude::*;

verus! {

/// A batch of deletions and insertions on distinct keys, applied as a whole.
#[derive(Debug, Clone, PartialEq, Eq, Default)]
pub struct SimpleUnorderedBatch {
    /// The keys to delete.
    pub deletions: Vec<Vec<u8>>,
    /// The key-value pairs to insert.
    pub insertions: Vec<(Vec<u8>, Vec<u8>)>,
}

} // verus!
