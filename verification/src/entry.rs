//! The filesystem item that the ordering policy reads.

use vstd::prelude::*;

verus! {

/// One filesystem item as the ordering policy sees it.
#[derive(Clone, Debug, PartialEq, Eq)]
pub struct Entry {
    /// Display name.
    pub name: String,
    /// Whether the item is a directory.
    pub is_directory: bool,
    /// Byte count, absent when unknown or not applicable.
    pub size: Option<u64>,
}

impl Entry {
    /// The size that size-based ordering goes by: the byte count, or zero
    /// when there is none.
    pub open spec fn effective_size(self) -> nat {
        match self.size {
            Some(bytes) => bytes as nat,
            None => 0,
        }
    }
}

} // verus!
