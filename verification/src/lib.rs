//! Ordering policy for the sibling entries of a directory-tree listing.

pub mod cli;
pub mod entry;
pub mod laws;
pub mod name;
pub mod order;
pub mod sort;
