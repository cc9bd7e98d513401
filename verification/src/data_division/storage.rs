//! Where a data item is stored.
use vstd::prelude::*;

verus! {

/// The section of the data division that holds an item.
#[derive(Debug, Clone, Copy, PartialEq, Eq, Structural)]
pub enum StorageClass {
    WorkingStorage,
    LocalStorage,
    Linkage,
    FileSection,
}

} // verus!
