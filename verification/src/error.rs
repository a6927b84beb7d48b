//! Why an operation of the storage side failed.

use vstd::prelude::*;

verus! {

/// An error of the compaction side.
#[derive(Debug, Clone, Copy, PartialEq, Eq, Structural)]
pub enum HummockError {
    /// The table store holds no table with this id.
    SstableNotFound(u64),
    /// The tables of this level are marked as disjoint and ordered, and are not.
    NonConcatLevel(u32),
    /// A bound of the key range is not empty and is no encoded full key.
    InvalidKeyRange,
}

pub type HummockResult<T> = Result<T, HummockError>;

} // verus!
