use vstd::prelude::*;

verus! {

/// Conditions reported by the slab system; none of them poisons a cache.
#[derive(Debug, Clone, Copy, PartialEq, Eq, Structural)]
pub enum SlabError {
    /// The frame source had no frames for a new slab.
    CantAllocFrame,
    /// A live cache already carries the requested name.
    NameDuplicate,
    /// The address is not an object that this cache handed out.
    NotInCache,
    /// No array cache could be obtained for a new cache.
    ArrayCacheAllocError,
    /// The request exceeds the largest size the system can lay out.
    SizeTooLarge,
    /// The cache name is longer than the allowed maximum.
    NameTooLong,
}

} // verus!
