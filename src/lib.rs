use vstd::prelude::*;

pub mod error;
pub mod layout;
pub mod array_cache;
pub mod slab;
pub mod frame;
pub mod cache_node;
pub mod mem_cache;
pub mod system;
pub mod laws;

pub use crate::array_cache::{ArrayCache, PER_CPU_OBJECTS};
pub use crate::cache_node::{CacheNode, FREE_LIST_MAX};
pub use crate::error::SlabError;
pub use crate::frame::{FrameLedger, FrameSource};
pub use crate::layout::LayoutMode;
pub use crate::mem_cache::{MemCache, SlabInfo, CPUS};
pub use crate::slab::{Slab, SlabState};
pub use crate::system::{
    CACHE_NAME_MAX, CacheEntry, SlabSystem, init_slab_system, mem_cache_init,
};

verus! {

} // verus!
