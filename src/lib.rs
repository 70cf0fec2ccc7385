//! A size-class memory allocator for a single linear memory region.
//!
//! The managed region starts at a host base address. Its first bytes are
//! reserved for the meta page; the rest is cut into 2,048-byte minipages,
//! each of which serves one power-of-two size class, or into runs of
//! minipages that serve one big allocation each.
use vstd::prelude::*;

pub mod addr;
pub mod engine;
pub mod heap;
pub mod laws;
pub mod minipage;
pub mod size_class;
pub mod stack;

verus! {

/// The number of host memory pages reserved for all allocations.
pub const MAX_HOST_PAGES: usize = 200;

/// Number of bytes which can be allocated from one minipage.
pub const MINI_PAGE_ALLOC_BYTES: u32 = 2048;

/// Number of bytes in a minipage's occupancy bitmap.
pub const MINI_PAGE_FREE_SEGMENTS_SIZE: usize = 257;

/// The smallest size class exponent.
pub const MIN_SIZE_CLASS: u8 = 3;

/// The largest size class exponent served from minipages.
pub const MAX_SIZE_CLASS: u8 = 11;

/// The number of size classes.
pub const NUM_SIZE_CLASSES: usize = 9;

/// Bytes of the region, from its base, that hold the meta page.
pub const META_PAGE_BYTES: u32 = 2048;

/// Bytes of the whole managed region: `MAX_HOST_PAGES` host pages.
pub const REGION_BYTES: u32 = 13107200;

/// Bytes that can be handed out: the region without the meta page.
pub const ALLOC_AREA_BYTES: u32 = 13105152;

/// The number of minipage slots after the meta page.
pub const MAX_MINI_PAGES: u32 = 6399;

/// Bytes of the header placed in front of each big allocation.
pub const BIG_ALLOC_HEADER_BYTES: u32 = 16;

} // verus!
