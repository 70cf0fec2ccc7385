//! The host region that the allocator manages.
use vstd::prelude::*;

verus! {

/// The size of one host page in bytes.
pub const PAGE_BYTES: u32 = 65536;

/// The host memory, measured and grown in pages, as one contiguous region.
pub trait HostHeap {
    /// The region's size in pages.
    fn memory_size(&mut self) -> usize;

    /// Grows the region by `delta_pages` pages. Returns the size in pages
    /// before the grow, or `usize::MAX` on failure.
    fn memory_grow(&mut self, delta_pages: usize) -> usize;

    /// The address of the region's first byte, stable once the region has
    /// been grown.
    fn base_ptr(&mut self) -> usize;
}

} // verus!
