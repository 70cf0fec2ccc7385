//! Address arithmetic: offsets from the start of the allocation area, the
//! minipage that holds an offset, and the segment of a size class that holds
//! it.
use vstd::arithmetic::power2::pow2;
use vstd::prelude::*;

use crate::size_class::{lemma_class_facts, segments_per_minipage, SizeClass};
use crate::{BIG_ALLOC_HEADER_BYTES, MAX_SIZE_CLASS, MIN_SIZE_CLASS, MINI_PAGE_ALLOC_BYTES};

verus! {

/// An offset from the first byte after the meta page.
#[derive(Copy, Clone, Debug, PartialEq, Eq, Structural)]
pub struct AllocAddr {
    /// The offset in bytes.
    pub addr: u32,
}

impl AllocAddr {
    /// The address at offset `addr`.
    pub fn new(addr: u32) -> (r: AllocAddr)
        ensures
            r.addr == addr,
    {
        AllocAddr { addr }
    }

    /// The address at offset `u`.
    pub fn from_usize(u: usize) -> (r: AllocAddr)
        requires
            u <= u32::MAX,
        ensures
            r.addr == u,
    {
        AllocAddr { addr: u as u32 }
    }

    /// The offset of the address `addr_ptr` from `base_ptr`.
    pub fn from_ptr(base_ptr: usize, addr_ptr: usize) -> (r: AllocAddr)
        requires
            base_ptr <= addr_ptr,
            addr_ptr - base_ptr <= u32::MAX,
        ensures
            r.addr == addr_ptr - base_ptr,
    {
        AllocAddr { addr: (addr_ptr - base_ptr) as u32 }
    }

    /// The address at this offset from `base_ptr`.
    pub fn as_ptr(self, base_ptr: usize) -> (r: usize)
        requires
            base_ptr + self.addr <= usize::MAX,
        ensures
            r == base_ptr + self.addr,
    {
        base_ptr + self.addr as usize
    }

    /// The minipage that holds this address.
    pub fn get_page_meta(self) -> (r: MiniPageMeta)
        ensures
            r.wf(),
            r.page_idx == self.addr / MINI_PAGE_ALLOC_BYTES,
    {
        MiniPageMeta::from_addr(self)
    }

    /// The segment of `size_class` that holds this address.
    pub fn get_segment(self, size_class: SizeClass) -> (r: MiniPageSegment)
        requires
            MIN_SIZE_CLASS <= size_class.exp <= MAX_SIZE_CLASS,
        ensures
            r.wf(),
            r.size_class == size_class,
            r.page.page_idx == self.addr / MINI_PAGE_ALLOC_BYTES,
            r.segment_idx == (self.addr % MINI_PAGE_ALLOC_BYTES) as int / pow2(size_class.exp as nat) as int,
    {
        MiniPageSegment::from_addr(size_class, self)
    }

    /// The offset as a `usize`.
    pub fn addr_usize(self) -> (r: usize)
        ensures
            r == self.addr,
    {
        self.addr as usize
    }
}

/// A minipage index and the offset at which its segments start.
#[derive(Copy, Clone, Debug, PartialEq, Eq, Structural)]
pub struct MiniPageMeta {
    /// The index of the minipage.
    pub page_idx: usize,
    /// The offset of its first byte.
    pub addr: AllocAddr,
}

impl MiniPageMeta {
    /// The offset is that of the minipage's first byte.
    pub open spec fn wf(&self) -> bool {
        self.addr.addr == self.page_idx * MINI_PAGE_ALLOC_BYTES
    }

    /// The minipage with index `page_idx`.
    pub fn new(page_idx: usize) -> (r: MiniPageMeta)
        requires
            page_idx * MINI_PAGE_ALLOC_BYTES <= u32::MAX,
        ensures
            r.wf(),
            r.page_idx == page_idx,
    {
        MiniPageMeta {
            page_idx,
            addr: AllocAddr::new(MINI_PAGE_ALLOC_BYTES * (page_idx as u32)),
        }
    }

    /// The minipage that holds `addr`.
    pub fn from_addr(addr: AllocAddr) -> (r: MiniPageMeta)
        ensures
            r.wf(),
            r.page_idx == addr.addr / MINI_PAGE_ALLOC_BYTES,
    {
        let page_idx = addr.addr / MINI_PAGE_ALLOC_BYTES;
        MiniPageMeta {
            page_idx: page_idx as usize,
            addr: AllocAddr::new(page_idx * MINI_PAGE_ALLOC_BYTES),
        }
    }

    /// The index as a `u32`.
    pub fn page_idx_u32(self) -> (r: u32)
        requires
            self.page_idx <= u32::MAX,
        ensures
            r == self.page_idx,
    {
        self.page_idx as u32
    }

    /// Segment `segment_idx` of `size_class` in this minipage.
    pub fn get_segment(self, size_class: SizeClass, segment_idx: usize) -> (r: MiniPageSegment)
        requires
            self.wf(),
            MIN_SIZE_CLASS <= size_class.exp <= MAX_SIZE_CLASS,
            segment_idx < segments_per_minipage(size_class.exp as nat),
            (self.page_idx + 1) * MINI_PAGE_ALLOC_BYTES <= u32::MAX,
        ensures
            r.wf(),
            r.page == self,
            r.size_class == size_class,
            r.segment_idx == segment_idx,
    {
        proof {
            lemma_class_facts(size_class.exp as nat);
            assert(segment_idx * pow2(size_class.exp as nat) < 2048) by (nonlinear_arith)
                requires
                    segment_idx < segments_per_minipage(size_class.exp as nat),
                    pow2(size_class.exp as nat) * segments_per_minipage(size_class.exp as nat)
                        == 2048,
            ;
        }
        let b = size_class.segment_bytes() as usize;
        assert(b * segment_idx < 2048) by (nonlinear_arith)
            requires
                b == pow2(size_class.exp as nat),
                segment_idx * pow2(size_class.exp as nat) < 2048,
        ;
        let offset = self.addr.addr_usize() + b * segment_idx;
        let r = MiniPageSegment::from_addr(size_class, AllocAddr::from_usize(offset));
        proof {
            let p = pow2(size_class.exp as nat) as int;
            let rel = segment_idx as int * p;
            assert(offset == self.page_idx * 2048 + rel);
            assert(offset / 2048 == self.page_idx);
            assert(offset % 2048 == rel);
            assert(rel / p == segment_idx) by (nonlinear_arith)
                requires
                    rel == segment_idx * p,
                    p > 0,
            ;
        }
        r
    }
}

/// A segment of a size class within a minipage, with its place in the
/// minipage's bitmap.
#[derive(Copy, Clone, Debug, PartialEq, Eq, Structural)]
pub struct MiniPageSegment {
    /// The minipage of the segment.
    pub page: MiniPageMeta,
    /// The size class of the segment.
    pub size_class: SizeClass,
    /// The segment's index within its minipage.
    pub segment_idx: usize,
    /// The bitmap byte that holds the segment's bit: `segment_idx / 8`.
    pub bitmap_byte_idx: usize,
    /// The bit within that byte: `segment_idx % 8`.
    pub bitmap_byte_bit_idx: usize,
}

impl MiniPageSegment {
    /// The fields agree with one another.
    pub open spec fn wf(&self) -> bool {
        &&& self.page.wf()
        &&& MIN_SIZE_CLASS <= self.size_class.exp <= MAX_SIZE_CLASS
        &&& self.segment_idx < segments_per_minipage(self.size_class.exp as nat)
        &&& self.bitmap_byte_idx == self.segment_idx / 8
        &&& self.bitmap_byte_bit_idx == self.segment_idx % 8
    }

    /// The segment of `size_class` that holds `addr`.
    pub fn from_addr(size_class: SizeClass, addr: AllocAddr) -> (r: MiniPageSegment)
        requires
            MIN_SIZE_CLASS <= size_class.exp <= MAX_SIZE_CLASS,
        ensures
            r.wf(),
            r.size_class == size_class,
            r.page.page_idx == addr.addr / MINI_PAGE_ALLOC_BYTES,
            r.segment_idx == (addr.addr % MINI_PAGE_ALLOC_BYTES) as int / pow2(size_class.exp as nat) as int,
    {
        let page = MiniPageMeta::from_addr(addr);
        let segment_relative_addr: usize = addr.addr_usize() - page.addr.addr_usize();
        proof {
            lemma_class_facts(size_class.exp as nat);
        }
        let segment_idx: usize = segment_relative_addr / (size_class.segment_bytes() as usize);
        proof {
            let p = pow2(size_class.exp as nat) as int;
            assert(segment_relative_addr == addr.addr % 2048);
            assert(segment_idx < segments_per_minipage(size_class.exp as nat)) by (nonlinear_arith)
                requires
                    segment_idx == segment_relative_addr as int / p,
                    segment_relative_addr < 2048,
                    p * segments_per_minipage(size_class.exp as nat) == 2048,
                    p > 0,
            ;
        }
        MiniPageSegment {
            page,
            size_class,
            segment_idx,
            bitmap_byte_idx: segment_idx / 8,
            bitmap_byte_bit_idx: segment_idx % 8,
        }
    }

    /// The offset of the segment's first byte.
    pub fn as_addr(self) -> (r: AllocAddr)
        requires
            self.wf(),
            (self.page.page_idx + 1) * MINI_PAGE_ALLOC_BYTES <= u32::MAX,
        ensures
            r.addr == self.page.page_idx * MINI_PAGE_ALLOC_BYTES + self.segment_idx * pow2(
                self.size_class.exp as nat,
            ),
    {
        proof {
            lemma_class_facts(self.size_class.exp as nat);
            assert(self.segment_idx * pow2(self.size_class.exp as nat) < 2048) by (nonlinear_arith)
                requires
                    self.segment_idx < segments_per_minipage(self.size_class.exp as nat),
                    pow2(self.size_class.exp as nat) * segments_per_minipage(
                        self.size_class.exp as nat,
                    ) == 2048,
            ;
        }
        let seg_start_addr = self.page.addr.addr_usize();
        let seg_offset = self.segment_idx * (self.size_class.segment_bytes() as usize);
        AllocAddr::from_usize(seg_start_addr + seg_offset)
    }

    /// The segment index as a `u16`.
    pub fn segment_idx_u16(self) -> (r: u16)
        requires
            self.wf(),
        ensures
            r == self.segment_idx,
    {
        proof {
            lemma_class_facts(self.size_class.exp as nat);
        }
        self.segment_idx as u16
    }
}

/// The number of minipage slots a big allocation of `n` bytes takes,
/// header included.
pub open spec fn big_alloc_slots(n: nat) -> nat {
    ((n + BIG_ALLOC_HEADER_BYTES + MINI_PAGE_ALLOC_BYTES - 1) / (MINI_PAGE_ALLOC_BYTES as int)) as nat
}

/// Header of a big allocation, which takes whole minipage slots.
#[derive(Copy, Clone, Debug, PartialEq, Eq, Structural)]
pub struct BigAllocHeader {
    /// Size class exponent of the request, above the largest small class.
    pub size_class_exp: u8,
    /// The index of the first minipage slot, where the header sits.
    pub start_idx: u16,
    /// True while the allocation is free.
    pub free: bool,
    /// Bytes after the header that belong to the allocation.
    pub size_bytes: u32,
}

impl BigAllocHeader {
    /// For a request of `alloc_bytes` bytes: `(size_bytes, slots)`, where
    /// `slots` is the number of minipage slots that header and request need,
    /// and `size_bytes` is what those slots hold after the header.
    pub fn compute_size(alloc_bytes: usize) -> (r: (u32, u32))
        requires
            alloc_bytes <= u32::MAX - BIG_ALLOC_HEADER_BYTES - MINI_PAGE_ALLOC_BYTES,
        ensures
            r.1 == big_alloc_slots(alloc_bytes as nat),
            r.1 >= 1,
            r.0 == r.1 * MINI_PAGE_ALLOC_BYTES - BIG_ALLOC_HEADER_BYTES,
            r.0 >= alloc_bytes,
    {
        let min_bytes = (BIG_ALLOC_HEADER_BYTES as usize + alloc_bytes) as u32;
        let interval_mult = (min_bytes + (MINI_PAGE_ALLOC_BYTES - 1)) / MINI_PAGE_ALLOC_BYTES;
        let required_bytes = interval_mult * MINI_PAGE_ALLOC_BYTES;
        let size_bytes = required_bytes - BIG_ALLOC_HEADER_BYTES;
        (size_bytes, interval_mult)
    }
}

} // verus!
