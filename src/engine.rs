//! The allocator engine: the meta page's tables, minipage selection with the
//! fresh/reused policy, big allocations, and deallocation.
use vstd::arithmetic::power2::pow2;
use vstd::prelude::*;

use crate::addr::{big_alloc_slots, AllocAddr, BigAllocHeader, MiniPageMeta};
use crate::heap::HostHeap;
use crate::minipage::MiniPageHeader;
use crate::size_class::{
    ceil_log2, class_exp_for, exp_for_bytes, lemma_class_facts, segments_per_minipage, SizeClass,
};
use crate::stack::{lemma_unique_bounded_len, FixedStack};
use crate::{
    MINI_PAGE_FREE_SEGMENTS_SIZE, ALLOC_AREA_BYTES, BIG_ALLOC_HEADER_BYTES, MAX_HOST_PAGES, MAX_MINI_PAGES, MAX_SIZE_CLASS,
    META_PAGE_BYTES, MIN_SIZE_CLASS, MINI_PAGE_ALLOC_BYTES, NUM_SIZE_CLASSES, REGION_BYTES,
};

verus! {

/// Why the last allocation failed, or why the last deallocation was refused.
#[derive(Copy, Clone, Debug, PartialEq, Eq, Structural)]
pub enum AllocFail {
    /// The request was for zero bytes.
    NoZeroAlloc,
    /// The host refused to grow the region.
    HostGrowFail,
    /// The size class logic produced a class below the smallest.
    SizeClassTooSmall,
    /// No room was left in the region for a new minipage or big allocation.
    AddMiniPageNoSpace,
    /// A minipage on a free-minipages stack had no free segment.
    FreeMiniPagesContractBreach,
    /// A deallocation in a big allocation's slots found no live header.
    BigDeallocHeaderNotFound,
}

/// Counts, per size class, of allocations served from fresh and from
/// reused minipages.
#[derive(Copy, Clone, Debug)]
pub struct FreshReusedStats {
    /// Allocations from minipages that had been full before.
    pub total_alloc_reused: [u32; 9],
    /// Allocations from the newest minipage of each class.
    pub total_alloc_fresh: [u32; 9],
}

/// An allocation, by where it lives: a segment of a minipage, or the big
/// allocation with a given position in the big-allocation list.
pub ghost enum Block {
    /// Segment `segment` of minipage `page`.
    Small { page: int, segment: int },
    /// The big allocation at position `index` of the list, oldest first.
    Big { index: int },
}

/// The number of segments per minipage of class index `c`.
pub open spec fn class_segments(c: int) -> nat {
    segments_per_minipage((c + MIN_SIZE_CLASS) as nat)
}

/// The free segments of minipage `i` in `[lo, hi)`, highest first: the
/// order in which a refill pushes them, so the lowest ends on top.
pub open spec fn free_run(a: &AllocatorImpl, i: int, lo: int, hi: int) -> Seq<u16>
    decreases hi - lo,
{
    if lo >= hi {
        Seq::empty()
    } else if a.seg_free(i, lo) {
        free_run(a, i, lo + 1, hi).push(lo as u16)
    } else {
        free_run(a, i, lo + 1, hi)
    }
}

/// Adds one unless the counter is at its maximum.
pub open spec fn sat_inc(x: u32) -> u32 {
    if x < u32::MAX {
        (x + 1) as u32
    } else {
        x
    }
}

/// The number of minipage slots a big allocation header spans.
pub open spec fn header_slots(h: BigAllocHeader) -> int {
    (h.size_bytes + BIG_ALLOC_HEADER_BYTES) / MINI_PAGE_ALLOC_BYTES as int
}

/// The bookkeeping tables: minipage headers and big-allocation flags by
/// minipage index, and two stacks per size class.
pub struct MetaPage {
    minipage_headers: Vec<MiniPageHeader>,
    big_alloc_flags: Vec<Option<u16>>,
    free_minipages: Vec<FixedStack>,
    free_segments: Vec<FixedStack>,
}

impl MetaPage {
    /// Empty tables: no minipages, and empty stacks of their full capacity.
    pub fn new() -> (r: MetaPage)
        ensures
            r.empty_wf(),
    {
        let mut free_minipages: Vec<FixedStack> = Vec::new();
        let mut free_segments: Vec<FixedStack> = Vec::new();
        let mut e: u8 = MIN_SIZE_CLASS;
        while e <= MAX_SIZE_CLASS
            invariant
                MIN_SIZE_CLASS <= e <= MAX_SIZE_CLASS + 1,
                free_minipages@.len() == e - MIN_SIZE_CLASS,
                free_segments@.len() == e - MIN_SIZE_CLASS,
                forall|c: int|
                    0 <= c < free_minipages@.len() ==> {
                        &&& (#[trigger] free_minipages@[c]).wf()
                        &&& free_minipages@[c]@.len() == 0
                        &&& free_minipages@[c].capacity() == MAX_MINI_PAGES
                        &&& free_segments@[c].wf()
                        &&& free_segments@[c]@.len() == 0
                        &&& free_segments@[c].capacity() == class_segments(c)
                    },
            decreases MAX_SIZE_CLASS + 1 - e,
        {
            let size_class = SizeClass::new(e);
            free_minipages.push(FixedStack::new(MAX_MINI_PAGES as u16));
            free_segments.push(FixedStack::new(size_class.segments_max_num()));
            e = e + 1;
        }
        MetaPage {
            minipage_headers: Vec::new(),
            big_alloc_flags: Vec::new(),
            free_minipages,
            free_segments,
        }
    }

    /// No minipages, and every stack empty with its full capacity.
    pub closed spec fn empty_wf(&self) -> bool {
        &&& self.minipage_headers@.len() == 0
        &&& self.big_alloc_flags@.len() == 0
        &&& self.free_minipages@.len() == NUM_SIZE_CLASSES
        &&& self.free_segments@.len() == NUM_SIZE_CLASSES
        &&& forall|c: int|
            0 <= c < NUM_SIZE_CLASSES ==> {
                &&& (#[trigger] self.free_minipages@[c]).wf()
                &&& self.free_minipages@[c]@.len() == 0
                &&& self.free_minipages@[c].capacity() == MAX_MINI_PAGES
                &&& self.free_segments@[c].wf()
                &&& self.free_segments@[c]@.len() == 0
                &&& self.free_segments@[c].capacity() == class_segments(c)
            }
    }
}

} // verus!

verus! {

/// The allocator's state. The region's meta page comes first; offsets are
/// counted from the first byte after it.
pub struct AllocatorImpl {
    did_init_heap: bool,
    host_grow_failed: bool,
    base_ptr: usize,
    meta_page: MetaPage,
    big_allocs: Vec<BigAllocHeader>,
    next_alloc: u32,
    minipage_lists: Vec<Option<u16>>,
    total_alloc_reused: [u32; 9],
    total_alloc_fresh: [u32; 9],
    fresh_minipages: Vec<Option<u16>>,
    failure: Option<AllocFail>,
}

impl AllocatorImpl {
    /// The host region has been grown and the meta page set up.
    pub closed spec fn is_init(&self) -> bool {
        self.did_init_heap
    }

    /// The host refused to grow the region; no allocation succeeds again.
    pub closed spec fn host_failed(&self) -> bool {
        self.host_grow_failed
    }

    /// The address of the region's first byte.
    pub closed spec fn base(&self) -> int {
        self.base_ptr as int
    }

    /// The address of the first byte after the meta page.
    pub open spec fn alloc_start(&self) -> int {
        self.base() + META_PAGE_BYTES
    }

    /// The number of minipage slots taken so far, by minipages and by big
    /// allocations.
    pub closed spec fn page_count(&self) -> int {
        self.meta_page.minipage_headers@.len() as int
    }

    /// The free-minipages stack of class index `c`; its top is the class's
    /// current minipage.
    pub closed spec fn free_minipages(&self, c: int) -> Seq<u16> {
        self.meta_page.free_minipages@[c]@
    }

    /// The free-segments stack of class index `c`.
    pub closed spec fn free_segments(&self, c: int) -> Seq<u16> {
        self.meta_page.free_segments@[c]@
    }

    /// Slot `i` is a minipage (not part of a big allocation).
    pub closed spec fn is_small_page(&self, i: int) -> bool {
        0 <= i < self.page_count() && self.meta_page.big_alloc_flags@[i] is None
    }

    /// The size class exponent of minipage `i`.
    pub closed spec fn page_class(&self, i: int) -> int {
        self.meta_page.minipage_headers@[i].size_class_exp as int
    }

    /// Segment `s` of minipage `i` is marked free in its bitmap.
    pub closed spec fn seg_free(&self, i: int, s: int) -> bool {
        self.meta_page.minipage_headers@[i].is_free(s)
    }

    /// Minipage `i` is marked as being on its class's free-minipages stack.
    pub closed spec fn on_stack(&self, i: int) -> bool {
        self.meta_page.minipage_headers@[i].on_free_minipages_stack
    }

    /// The minipage created before minipage `i` for the same class.
    pub closed spec fn page_next(&self, i: int) -> Option<u16> {
        self.meta_page.minipage_headers@[i].next
    }

    /// The newest minipage of class index `c`.
    pub closed spec fn list_head(&self, c: int) -> Option<u16> {
        self.minipage_lists@[c]
    }

    /// The big allocation headers, oldest first; the list is walked from the
    /// newest.
    pub closed spec fn big_headers(&self) -> Seq<BigAllocHeader> {
        self.big_allocs@
    }

    /// Allocations of class index `c` served from the class's fresh minipage.
    pub closed spec fn fresh_count(&self, c: int) -> u32 {
        self.total_alloc_fresh[c]
    }

    /// Allocations of class index `c` served from other minipages.
    pub closed spec fn reused_count(&self, c: int) -> u32 {
        self.total_alloc_reused[c]
    }

    /// The newest minipage of class index `c`, while it has never been full.
    pub closed spec fn fresh_minipage(&self, c: int) -> Option<u16> {
        self.fresh_minipages@[c]
    }

    /// The cause of the last failure.
    pub closed spec fn failure(&self) -> Option<AllocFail> {
        self.failure
    }

    /// The minipage that feeds allocations of class index `c`.
    pub open spec fn current_page(&self, c: int) -> Option<u16> {
        if self.free_minipages(c).len() == 0 {
            None
        } else {
            Some(self.free_minipages(c).last())
        }
    }

    /// The segment the next allocation of class index `c` takes from the
    /// current minipage.
    pub open spec fn next_segment(&self, c: int) -> Option<u16> {
        if self.free_segments(c).len() == 0 {
            None
        } else {
            Some(self.free_segments(c).last())
        }
    }

    /// The fresh/reused policy asks for a new minipage for class index `c`:
    /// some allocations were served from reused minipages, and fewer from
    /// fresh ones.
    pub open spec fn needs_fresh(&self, c: int) -> bool {
        self.reused_count(c) > 0 && self.fresh_count(c) < self.reused_count(c)
    }

    /// `bytes` more bytes fit in the region.
    pub open spec fn room_for(&self, bytes: int) -> bool {
        self.page_count() * MINI_PAGE_ALLOC_BYTES + bytes <= ALLOC_AREA_BYTES
    }

    /// Segment `s` of minipage `i` is handed out.
    pub open spec fn seg_used(&self, i: int, s: int) -> bool {
        &&& self.is_small_page(i)
        &&& 0 <= s < segments_per_minipage(self.page_class(i) as nat)
        &&& !self.seg_free(i, s)
    }

    /// Minipage `i` has a free segment.
    pub open spec fn has_free_segment(&self, i: int) -> bool {
        exists|s: int|
            0 <= s < segments_per_minipage(self.page_class(i) as nat) && #[trigger] self.seg_free(
                i,
                s,
            )
    }

    /// `b` is an allocation handed out and not released.
    pub open spec fn live(&self, b: Block) -> bool {
        match b {
            Block::Small { page, segment } => self.seg_used(page, segment),
            Block::Big { index } => 0 <= index < self.big_headers().len() && !self.big_headers()[index].free,
        }
    }

    /// The bytes of `b`, as offsets `[lo, hi)` from the first byte after the
    /// meta page.
    pub open spec fn block_range(&self, b: Block) -> (int, int) {
        match b {
            Block::Small { page, segment } => {
                let p = pow2(self.page_class(page) as nat) as int;
                let lo = page * MINI_PAGE_ALLOC_BYTES + segment * p;
                (lo, lo + p)
            },
            Block::Big { index } => {
                let h = self.big_headers()[index];
                let lo = h.start_idx * MINI_PAGE_ALLOC_BYTES + BIG_ALLOC_HEADER_BYTES;
                (lo, lo + h.size_bytes)
            },
        }
    }

    /// An entry of a free-minipages stack of class index `c`.
    pub open spec fn stacked_page_ok(&self, c: int, i: int) -> bool {
        &&& self.is_small_page(i)
        &&& self.page_class(i) == c + MIN_SIZE_CLASS
        &&& self.on_stack(i)
        &&& self.has_free_segment(i)
    }

    /// The free-segments stack of class index `c` holds exactly the free
    /// segments of the class's current minipage, each once.
    pub open spec fn segments_ok(&self, c: int) -> bool {
        match self.current_page(c) {
            None => self.free_segments(c).len() == 0,
            Some(i) => {
                &&& self.free_segments(c).no_duplicates()
                &&& forall|s: u16|
                    #![trigger self.free_segments(c).contains(s)]
                    #![trigger self.seg_free(i as int, s as int)]
                    self.free_segments(c).contains(s) <==> (s < class_segments(c)
                        && self.seg_free(i as int, s as int))
            },
        }
    }

    /// Big allocation `j` spans whole slots flagged with its first slot.
    pub closed spec fn big_ok(&self, j: int) -> bool {
        let h = self.big_allocs@[j];
        let n = header_slots(h);
        &&& n >= 1
        &&& h.size_bytes + BIG_ALLOC_HEADER_BYTES == n * MINI_PAGE_ALLOC_BYTES
        &&& h.start_idx + n <= self.page_count()
        &&& forall|p: int|
            h.start_idx <= p < h.start_idx + n ==> self.meta_page.big_alloc_flags@[p] == Some(
                h.start_idx,
            )
    }

    /// The invariant of the state, except that free-segments stacks may
    /// disagree with their current minipages.
    pub closed spec fn wf_core(&self) -> bool {
        &&& self.meta_page.free_minipages@.len() == NUM_SIZE_CLASSES
        &&& self.meta_page.free_segments@.len() == NUM_SIZE_CLASSES
        &&& self.minipage_lists@.len() == NUM_SIZE_CLASSES
        &&& self.fresh_minipages@.len() == NUM_SIZE_CLASSES
        &&& self.meta_page.big_alloc_flags@.len() == self.page_count()
        &&& self.next_alloc == self.page_count() * MINI_PAGE_ALLOC_BYTES
        &&& self.next_alloc <= ALLOC_AREA_BYTES
        &&& forall|i: int| 0 <= i < self.page_count() ==> (#[trigger] self.meta_page.minipage_headers@[i]).wf()
        &&& forall|i: int| #[trigger]
            self.is_small_page(i) ==> MIN_SIZE_CLASS <= self.page_class(i) <= MAX_SIZE_CLASS
        &&& forall|c: int|
            0 <= c < NUM_SIZE_CLASSES ==> {
                &&& (#[trigger] self.meta_page.free_minipages@[c]).wf()
                &&& self.meta_page.free_minipages@[c].capacity() == MAX_MINI_PAGES
                &&& self.meta_page.free_segments@[c].wf()
                &&& self.meta_page.free_segments@[c].capacity() == class_segments(c)
                &&& self.free_minipages(c).no_duplicates()
            }
        &&& forall|c: int, k: int|
            0 <= c < NUM_SIZE_CLASSES && 0 <= k < self.free_minipages(c).len()
                ==> self.stacked_page_ok(c, #[trigger] self.free_minipages(c)[k] as int)
        &&& forall|i: int|
            #![trigger self.on_stack(i)]
            self.is_small_page(i) && self.on_stack(i) ==> self.free_minipages(
                self.page_class(i) - MIN_SIZE_CLASS,
            ).contains(i as u16)
        &&& forall|j: int| 0 <= j < self.big_allocs@.len() ==> #[trigger] self.big_ok(j)
        &&& forall|j: int, k: int|
            0 <= j < k < self.big_allocs@.len() ==> #[trigger] self.big_allocs@[j].start_idx
                + header_slots(self.big_allocs@[j]) <= #[trigger] self.big_allocs@[k].start_idx
        &&& self.did_init_heap ==> self.base_ptr + REGION_BYTES <= usize::MAX
        &&& !self.did_init_heap ==> self.page_count() == 0 && self.big_allocs@.len() == 0
    }

    /// The invariant of the state.
    pub open spec fn wf(&self) -> bool {
        &&& self.wf_core()
        &&& forall|c: int| 0 <= c < NUM_SIZE_CLASSES ==> #[trigger] self.segments_ok(c)
    }

    /// A state before the first allocation.
    pub fn new() -> (r: AllocatorImpl)
        ensures
            r.wf(),
            !r.is_init(),
            !r.host_failed(),
            r.page_count() == 0,
            r.big_headers().len() == 0,
            forall|c: int|
                0 <= c < NUM_SIZE_CLASSES ==> #[trigger] r.current_page(c) is None && r.fresh_count(c)
                    == 0 && r.reused_count(c) == 0 && r.fresh_minipage(c) is None,
    {
        let r = AllocatorImpl {
            did_init_heap: false,
            host_grow_failed: false,
            base_ptr: 0,
            meta_page: MetaPage::new(),
            big_allocs: Vec::new(),
            next_alloc: 0,
            minipage_lists: vec![None; NUM_SIZE_CLASSES],
            total_alloc_reused: [0u32; 9],
            total_alloc_fresh: [0u32; 9],
            fresh_minipages: vec![None; NUM_SIZE_CLASSES],
            failure: None,
        };
        proof {
            assert forall|c: int| 0 <= c < NUM_SIZE_CLASSES implies #[trigger] r.segments_ok(c) by {
                assert(r.meta_page.free_minipages@[c]@.len() == 0);
            }
        }
        r
    }
}

} // verus!

verus! {

impl AllocatorImpl {
    /// Only the free-segments stack of class index `ci` differs from `pre`.
    closed spec fn frame_segments(&self, pre: &AllocatorImpl, ci: int) -> bool {
        &&& self.did_init_heap == pre.did_init_heap
        &&& self.base_ptr == pre.base_ptr
        &&& self.meta_page.minipage_headers == pre.meta_page.minipage_headers
        &&& self.meta_page.big_alloc_flags == pre.meta_page.big_alloc_flags
        &&& self.meta_page.free_minipages == pre.meta_page.free_minipages
        &&& self.meta_page.free_segments@.len() == pre.meta_page.free_segments@.len()
        &&& forall|c: int|
            0 <= c < pre.meta_page.free_segments@.len() && c != ci
                ==> #[trigger] self.meta_page.free_segments@[c] == pre.meta_page.free_segments@[c]
        &&& self.meta_page.free_segments@[ci].capacity() == pre.meta_page.free_segments@[ci].capacity()
        &&& self.meta_page.free_segments@[ci].wf()
        &&& self.big_allocs == pre.big_allocs
        &&& self.next_alloc == pre.next_alloc
        &&& self.minipage_lists == pre.minipage_lists
        &&& self.total_alloc_reused == pre.total_alloc_reused
        &&& self.total_alloc_fresh == pre.total_alloc_fresh
        &&& self.fresh_minipages == pre.fresh_minipages
        &&& self.failure == pre.failure
    }

    /// Sets up the meta page once the host region at `base` has been grown.
    fn ensure_meta_page(&mut self, base: usize)
        requires
            old(self).wf(),
            base + REGION_BYTES <= usize::MAX,
        ensures
            final(self).wf(),
            final(self).is_init(),
            old(self).is_init() ==> *final(self) == *old(self),
            !old(self).is_init() ==> {
                &&& final(self).base() == base
                &&& final(self).page_count() == 0
                &&& final(self).big_headers().len() == 0
                &&& forall|c: int| 0 <= c < NUM_SIZE_CLASSES ==> #[trigger] final(self).current_page(c) is None
                &&& *final(self) == old(self).with_base(base as int)
            },
    {
        if self.did_init_heap {
            return;
        }
        self.base_ptr = base;
        self.did_init_heap = true;
        proof {
            assert forall|c: int| 0 <= c < NUM_SIZE_CLASSES implies #[trigger] self.segments_ok(c) by {
                assert(old(self).segments_ok(c));
            }
        }
    }

    /// Refills the free-segments stack of class index `ci` from the bitmap of
    /// `page`, its current minipage. Returns the lowest free segment, which is
    /// left on top, or `None` when the minipage is full.
    fn free_segments_update(&mut self, ci: usize, page: u16) -> (r: Option<u16>)
        requires
            old(self).wf_core(),
            ci < NUM_SIZE_CLASSES,
            old(self).current_page(ci as int) == Some(page),
            forall|c: int|
                0 <= c < NUM_SIZE_CLASSES && c != ci ==> #[trigger] old(self).segments_ok(c),
        ensures
            final(self).wf(),
            final(self).frame_segments(old(self), ci as int),
            r == final(self).next_segment(ci as int),
            final(self).free_segments(ci as int) == free_run(
                old(self),
                page as int,
                0,
                class_segments(ci as int) as int,
            ),
            r is None <==> !old(self).has_free_segment(page as int),
            r matches Some(s) ==> forall|t: int|
                0 <= t < s ==> !#[trigger] old(self).seg_free(page as int, t),
    {
        let ghost pre = *old(self);
        let ghost p = page as int;
        let ghost n = class_segments(ci as int);
        proof {
            assert(pre.stacked_page_ok(ci as int, pre.free_minipages(ci as int).last() as int));
            lemma_class_facts((ci + MIN_SIZE_CLASS) as nat);
        }
        let size_class = SizeClass::new(ci as u8 + MIN_SIZE_CLASS);
        let max_num = size_class.segments_max_num();
        self.meta_page.free_segments[ci].clear();
        let mut k: u16 = max_num;
        let mut first: Option<u16> = None;
        while k > 0
            invariant
                pre == *old(self),
                self.frame_segments(&pre, ci as int),
                pre.wf_core(),
                ci < NUM_SIZE_CLASSES,
                pre.current_page(ci as int) == Some(page),
                p == page,
                n == class_segments(ci as int),
                max_num == n,
                1 <= n <= 256,
                0 <= k <= n,
                0 <= p < pre.page_count(),
                pre.meta_page.minipage_headers@[p].wf(),
                self.free_segments(ci as int).len() <= n - k,
                self.free_segments(ci as int).no_duplicates(),
                forall|s: u16|
                    #![trigger self.free_segments(ci as int).contains(s)]
                    self.free_segments(ci as int).contains(s) <==> (k <= s < n && pre.seg_free(
                        p,
                        s as int,
                    )),
                first == (if self.free_segments(ci as int).len() == 0 {
                    None
                } else {
                    Some(self.free_segments(ci as int).last())
                }),
                first matches Some(f) ==> f >= k && forall|t: int|
                    k <= t < f ==> !#[trigger] pre.seg_free(p, t),
                first is None ==> forall|t: int| k <= t < n ==> !#[trigger] pre.seg_free(p, t),
                self.free_segments(ci as int) == free_run(&pre, p, k as int, n as int),
            decreases k,
        {
            k = k - 1;
            let free = self.meta_page.minipage_headers[page as usize].get_free_bitmap(k);
            if free {
                let ghost before = self.free_segments(ci as int);
                assert(!before.contains(k));
                self.meta_page.free_segments[ci].push(k);
                first = Some(k);
                proof {
                    assert(self.free_segments(ci as int) == before.push(k));
                    assert forall|s: u16|
                        #![trigger self.free_segments(ci as int).contains(s)]
                        self.free_segments(ci as int).contains(s) <==> (k <= s < n && pre.seg_free(
                            p,
                            s as int,
                        )) by {
                        if s != k {
                            if self.free_segments(ci as int).contains(s) {
                                let j = choose|j: int|
                                    0 <= j < self.free_segments(ci as int).len()
                                        && self.free_segments(ci as int)[j] == s;
                                assert(before[j] == s);
                            }
                            if before.contains(s) {
                                let j = choose|j: int| 0 <= j < before.len() && before[j] == s;
                                assert(self.free_segments(ci as int)[j] == s);
                            }
                        } else {
                            assert(self.free_segments(ci as int)[before.len() as int] == k);
                        }
                    }
                }
            }
        }
        proof {
            let post = *self;
            assert forall|c: int| 0 <= c < NUM_SIZE_CLASSES implies #[trigger] post.segments_ok(c) by {
                if c != ci {
                    assert(pre.segments_ok(c));
                    assert(post.free_minipages(c) == pre.free_minipages(c));
                    assert(post.free_segments(c) == pre.free_segments(c));
                }
            }
            assert(pre.did_init_heap) by {
                if !pre.did_init_heap {
                    assert(pre.free_minipages(ci as int).len() == 0);
                }
            }
            lemma_frame_segments_core(post, pre, ci as int);
            if first is None {
                assert(!pre.has_free_segment(p));
            } else {
                let f = first.unwrap();
                let fs = post.free_segments(ci as int);
                assert(fs[fs.len() - 1] == f);
                assert(fs.contains(f));
                assert(pre.seg_free(p, f as int));
            }
        }
        first
    }
}

} // verus!

verus! {

/// Changing one free-segments stack keeps the rest of the invariant.
proof fn lemma_frame_segments_core(post: AllocatorImpl, pre: AllocatorImpl, ci: int)
    requires
        pre.wf_core(),
        post.frame_segments(&pre, ci),
        0 <= ci < NUM_SIZE_CLASSES,
        post.meta_page.free_segments@[ci].capacity() == class_segments(ci),
        pre.did_init_heap,
    ensures
        post.wf_core(),
{
    assert forall|c: int| 0 <= c < NUM_SIZE_CLASSES implies {
        &&& (#[trigger] post.meta_page.free_minipages@[c]).wf()
        &&& post.meta_page.free_minipages@[c].capacity() == MAX_MINI_PAGES
        &&& post.meta_page.free_segments@[c].wf()
        &&& post.meta_page.free_segments@[c].capacity() == class_segments(c)
        &&& post.free_minipages(c).no_duplicates()
    } by {
        assert(pre.meta_page.free_minipages@[c] == post.meta_page.free_minipages@[c]);
        assert(pre.meta_page.free_minipages@[c].wf());
        if c != ci {
            assert(post.meta_page.free_segments@[c] == pre.meta_page.free_segments@[c]);
        }
    }
    assert(forall|i: int| #[trigger] post.is_small_page(i) == pre.is_small_page(i));
    assert(forall|i: int| #[trigger] post.on_stack(i) == pre.on_stack(i));
    assert(forall|c: int| #[trigger] post.free_minipages(c) == pre.free_minipages(c));
    assert(forall|j: int| #[trigger] post.big_ok(j) == pre.big_ok(j));
    assert forall|c: int, k: int|
        0 <= c < NUM_SIZE_CLASSES && 0 <= k < post.free_minipages(c).len() implies post.stacked_page_ok(
        c,
        #[trigger] post.free_minipages(c)[k] as int,
    ) by {
        let i = pre.free_minipages(c)[k] as int;
        assert(pre.stacked_page_ok(c, i));
        let s = choose|s: int|
            0 <= s < segments_per_minipage(pre.page_class(i) as nat) && #[trigger] pre.seg_free(i, s);
        assert(post.seg_free(i, s));
    }
}

} // verus!

verus! {

impl AllocatorImpl {
    /// The slots that `pre` had are unchanged.
    closed spec fn frame_pages(&self, pre: &AllocatorImpl) -> bool {
        &&& pre.page_count() <= self.page_count()
        &&& forall|i: int|
            0 <= i < pre.page_count() ==> #[trigger] self.meta_page.minipage_headers@[i]
                == pre.meta_page.minipage_headers@[i] && self.meta_page.big_alloc_flags@[i]
                == pre.meta_page.big_alloc_flags@[i]
    }

    /// Creates a minipage of class `size_class_exp` in the next free slot and
    /// makes it the class's current and fresh minipage. Returns its index, or
    /// `None` when the region has no room for it.
    fn add_minipage(&mut self, size_class_exp: u8) -> (r: Option<u16>)
        requires
            old(self).wf(),
            old(self).is_init(),
            MIN_SIZE_CLASS <= size_class_exp <= MAX_SIZE_CLASS,
        ensures
            !old(self).room_for(MINI_PAGE_ALLOC_BYTES as int) ==> r is None && *final(self) == *old(self),
            old(self).room_for(MINI_PAGE_ALLOC_BYTES as int) ==> {
                let ci = size_class_exp - MIN_SIZE_CLASS;
                let i = old(self).page_count();
                &&& r == Some(i as u16)
                &&& final(self).wf_core()
                &&& final(self).is_init()
                &&& final(self).base() == old(self).base()
                &&& forall|c: int|
                    0 <= c < NUM_SIZE_CLASSES && c != ci ==> #[trigger] final(self).segments_ok(c)
                &&& final(self).current_page(ci) == r
                &&& final(self).free_minipages(ci) == old(self).free_minipages(ci).push(i as u16)
                &&& forall|d: int| 0 <= d < NUM_SIZE_CLASSES && d != ci ==> #[trigger] final(self).free_minipages(d) == old(self).free_minipages(d)
                &&& final(self).on_stack(i)
                &&& final(self).page_next(i) == old(self).list_head(ci)
                &&& final(self).list_head(ci) == r
                &&& final(self).page_count() == i + 1
                &&& final(self).frame_pages(old(self))
                &&& final(self).is_small_page(i)
                &&& final(self).page_class(i) == size_class_exp
                &&& forall|s: int|
                    0 <= s < segments_per_minipage(size_class_exp as nat) ==> #[trigger] final(self).seg_free(i, s)
                &&& final(self).big_allocs == old(self).big_allocs
                &&& final(self).total_alloc_fresh == old(self).total_alloc_fresh
                &&& final(self).total_alloc_reused == old(self).total_alloc_reused
                &&& final(self).fresh_minipages@ == old(self).fresh_minipages@.update(ci, r)
                &&& final(self).meta_page.free_segments == old(self).meta_page.free_segments
                &&& final(self).failure == old(self).failure
            },
    {
        let ci = (size_class_exp - MIN_SIZE_CLASS) as usize;
        if self.next_alloc + MINI_PAGE_ALLOC_BYTES > ALLOC_AREA_BYTES {
            return None;
        }
        let ghost pre = *old(self);
        let idx = (self.next_alloc / MINI_PAGE_ALLOC_BYTES) as u16;
        proof {
            lemma_class_facts(size_class_exp as nat);
            assert forall|k: int| 0 <= k < pre.free_minipages(ci as int).len() implies pre.free_minipages(
                ci as int,
            )[k] < pre.page_count() by {
                assert(pre.stacked_page_ok(ci as int, pre.free_minipages(ci as int)[k] as int));
            }
            lemma_unique_bounded_len(pre.free_minipages(ci as int), pre.page_count());
        }
        let next = self.minipage_lists[ci];
        self.meta_page.minipage_headers.push(MiniPageHeader::new_free(size_class_exp, next));
        self.meta_page.big_alloc_flags.push(None);
        self.minipage_lists.set(ci, Some(idx));
        let pushed = self.meta_page.free_minipages[ci].push(idx);
        self.fresh_minipages.set(ci, Some(idx));
        self.next_alloc = self.next_alloc + MINI_PAGE_ALLOC_BYTES;
        proof {
            let post = *self;
            let i = idx as int;
            assert(post.free_minipages(ci as int) == pre.free_minipages(ci as int).push(idx));
            assert(!pre.free_minipages(ci as int).contains(idx)) by {
                if pre.free_minipages(ci as int).contains(idx) {
                    let k = choose|k: int|
                        0 <= k < pre.free_minipages(ci as int).len() && pre.free_minipages(
                            ci as int,
                        )[k] == idx;
                    assert(pre.stacked_page_ok(ci as int, pre.free_minipages(ci as int)[k] as int));
                }
            }
            assert(forall|j: int| 0 <= j < pre.page_count() ==> #[trigger] post.is_small_page(j) == pre.is_small_page(j));
            assert(forall|j: int, s: int| 0 <= j < pre.page_count() ==> #[trigger] post.seg_free(j, s) == pre.seg_free(j, s));
            assert(post.seg_free(i, 0));
            assert forall|c: int| 0 <= c < NUM_SIZE_CLASSES && c != ci implies #[trigger] post.free_minipages(c) == pre.free_minipages(c) && post.free_segments(c) == pre.free_segments(c) by {
                assert(post.meta_page.free_minipages@[c] == pre.meta_page.free_minipages@[c]);
            }
            assert forall|c: int| 0 <= c < NUM_SIZE_CLASSES implies {
                &&& (#[trigger] post.meta_page.free_minipages@[c]).wf()
                &&& post.meta_page.free_minipages@[c].capacity() == MAX_MINI_PAGES
                &&& post.meta_page.free_segments@[c].wf()
                &&& post.meta_page.free_segments@[c].capacity() == class_segments(c)
                &&& post.free_minipages(c).no_duplicates()
            } by {
                assert(pre.meta_page.free_minipages@[c].wf());
                assert(pre.meta_page.free_segments@[c].wf());
                if c != ci {
                    assert(post.meta_page.free_minipages@[c] == pre.meta_page.free_minipages@[c]);
                }
            }
            assert forall|c: int, k: int|
                0 <= c < NUM_SIZE_CLASSES && 0 <= k < post.free_minipages(c).len() implies post.stacked_page_ok(
                c,
                #[trigger] post.free_minipages(c)[k] as int,
            ) by {
                if c == ci && k == pre.free_minipages(c).len() {
                    assert(post.free_minipages(c)[k] == idx);
                } else {
                    let j = post.free_minipages(c)[k] as int;
                    assert(post.free_minipages(c)[k] == pre.free_minipages(c)[k]);
                    assert(pre.stacked_page_ok(c, j));
                    let s = choose|s: int|
                        0 <= s < segments_per_minipage(pre.page_class(j) as nat) && #[trigger] pre.seg_free(j, s);
                    assert(post.seg_free(j, s));
                }
            }
            assert forall|j: int| post.is_small_page(j) && post.on_stack(j) implies post.free_minipages(
                post.page_class(j) - MIN_SIZE_CLASS,
            ).contains(j as u16) by {
                if j == i {
                    assert(post.free_minipages(ci as int)[pre.free_minipages(ci as int).len() as int] == idx);
                } else {
                    assert(pre.is_small_page(j) && pre.on_stack(j));
                    let c = pre.page_class(j) - MIN_SIZE_CLASS;
                    let k = choose|k: int| 0 <= k < pre.free_minipages(c).len() && pre.free_minipages(c)[k] == j as u16;
                    assert(post.free_minipages(c)[k] == j as u16);
                }
            }
            assert forall|j: int| 0 <= j < post.big_allocs@.len() implies #[trigger] post.big_ok(j) by {
                assert(pre.big_ok(j));
            }
            assert forall|c: int| 0 <= c < NUM_SIZE_CLASSES && c != ci implies #[trigger] post.segments_ok(c) by {
                assert(pre.segments_ok(c));
            }
        }
        Some(idx)
    }
}

} // verus!

verus! {

/// `post` differs from `pre` by one more live allocation, `b`.
pub open spec fn takes_block(pre: &AllocatorImpl, post: &AllocatorImpl, b: Block) -> bool {
    &&& !pre.live(b)
    &&& post.live(b)
    &&& forall|b2: Block| b2 != b ==> #[trigger] post.live(b2) == pre.live(b2)
}

/// `post` differs from `pre` by one allocation less, `b`.
pub open spec fn releases_block(pre: &AllocatorImpl, post: &AllocatorImpl, b: Block) -> bool {
    &&& pre.live(b)
    &&& !post.live(b)
    &&& forall|b2: Block| b2 != b ==> #[trigger] post.live(b2) == pre.live(b2)
}

/// Classes other than `c` keep their stacks, fresh records and counters.
pub open spec fn classes_kept_except(pre: &AllocatorImpl, post: &AllocatorImpl, c: int) -> bool {
    forall|d: int|
        0 <= d < NUM_SIZE_CLASSES && d != c ==> {
            &&& #[trigger] post.free_minipages(d) == pre.free_minipages(d)
            &&& post.free_segments(d) == pre.free_segments(d)
            &&& post.fresh_minipage(d) == pre.fresh_minipage(d)
            &&& post.fresh_count(d) == pre.fresh_count(d)
            &&& post.reused_count(d) == pre.reused_count(d)
        }
}

/// The slots of `pre` other than `i` keep their kind, class, stack flag and
/// bitmap.
pub open spec fn pages_kept_except(pre: &AllocatorImpl, post: &AllocatorImpl, i: int) -> bool {
    &&& forall|j: int|
        0 <= j < pre.page_count() && j != i ==> {
            &&& #[trigger] post.is_small_page(j) == pre.is_small_page(j)
            &&& post.page_class(j) == pre.page_class(j)
            &&& post.on_stack(j) == pre.on_stack(j)
        }
    &&& forall|j: int, t: int|
        0 <= j < pre.page_count() && j != i ==> #[trigger] post.seg_free(j, t) == pre.seg_free(j, t)
}

/// The stacks, flags and fresh record that an allocation of segment `s` of
/// minipage `i`, class index `c`, leaves: the minipage stays current with
/// the rest of its stack while it has a free segment; once full it leaves
/// the stack, and the next minipage's free segments are loaded.
pub open spec fn small_alloc_stacks(pre: &AllocatorImpl, post: &AllocatorImpl, c: int, i: int, s: int) -> bool {
    let n = class_segments(c) as int;
    let new_page = i == pre.page_count();
    let fm_mid = if new_page {
        pre.free_minipages(c).push(i as u16)
    } else {
        pre.free_minipages(c)
    };
    let fresh_mid = if new_page {
        Some(i as u16)
    } else {
        pre.fresh_minipage(c)
    };
    &&& classes_kept_except(pre, post, c)
    &&& pages_kept_except(pre, post, i)
    &&& post.big_headers() == pre.big_headers()
    &&& post.is_small_page(i)
    &&& !post.seg_free(i, s)
    &&& forall|t: int|
        0 <= t < n && t != s ==> #[trigger] post.seg_free(i, t) == (new_page || pre.seg_free(i, t))
    &&& if post.has_free_segment(i) {
        &&& post.free_minipages(c) == fm_mid
        &&& post.on_stack(i)
        &&& post.fresh_minipage(c) == fresh_mid
        &&& post.free_segments(c) == (if new_page {
            free_run(post, i, 0, n)
        } else {
            pre.free_segments(c).drop_last()
        })
    } else {
        &&& post.free_minipages(c) == fm_mid.drop_last()
        &&& !post.on_stack(i)
        &&& post.fresh_minipage(c) == (if fresh_mid == Some(i as u16) {
            None
        } else {
            fresh_mid
        })
        &&& post.free_segments(c) == match post.current_page(c) {
            Some(q) => free_run(post, q as int, 0, n),
            None => Seq::empty(),
        }
    }
}

/// The minipage and segment that the next allocation of class index `c`
/// takes, or `None` when it must fail.
pub open spec fn small_pick(pre: &AllocatorImpl, c: int) -> Option<(int, int)> {
    if !pre.needs_fresh(c) && pre.current_page(c) is Some {
        Some((pre.current_page(c).unwrap() as int, pre.next_segment(c).unwrap_or(0) as int))
    } else if pre.room_for(MINI_PAGE_ALLOC_BYTES as int) {
        Some((pre.page_count(), 0))
    } else {
        None
    }
}

/// What an allocation of class `e` does, from `pre` to `post`, returning `r`.
pub open spec fn small_alloc_result(pre: &AllocatorImpl, post: &AllocatorImpl, e: int, r: int) -> bool {
    let c = e - MIN_SIZE_CLASS;
    match small_pick(pre, c) {
        Some((i, s)) => {
            let from_fresh = i == pre.page_count() || pre.fresh_minipage(c) == Some(i as u16);
            &&& r == pre.alloc_start() + i * MINI_PAGE_ALLOC_BYTES + s * pow2(e as nat)
            &&& small_alloc_stacks(pre, post, c, i, s)
            &&& takes_block(pre, post, Block::Small { page: i, segment: s })
            &&& post.page_class(i) == e
            &&& post.page_count() == (if i == pre.page_count() {
                pre.page_count() + 1
            } else {
                pre.page_count()
            })
            &&& post.fresh_count(c) == (if from_fresh {
                sat_inc(pre.fresh_count(c))
            } else {
                pre.fresh_count(c)
            })
            &&& post.reused_count(c) == (if from_fresh {
                pre.reused_count(c)
            } else {
                sat_inc(pre.reused_count(c))
            })
        },
        None => {
            &&& r == 0
            &&& post.same_state(pre)
            &&& post.failure() == Some(AllocFail::AddMiniPageNoSpace)
        },
    }
}

impl AllocatorImpl {
    /// All but the failure cause equal those of `pre`.
    pub closed spec fn same_state(&self, pre: &AllocatorImpl) -> bool {
        *self == AllocatorImpl { failure: self.failure, ..*pre }
    }

    /// Every slot of `pre` keeps its kind, class and bitmap; new slots are
    /// free minipages; big allocations are unchanged.
    closed spec fn bitmap_frame(&self, pre: &AllocatorImpl) -> bool {
        &&& pre.page_count() <= self.page_count()
        &&& self.big_allocs == pre.big_allocs
        &&& forall|j: int|
            #![trigger self.is_small_page(j)]
            0 <= j < pre.page_count() ==> self.is_small_page(j) == pre.is_small_page(j)
                && self.page_class(j) == pre.page_class(j)
        &&& forall|j: int, t: int|
            0 <= j < pre.page_count() ==> #[trigger] self.seg_free(j, t) == pre.seg_free(j, t)
        &&& forall|j: int, t: int|
            pre.page_count() <= j < self.page_count() ==> self.is_small_page(j) && 0 <= t
                < segments_per_minipage(self.page_class(j) as nat) ==> #[trigger] self.seg_free(j, t)
    }
}

/// Under a bitmap frame, no allocation changes its state.
proof fn lemma_bitmap_frame_blocks(pre: &AllocatorImpl, post: &AllocatorImpl)
    requires
        post.bitmap_frame(pre),
    ensures
        forall|b: Block| #[trigger] post.live(b) == pre.live(b),
{
    assert forall|b: Block| #[trigger] post.live(b) == pre.live(b) by {
        match b {
            Block::Small { page, segment } => {
                if 0 <= page < pre.page_count() {
                    assert(post.is_small_page(page) == pre.is_small_page(page));
                    assert(post.seg_free(page, segment) == pre.seg_free(page, segment));
                } else if pre.page_count() <= page < post.page_count() {
                    assert(!pre.is_small_page(page));
                }
            },
            Block::Big { index } => {},
        }
    }
}

/// Frames compose.
proof fn lemma_bitmap_frame_trans(a: &AllocatorImpl, b: &AllocatorImpl, c: &AllocatorImpl)
    requires
        b.bitmap_frame(a),
        c.bitmap_frame(b),
    ensures
        c.bitmap_frame(a),
{
    assert forall|j: int, t: int|
        a.page_count() <= j < c.page_count() && c.is_small_page(j) && 0 <= t
            < segments_per_minipage(c.page_class(j) as nat) implies #[trigger] c.seg_free(j, t) by {
        if j < b.page_count() {
            assert(c.is_small_page(j) == b.is_small_page(j));
            assert(c.seg_free(j, t) == b.seg_free(j, t));
        }
    }
}

} // verus!

verus! {

impl AllocatorImpl {
    /// Allocates one segment of `size_class`, choosing between the current
    /// minipage and a fresh one by the fresh/reused policy.
    #[verifier::rlimit(40)]
    fn alloc_small(&mut self, size_class: SizeClass) -> (r: usize)
        requires
            old(self).wf(),
            old(self).is_init(),
            MIN_SIZE_CLASS <= size_class.exp <= MAX_SIZE_CLASS,
        ensures
            final(self).wf(),
            final(self).is_init(),
            final(self).base() == old(self).base(),
            small_alloc_result(old(self), final(self), size_class.exp as int, r as int),
            forall|c: int|
                0 <= c < NUM_SIZE_CLASSES && c != size_class.exp - MIN_SIZE_CLASS ==> (
                #[trigger] final(self).fresh_count(c)) == old(self).fresh_count(c)
                    && final(self).reused_count(c) == old(self).reused_count(c),
    {
        let ghost pre = *old(self);
        let ci = size_class.exp_as_idx();
        let ghost c = ci as int;
        proof {
            lemma_class_facts(size_class.exp as nat);
            assert(pre.segments_ok(c));
        }
        let need_fresh = self.total_alloc_reused[ci] > 0 && self.total_alloc_fresh[ci]
            < self.total_alloc_reused[ci];
        let mut page: u16 = 0;
        let mut have_page = false;
        if !need_fresh {
            match self.meta_page.free_minipages[ci].peek() {
                Some(p) => {
                    page = p;
                    have_page = true;
                },
                None => {},
            }
        }
        let ghost from_fresh: bool;
        if !have_page {
            match self.add_minipage(size_class.exp) {
                None => {
                    self.failure = Some(AllocFail::AddMiniPageNoSpace);
                    proof {
                        lemma_same_state(&pre, self);
                    }
                    return 0;
                },
                Some(p) => {
                    let ghost mid = *self;
                    proof {
                        assert(mid.bitmap_frame(&pre)) by {
                            assert forall|j: int|
                                0 <= j < pre.page_count() implies mid.is_small_page(j)
                                == pre.is_small_page(j) && mid.page_class(j) == pre.page_class(j) by {
                                assert(mid.meta_page.minipage_headers@[j] == pre.meta_page.minipage_headers@[j]);
                            }
                            assert forall|j: int, t: int|
                                0 <= j < pre.page_count() implies #[trigger] mid.seg_free(j, t) == pre.seg_free(j, t) by {
                                assert(mid.meta_page.minipage_headers@[j] == pre.meta_page.minipage_headers@[j]);
                            }
                        }
                    }
                    let got = self.free_segments_update(ci, p);
                    page = p;
                    proof {
                        from_fresh = true;
                        assert(mid.seg_free(p as int, 0));
                        assert(got == Some(0u16)) by {
                            if let Some(g) = got {
                                if g > 0 {
                                    assert(!mid.seg_free(p as int, 0));
                                }
                            }
                        }
                        assert(self.bitmap_frame(&mid));
                        lemma_bitmap_frame_trans(&pre, &mid, self);
                        assert(forall|t: int| #[trigger] self.seg_free(p as int, t) == mid.seg_free(p as int, t));
                        lemma_free_run_frame(&mid, self, p as int, p as int, 0, class_segments(c) as int);
                        assert(forall|t: int| 0 <= t < class_segments(c) ==> #[trigger] self.seg_free(p as int, t));
                        assert(self.on_stack(p as int));
                        assert(forall|d: int| 0 <= d < NUM_SIZE_CLASSES && d != c ==> #[trigger] self.free_segments(d) == pre.free_segments(d));
                    }
                },
            }
        } else {
            proof {
                from_fresh = pre.fresh_minipage(c) == Some(page);
                assert(self.bitmap_frame(&pre));
            }
        }
        let ghost mid = *self;
        proof {
            assert(mid.segments_ok(c));
            assert(mid.current_page(c) == Some(page));
            assert(mid.stacked_page_ok(c, mid.free_minipages(c).last() as int));
            let t = choose|t: int|
                0 <= t < segments_per_minipage(mid.page_class(page as int) as nat) && #[trigger] mid.seg_free(page as int, t);
            assert(mid.free_segments(c).contains(t as u16));
            assert(mid.free_segments(c).len() > 0);
            assert(mid.meta_page.free_segments@[c].wf());
        }
        let s = match self.meta_page.free_segments[ci].pop() {
            Some(s) => s,
            None => {
                self.failure = Some(AllocFail::FreeMiniPagesContractBreach);
                return 0;
            },
        };
        proof {
            let fs0 = mid.free_segments(c);
            assert(s == fs0[fs0.len() - 1]);
            assert(fs0.contains(s));
        }
        if self.fresh_minipages[ci] == Some(page) {
            let v = self.total_alloc_fresh[ci];
            self.total_alloc_fresh[ci] = if v < u32::MAX {
                v + 1
            } else {
                v
            };
        } else {
            let v = self.total_alloc_reused[ci];
            self.total_alloc_reused[ci] = if v < u32::MAX {
                v + 1
            } else {
                v
            };
        }
        self.meta_page.minipage_headers[page as usize].write_free_bitmap(s, false);
        let ghost taken = *self;
        proof {
            let p = page as int;
            assert(mid.stacked_page_ok(c, p));
            assert(taken.meta_page.minipage_headers@.len() == mid.meta_page.minipage_headers@.len());
            assert forall|j: int| 0 <= j < mid.page_count() && j != p implies #[trigger] taken.meta_page.minipage_headers@[j]
                == mid.meta_page.minipage_headers@[j] by {}
            assert(taken.meta_page.minipage_headers@[p].wf());
            assert(taken.page_class(p) == mid.page_class(p));
            assert(forall|t: int| 0 <= t < 8 * MINI_PAGE_FREE_SEGMENTS_SIZE && t != s ==> #[trigger] taken.seg_free(p, t) == mid.seg_free(p, t));
            assert(taken.meta_page.free_segments@.len() == mid.meta_page.free_segments@.len());
            assert forall|d: int| 0 <= d < NUM_SIZE_CLASSES && d != c implies #[trigger] taken.meta_page.free_segments@[d]
                == mid.meta_page.free_segments@[d] by {}
            assert(segment_taken(&mid, &taken, c, p, s as int));
            let fs0 = mid.free_segments(c);
            assert(s == fs0.last());
            assert(taken.free_segments(c) == fs0.drop_last());
            assert(fs0.contains(s));
            assert(mid.seg_free(page as int, s as int));
            assert forall|t: u16|
                #![trigger taken.free_segments(c).contains(t)]
                taken.free_segments(c).contains(t) <==> (t < class_segments(c) && taken.seg_free(page as int, t as int)) by {
                if taken.free_segments(c).contains(t) {
                    let k = choose|k: int| 0 <= k < fs0.len() - 1 && fs0.drop_last()[k] == t;
                    assert(fs0[k] == t);
                    assert(fs0.contains(t));
                    assert(t != s);
                }
                if t != s && fs0.contains(t) {
                    let k = choose|k: int| 0 <= k < fs0.len() && fs0[k] == t;
                    assert(k != fs0.len() - 1);
                    assert(fs0.drop_last()[k] == t);
                }
            }
        }
        if self.meta_page.free_segments[ci].size() == 0 {
            self.meta_page.free_minipages[ci].pop();
            self.meta_page.minipage_headers[page as usize].on_free_minipages_stack = false;
            if self.fresh_minipages[ci] == Some(page) {
                self.fresh_minipages.set(ci, None);
            }
            let ghost popped = *self;
            proof {
                let p = page as int;
                assert forall|j: int| 0 <= j < mid.page_count() && j != p implies #[trigger] popped.meta_page.minipage_headers@[j]
                    == mid.meta_page.minipage_headers@[j] by {
                    assert(popped.meta_page.minipage_headers@[j] == taken.meta_page.minipage_headers@[j]);
                }
                assert(forall|t: int| #[trigger] popped.seg_free(p, t) == taken.seg_free(p, t));
                assert(popped.page_class(p) == taken.page_class(p));
                assert forall|d: int| 0 <= d < NUM_SIZE_CLASSES && d != c implies #[trigger] popped.meta_page.free_minipages@[d]
                    == mid.meta_page.free_minipages@[d] by {}
                assert(segment_taken(&mid, &popped, c, p, s as int));
                assert(popped.bitmap_frame(&taken));
                assert(!popped.has_free_segment(page as int)) by {
                    if popped.has_free_segment(page as int) {
                        let t = choose|t: int|
                            0 <= t < segments_per_minipage(popped.page_class(page as int) as nat) && #[trigger] popped.seg_free(page as int, t);
                        assert(taken.seg_free(page as int, t));
                        assert(taken.free_segments(c).contains(t as u16));
                    }
                }
                lemma_popped_core(&mid, &popped, c, page as int, s as int);
            }
            match self.meta_page.free_minipages[ci].peek() {
                Some(q) => {
                    self.free_segments_update(ci, q);
                    proof {
                        assert(self.bitmap_frame(&popped));
                        lemma_bitmap_frame_trans(&taken, &popped, self);
                        assert(forall|t: int| #[trigger] self.seg_free(q as int, t) == popped.seg_free(q as int, t));
                        lemma_free_run_frame(&popped, self, q as int, q as int, 0, class_segments(c) as int);
                        assert(self.current_page(c) == Some(q));
                    }
                },
                None => {},
            }
            proof {
                let p = page as int;
                assert(self.free_minipages(c) == taken.free_minipages(c).drop_last());
                assert(forall|d: int| 0 <= d < NUM_SIZE_CLASSES && d != c ==> #[trigger] self.free_minipages(d) == taken.free_minipages(d));
                assert(forall|d: int| 0 <= d < NUM_SIZE_CLASSES && d != c ==> #[trigger] self.free_segments(d) == taken.free_segments(d));
                assert(forall|d: int| 0 <= d < NUM_SIZE_CLASSES && d != c ==> #[trigger] self.fresh_minipage(d) == taken.fresh_minipage(d));
                assert(forall|d: int| 0 <= d < NUM_SIZE_CLASSES && d != c ==> #[trigger] self.fresh_count(d) == taken.fresh_count(d));
                assert(classes_kept_except(&taken, self, c));
                assert(!self.on_stack(p));
                assert forall|j: int|
                    0 <= j < taken.page_count() && j != p implies {
                        &&& #[trigger] self.is_small_page(j) == taken.is_small_page(j)
                        &&& self.page_class(j) == taken.page_class(j)
                        &&& self.on_stack(j) == taken.on_stack(j)
                    } by {
                    assert(self.meta_page.minipage_headers@[j] == taken.meta_page.minipage_headers@[j]);
                }
                assert forall|j: int, t: int|
                    0 <= j < taken.page_count() && j != p implies #[trigger] self.seg_free(j, t) == taken.seg_free(j, t) by {
                    assert(self.meta_page.minipage_headers@[j] == taken.meta_page.minipage_headers@[j]);
                }
                assert(pages_kept_except(&taken, self, p));
                assert(forall|t: int| #[trigger] self.seg_free(p, t) == taken.seg_free(p, t));
                assert(self.is_small_page(p));
                assert(self.page_class(p) == taken.page_class(p));
                assert(self.fresh_minipage(c) == (if taken.fresh_minipage(c) == Some(page) {
                    None
                } else {
                    taken.fresh_minipage(c)
                }));
                assert(self.big_headers() == taken.big_headers());
                assert(self.free_segments(c) == match self.current_page(c) {
                    Some(q) => free_run(self, q as int, 0, class_segments(c) as int),
                    None => Seq::empty(),
                });
            }
        } else {
            proof {
                lemma_taken_core(&mid, &taken, c, page as int, s as int);
                assert(self.bitmap_frame(&taken));
            }
        }
        proof {
            assert(taken.segments_ok(c));
            assert(mid.stacked_page_ok(c, page as int));
            assert(forall|d: int| 0 <= d < NUM_SIZE_CLASSES && d != c ==> #[trigger] taken.free_segments(d) == mid.free_segments(d));
            assert(forall|d: int| 0 <= d < NUM_SIZE_CLASSES && d != c ==> #[trigger] taken.fresh_count(d) == mid.fresh_count(d));
            lemma_small_alloc_stacks(&pre, &mid, &taken, self, c, page as int, s as int);
        }
        proof {
            lemma_bitmap_frame_blocks(&pre, &mid);
            lemma_take_blocks(&mid, &taken, c, page as int, s as int);
            lemma_bitmap_frame_blocks(&taken, self);
            assert(self.page_class(page as int) == taken.page_class(page as int));
        }
        proof {
            assert(page < mid.page_count());
            assert(self.base_ptr == pre.base_ptr);
        }
        let seg = MiniPageMeta::new(page as usize).get_segment(size_class, s as usize);
        let addr = seg.as_addr();
        let off = addr.addr;
        proof {
            assert(s * pow2(size_class.exp as nat) < 2048) by (nonlinear_arith)
                requires
                    s < segments_per_minipage(size_class.exp as nat),
                    pow2(size_class.exp as nat) * segments_per_minipage(size_class.exp as nat) == 2048,
            ;
        }
        addr.as_ptr(self.base_ptr + (META_PAGE_BYTES as usize))
    }
}

} // verus!

verus! {

/// `post` is `pre` with segment `s` of minipage `page` marked used, the top
/// of the free-segments stack of class index `c` removed, and the counters
/// of that class possibly changed.
closed spec fn segment_taken(pre: &AllocatorImpl, post: &AllocatorImpl, c: int, page: int, s: int) -> bool {
    &&& post.did_init_heap == pre.did_init_heap
    &&& post.base_ptr == pre.base_ptr
    &&& post.meta_page.big_alloc_flags == pre.meta_page.big_alloc_flags
    &&& post.big_allocs == pre.big_allocs
    &&& post.next_alloc == pre.next_alloc
    &&& post.minipage_lists == pre.minipage_lists
    &&& post.meta_page.minipage_headers@.len() == pre.meta_page.minipage_headers@.len()
    &&& forall|j: int|
        0 <= j < pre.page_count() && j != page ==> #[trigger] post.meta_page.minipage_headers@[j]
            == pre.meta_page.minipage_headers@[j]
    &&& post.meta_page.minipage_headers@[page].wf()
    &&& post.page_class(page) == pre.page_class(page)
    &&& forall|t: int|
        0 <= t < 8 * MINI_PAGE_FREE_SEGMENTS_SIZE && t != s ==> #[trigger] post.seg_free(page, t)
            == pre.seg_free(page, t)
    &&& !post.seg_free(page, s)
    &&& post.meta_page.free_segments@.len() == pre.meta_page.free_segments@.len()
    &&& forall|d: int|
        0 <= d < NUM_SIZE_CLASSES && d != c ==> #[trigger] post.meta_page.free_segments@[d]
            == pre.meta_page.free_segments@[d]
    &&& post.meta_page.free_segments@[c].wf()
    &&& post.meta_page.free_segments@[c].capacity() == pre.meta_page.free_segments@[c].capacity()
}

/// Taking a segment from the current minipage, which keeps a free one,
/// keeps the invariant.
proof fn lemma_taken_core(pre: &AllocatorImpl, post: &AllocatorImpl, c: int, page: int, s: int)
    requires
        pre.wf(),
        0 <= c < NUM_SIZE_CLASSES,
        0 <= page <= u16::MAX,
        pre.current_page(c) == Some(page as u16),
        segment_taken(pre, post, c, page, s),
        post.meta_page.free_minipages == pre.meta_page.free_minipages,
        post.meta_page.minipage_headers@[page].on_free_minipages_stack == pre.meta_page.minipage_headers@[page].on_free_minipages_stack,
        post.fresh_minipages == pre.fresh_minipages,
        post.segments_ok(c),
        post.free_segments(c).len() > 0,
    ensures
        post.wf(),
{
    assert(pre.stacked_page_ok(c, page));
    assert(pre.did_init_heap) by {
        if !pre.did_init_heap {
            assert(pre.free_minipages(c).len() == 0);
        }
    }
    assert(forall|j: int| #[trigger] post.is_small_page(j) == pre.is_small_page(j));
    assert(forall|j: int| 0 <= j < pre.page_count() ==> #[trigger] post.page_class(j) == pre.page_class(j));
    assert(forall|j: int| 0 <= j < pre.page_count() ==> #[trigger] post.on_stack(j) == pre.on_stack(j));
    assert(forall|j: int, t: int| 0 <= j < pre.page_count() && j != page ==> #[trigger] post.seg_free(j, t) == pre.seg_free(j, t));
    assert forall|d: int| 0 <= d < NUM_SIZE_CLASSES implies {
        &&& (#[trigger] post.meta_page.free_minipages@[d]).wf()
        &&& post.meta_page.free_minipages@[d].capacity() == MAX_MINI_PAGES
        &&& post.meta_page.free_segments@[d].wf()
        &&& post.meta_page.free_segments@[d].capacity() == class_segments(d)
        &&& post.free_minipages(d).no_duplicates()
    } by {
        assert(pre.meta_page.free_minipages@[d].wf());
        assert(pre.meta_page.free_segments@[d].capacity() == class_segments(d));
    }
    assert forall|d: int, k: int|
        0 <= d < NUM_SIZE_CLASSES && 0 <= k < post.free_minipages(d).len() implies post.stacked_page_ok(
        d,
        #[trigger] post.free_minipages(d)[k] as int,
    ) by {
        let j = post.free_minipages(d)[k] as int;
        assert(pre.stacked_page_ok(d, j));
        if j == page {
            let fs = post.free_segments(c);
            let t = fs[fs.len() - 1];
            assert(fs.contains(t));
            assert(post.seg_free(page, t as int));
        } else {
            let t = choose|t: int|
                0 <= t < segments_per_minipage(pre.page_class(j) as nat) && #[trigger] pre.seg_free(j, t);
            assert(post.seg_free(j, t));
        }
    }
    assert forall|j: int| 0 <= j < post.big_allocs@.len() implies #[trigger] post.big_ok(j) by {
        assert(pre.big_ok(j));
    }
    assert forall|d: int| 0 <= d < NUM_SIZE_CLASSES implies #[trigger] post.segments_ok(d) by {
        if d != c {
            assert(pre.segments_ok(d));
            assert(post.free_segments(d) == pre.free_segments(d));
            if let Some(q) = pre.current_page(d) {
                assert(pre.stacked_page_ok(d, q as int));
                assert(q != page);
                assert forall|t: u16| #[trigger] post.seg_free(q as int, t as int) == pre.seg_free(q as int, t as int) by {}
            }
        }
    }
}

} // verus!

verus! {

/// Taking the last free segment of the current minipage and popping that
/// minipage keeps the invariant, but for the class's free-segments stack
/// when another minipage becomes current.
proof fn lemma_popped_core(pre: &AllocatorImpl, post: &AllocatorImpl, c: int, page: int, s: int)
    requires
        pre.wf(),
        0 <= c < NUM_SIZE_CLASSES,
        0 <= page <= u16::MAX,
        pre.current_page(c) == Some(page as u16),
        segment_taken(pre, post, c, page, s),
        post.meta_page.free_minipages@.len() == pre.meta_page.free_minipages@.len(),
        forall|d: int|
            0 <= d < NUM_SIZE_CLASSES && d != c ==> #[trigger] post.meta_page.free_minipages@[d]
                == pre.meta_page.free_minipages@[d],
        post.meta_page.free_minipages@[c].wf(),
        post.meta_page.free_minipages@[c].capacity() == pre.meta_page.free_minipages@[c].capacity(),
        post.free_minipages(c) == pre.free_minipages(c).drop_last(),
        !post.on_stack(page),
        post.free_segments(c).len() == 0,
        !post.has_free_segment(page),
        post.fresh_minipages@.len() == pre.fresh_minipages@.len(),
    ensures
        post.wf_core(),
        forall|d: int| 0 <= d < NUM_SIZE_CLASSES && d != c ==> #[trigger] post.segments_ok(d),
        post.current_page(c) is None ==> post.segments_ok(c),
{
    assert(pre.stacked_page_ok(c, page));
    assert(pre.did_init_heap) by {
        if !pre.did_init_heap {
            assert(pre.free_minipages(c).len() == 0);
        }
    }
    let fm0 = pre.free_minipages(c);
    assert(fm0.last() == page as u16);
    assert(!post.free_minipages(c).contains(page as u16)) by {
        if post.free_minipages(c).contains(page as u16) {
            let k = choose|k: int| 0 <= k < fm0.len() - 1 && fm0.drop_last()[k] == page as u16;
            assert(fm0[k] == fm0[fm0.len() - 1]);
        }
    }
    assert(forall|j: int| #[trigger] post.is_small_page(j) == pre.is_small_page(j));
    assert(forall|j: int| 0 <= j < pre.page_count() ==> #[trigger] post.page_class(j) == pre.page_class(j));
    assert(forall|j: int| 0 <= j < pre.page_count() && j != page ==> #[trigger] post.on_stack(j) == pre.on_stack(j));
    assert(forall|j: int, t: int| 0 <= j < pre.page_count() && j != page ==> #[trigger] post.seg_free(j, t) == pre.seg_free(j, t));
    assert forall|d: int| 0 <= d < NUM_SIZE_CLASSES implies {
        &&& (#[trigger] post.meta_page.free_minipages@[d]).wf()
        &&& post.meta_page.free_minipages@[d].capacity() == MAX_MINI_PAGES
        &&& post.meta_page.free_segments@[d].wf()
        &&& post.meta_page.free_segments@[d].capacity() == class_segments(d)
        &&& post.free_minipages(d).no_duplicates()
    } by {
        assert(pre.meta_page.free_minipages@[d].wf());
        assert(pre.meta_page.free_segments@[d].capacity() == class_segments(d));
        if d == c {
            assert forall|i: int, j: int| 0 <= i < j < post.free_minipages(c).len() implies post.free_minipages(c)[i] != post.free_minipages(c)[j] by {
                assert(fm0[i] != fm0[j]);
            }
        }
    }
    assert forall|d: int, k: int|
        0 <= d < NUM_SIZE_CLASSES && 0 <= k < post.free_minipages(d).len() implies post.stacked_page_ok(
        d,
        #[trigger] post.free_minipages(d)[k] as int,
    ) by {
        let j = post.free_minipages(d)[k] as int;
        assert(post.free_minipages(d)[k] == pre.free_minipages(d)[k]);
        assert(pre.stacked_page_ok(d, j));
        if j == page {
            if d == c {
                assert(post.free_minipages(c).contains(page as u16));
            } else {
                assert(pre.page_class(page) == c + MIN_SIZE_CLASS);
            }
        } else {
            let t = choose|t: int|
                0 <= t < segments_per_minipage(pre.page_class(j) as nat) && #[trigger] pre.seg_free(j, t);
            assert(post.seg_free(j, t));
        }
    }
    assert forall|j: int|
        #![trigger post.on_stack(j)]
        post.is_small_page(j) && post.on_stack(j) implies post.free_minipages(
        post.page_class(j) - MIN_SIZE_CLASS,
    ).contains(j as u16) by {
        assert(j != page);
        assert(pre.on_stack(j));
        let d = pre.page_class(j) - MIN_SIZE_CLASS;
        assert(pre.free_minipages(d).contains(j as u16));
        let k = choose|k: int| 0 <= k < pre.free_minipages(d).len() && pre.free_minipages(d)[k] == j as u16;
        if d == c {
            assert(k != fm0.len() - 1);
            assert(post.free_minipages(c)[k] == j as u16);
        } else {
            assert(post.free_minipages(d)[k] == j as u16);
        }
    }
    assert forall|j: int| 0 <= j < post.big_allocs@.len() implies #[trigger] post.big_ok(j) by {
        assert(pre.big_ok(j));
    }
    assert forall|d: int| 0 <= d < NUM_SIZE_CLASSES && d != c implies #[trigger] post.segments_ok(d) by {
        assert(pre.segments_ok(d));
        assert(post.free_segments(d) == pre.free_segments(d));
        assert(post.free_minipages(d) == pre.free_minipages(d));
        if let Some(q) = pre.current_page(d) {
            assert(pre.stacked_page_ok(d, q as int));
            assert(q != page);
            assert forall|t: u16| #[trigger] post.seg_free(q as int, t as int) == pre.seg_free(q as int, t as int) by {}
        }
    }
}

/// Marking one free segment used takes exactly that allocation.
proof fn lemma_take_blocks(pre: &AllocatorImpl, post: &AllocatorImpl, c: int, page: int, s: int)
    requires
        pre.wf_core(),
        segment_taken(pre, post, c, page, s),
        pre.is_small_page(page),
        pre.seg_free(page, s),
        0 <= s < segments_per_minipage(pre.page_class(page) as nat),
    ensures
        takes_block(pre, post, Block::Small { page, segment: s }),
{
    assert forall|b2: Block| b2 != (Block::Small { page, segment: s }) implies #[trigger] post.live(b2) == pre.live(b2) by {
        match b2 {
            Block::Small { page: j, segment: t } => {
                assert(post.is_small_page(j) == pre.is_small_page(j));
                if j == page {
                    lemma_class_facts(pre.page_class(page) as nat);
                }
                if 0 <= j < pre.page_count() {
                    if j != page {
                        assert(post.meta_page.minipage_headers@[j] == pre.meta_page.minipage_headers@[j]);
                    }
                }
            },
            Block::Big { index } => {},
        }
    }
}

} // verus!

verus! {

/// A state that differs only in its failure cause keeps the invariant and
/// its allocations.
proof fn lemma_same_state(pre: &AllocatorImpl, post: &AllocatorImpl)
    requires
        pre.wf(),
        post.same_state(pre),
    ensures
        post.wf(),
        forall|b: Block| #[trigger] post.live(b) == pre.live(b),
        forall|c: int| #[trigger] post.current_page(c) == pre.current_page(c),
        view_kept(pre, post),
{
    assert(post.did_init_heap == pre.did_init_heap);
    assert(post.base_ptr == pre.base_ptr);
    assert(post.meta_page == pre.meta_page);
    assert(post.big_allocs == pre.big_allocs);
    assert(post.next_alloc == pre.next_alloc);
    assert(post.minipage_lists == pre.minipage_lists);
    assert(post.fresh_minipages == pre.fresh_minipages);
    assert(forall|c: int| #[trigger] post.segments_ok(c) == pre.segments_ok(c));
    assert(forall|j: int| #[trigger] post.big_ok(j) == pre.big_ok(j));
    assert(forall|i: int| #[trigger] post.is_small_page(i) == pre.is_small_page(i));
    assert(forall|i: int| #[trigger] post.on_stack(i) == pre.on_stack(i));
    assert(forall|i: int| #[trigger] post.page_class(i) == pre.page_class(i));
    assert(forall|i: int, t: int| #[trigger] post.seg_free(i, t) == pre.seg_free(i, t));
    assert(forall|c: int| #[trigger] post.free_minipages(c) == pre.free_minipages(c));
    assert(forall|c: int| #[trigger] post.free_segments(c) == pre.free_segments(c));
    assert forall|i: int| #[trigger] post.has_free_segment(i) == pre.has_free_segment(i) by {
        if pre.has_free_segment(i) {
            let t = choose|t: int|
                0 <= t < segments_per_minipage(pre.page_class(i) as nat) && #[trigger] pre.seg_free(i, t);
            assert(post.seg_free(i, t));
        }
        if post.has_free_segment(i) {
            let t = choose|t: int|
                0 <= t < segments_per_minipage(post.page_class(i) as nat) && #[trigger] post.seg_free(i, t);
            assert(pre.seg_free(i, t));
        }
    }
    assert(post.meta_page.free_minipages@.len() == NUM_SIZE_CLASSES);
    assert(post.meta_page.big_alloc_flags@.len() == post.page_count());
    assert(post.next_alloc == post.page_count() * MINI_PAGE_ALLOC_BYTES);
    assert(forall|i: int| 0 <= i < post.page_count() ==> (#[trigger] post.meta_page.minipage_headers@[i]).wf());
    assert(forall|i: int| #[trigger]
            post.is_small_page(i) ==> MIN_SIZE_CLASS <= post.page_class(i) <= MAX_SIZE_CLASS);
    assert(forall|c: int, k: int|
            0 <= c < NUM_SIZE_CLASSES && 0 <= k < post.free_minipages(c).len()
                ==> post.stacked_page_ok(c, #[trigger] post.free_minipages(c)[k] as int));
    assert(forall|i: int|
            #![trigger post.on_stack(i)]
            post.is_small_page(i) && post.on_stack(i) ==> post.free_minipages(
                post.page_class(i) - MIN_SIZE_CLASS,
            ).contains(i as u16));
    assert(forall|j: int| 0 <= j < post.big_allocs@.len() ==> #[trigger] post.big_ok(j));
    assert(forall|j: int, k: int|
            0 <= j < k < post.big_allocs@.len() ==> #[trigger] post.big_allocs@[j].start_idx
                + header_slots(post.big_allocs@[j]) <= #[trigger] post.big_allocs@[k].start_idx);
    assert(forall|c: int|
            0 <= c < NUM_SIZE_CLASSES ==> {
                &&& (#[trigger] post.meta_page.free_minipages@[c]).wf()
                &&& post.meta_page.free_minipages@[c].capacity() == MAX_MINI_PAGES
                &&& post.meta_page.free_segments@[c].wf()
                &&& post.meta_page.free_segments@[c].capacity() == class_segments(c)
                &&& post.free_minipages(c).no_duplicates()
            });
    assert(post.did_init_heap ==> post.base_ptr + REGION_BYTES <= usize::MAX);
    assert(post.wf_core());
}

} // verus!

verus! {

/// Big allocation `j` is free and holds at least `n` bytes.
pub open spec fn big_fits(pre: &AllocatorImpl, n: int, j: int) -> bool {
    0 <= j < pre.big_headers().len() && pre.big_headers()[j].free && pre.big_headers()[j].size_bytes
        >= n
}

/// `j` is the first fit for `n` bytes, walking the list from the newest.
pub open spec fn first_fit(pre: &AllocatorImpl, n: int, j: int) -> bool {
    &&& big_fits(pre, n, j)
    &&& forall|k: int| j < k < pre.big_headers().len() ==> !#[trigger] big_fits(pre, n, k)
}

/// What a big allocation of `n` bytes does, from `pre` to `post`, returning
/// `r`: reuse the first fit, else take new slots at the end, else fail.
pub open spec fn big_alloc_result(pre: &AllocatorImpl, post: &AllocatorImpl, n: int, r: int) -> bool {
    &&& forall|c: int|
        #![trigger post.fresh_count(c)]
        #![trigger post.reused_count(c)]
        post.fresh_count(c) == pre.fresh_count(c) && post.reused_count(c) == pre.reused_count(c)
    &&& classes_kept_except(pre, post, -1)
    &&& pages_kept_except(pre, post, -1)
    &&& forall|j: int| pre.page_count() <= j ==> !#[trigger] post.is_small_page(j)
    &&& if exists|j: int| big_fits(pre, n, j) {
        exists|j: int|
            {
                &&& first_fit(pre, n, j)
                &&& post.big_headers() == pre.big_headers().update(
                    j,
                    BigAllocHeader { free: false, ..pre.big_headers()[j] },
                )
                &&& r == pre.alloc_start() + pre.block_range(Block::Big { index: j }).0
                &&& post.block_range(Block::Big { index: j }) == pre.block_range(Block::Big { index: j })
                &&& takes_block(pre, post, Block::Big { index: j })
                &&& post.page_count() == pre.page_count()
            }
    } else if n <= ALLOC_AREA_BYTES && pre.room_for(big_alloc_slots(n as nat) * MINI_PAGE_ALLOC_BYTES) {
        let j = pre.big_headers().len() as int;
        &&& r == pre.alloc_start() + pre.page_count() * MINI_PAGE_ALLOC_BYTES + BIG_ALLOC_HEADER_BYTES
        &&& takes_block(pre, post, Block::Big { index: j })
        &&& post.big_headers() == pre.big_headers().push(
            BigAllocHeader {
                size_class_exp: ceil_log2(n as nat) as u8,
                start_idx: pre.page_count() as u16,
                free: false,
                size_bytes: (big_alloc_slots(n as nat) * MINI_PAGE_ALLOC_BYTES
                    - BIG_ALLOC_HEADER_BYTES) as u32,
            },
        )
        &&& post.page_count() == pre.page_count() + big_alloc_slots(n as nat)
    } else {
        &&& r == 0
        &&& post.same_state(pre)
        &&& post.failure() == Some(AllocFail::AddMiniPageNoSpace)
    }
}

impl AllocatorImpl {
    /// Serves a request above the largest size class from the big
    /// allocation list, or from new slots at the end of the region.
    fn alloc_big(&mut self, n: usize) -> (r: usize)
        requires
            old(self).wf(),
            old(self).is_init(),
            n > MINI_PAGE_ALLOC_BYTES,
        ensures
            final(self).wf(),
            final(self).is_init(),
            final(self).base() == old(self).base(),
            big_alloc_result(old(self), final(self), n as int, r as int),
            forall|c: int| #[trigger] final(self).current_page(c) == old(self).current_page(c),
    {
        let ghost pre = *old(self);
        let mut j = self.big_allocs.len();
        while j > 0
            invariant
                *self == pre,
                pre == *old(self),
                pre.wf(),
                j <= pre.big_allocs@.len(),
                forall|k: int| j <= k < pre.big_headers().len() ==> !#[trigger] big_fits(&pre, n as int, k),
            decreases j,
        {
            j = j - 1;
            let h = self.big_allocs[j];
            if h.free && h.size_bytes as usize >= n {
                self.big_allocs.set(j, BigAllocHeader { free: false, ..h });
                proof {
                    let post = *self;
                    assert(pre.big_ok(j as int));
                    assert(forall|k: int| 0 <= k < post.big_allocs@.len() && k != j ==> post.big_allocs@[k] == pre.big_allocs@[k]);
                    lemma_big_flag_only(&pre, &post, j as int);
                    assert(h.start_idx + header_slots(h) <= pre.page_count());
                    assert(post.wf_core());
                    assert(first_fit(&pre, n as int, j as int));
                    assert forall|b2: Block| b2 != (Block::Big { index: j as int }) implies #[trigger] post.live(b2) == pre.live(b2) by {}
                    assert(takes_block(&pre, &post, Block::Big { index: j as int }));
                    assert(pre.big_ok(j as int));
                }
                return self.base_ptr + (META_PAGE_BYTES as usize) + (h.start_idx as usize) * (
                MINI_PAGE_ALLOC_BYTES as usize) + (BIG_ALLOC_HEADER_BYTES as usize);
            }
        }
        proof {
            assert(!exists|k: int| big_fits(&pre, n as int, k));
        }
        if n > ALLOC_AREA_BYTES as usize {
            self.failure = Some(AllocFail::AddMiniPageNoSpace);
            proof {
                lemma_same_state(&pre, self);
            }
            return 0;
        }
        let (size_bytes, slots) = BigAllocHeader::compute_size(n);
        if self.next_alloc as usize + (slots as usize) * (MINI_PAGE_ALLOC_BYTES as usize)
            > ALLOC_AREA_BYTES as usize {
            self.failure = Some(AllocFail::AddMiniPageNoSpace);
            proof {
                lemma_same_state(&pre, self);
            }
            return 0;
        }
        let start = (self.next_alloc / MINI_PAGE_ALLOC_BYTES) as u16;
        let mut k: u32 = 0;
        while k < slots
            invariant
                pre == *old(self),
                pre.wf(),
                start == pre.page_count(),
                (start + slots) * MINI_PAGE_ALLOC_BYTES <= ALLOC_AREA_BYTES,
                k <= slots,
                self.meta_page.minipage_headers@.len() == pre.page_count() + k,
                self.meta_page.big_alloc_flags@.len() == pre.page_count() + k,
                forall|i: int|
                    0 <= i < pre.page_count() ==> #[trigger] self.meta_page.minipage_headers@[i]
                        == pre.meta_page.minipage_headers@[i],
                forall|i: int|
                    0 <= i < pre.page_count() ==> #[trigger] self.meta_page.big_alloc_flags@[i]
                        == pre.meta_page.big_alloc_flags@[i],
                forall|i: int|
                    pre.page_count() <= i < pre.page_count() + k ==> (
                    #[trigger] self.meta_page.minipage_headers@[i]).wf(),
                forall|i: int|
                    pre.page_count() <= i < pre.page_count() + k ==> #[trigger] self.meta_page.big_alloc_flags@[i]
                        == Some(start),
                self.meta_page.free_minipages == pre.meta_page.free_minipages,
                self.meta_page.free_segments == pre.meta_page.free_segments,
                self.did_init_heap == pre.did_init_heap,
                self.base_ptr == pre.base_ptr,
                self.big_allocs == pre.big_allocs,
                self.next_alloc == pre.next_alloc,
                self.minipage_lists == pre.minipage_lists,
                self.total_alloc_reused == pre.total_alloc_reused,
                self.total_alloc_fresh == pre.total_alloc_fresh,
                self.fresh_minipages == pre.fresh_minipages,
                self.failure == pre.failure,
            decreases slots - k,
        {
            self.meta_page.minipage_headers.push(MiniPageHeader::placeholder());
            self.meta_page.big_alloc_flags.push(Some(start));
            k = k + 1;
        }
        let exp = exp_for_bytes(n);
        self.big_allocs.push(
            BigAllocHeader { size_class_exp: exp, start_idx: start, free: false, size_bytes },
        );
        self.next_alloc = self.next_alloc + slots * MINI_PAGE_ALLOC_BYTES;
        proof {
            let post = *self;
            let jn = pre.big_allocs@.len() as int;
            assert(post.big_allocs@ == pre.big_allocs@.push(post.big_allocs@[jn]));
            assert(header_slots(post.big_allocs@[jn]) == slots);
            assert(forall|i: int| #[trigger] post.is_small_page(i) ==> 0 <= i < pre.page_count() && pre.is_small_page(i));
            assert(forall|i: int| 0 <= i < pre.page_count() ==> #[trigger] post.is_small_page(i) == pre.is_small_page(i));
            assert(forall|i: int, t: int| 0 <= i < pre.page_count() ==> #[trigger] post.seg_free(i, t) == pre.seg_free(i, t));
            assert(forall|i: int| 0 <= i < pre.page_count() ==> #[trigger] post.page_class(i) == pre.page_class(i));
            assert(forall|i: int| 0 <= i < pre.page_count() ==> #[trigger] post.on_stack(i) == pre.on_stack(i));
            assert forall|c: int, q: int|
                0 <= c < NUM_SIZE_CLASSES && 0 <= q < post.free_minipages(c).len() implies post.stacked_page_ok(
                c,
                #[trigger] post.free_minipages(c)[q] as int,
            ) by {
                let i = post.free_minipages(c)[q] as int;
                assert(pre.stacked_page_ok(c, i));
                let t = choose|t: int|
                    0 <= t < segments_per_minipage(pre.page_class(i) as nat) && #[trigger] pre.seg_free(i, t);
                assert(post.seg_free(i, t));
            }
            assert forall|c: int| 0 <= c < NUM_SIZE_CLASSES implies {
                &&& (#[trigger] post.meta_page.free_minipages@[c]).wf()
                &&& post.meta_page.free_minipages@[c].capacity() == MAX_MINI_PAGES
                &&& post.meta_page.free_segments@[c].wf()
                &&& post.meta_page.free_segments@[c].capacity() == class_segments(c)
                &&& post.free_minipages(c).no_duplicates()
            } by {
                assert(pre.meta_page.free_minipages@[c].wf());
                assert(pre.meta_page.free_segments@[c].wf());
            }
            assert forall|q: int| 0 <= q < post.big_allocs@.len() implies #[trigger] post.big_ok(q) by {
                if q < jn {
                    assert(pre.big_ok(q));
                    assert(post.big_allocs@[q] == pre.big_allocs@[q]);
                }
            }
            assert forall|a: int, b: int|
                0 <= a < b < post.big_allocs@.len() implies #[trigger] post.big_allocs@[a].start_idx
                    + header_slots(post.big_allocs@[a]) <= #[trigger] post.big_allocs@[b].start_idx by {
                if b == jn {
                    assert(pre.big_ok(a));
                }
            }
            assert forall|c: int| 0 <= c < NUM_SIZE_CLASSES implies #[trigger] post.segments_ok(c) by {
                assert(pre.segments_ok(c));
                if let Some(q) = pre.current_page(c) {
                    assert(pre.stacked_page_ok(c, q as int));
                }
            }
            assert(post.wf_core());
            assert forall|b2: Block| b2 != (Block::Big { index: jn }) implies #[trigger] post.live(b2) == pre.live(b2) by {
                match b2 {
                    Block::Small { page, segment } => {
                        if 0 <= page < pre.page_count() {
                            assert(post.is_small_page(page) == pre.is_small_page(page));
                        }
                    },
                    Block::Big { index } => {
                        if 0 <= index < jn {
                            assert(post.big_allocs@[index] == pre.big_allocs@[index]);
                        }
                    },
                }
            }
        }
        self.base_ptr + (META_PAGE_BYTES as usize) + (start as usize) * (MINI_PAGE_ALLOC_BYTES as usize)
            + (BIG_ALLOC_HEADER_BYTES as usize)
    }
}

} // verus!

verus! {

/// States with the same meta page agree on every minipage and stack.
proof fn lemma_meta_same(pre: &AllocatorImpl, post: &AllocatorImpl)
    requires
        post.meta_page == pre.meta_page,
    ensures
        forall|i: int| #[trigger] post.is_small_page(i) == pre.is_small_page(i),
        forall|i: int| #[trigger] post.on_stack(i) == pre.on_stack(i),
        forall|i: int| #[trigger] post.page_class(i) == pre.page_class(i),
        forall|i: int, t: int| #[trigger] post.seg_free(i, t) == pre.seg_free(i, t),
        forall|i: int| #[trigger] post.has_free_segment(i) == pre.has_free_segment(i),
        forall|c: int, i: int| #[trigger] post.stacked_page_ok(c, i) == pre.stacked_page_ok(c, i),
        forall|c: int| #[trigger] post.free_minipages(c) == pre.free_minipages(c),
        forall|c: int| #[trigger] post.free_segments(c) == pre.free_segments(c),
        forall|c: int| #[trigger] post.segments_ok(c) == pre.segments_ok(c),
{
    assert forall|i: int| #[trigger] post.has_free_segment(i) == pre.has_free_segment(i) by {
        if pre.has_free_segment(i) {
            let t = choose|t: int|
                0 <= t < segments_per_minipage(pre.page_class(i) as nat) && #[trigger] pre.seg_free(i, t);
            assert(post.seg_free(i, t));
        }
        if post.has_free_segment(i) {
            let t = choose|t: int|
                0 <= t < segments_per_minipage(post.page_class(i) as nat) && #[trigger] post.seg_free(i, t);
            assert(pre.seg_free(i, t));
        }
    }
}

} // verus!

verus! {

/// Big allocation `j` is live and holds offset `off`.
pub open spec fn big_holds(pre: &AllocatorImpl, off: int, j: int) -> bool {
    &&& pre.live(Block::Big { index: j })
    &&& pre.block_range(Block::Big { index: j }).0 <= off < pre.block_range(Block::Big { index: j }).1
}

/// `j` is the first big allocation holding `off`, walking from the newest.
pub open spec fn last_holder(pre: &AllocatorImpl, off: int, j: int) -> bool {
    &&& big_holds(pre, off, j)
    &&& forall|k: int| j < k < pre.big_headers().len() ==> !#[trigger] big_holds(pre, off, k)
}

/// Every stack, flag, bitmap, big header and counter of `pre` is kept.
pub open spec fn view_kept(pre: &AllocatorImpl, post: &AllocatorImpl) -> bool {
    &&& classes_kept_except(pre, post, -1)
    &&& pages_kept_except(pre, post, -1)
    &&& post.big_headers() == pre.big_headers()
    &&& post.page_count() == pre.page_count()
}

/// `post` has the same slots, minipage classes and big allocation ranges as
/// `pre`.
pub open spec fn same_layout(post: &AllocatorImpl, pre: &AllocatorImpl) -> bool {
    &&& post.is_init() == pre.is_init()
    &&& post.base() == pre.base()
    &&& post.page_count() == pre.page_count()
    &&& forall|i: int| #[trigger] post.is_small_page(i) == pre.is_small_page(i)
    &&& forall|i: int| 0 <= i < pre.page_count() ==> #[trigger] post.page_class(i) == pre.page_class(i)
    &&& post.big_headers().len() == pre.big_headers().len()
    &&& forall|j: int|
        0 <= j < pre.big_headers().len() ==> #[trigger] post.block_range(Block::Big { index: j })
            == pre.block_range(Block::Big { index: j })
}

/// What releasing the address `ptr` does, from `pre` to `post`: it frees
/// the segment or big allocation that holds `ptr`, and ignores an address
/// outside the used region or in a free segment.
pub open spec fn dealloc_result(pre: &AllocatorImpl, post: &AllocatorImpl, ptr: int) -> bool {
    let off = ptr - pre.alloc_start();
    let i = off / MINI_PAGE_ALLOC_BYTES as int;
    if !pre.is_init() || off < 0 || i >= pre.page_count() {
        post.same_state(pre) && view_kept(pre, post)
    } else if pre.is_small_page(i) {
        let e = pre.page_class(i);
        let c = e - MIN_SIZE_CLASS;
        let s = (off % MINI_PAGE_ALLOC_BYTES as int) / pow2(e as nat) as int;
        if pre.seg_free(i, s) {
            post.same_state(pre) && view_kept(pre, post)
        } else {
            &&& releases_block(pre, post, Block::Small { page: i, segment: s })
            &&& small_dealloc_stacks(pre, post, c, i, s)
        }
    } else if exists|j: int| big_holds(pre, off, j) {
        exists|j: int|
            {
                &&& last_holder(pre, off, j)
                &&& releases_block(pre, post, Block::Big { index: j })
                &&& classes_kept_except(pre, post, -1)
                &&& pages_kept_except(pre, post, -1)
                &&& post.big_headers() == pre.big_headers().update(
                    j,
                    BigAllocHeader { free: true, ..pre.big_headers()[j] },
                )
            }
    } else {
        &&& post.same_state(pre)
        &&& view_kept(pre, post)
        &&& post.failure() == Some(AllocFail::BigDeallocHeaderNotFound)
    }
}

/// The stacks and flags that freeing segment `s` of minipage `i`, class
/// index `c`, leaves: the segment goes on top of the free-segments stack of
/// a current minipage; a minipage on no stack is pushed, becomes current
/// and has its free segments loaded; any other minipage only has its bit
/// set.
pub open spec fn small_dealloc_stacks(pre: &AllocatorImpl, post: &AllocatorImpl, c: int, i: int, s: int) -> bool {
    &&& classes_kept_except(pre, post, c)
    &&& post.fresh_minipage(c) == pre.fresh_minipage(c)
    &&& post.fresh_count(c) == pre.fresh_count(c)
    &&& post.reused_count(c) == pre.reused_count(c)
    &&& pages_kept_except(pre, post, i)
    &&& post.big_headers() == pre.big_headers()
    &&& post.is_small_page(i)
    &&& post.page_class(i) == pre.page_class(i)
    &&& post.seg_free(i, s)
    &&& forall|t: int| 0 <= t < 8 * MINI_PAGE_FREE_SEGMENTS_SIZE && t != s ==> #[trigger] post.seg_free(i, t) == pre.seg_free(i, t)
    &&& if pre.current_page(c) == Some(i as u16) {
        &&& post.free_minipages(c) == pre.free_minipages(c)
        &&& post.free_segments(c) == pre.free_segments(c).push(s as u16)
        &&& post.on_stack(i)
    } else if !pre.on_stack(i) {
        &&& post.free_minipages(c) == pre.free_minipages(c).push(i as u16)
        &&& post.free_segments(c) == free_run(post, i, 0, class_segments(c) as int)
        &&& post.on_stack(i)
    } else {
        &&& post.free_minipages(c) == pre.free_minipages(c)
        &&& post.free_segments(c) == pre.free_segments(c)
        &&& post.on_stack(i)
    }
}

impl AllocatorImpl {
    /// Marks big allocation holding offset `off` free.
    fn dealloc_big(&mut self, off: u32)
        requires
            old(self).wf(),
            old(self).is_init(),
        ensures
            final(self).wf(),
            final(self).page_count() == old(self).page_count(),
            final(self).big_headers().len() == old(self).big_headers().len(),
            forall|c: int| #[trigger] final(self).current_page(c) == old(self).current_page(c),
            final(self).total_alloc_fresh == old(self).total_alloc_fresh,
            final(self).total_alloc_reused == old(self).total_alloc_reused,
            final(self).base() == old(self).base(),
            final(self).is_init(),
            same_layout(final(self), old(self)),
            if exists|j: int| big_holds(old(self), off as int, j) {
                exists|j: int|
                    {
                        &&& last_holder(old(self), off as int, j)
                        &&& releases_block(old(self), final(self), Block::Big { index: j })
                        &&& classes_kept_except(old(self), final(self), -1)
                        &&& pages_kept_except(old(self), final(self), -1)
                        &&& final(self).big_headers() == old(self).big_headers().update(
                            j,
                            BigAllocHeader { free: true, ..old(self).big_headers()[j] },
                        )
                    }
            } else {
                &&& final(self).same_state(old(self))
                &&& view_kept(old(self), final(self))
                &&& final(self).failure() == Some(AllocFail::BigDeallocHeaderNotFound)
            },
    {
        let ghost pre = *old(self);
        let mut j = self.big_allocs.len();
        while j > 0
            invariant
                *self == pre,
                pre == *old(self),
                pre.wf(),
                j <= pre.big_allocs@.len(),
                forall|k: int| j <= k < pre.big_headers().len() ==> !#[trigger] big_holds(&pre, off as int, k),
            decreases j,
        {
            j = j - 1;
            let h = self.big_allocs[j];
            proof {
                assert(pre.big_ok(j as int));
            }
            if !h.free {
                let lo: u64 = (h.start_idx as u64) * (MINI_PAGE_ALLOC_BYTES as u64) + (BIG_ALLOC_HEADER_BYTES as u64);
                let hi: u64 = lo + h.size_bytes as u64;
                if lo <= off as u64 && (off as u64) < hi {
                    self.big_allocs.set(j, BigAllocHeader { free: true, ..h });
                    proof {
                        let post = *self;
                        lemma_big_flag_only(&pre, &post, j as int);
                        assert(last_holder(&pre, off as int, j as int));
                        assert forall|b2: Block| b2 != (Block::Big { index: j as int }) implies #[trigger] post.live(b2) == pre.live(b2) by {}
                    }
                    return;
                }
            }
        }
        self.failure = Some(AllocFail::BigDeallocHeaderNotFound);
        proof {
            lemma_same_state(&pre, self);
            assert(!exists|k: int| big_holds(&pre, off as int, k));
        }
    }

    /// Marks segment `s` of minipage `page` free, unless it already is.
    fn dealloc_small(&mut self, page: u16, s: u16, size_class: SizeClass)
        requires
            old(self).wf(),
            old(self).is_init(),
            old(self).is_small_page(page as int),
            old(self).page_class(page as int) == size_class.exp,
            s < segments_per_minipage(size_class.exp as nat),
        ensures
            final(self).wf(),
            final(self).page_count() == old(self).page_count(),
            final(self).big_headers() == old(self).big_headers(),
            final(self).total_alloc_fresh == old(self).total_alloc_fresh,
            final(self).total_alloc_reused == old(self).total_alloc_reused,
            final(self).base() == old(self).base(),
            final(self).is_init(),
            old(self).seg_free(page as int, s as int) ==> final(self).same_state(old(self))
                && view_kept(old(self), final(self)),
            !old(self).seg_free(page as int, s as int) ==> {
                let c = size_class.exp - MIN_SIZE_CLASS;
                &&& releases_block(old(self), final(self), Block::Small { page: page as int, segment: s as int })
                &&& small_dealloc_stacks(old(self), final(self), c, page as int, s as int)
            },
            same_layout(final(self), old(self)),
    {
        let ghost pre = *old(self);
        let ci = size_class.exp_as_idx();
        let ghost c = ci as int;
        let ghost p = page as int;
        proof {
            lemma_class_facts(size_class.exp as nat);
        }
        if self.meta_page.minipage_headers[page as usize].get_free_bitmap(s) {
            proof {
                assert(self.same_state(&pre));
            }
            return;
        }
        self.meta_page.minipage_headers[page as usize].write_free_bitmap(s, true);
        let ghost freed = *self;
        proof {
            assert(forall|j: int| 0 <= j < pre.page_count() && j != p ==> #[trigger] freed.meta_page.minipage_headers@[j] == pre.meta_page.minipage_headers@[j]);
            assert(forall|j: int| #[trigger] freed.is_small_page(j) == pre.is_small_page(j));
            assert(forall|j: int| 0 <= j < pre.page_count() ==> #[trigger] freed.page_class(j) == pre.page_class(j));
            assert(forall|j: int| 0 <= j < pre.page_count() ==> #[trigger] freed.on_stack(j) == pre.on_stack(j));
            assert(forall|j: int, t: int| 0 <= j < pre.page_count() && j != p ==> #[trigger] freed.seg_free(j, t) == pre.seg_free(j, t));
            assert(forall|t: int| 0 <= t < 8 * MINI_PAGE_FREE_SEGMENTS_SIZE && t != s ==> #[trigger] freed.seg_free(p, t) == pre.seg_free(p, t));
            assert(freed.seg_free(p, s as int));
            assert(bit_freed(&pre, &freed, p, s as int));
            lemma_release_blocks(&pre, &freed, p, s as int);
        }
        if self.meta_page.free_minipages[ci].peek() == Some(page) {
            proof {
                assert(pre.segments_ok(c));
                assert(!pre.free_segments(c).contains(s));
                assert forall|k: int| 0 <= k < pre.free_segments(c).push(s).len() implies pre.free_segments(c).push(s)[k] < class_segments(c) by {
                    if k < pre.free_segments(c).len() {
                        assert(pre.free_segments(c).contains(pre.free_segments(c)[k]));
                    }
                }
                lemma_unique_bounded_len(pre.free_segments(c).push(s), class_segments(c) as int);
            }
            self.meta_page.free_segments[ci].push(s);
            proof {
                lemma_bit_freed_core(&pre, &freed, c, p, s as int);
                let post = *self;
                assert(post.frame_segments(&freed, c));
                lemma_frame_segments_core(post, freed, c);
                lemma_frame_segments_live(&freed, &post, c);
                let fs0 = pre.free_segments(c);
                assert(post.free_segments(c) == fs0.push(s));
                assert(post.current_page(c) == Some(page));
                assert forall|t: u16|
                    #![trigger post.free_segments(c).contains(t)]
                    #![trigger post.seg_free(p, t as int)]
                    post.free_segments(c).contains(t) <==> (t < class_segments(c) && post.seg_free(p, t as int)) by {
                    if t != s {
                        if post.free_segments(c).contains(t) {
                            let k = choose|k: int| 0 <= k < fs0.len() + 1 && fs0.push(s)[k] == t;
                            assert(fs0[k] == t);
                            assert(fs0.contains(t));
                        }
                        if fs0.contains(t) {
                            let k = choose|k: int| 0 <= k < fs0.len() && fs0[k] == t;
                            assert(fs0.push(s)[k] == t);
                        }
                    } else {
                        assert(fs0.push(s)[fs0.len() as int] == s);
                    }
                }
                assert forall|d: int| 0 <= d < NUM_SIZE_CLASSES implies #[trigger] post.segments_ok(d) by {
                    if d != c {
                        assert(freed.segments_ok(d)) by {
                            if pre.current_page(d) == Some(page) {
                                assert(pre.stacked_page_ok(d, page as int));
                            }
                        }
                        assert(post.free_segments(d) == freed.free_segments(d));
                        assert(post.free_minipages(d) == freed.free_minipages(d));
                    }
                }
                assert(forall|d: int| 0 <= d < NUM_SIZE_CLASSES && d != c ==> #[trigger] post.free_minipages(d) == freed.free_minipages(d) && post.free_segments(d) == freed.free_segments(d));
                lemma_dealloc_common(&pre, &freed, &post, c, p, s as int);
                assert(post.on_stack(p));
                assert(small_dealloc_stacks(&pre, &post, c, p, s as int));
            }
        } else if !self.meta_page.minipage_headers[page as usize].on_free_minipages_stack {
            proof {
                assert(!pre.free_minipages(c).contains(page)) by {
                    if pre.free_minipages(c).contains(page) {
                        let k = choose|k: int| 0 <= k < pre.free_minipages(c).len() && pre.free_minipages(c)[k] == page;
                        assert(pre.stacked_page_ok(c, pre.free_minipages(c)[k] as int));
                    }
                }
                assert forall|k: int| 0 <= k < pre.free_minipages(c).push(page).len() implies pre.free_minipages(c).push(page)[k] < pre.page_count() by {
                    if k < pre.free_minipages(c).len() {
                        assert(pre.stacked_page_ok(c, pre.free_minipages(c)[k] as int));
                    }
                }
                lemma_unique_bounded_len(pre.free_minipages(c).push(page), pre.page_count());
            }
            self.meta_page.free_minipages[ci].push(page);
            self.meta_page.minipage_headers[page as usize].on_free_minipages_stack = true;
            proof {
                lemma_bit_freed_core(&pre, &freed, c, p, s as int);
                assert(!freed.on_stack(p));
                assert forall|d: int| 0 <= d < NUM_SIZE_CLASSES implies #[trigger] freed.segments_ok(d) by {
                    if pre.current_page(d) == Some(page) {
                        assert(pre.stacked_page_ok(d, p));
                    }
                }
                assert(freed.seg_free(p, s as int));
                lemma_push_page_core(&freed, self, c, p);
            }
            let ghost pushed = *self;
            self.free_segments_update(ci, page);
            proof {
                lemma_frame_segments_live(&pushed, self, c);
                assert(forall|t: int| #[trigger] self.seg_free(p, t) == pushed.seg_free(p, t));
                lemma_free_run_frame(&pushed, self, p, p, 0, class_segments(c) as int);
                assert forall|j: int| 0 <= j < freed.page_count() && j != p implies #[trigger] self.meta_page.minipage_headers@[j] == freed.meta_page.minipage_headers@[j] by {
                    assert(pushed.meta_page.minipage_headers@[j] == freed.meta_page.minipage_headers@[j]);
                }
                assert(forall|d: int| 0 <= d < NUM_SIZE_CLASSES && d != c ==> #[trigger] self.free_minipages(d) == freed.free_minipages(d) && self.free_segments(d) == freed.free_segments(d));
                assert(forall|t: int| #[trigger] self.seg_free(p, t) == freed.seg_free(p, t));
                lemma_dealloc_common(&pre, &freed, self, c, p, s as int);
                assert(self.free_minipages(c) == pre.free_minipages(c).push(page));
                assert(self.on_stack(p));
                assert(small_dealloc_stacks(&pre, self, c, p, s as int));
            }
        } else {
            proof {
                lemma_bit_freed_core(&pre, &freed, c, p, s as int);
                assert(forall|d: int| 0 <= d < NUM_SIZE_CLASSES && d != c ==> #[trigger] freed.free_minipages(d) == freed.free_minipages(d));
                lemma_dealloc_common(&pre, &freed, &freed, c, p, s as int);
                assert(small_dealloc_stacks(&pre, self, c, p, s as int));
            }
        }
    }
}

} // verus!

verus! {

/// `post` is `pre` with segment `s` of minipage `page` marked free.
closed spec fn bit_freed(pre: &AllocatorImpl, post: &AllocatorImpl, page: int, s: int) -> bool {
    &&& post.did_init_heap == pre.did_init_heap
    &&& post.base_ptr == pre.base_ptr
    &&& post.meta_page.big_alloc_flags == pre.meta_page.big_alloc_flags
    &&& post.meta_page.free_minipages == pre.meta_page.free_minipages
    &&& post.meta_page.free_segments == pre.meta_page.free_segments
    &&& post.big_allocs == pre.big_allocs
    &&& post.next_alloc == pre.next_alloc
    &&& post.minipage_lists == pre.minipage_lists
    &&& post.total_alloc_reused == pre.total_alloc_reused
    &&& post.total_alloc_fresh == pre.total_alloc_fresh
    &&& post.fresh_minipages == pre.fresh_minipages
    &&& post.failure == pre.failure
    &&& post.meta_page.minipage_headers@.len() == pre.meta_page.minipage_headers@.len()
    &&& forall|j: int|
        0 <= j < pre.page_count() && j != page ==> #[trigger] post.meta_page.minipage_headers@[j]
            == pre.meta_page.minipage_headers@[j]
    &&& post.meta_page.minipage_headers@[page].wf()
    &&& post.page_class(page) == pre.page_class(page)
    &&& post.on_stack(page) == pre.on_stack(page)
    &&& forall|t: int|
        0 <= t < 8 * MINI_PAGE_FREE_SEGMENTS_SIZE && t != s ==> #[trigger] post.seg_free(page, t)
            == pre.seg_free(page, t)
    &&& post.seg_free(page, s)
}

/// Marking one used segment free releases exactly that allocation.
proof fn lemma_release_blocks(pre: &AllocatorImpl, post: &AllocatorImpl, page: int, s: int)
    requires
        pre.wf_core(),
        bit_freed(pre, post, page, s),
        pre.is_small_page(page),
        !pre.seg_free(page, s),
        0 <= s < segments_per_minipage(pre.page_class(page) as nat),
    ensures
        releases_block(pre, post, Block::Small { page, segment: s }),
{
    assert forall|b2: Block| b2 != (Block::Small { page, segment: s }) implies #[trigger] post.live(b2) == pre.live(b2) by {
        match b2 {
            Block::Small { page: j, segment: t } => {
                assert(post.is_small_page(j) == pre.is_small_page(j));
                if j == page {
                    lemma_class_facts(pre.page_class(page) as nat);
                } else if 0 <= j < pre.page_count() {
                    assert(post.meta_page.minipage_headers@[j] == pre.meta_page.minipage_headers@[j]);
                }
            },
            Block::Big { index } => {},
        }
    }
}

/// Only a free-segments stack changed: every allocation keeps its state.
proof fn lemma_frame_segments_live(pre: &AllocatorImpl, post: &AllocatorImpl, ci: int)
    requires
        post.frame_segments(pre, ci),
    ensures
        forall|b: Block| #[trigger] post.live(b) == pre.live(b),
        post.page_count() == pre.page_count(),
{
    assert forall|b: Block| #[trigger] post.live(b) == pre.live(b) by {
        match b {
            Block::Small { page, segment } => {
                assert(post.is_small_page(page) == pre.is_small_page(page));
            },
            Block::Big { index } => {},
        }
    }
}

/// Freeing a segment keeps the invariant, but for the free-segments stack
/// of a class whose current minipage it is.
proof fn lemma_bit_freed_core(pre: &AllocatorImpl, post: &AllocatorImpl, c: int, page: int, s: int)
    requires
        pre.wf(),
        0 <= c < NUM_SIZE_CLASSES,
        bit_freed(pre, post, page, s),
        pre.is_small_page(page),
        pre.page_class(page) == c + MIN_SIZE_CLASS,
        0 <= page <= u16::MAX,
        0 <= s < class_segments(c),
    ensures
        post.wf_core(),
        forall|d: int|
            0 <= d < NUM_SIZE_CLASSES && pre.current_page(d) != Some(page as u16)
                ==> #[trigger] post.segments_ok(d),
{
    lemma_class_facts((c + MIN_SIZE_CLASS) as nat);
    assert(forall|j: int| #[trigger] post.is_small_page(j) == pre.is_small_page(j));
    assert(forall|j: int| 0 <= j < pre.page_count() ==> #[trigger] post.page_class(j) == pre.page_class(j));
    assert(forall|j: int| 0 <= j < pre.page_count() ==> #[trigger] post.on_stack(j) == pre.on_stack(j));
    assert(forall|j: int, t: int| 0 <= j < pre.page_count() && j != page ==> #[trigger] post.seg_free(j, t) == pre.seg_free(j, t));
    assert(forall|d: int| #[trigger] post.free_minipages(d) == pre.free_minipages(d));
    assert(forall|d: int| #[trigger] post.free_segments(d) == pre.free_segments(d));
    assert forall|d: int, k: int|
        0 <= d < NUM_SIZE_CLASSES && 0 <= k < post.free_minipages(d).len() implies post.stacked_page_ok(
        d,
        #[trigger] post.free_minipages(d)[k] as int,
    ) by {
        let j = post.free_minipages(d)[k] as int;
        assert(pre.stacked_page_ok(d, j));
        if j == page {
            assert(post.seg_free(page, s));
        } else {
            let t = choose|t: int|
                0 <= t < segments_per_minipage(pre.page_class(j) as nat) && #[trigger] pre.seg_free(j, t);
            assert(post.seg_free(j, t));
        }
    }
    assert forall|j: int| 0 <= j < post.big_allocs@.len() implies #[trigger] post.big_ok(j) by {
        assert(pre.big_ok(j));
    }
    assert forall|d: int| 0 <= d < NUM_SIZE_CLASSES implies {
        &&& (#[trigger] post.meta_page.free_minipages@[d]).wf()
        &&& post.meta_page.free_minipages@[d].capacity() == MAX_MINI_PAGES
        &&& post.meta_page.free_segments@[d].wf()
        &&& post.meta_page.free_segments@[d].capacity() == class_segments(d)
        &&& post.free_minipages(d).no_duplicates()
    } by {
        assert(pre.meta_page.free_minipages@[d].wf());
        assert(pre.meta_page.free_segments@[d].capacity() == class_segments(d));
    }
    assert(post.wf_core());
    assert forall|d: int| 0 <= d < NUM_SIZE_CLASSES && pre.current_page(d) != Some(page as u16) implies #[trigger] post.segments_ok(d) by {
        assert(pre.segments_ok(d));
        if let Some(q) = pre.current_page(d) {
            assert(pre.stacked_page_ok(d, q as int));
            assert(q != page);
            assert forall|t: u16| #[trigger] post.seg_free(q as int, t as int) == pre.seg_free(q as int, t as int) by {}
        }
    }
}

} // verus!

verus! {

/// Pushing a minipage with a free segment, which was on no stack, onto its
/// class's free-minipages stack makes it current and keeps the invariant,
/// but for that class's free-segments stack.
proof fn lemma_push_page_core(pre: &AllocatorImpl, post: &AllocatorImpl, c: int, page: int)
    requires
        pre.wf(),
        0 <= c < NUM_SIZE_CLASSES,
        0 <= page <= u16::MAX,
        pre.is_small_page(page),
        pre.page_class(page) == c + MIN_SIZE_CLASS,
        !pre.on_stack(page),
        pre.has_free_segment(page),
        post.did_init_heap == pre.did_init_heap,
        post.base_ptr == pre.base_ptr,
        post.meta_page.big_alloc_flags == pre.meta_page.big_alloc_flags,
        post.meta_page.free_segments == pre.meta_page.free_segments,
        post.big_allocs == pre.big_allocs,
        post.next_alloc == pre.next_alloc,
        post.minipage_lists == pre.minipage_lists,
        post.total_alloc_reused == pre.total_alloc_reused,
        post.total_alloc_fresh == pre.total_alloc_fresh,
        post.fresh_minipages == pre.fresh_minipages,
        post.failure == pre.failure,
        post.meta_page.minipage_headers@.len() == pre.meta_page.minipage_headers@.len(),
        forall|j: int|
            0 <= j < pre.page_count() && j != page ==> #[trigger] post.meta_page.minipage_headers@[j]
                == pre.meta_page.minipage_headers@[j],
        post.meta_page.minipage_headers@[page] == (MiniPageHeader {
            on_free_minipages_stack: true,
            ..pre.meta_page.minipage_headers@[page]
        }),
        post.meta_page.free_minipages@.len() == pre.meta_page.free_minipages@.len(),
        forall|d: int|
            0 <= d < NUM_SIZE_CLASSES && d != c ==> #[trigger] post.meta_page.free_minipages@[d]
                == pre.meta_page.free_minipages@[d],
        post.meta_page.free_minipages@[c].wf(),
        post.meta_page.free_minipages@[c].capacity() == pre.meta_page.free_minipages@[c].capacity(),
        post.free_minipages(c) == pre.free_minipages(c).push(page as u16),
    ensures
        post.wf_core(),
        forall|d: int| 0 <= d < NUM_SIZE_CLASSES && d != c ==> #[trigger] post.segments_ok(d),
        post.current_page(c) == Some(page as u16),
        forall|b: Block| #[trigger] post.live(b) == pre.live(b),
        post.page_count() == pre.page_count(),
{
    let fm0 = pre.free_minipages(c);
    assert(!fm0.contains(page as u16)) by {
        if fm0.contains(page as u16) {
            let k = choose|k: int| 0 <= k < fm0.len() && fm0[k] == page as u16;
            assert(pre.stacked_page_ok(c, fm0[k] as int));
        }
    }
    assert(forall|j: int| #[trigger] post.is_small_page(j) == pre.is_small_page(j));
    assert(forall|j: int| 0 <= j < pre.page_count() ==> #[trigger] post.page_class(j) == pre.page_class(j));
    assert(forall|j: int| 0 <= j < pre.page_count() && j != page ==> #[trigger] post.on_stack(j) == pre.on_stack(j));
    assert(forall|j: int, t: int| 0 <= j < pre.page_count() ==> #[trigger] post.seg_free(j, t) == pre.seg_free(j, t));
    assert forall|d: int| 0 <= d < NUM_SIZE_CLASSES implies {
        &&& (#[trigger] post.meta_page.free_minipages@[d]).wf()
        &&& post.meta_page.free_minipages@[d].capacity() == MAX_MINI_PAGES
        &&& post.meta_page.free_segments@[d].wf()
        &&& post.meta_page.free_segments@[d].capacity() == class_segments(d)
        &&& post.free_minipages(d).no_duplicates()
    } by {
        assert(pre.meta_page.free_minipages@[d].wf());
        assert(pre.meta_page.free_segments@[d].capacity() == class_segments(d));
        if d == c {
            assert forall|i: int, j: int| 0 <= i < j < post.free_minipages(c).len() implies post.free_minipages(c)[i] != post.free_minipages(c)[j] by {
                if j == fm0.len() {
                    assert(fm0.contains(fm0[i]));
                } else {
                    assert(fm0[i] != fm0[j]);
                }
            }
        }
    }
    assert forall|d: int, k: int|
        0 <= d < NUM_SIZE_CLASSES && 0 <= k < post.free_minipages(d).len() implies post.stacked_page_ok(
        d,
        #[trigger] post.free_minipages(d)[k] as int,
    ) by {
        let j = post.free_minipages(d)[k] as int;
        if d == c && k == fm0.len() {
            assert(j == page);
            let t = choose|t: int|
                0 <= t < segments_per_minipage(pre.page_class(page) as nat) && #[trigger] pre.seg_free(page, t);
            assert(post.seg_free(page, t));
        } else {
            assert(post.free_minipages(d)[k] == pre.free_minipages(d)[k]);
            assert(pre.stacked_page_ok(d, j));
            assert(j != page);
            let t = choose|t: int|
                0 <= t < segments_per_minipage(pre.page_class(j) as nat) && #[trigger] pre.seg_free(j, t);
            assert(post.seg_free(j, t));
        }
    }
    assert forall|j: int|
        #![trigger post.on_stack(j)]
        post.is_small_page(j) && post.on_stack(j) implies post.free_minipages(
        post.page_class(j) - MIN_SIZE_CLASS,
    ).contains(j as u16) by {
        if j == page {
            assert(post.free_minipages(c)[fm0.len() as int] == page as u16);
        } else {
            assert(pre.on_stack(j));
            let d = pre.page_class(j) - MIN_SIZE_CLASS;
            let k = choose|k: int| 0 <= k < pre.free_minipages(d).len() && pre.free_minipages(d)[k] == j as u16;
            assert(post.free_minipages(d)[k] == j as u16);
        }
    }
    assert forall|j: int| 0 <= j < post.big_allocs@.len() implies #[trigger] post.big_ok(j) by {
        assert(pre.big_ok(j));
    }
    assert(post.wf_core());
    assert forall|d: int| 0 <= d < NUM_SIZE_CLASSES && d != c implies #[trigger] post.segments_ok(d) by {
        assert(pre.segments_ok(d));
        assert(post.free_segments(d) == pre.free_segments(d));
        assert(post.free_minipages(d) == pre.free_minipages(d));
    }
    assert forall|b: Block| #[trigger] post.live(b) == pre.live(b) by {
        match b {
            Block::Small { page: j, segment } => {
                assert(post.is_small_page(j) == pre.is_small_page(j));
            },
            Block::Big { index } => {},
        }
    }
}

} // verus!

verus! {

/// What an allocation of `n > 0` bytes does, from the set-up state `pre` to
/// `post`, returning `r`.
pub open spec fn alloc_result(pre: &AllocatorImpl, post: &AllocatorImpl, n: int, r: int) -> bool {
    let e = class_exp_for(n as nat);
    &&& post.base() == pre.base()
    &&& post.is_init() == pre.is_init()
    &&& if e <= MAX_SIZE_CLASS {
        small_alloc_result(pre, post, e, r)
    } else {
        big_alloc_result(pre, post, n, r)
    }
}

impl AllocatorImpl {
    /// This state once the meta page is set up on a region at `base`.
    pub closed spec fn with_base(&self, base: int) -> AllocatorImpl {
        AllocatorImpl { did_init_heap: true, base_ptr: base as usize, ..*self }
    }

    /// A base is an address.
    pub proof fn lemma_base_range(&self)
        ensures
            0 <= self.base() <= usize::MAX,
    {
    }

    /// Setting up the meta page changes nothing but the base and the
    /// set-up flag.
    pub proof fn lemma_with_base(&self, base: int)
        requires
            0 <= base <= usize::MAX,
        ensures
            self.with_base(base).is_init(),
            self.with_base(base).base() == base,
            self.with_base(base).page_count() == self.page_count(),
            self.with_base(base).big_headers() == self.big_headers(),
            forall|c: int|
                #![trigger self.with_base(base).current_page(c)]
                self.with_base(base).current_page(c) == self.current_page(c)
                    && self.with_base(base).next_segment(c) == self.next_segment(c)
                    && self.with_base(base).fresh_count(c) == self.fresh_count(c)
                    && self.with_base(base).reused_count(c) == self.reused_count(c)
                    && self.with_base(base).fresh_minipage(c) == self.fresh_minipage(c),
    {
    }

    /// Allocates `size` bytes. Returns the address of the first byte, or 0.
    ///
    /// The first call grows `heap` by the pages that `grow_request` asks for
    /// and sets up the meta page at the host's base when `host_region_ok`
    /// accepts the host's answers. If the host refuses, the call returns 0,
    /// and so does every later call: the host is not asked again.
    pub fn allocate<H: HostHeap>(&mut self, heap: &mut H, size: usize) -> (r: usize)
        requires
            old(self).wf(),
        ensures
            final(self).wf(),
            size == 0 ==> r == 0 && final(self).same_state(old(self)) && final(self).failure()
                == Some(AllocFail::NoZeroAlloc),
            size > 0 && old(self).is_init() ==> final(self).is_init() && final(self).base()
                == old(self).base() && alloc_result(old(self), final(self), size as int, r as int),
            size > 0 && !old(self).is_init() && final(self).is_init() ==> alloc_result(
                &old(self).with_base(final(self).base()),
                final(self),
                size as int,
                r as int,
            ),
            size > 0 && !final(self).is_init() ==> r == 0 && final(self).host_failed()
                && final(self).failure() == Some(AllocFail::HostGrowFail)
                && forall|b: Block| #[trigger] final(self).live(b) == old(self).live(b),
            size > 0 && old(self).host_failed() && !old(self).is_init() ==> r == 0 && final(self).host_failed() && !final(self).is_init(),
            !old(self).is_init() && final(self).is_init() ==> old(self).with_base(final(self).base()).wf(),
    {
        if size == 0 {
            self.failure = Some(AllocFail::NoZeroAlloc);
            proof {
                lemma_same_state(old(self), self);
            }
            return 0;
        }
        if !self.did_init_heap {
            if self.host_grow_failed {
                self.failure = Some(AllocFail::HostGrowFail);
                proof {
                    lemma_same_state(old(self), self);
                }
                return 0;
            }
            let current_pages = heap.memory_size();
            let mut grown = false;
            let mut base: usize = 0;
            match grow_request(current_pages) {
                Some(delta_pages) => {
                    let grow_res = heap.memory_grow(delta_pages);
                    if grow_res != usize::MAX {
                        base = heap.base_ptr();
                    }
                    grown = host_region_ok(grow_res, base);
                },
                None => {},
            }
            if !grown {
                self.failure = Some(AllocFail::HostGrowFail);
                self.host_grow_failed = true;
                proof {
                    lemma_host_failed(old(self), self);
                }
                return 0;
            }
            self.ensure_meta_page(base);
            proof {
                assert(*self == old(self).with_base(base as int));
                self.lemma_base_range();
            }
        }
        let exp = exp_for_bytes(size);
        if exp > MAX_SIZE_CLASS {
            proof {
                crate::size_class::lemma_ceil_log2_bounds(size as nat);
                vstd::arithmetic::power2::lemma2_to64();
                if exp > 12 {
                    vstd::arithmetic::power2::lemma_pow2_strictly_increases(11, (exp - 1) as nat);
                }
            }
            self.alloc_big(size)
        } else {
            self.alloc_small(SizeClass::new(exp))
        }
    }

    /// Releases the allocation that holds `ptr`. An address outside the used
    /// region, or in a segment that is already free, is ignored.
    pub fn deallocate(&mut self, ptr: usize)
        requires
            old(self).wf(),
        ensures
            final(self).wf(),
            dealloc_result(old(self), final(self), ptr as int),
            same_layout(final(self), old(self)),
            final(self).page_count() == old(self).page_count(),
            forall|c: int|
                #![trigger final(self).fresh_count(c)]
                final(self).fresh_count(c) == old(self).fresh_count(c) && final(self).reused_count(c)
                    == old(self).reused_count(c),
            final(self).is_init() == old(self).is_init(),
            final(self).base() == old(self).base(),
    {
        let ghost pre = *old(self);
        if !self.did_init_heap {
            return;
        }
        let start = self.base_ptr + (META_PAGE_BYTES as usize);
        if ptr < start {
            return;
        }
        if ptr - start >= self.next_alloc as usize {
            return;
        }
        let addr = AllocAddr::from_ptr(start, ptr);
        let off = addr.addr_usize();
        let page_meta = addr.get_page_meta();
        let i = page_meta.page_idx;
        match self.meta_page.big_alloc_flags[i] {
            Some(_) => {
                self.dealloc_big(off as u32);
                proof {
                    assert(self.total_alloc_fresh == pre.total_alloc_fresh);
                }
            },
            None => {
                let exp = self.meta_page.minipage_headers[i].size_class_exp;
                proof {
                    assert(pre.is_small_page(i as int));
                    assert(pre.page_class(i as int) == exp);
                    lemma_class_facts(exp as nat);
                }
                let size_class = SizeClass::new(exp);
                let segment = addr.get_segment(size_class);
                self.dealloc_small(i as u16, segment.segment_idx_u16(), size_class);
                proof {
                    assert(self.total_alloc_fresh == pre.total_alloc_fresh);
                }
            },
        }
    }

    /// Counts of allocations served from fresh and from reused minipages.
    pub fn fresh_reused_stats(&self) -> (r: FreshReusedStats)
        ensures
            forall|c: int|
                0 <= c < NUM_SIZE_CLASSES ==> r.total_alloc_fresh[c] == #[trigger] self.fresh_count(c)
                    && r.total_alloc_reused[c] == self.reused_count(c),
    {
        FreshReusedStats {
            total_alloc_reused: self.total_alloc_reused,
            total_alloc_fresh: self.total_alloc_fresh,
        }
    }

    /// Why the last allocation failed, or the last deallocation was refused.
    pub fn alloc_failure_cause(&self) -> (r: Option<AllocFail>)
        ensures
            r == self.failure(),
    {
        self.failure
    }

    /// The number of minipage slots taken, by minipages and big allocations.
    pub fn total_minipages(&self) -> (r: usize)
        ensures
            r == self.page_count(),
    {
        self.meta_page.minipage_headers.len()
    }
}

} // verus!

verus! {

/// An allocator that owns its host heap and its state.
pub struct AlligatorAlloc<H: HostHeap> {
    heap: H,
    state: AllocatorImpl,
}

impl<H: HostHeap> AlligatorAlloc<H> {
    /// The allocator's state.
    pub closed spec fn engine(&self) -> AllocatorImpl {
        self.state
    }

    /// An allocator over `heap` that has not allocated yet.
    pub fn new(heap: H) -> (r: AlligatorAlloc<H>)
        ensures
            r.engine().wf(),
            !r.engine().is_init(),
            !r.engine().host_failed(),
            r.engine().page_count() == 0,
            r.engine().big_headers().len() == 0,
            forall|c: int|
                0 <= c < NUM_SIZE_CLASSES ==> #[trigger] r.engine().current_page(c) is None
                    && r.engine().fresh_count(c) == 0 && r.engine().reused_count(c) == 0
                    && r.engine().fresh_minipage(c) is None,
    {
        AlligatorAlloc { heap, state: AllocatorImpl::new() }
    }

    /// Allocates `size` bytes; see `AllocatorImpl::allocate`.
    pub fn allocate(&mut self, size: usize) -> (r: usize)
        requires
            old(self).engine().wf(),
        ensures
            final(self).engine().wf(),
            size == 0 ==> r == 0 && final(self).engine().same_state(&old(self).engine())
                && final(self).engine().failure() == Some(AllocFail::NoZeroAlloc),
            size > 0 && old(self).engine().is_init() ==> final(self).engine().is_init()
                && final(self).engine().base() == old(self).engine().base() && alloc_result(
                &old(self).engine(),
                &final(self).engine(),
                size as int,
                r as int,
            ),
            size > 0 && !old(self).engine().is_init() && final(self).engine().is_init()
                ==> alloc_result(
                &old(self).engine().with_base(final(self).engine().base()),
                &final(self).engine(),
                size as int,
                r as int,
            ),
            size > 0 && !final(self).engine().is_init() ==> r == 0 && final(self).engine().host_failed()
                && final(self).engine().failure() == Some(AllocFail::HostGrowFail)
                && forall|b: Block| #[trigger] final(self).engine().live(b) == old(self).engine().live(b),
            size > 0 && old(self).engine().host_failed() && !old(self).engine().is_init() ==> r == 0
                && final(self).engine().host_failed() && !final(self).engine().is_init(),
            !old(self).engine().is_init() && final(self).engine().is_init() ==> old(self).engine().with_base(
                final(self).engine().base(),
            ).wf(),
    {
        self.state.allocate(&mut self.heap, size)
    }

    /// Releases the allocation that holds `ptr`; see
    /// `AllocatorImpl::deallocate`.
    pub fn deallocate(&mut self, ptr: usize)
        requires
            old(self).engine().wf(),
        ensures
            final(self).engine().wf(),
            dealloc_result(&old(self).engine(), &final(self).engine(), ptr as int),
    {
        self.state.deallocate(ptr)
    }

    /// Counts of allocations served from fresh and from reused minipages.
    pub fn fresh_reused_stats(&self) -> (r: FreshReusedStats)
        ensures
            forall|c: int|
                0 <= c < NUM_SIZE_CLASSES ==> r.total_alloc_fresh[c] == #[trigger] self.engine().fresh_count(c)
                    && r.total_alloc_reused[c] == self.engine().reused_count(c),
    {
        self.state.fresh_reused_stats()
    }

    /// Why the last allocation failed, or the last deallocation was refused.
    pub fn alloc_failure_cause(&self) -> (r: Option<AllocFail>)
        ensures
            r == self.engine().failure(),
    {
        self.state.alloc_failure_cause()
    }

    /// The number of minipage slots taken.
    pub fn total_minipages(&self) -> (r: usize)
        ensures
            r == self.engine().page_count(),
    {
        self.state.total_minipages()
    }
}

} // verus!

verus! {

/// Flipping the free flag of one big allocation keeps the invariant and
/// changes no other allocation.
proof fn lemma_big_flag_only(pre: &AllocatorImpl, post: &AllocatorImpl, j: int)
    requires
        pre.wf(),
        0 <= j < pre.big_allocs@.len(),
        post.big_allocs@ == pre.big_allocs@.update(
            j,
            BigAllocHeader { free: post.big_allocs@[j].free, ..pre.big_allocs@[j] },
        ),
        post.meta_page == pre.meta_page,
        post.did_init_heap == pre.did_init_heap,
        post.base_ptr == pre.base_ptr,
        post.next_alloc == pre.next_alloc,
        post.minipage_lists == pre.minipage_lists,
        post.fresh_minipages == pre.fresh_minipages,
        post.total_alloc_fresh == pre.total_alloc_fresh,
        post.total_alloc_reused == pre.total_alloc_reused,
    ensures
        post.wf(),
        forall|b2: Block| b2 != (Block::Big { index: j }) ==> #[trigger] post.live(b2) == pre.live(b2),
        forall|k: int|
            0 <= k < pre.big_allocs@.len() ==> #[trigger] post.block_range(Block::Big { index: k })
                == pre.block_range(Block::Big { index: k }),
        classes_kept_except(pre, post, -1),
        pages_kept_except(pre, post, -1),
{
    assert(forall|k: int| 0 <= k < post.big_allocs@.len() ==> #[trigger] post.big_allocs@[k].start_idx == pre.big_allocs@[k].start_idx && post.big_allocs@[k].size_bytes == pre.big_allocs@[k].size_bytes);
    assert(forall|k: int| 0 <= k < post.big_allocs@.len() ==> #[trigger] header_slots(post.big_allocs@[k]) == header_slots(pre.big_allocs@[k]));
    assert forall|k: int| 0 <= k < post.big_allocs@.len() implies #[trigger] post.big_ok(k) by {
        assert(pre.big_ok(k));
    }
    assert forall|a: int, b: int|
        0 <= a < b < post.big_allocs@.len() implies #[trigger] post.big_allocs@[a].start_idx
            + header_slots(post.big_allocs@[a]) <= #[trigger] post.big_allocs@[b].start_idx by {
        assert(pre.big_allocs@[a].start_idx + header_slots(pre.big_allocs@[a]) <= pre.big_allocs@[b].start_idx);
    }
    lemma_meta_same(pre, post);
    assert(post.wf_core());
    assert forall|k: int| 0 <= k < pre.big_allocs@.len() implies #[trigger] post.block_range(Block::Big { index: k }) == pre.block_range(Block::Big { index: k }) by {
        assert(post.big_allocs@[k].start_idx == pre.big_allocs@[k].start_idx);
    }
}

} // verus!

verus! {

/// What `usable_size(ptr)` returns: the bytes of the live allocation that
/// holds `ptr`, or `None`.
pub open spec fn usable_size_result(a: &AllocatorImpl, ptr: int, r: Option<usize>) -> bool {
    let off = ptr - a.alloc_start();
    let i = off / MINI_PAGE_ALLOC_BYTES as int;
    if !a.is_init() || off < 0 || i >= a.page_count() {
        r is None
    } else if a.is_small_page(i) {
        let e = a.page_class(i);
        let s = (off % MINI_PAGE_ALLOC_BYTES as int) / pow2(e as nat) as int;
        if a.seg_free(i, s) {
            r is None
        } else {
            r == Some(pow2(e as nat) as usize)
        }
    } else if exists|j: int| big_holds(a, off, j) {
        exists|j: int| last_holder(a, off, j) && r == Some(a.big_headers()[j].size_bytes as usize)
    } else {
        r is None
    }
}

impl AllocatorImpl {
    /// The size in bytes of the live allocation that holds `ptr`: its
    /// segment's size, or a big allocation's size. `None` for an address
    /// that no live allocation holds.
    pub fn usable_size(&self, ptr: usize) -> (r: Option<usize>)
        requires
            self.wf(),
        ensures
            usable_size_result(self, ptr as int, r),
    {
        if !self.did_init_heap {
            return None;
        }
        let start = self.base_ptr + (META_PAGE_BYTES as usize);
        if ptr < start {
            return None;
        }
        if ptr - start >= self.next_alloc as usize {
            return None;
        }
        let addr = AllocAddr::from_ptr(start, ptr);
        let off = addr.addr_usize();
        let i = addr.get_page_meta().page_idx;
        match self.meta_page.big_alloc_flags[i] {
            Some(_) => {
                let mut j = self.big_allocs.len();
                while j > 0
                    invariant
                        self.wf(),
                        j <= self.big_allocs@.len(),
                        i == off / MINI_PAGE_ALLOC_BYTES as usize,
                        self.meta_page.big_alloc_flags@[i as int] is Some,
                        off == ptr - self.alloc_start(),
                        i < self.page_count(),
                        forall|k: int| j <= k < self.big_headers().len() ==> !#[trigger] big_holds(self, off as int, k),
                    decreases j,
                {
                    j = j - 1;
                    let h = self.big_allocs[j];
                    proof {
                        assert(self.big_ok(j as int));
                    }
                    if !h.free {
                        let lo: u64 = (h.start_idx as u64) * (MINI_PAGE_ALLOC_BYTES as u64) + (BIG_ALLOC_HEADER_BYTES as u64);
                        let hi: u64 = lo + h.size_bytes as u64;
                        if lo <= off as u64 && (off as u64) < hi {
                            proof {
                                assert(!self.is_small_page(i as int));
                                assert(big_holds(self, off as int, j as int));
                                assert(last_holder(self, off as int, j as int));
                            }
                            return Some(h.size_bytes as usize);
                        }
                    }
                }
                None
            },
            None => {
                let exp = self.meta_page.minipage_headers[i].size_class_exp;
                proof {
                    assert(self.is_small_page(i as int));
                    assert(self.page_class(i as int) == exp);
                    lemma_class_facts(exp as nat);
                }
                let size_class = SizeClass::new(exp);
                let segment = addr.get_segment(size_class);
                let s = segment.segment_idx_u16();
                if self.meta_page.minipage_headers[i].get_free_bitmap(s) {
                    None
                } else {
                    Some(size_class.segment_bytes() as usize)
                }
            },
        }
    }
}

impl<H: HostHeap> AlligatorAlloc<H> {
    /// The size in bytes of the live allocation that holds `ptr`; see
    /// `AllocatorImpl::usable_size`.
    pub fn usable_size(&self, ptr: usize) -> (r: Option<usize>)
        requires
            self.engine().wf(),
        ensures
            usable_size_result(&self.engine(), ptr as int, r),
    {
        self.state.usable_size(ptr)
    }
}

} // verus!

verus! {

/// Offsets of a segment: which minipage and segment they fall in.
pub proof fn lemma_segment_offset(i: int, s: int, p: int, m: int)
    requires
        0 <= i,
        0 <= s < m,
        p > 0,
        p * m == MINI_PAGE_ALLOC_BYTES,
    ensures
        (i * MINI_PAGE_ALLOC_BYTES + s * p) / MINI_PAGE_ALLOC_BYTES as int == i,
        (i * MINI_PAGE_ALLOC_BYTES + s * p) % MINI_PAGE_ALLOC_BYTES as int == s * p,
        (s * p) / p == s,
        s * p + p <= MINI_PAGE_ALLOC_BYTES,
        0 <= s * p,
{
    assert(s * p + p <= p * m) by (nonlinear_arith)
        requires
            0 <= s < m,
            p > 0,
    ;
    assert(0 <= s * p) by (nonlinear_arith)
        requires
            0 <= s,
            p > 0,
    ;
    assert((s * p) / p == s) by (nonlinear_arith)
        requires
            p > 0,
    ;
    vstd::arithmetic::div_mod::lemma_fundamental_div_mod_converse(
        i * MINI_PAGE_ALLOC_BYTES + s * p,
        MINI_PAGE_ALLOC_BYTES as int,
        i,
        s * p,
    );
}

/// Every minipage on a free-minipages stack belongs to the stack's class and
/// has a free segment.
pub proof fn lemma_stacked_minipages_have_free_segment(a: &AllocatorImpl, c: int, k: int)
    requires
        a.wf(),
        0 <= c < NUM_SIZE_CLASSES,
        0 <= k < a.free_minipages(c).len(),
    ensures
        a.is_small_page(a.free_minipages(c)[k] as int),
        a.page_class(a.free_minipages(c)[k] as int) == c + MIN_SIZE_CLASS,
        a.has_free_segment(a.free_minipages(c)[k] as int),
{
    assert(a.stacked_page_ok(c, a.free_minipages(c)[k] as int));
}

/// A minipage carries the on-stack flag exactly when it is on its class's
/// free-minipages stack.
pub proof fn lemma_on_stack_iff_stacked(a: &AllocatorImpl, i: int)
    requires
        a.wf(),
        a.is_small_page(i),
    ensures
        MIN_SIZE_CLASS <= a.page_class(i) <= MAX_SIZE_CLASS,
        a.on_stack(i) <==> a.free_minipages(a.page_class(i) - MIN_SIZE_CLASS).contains(i as u16),
{
    let c = a.page_class(i) - MIN_SIZE_CLASS;
    if a.free_minipages(c).contains(i as u16) {
        let k = choose|k: int| 0 <= k < a.free_minipages(c).len() && a.free_minipages(c)[k] == i as u16;
        assert(a.stacked_page_ok(c, a.free_minipages(c)[k] as int));
    }
}

/// The slots of a big allocation are not minipages.
pub proof fn lemma_big_slots_not_minipages(a: &AllocatorImpl, j: int, p: int)
    requires
        a.wf(),
        0 <= j < a.big_headers().len(),
        a.big_headers()[j].start_idx <= p < a.big_headers()[j].start_idx + header_slots(a.big_headers()[j]),
    ensures
        !a.is_small_page(p),
        0 <= p < a.page_count(),
{
    assert(a.big_ok(j));
}

/// Live allocations occupy disjoint byte ranges inside the allocation area.
pub proof fn lemma_live_blocks_disjoint(a: &AllocatorImpl, b1: Block, b2: Block)
    requires
        a.wf(),
        a.live(b1),
        a.live(b2),
        b1 != b2,
    ensures
        a.block_range(b1).1 <= a.block_range(b2).0 || a.block_range(b2).1 <= a.block_range(b1).0,
        0 <= a.block_range(b1).0 < a.block_range(b1).1 <= ALLOC_AREA_BYTES,
{
    lemma_live_block_bounds(a, b1);
    lemma_live_block_bounds(a, b2);
    match (b1, b2) {
        (Block::Small { page: i1, segment: s1 }, Block::Small { page: i2, segment: s2 }) => {
            if i1 == i2 {
                let p = pow2(a.page_class(i1) as nat) as int;
                lemma_class_facts(a.page_class(i1) as nat);
                if s1 < s2 {
                    assert(s1 * p + p <= s2 * p) by (nonlinear_arith)
                        requires
                            s1 < s2,
                            p > 0,
                    ;
                } else {
                    assert(s2 * p + p <= s1 * p) by (nonlinear_arith)
                        requires
                            s2 < s1,
                            p > 0,
                    ;
                }
            }
        },
        (Block::Small { page: i, segment: s }, Block::Big { index: j }) => {
            assert(a.big_ok(j));
            let h = a.big_headers()[j];
            if h.start_idx <= i < h.start_idx + header_slots(h) {
                assert(a.meta_page.big_alloc_flags@[i] == Some(h.start_idx));
            }
        },
        (Block::Big { index: j }, Block::Small { page: i, segment: s }) => {
            assert(a.big_ok(j));
            let h = a.big_headers()[j];
            if h.start_idx <= i < h.start_idx + header_slots(h) {
                assert(a.meta_page.big_alloc_flags@[i] == Some(h.start_idx));
            }
        },
        (Block::Big { index: j }, Block::Big { index: k }) => {
            if j < k {
                assert(a.big_allocs@[j].start_idx + header_slots(a.big_allocs@[j]) <= a.big_allocs@[k].start_idx);
            } else {
                assert(a.big_allocs@[k].start_idx + header_slots(a.big_allocs@[k]) <= a.big_allocs@[j].start_idx);
            }
        },
    }
}

/// A live allocation lies within its slots, inside the allocation area.
pub proof fn lemma_live_block_bounds(a: &AllocatorImpl, b: Block)
    requires
        a.wf(),
        a.live(b),
    ensures
        0 <= a.block_range(b).0 < a.block_range(b).1 <= ALLOC_AREA_BYTES,
        a.block_range(b).1 <= a.page_count() * MINI_PAGE_ALLOC_BYTES,
        b matches Block::Small { page, segment } ==> page * MINI_PAGE_ALLOC_BYTES <= a.block_range(b).0
            && a.block_range(b).1 <= (page + 1) * MINI_PAGE_ALLOC_BYTES,
        b matches Block::Big { index } ==> a.block_range(b).1 == (a.big_headers()[index].start_idx
            + header_slots(a.big_headers()[index])) * MINI_PAGE_ALLOC_BYTES && a.big_headers()[index].start_idx
            * MINI_PAGE_ALLOC_BYTES < a.block_range(b).0,
{
    match b {
        Block::Small { page, segment } => {
            lemma_class_facts(a.page_class(page) as nat);
            let p = pow2(a.page_class(page) as nat) as int;
            lemma_segment_offset(page, segment, p, segments_per_minipage(a.page_class(page) as nat) as int);
        },
        Block::Big { index } => {
            assert(a.big_ok(index));
        },
    }
}

} // verus!

verus! {

/// Releasing the same address twice: the second release changes nothing but
/// possibly the recorded failure cause.
pub proof fn lemma_double_dealloc_is_noop(
    pre: &AllocatorImpl,
    mid: &AllocatorImpl,
    post: &AllocatorImpl,
    ptr: int,
)
    requires
        pre.wf(),
        mid.wf(),
        dealloc_result(pre, mid, ptr),
        same_layout(mid, pre),
        dealloc_result(mid, post, ptr),
    ensures
        post.same_state(mid),
{
    let off = ptr - pre.alloc_start();
    let i = off / MINI_PAGE_ALLOC_BYTES as int;
    if !pre.is_init() || off < 0 || i >= pre.page_count() {
    } else if pre.is_small_page(i) {
        let e = pre.page_class(i);
        let s = (off % MINI_PAGE_ALLOC_BYTES as int) / pow2(e as nat) as int;
        if pre.seg_free(i, s) {
            lemma_same_state(pre, mid);
            assert(mid.meta_page == pre.meta_page);
            assert(mid.seg_free(i, s));
        } else {
            lemma_class_facts(e as nat);
            assert(0 <= s < segments_per_minipage(e as nat)) by {
                lemma_segment_index_bound(off % MINI_PAGE_ALLOC_BYTES as int, pow2(e as nat) as int, segments_per_minipage(e as nat) as int);
            }
            assert(!mid.live(Block::Small { page: i, segment: s }));
            assert(mid.seg_free(i, s));
        }
    } else if exists|j: int| big_holds(pre, off, j) {
        let j = choose|j: int| last_holder(pre, off, j) && releases_block(pre, mid, Block::Big { index: j });
        assert(!exists|k: int| big_holds(mid, off, k)) by {
            if exists|k: int| big_holds(mid, off, k) {
                let k = choose|k: int| big_holds(mid, off, k);
                assert(k != j);
                assert(pre.live(Block::Big { index: k }));
                assert(big_holds(pre, off, k));
                if k < j {
                    lemma_live_blocks_disjoint(pre, Block::Big { index: k }, Block::Big { index: j });
                }
            }
        }
    } else {
        lemma_same_state(pre, mid);
        assert(mid.big_allocs == pre.big_allocs);
        assert(!exists|k: int| big_holds(mid, off, k)) by {
            if exists|k: int| big_holds(mid, off, k) {
                let k = choose|k: int| big_holds(mid, off, k);
                assert(big_holds(pre, off, k));
            }
        }
    }
}

/// A segment index computed from an offset within a minipage is in range.
proof fn lemma_segment_index_bound(rel: int, p: int, m: int)
    requires
        0 <= rel < MINI_PAGE_ALLOC_BYTES,
        p > 0,
        p * m == MINI_PAGE_ALLOC_BYTES,
    ensures
        0 <= rel / p < m,
{
    assert(0 <= rel / p < m) by (nonlinear_arith)
        requires
            0 <= rel < p * m,
            p > 0,
    ;
}

} // verus!

verus! {

/// The slots fit in the allocation area.
pub proof fn lemma_small_page_count_bound(a: &AllocatorImpl)
    requires
        a.wf(),
    ensures
        0 <= a.page_count(),
        a.page_count() * MINI_PAGE_ALLOC_BYTES <= ALLOC_AREA_BYTES,
{
}

/// A minipage index is below the number of slots.
pub proof fn lemma_small_page_in_range(a: &AllocatorImpl, i: int)
    requires
        a.is_small_page(i),
    ensures
        0 <= i < a.page_count(),
{
}

} // verus!

verus! {

/// Recording a refused grow keeps the invariant and every allocation.
proof fn lemma_host_failed(pre: &AllocatorImpl, post: &AllocatorImpl)
    requires
        pre.wf(),
        !pre.did_init_heap,
        *post == (AllocatorImpl { failure: post.failure, host_grow_failed: true, ..*pre }),
    ensures
        post.wf(),
        forall|b: Block| #[trigger] post.live(b) == pre.live(b),
{
    let mid = AllocatorImpl { failure: post.failure, ..*pre };
    lemma_same_state(pre, &mid);
    assert(post.meta_page == mid.meta_page);
    lemma_meta_same(&mid, post);
    assert(forall|j: int| #[trigger] post.big_ok(j) == mid.big_ok(j));
    assert(post.wf_core());
}

} // verus!

verus! {

/// A run of free segments depends only on the bitmap bits it covers.
pub proof fn lemma_free_run_frame(a: &AllocatorImpl, b: &AllocatorImpl, i: int, j: int, lo: int, hi: int)
    requires
        forall|t: int| lo <= t < hi ==> #[trigger] a.seg_free(i, t) == b.seg_free(j, t),
    ensures
        free_run(a, i, lo, hi) == free_run(b, j, lo, hi),
    decreases hi - lo,
{
    if lo < hi {
        lemma_free_run_frame(a, b, i, j, lo + 1, hi);
    }
}

} // verus!

verus! {

/// What an allocation's three steps (pick a minipage, take a segment, pop
/// a full minipage) leave on the stacks.
proof fn lemma_small_alloc_stacks(
    pre: &AllocatorImpl,
    mid: &AllocatorImpl,
    taken: &AllocatorImpl,
    post: &AllocatorImpl,
    c: int,
    i: int,
    s: int,
)
    requires
        0 <= c < NUM_SIZE_CLASSES,
        0 <= i <= u16::MAX,
        1 <= class_segments(c) <= 256,
        0 <= s < class_segments(c),
        classes_kept_except(pre, mid, c),
        pages_kept_except(pre, mid, i),
        pre.page_count() <= mid.page_count(),
        taken.page_count() == mid.page_count(),
        post.page_count() == taken.page_count(),
        mid.big_headers() == pre.big_headers(),
        mid.is_small_page(i),
        mid.on_stack(i),
        i == pre.page_count() ==> {
            &&& mid.free_minipages(c) == pre.free_minipages(c).push(i as u16)
            &&& mid.free_segments(c) == free_run(mid, i, 0, class_segments(c) as int)
            &&& mid.fresh_minipage(c) == Some(i as u16)
            &&& forall|t: int| 0 <= t < class_segments(c) ==> #[trigger] mid.seg_free(i, t)
            &&& s == 0
        },
        i != pre.page_count() ==> {
            &&& mid.free_minipages(c) == pre.free_minipages(c)
            &&& mid.free_segments(c) == pre.free_segments(c)
            &&& mid.fresh_minipage(c) == pre.fresh_minipage(c)
            &&& forall|t: int| #[trigger] mid.seg_free(i, t) == pre.seg_free(i, t)
            &&& pre.is_small_page(i)
            &&& 0 <= i < pre.page_count()
        },
        mid.current_page(c) == Some(i as u16),
        mid.free_segments(c).len() > 0,
        s == mid.free_segments(c).last(),
        classes_kept_except(mid, taken, c),
        taken.free_minipages(c) == mid.free_minipages(c),
        taken.free_segments(c) == mid.free_segments(c).drop_last(),
        taken.fresh_minipage(c) == mid.fresh_minipage(c),
        pages_kept_except(mid, taken, i),
        taken.big_headers() == mid.big_headers(),
        taken.is_small_page(i),
        taken.on_stack(i),
        forall|t: int| 0 <= t < class_segments(c) && t != s ==> #[trigger] taken.seg_free(i, t) == mid.seg_free(i, t),
        !taken.seg_free(i, s),
        taken.segments_ok(c),
        taken.page_class(i) == c + MIN_SIZE_CLASS,
        taken.free_segments(c).len() > 0 ==> *post == *taken,
        taken.free_segments(c).len() == 0 ==> {
            &&& post.free_minipages(c) == taken.free_minipages(c).drop_last()
            &&& classes_kept_except(taken, post, c)
            &&& !post.on_stack(i)
            &&& pages_kept_except(taken, post, i)
            &&& post.is_small_page(i)
            &&& post.page_class(i) == taken.page_class(i)
            &&& forall|t: int| #[trigger] post.seg_free(i, t) == taken.seg_free(i, t)
            &&& post.fresh_minipage(c) == (if taken.fresh_minipage(c) == Some(i as u16) {
                None
            } else {
                taken.fresh_minipage(c)
            })
            &&& post.big_headers() == taken.big_headers()
            &&& post.free_segments(c) == match post.current_page(c) {
                Some(q) => free_run(post, q as int, 0, class_segments(c) as int),
                None => Seq::empty(),
            }
        },
    ensures
        small_alloc_stacks(pre, post, c, i, s),
{
    let n = class_segments(c) as int;
    let new_page = i == pre.page_count();
    assert(post.has_free_segment(i) == (taken.free_segments(c).len() > 0)) by {
        if taken.free_segments(c).len() > 0 {
            let fs = taken.free_segments(c);
            assert(fs.contains(fs[fs.len() - 1]));
            assert(taken.seg_free(i, fs[fs.len() - 1] as int));
            assert(post.seg_free(i, fs[fs.len() - 1] as int));
        } else if post.has_free_segment(i) {
            let t = choose|t: int|
                0 <= t < segments_per_minipage(post.page_class(i) as nat) && #[trigger] post.seg_free(i, t);
            assert(taken.seg_free(i, t));
            assert(taken.free_segments(c).contains(t as u16));
        }
    }
    assert(forall|t: int| 0 <= t < n && t != s ==> #[trigger] post.seg_free(i, t) == (new_page || pre.seg_free(i, t)));
    assert forall|j: int|
        0 <= j < pre.page_count() && j != i implies {
            &&& #[trigger] post.is_small_page(j) == pre.is_small_page(j)
            &&& post.page_class(j) == pre.page_class(j)
            &&& post.on_stack(j) == pre.on_stack(j)
        } by {
        assert(mid.is_small_page(j) == pre.is_small_page(j));
        assert(taken.is_small_page(j) == mid.is_small_page(j));
        if taken.free_segments(c).len() == 0 {
            assert(post.is_small_page(j) == taken.is_small_page(j));
        }
    }
    assert forall|j: int, t: int|
        0 <= j < pre.page_count() && j != i implies #[trigger] post.seg_free(j, t) == pre.seg_free(j, t) by {
        assert(mid.seg_free(j, t) == pre.seg_free(j, t));
        assert(taken.seg_free(j, t) == mid.seg_free(j, t));
        if taken.free_segments(c).len() == 0 {
            assert(post.seg_free(j, t) == taken.seg_free(j, t));
        }
    }
    assert(pages_kept_except(pre, post, i));
    assert forall|d: int| 0 <= d < NUM_SIZE_CLASSES && d != c implies #[trigger] post.free_minipages(d) == pre.free_minipages(d) by {
        assert(mid.free_minipages(d) == pre.free_minipages(d));
        assert(taken.free_minipages(d) == mid.free_minipages(d));
        if taken.free_segments(c).len() == 0 {
            assert(post.free_minipages(d) == taken.free_minipages(d));
        }
    }
    assert(classes_kept_except(pre, post, c));
    if taken.free_segments(c).len() > 0 && new_page {
        let fr = free_run(mid, i, 0, n);
        assert(mid.seg_free(i, 0));
        assert(fr == free_run(mid, i, 1, n).push(0u16));
        assert(fr.drop_last() =~= free_run(mid, i, 1, n));
        lemma_free_run_frame(mid, post, i, i, 1, n);
        assert(!post.seg_free(i, 0));
        assert(free_run(post, i, 0, n) == free_run(post, i, 1, n));
    }
}

} // verus!

verus! {

/// The parts of a release's outcome shared by its three cases.
proof fn lemma_dealloc_common(pre: &AllocatorImpl, freed: &AllocatorImpl, post: &AllocatorImpl, c: int, p: int, s: int)
    requires
        pre.wf(),
        0 <= c < NUM_SIZE_CLASSES,
        bit_freed(pre, freed, p, s),
        pre.is_small_page(p),
        post.meta_page.minipage_headers@.len() == freed.meta_page.minipage_headers@.len(),
        forall|j: int| 0 <= j < freed.page_count() && j != p ==> #[trigger] post.meta_page.minipage_headers@[j] == freed.meta_page.minipage_headers@[j],
        post.page_class(p) == freed.page_class(p),
        forall|t: int| #[trigger] post.seg_free(p, t) == freed.seg_free(p, t),
        post.meta_page.big_alloc_flags == freed.meta_page.big_alloc_flags,
        post.big_allocs == freed.big_allocs,
        post.total_alloc_fresh == freed.total_alloc_fresh,
        post.total_alloc_reused == freed.total_alloc_reused,
        post.fresh_minipages == freed.fresh_minipages,
        forall|d: int| 0 <= d < NUM_SIZE_CLASSES && d != c ==> #[trigger] post.free_minipages(d) == freed.free_minipages(d) && post.free_segments(d) == freed.free_segments(d),
    ensures
        classes_kept_except(pre, post, c),
        post.fresh_minipage(c) == pre.fresh_minipage(c),
        post.fresh_count(c) == pre.fresh_count(c),
        post.reused_count(c) == pre.reused_count(c),
        pages_kept_except(pre, post, p),
        post.big_headers() == pre.big_headers(),
        post.is_small_page(p),
        post.page_class(p) == pre.page_class(p),
        post.seg_free(p, s),
        forall|t: int| 0 <= t < 8 * MINI_PAGE_FREE_SEGMENTS_SIZE && t != s ==> #[trigger] post.seg_free(p, t) == pre.seg_free(p, t),
{
    assert forall|d: int| 0 <= d < NUM_SIZE_CLASSES && d != c implies #[trigger] post.free_minipages(d) == pre.free_minipages(d) && post.free_segments(d) == pre.free_segments(d) by {
        assert(freed.free_minipages(d) == pre.free_minipages(d));
        assert(post.free_minipages(d) == freed.free_minipages(d));
    }
    assert forall|j: int|
        0 <= j < pre.page_count() && j != p implies {
            &&& #[trigger] post.is_small_page(j) == pre.is_small_page(j)
            &&& post.page_class(j) == pre.page_class(j)
            &&& post.on_stack(j) == pre.on_stack(j)
        } by {
        assert(post.meta_page.minipage_headers@[j] == freed.meta_page.minipage_headers@[j]);
        assert(freed.meta_page.minipage_headers@[j] == pre.meta_page.minipage_headers@[j]);
    }
    assert forall|j: int, t: int|
        0 <= j < pre.page_count() && j != p implies #[trigger] post.seg_free(j, t) == pre.seg_free(j, t) by {
        assert(post.meta_page.minipage_headers@[j] == freed.meta_page.minipage_headers@[j]);
        assert(freed.meta_page.minipage_headers@[j] == pre.meta_page.minipage_headers@[j]);
    }
}

} // verus!

verus! {

/// The number of pages to grow a host region of `current_pages` pages by,
/// so that it reaches the region's size; `None` when it is already that
/// large, which the allocator treats as a refusal.
pub fn grow_request(current_pages: usize) -> (r: Option<usize>)
    ensures
        current_pages < MAX_HOST_PAGES ==> r == Some((MAX_HOST_PAGES - current_pages) as usize),
        current_pages >= MAX_HOST_PAGES ==> r is None,
{
    if current_pages < MAX_HOST_PAGES {
        Some(MAX_HOST_PAGES - current_pages)
    } else {
        None
    }
}

/// The host's answers describe a usable region: the grow succeeded, and the
/// whole region from `base` has addresses.
pub fn host_region_ok(grow_result: usize, base: usize) -> (r: bool)
    ensures
        r == (grow_result != usize::MAX && base + REGION_BYTES <= usize::MAX),
{
    grow_result != usize::MAX && base <= usize::MAX - (REGION_BYTES as usize)
}

} // verus!

verus! {

/// A run with no free segment is empty.
pub proof fn lemma_free_run_none(a: &AllocatorImpl, i: int, lo: int, hi: int)
    requires
        forall|t: int| lo <= t < hi ==> !#[trigger] a.seg_free(i, t),
    ensures
        free_run(a, i, lo, hi) == Seq::<u16>::empty(),
    decreases hi - lo,
{
    if lo < hi {
        lemma_free_run_none(a, i, lo + 1, hi);
    }
}

/// A run with exactly one free segment holds that segment alone.
pub proof fn lemma_free_run_single(a: &AllocatorImpl, i: int, lo: int, hi: int, s: int)
    requires
        lo <= s < hi,
        0 <= s <= u16::MAX,
        a.seg_free(i, s),
        forall|t: int| lo <= t < hi && t != s ==> !#[trigger] a.seg_free(i, t),
    ensures
        free_run(a, i, lo, hi) == seq![s as u16],
    decreases hi - lo,
{
    if lo == s {
        lemma_free_run_none(a, i, lo + 1, hi);
        assert(Seq::<u16>::empty().push(s as u16) =~= seq![s as u16]);
    } else {
        lemma_free_run_single(a, i, lo + 1, hi, s);
    }
}

} // verus!

verus! {

/// A run over all-free segments holds every one of them.
pub proof fn lemma_free_run_all(a: &AllocatorImpl, i: int, lo: int, hi: int)
    requires
        lo <= hi,
        forall|t: int| lo <= t < hi ==> #[trigger] a.seg_free(i, t),
    ensures
        free_run(a, i, lo, hi).len() == hi - lo,
    decreases hi - lo,
{
    if lo < hi {
        lemma_free_run_all(a, i, lo + 1, hi);
    }
}

} // verus!
