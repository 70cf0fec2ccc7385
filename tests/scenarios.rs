use alligator::addr::BigAllocHeader;
use alligator::engine::{AllocFail, AlligatorAlloc};
use alligator::heap::HostHeap;
use alligator::size_class::SizeClass;
use alligator::{BIG_ALLOC_HEADER_BYTES, META_PAGE_BYTES, REGION_BYTES};

const BASE: usize = 0x10_0000;

/// A simulated host region: grows while under `max_pages`.
struct TestHeap {
    pages: usize,
    max_pages: usize,
}

impl HostHeap for TestHeap {
    fn memory_size(&mut self) -> usize {
        self.pages
    }

    fn memory_grow(&mut self, delta_pages: usize) -> usize {
        if self.pages + delta_pages > self.max_pages {
            return usize::MAX;
        }
        let old = self.pages;
        self.pages += delta_pages;
        old
    }

    fn base_ptr(&mut self) -> usize {
        BASE
    }
}

fn new_alloc() -> AlligatorAlloc<TestHeap> {
    AlligatorAlloc::new(TestHeap { pages: 0, max_pages: 1000 })
}

fn start() -> usize {
    BASE + META_PAGE_BYTES as usize
}

#[test]
fn single_small_alloc_free() {
    let mut a = new_alloc();
    let first = a.allocate(8);
    assert_eq!(first, start());
    a.deallocate(first);
    let second = a.allocate(8);
    assert_eq!(second, first);
}

#[test]
fn fresh_reused_ratio_drives_fresh_creation() {
    let mut a = new_alloc();
    let mut ptrs = Vec::new();
    for _ in 0..256 {
        ptrs.push(a.allocate(8));
    }
    for p in &ptrs {
        a.deallocate(*p);
    }
    assert_eq!(a.total_minipages(), 1);
    let stats = a.fresh_reused_stats();
    assert_eq!(stats.total_alloc_reused[0], 0);
    assert_eq!(stats.total_alloc_fresh[0], 256);
    for _ in 0..257 {
        let before = a.fresh_reused_stats();
        let pages_before = a.total_minipages();
        let fresh = before.total_alloc_fresh[0];
        let reused = before.total_alloc_reused[0];
        let p = a.allocate(8);
        assert_ne!(p, 0);
        if reused > 0 && fresh < reused {
            assert_eq!(a.total_minipages(), pages_before + 1);
        }
    }
    let stats = a.fresh_reused_stats();
    assert_eq!(stats.total_alloc_reused[0], 256);
    assert_eq!(stats.total_alloc_fresh[0], 257);
    assert_eq!(a.total_minipages(), 2);
}

#[test]
fn big_alloc_path() {
    let mut a = new_alloc();
    let p = a.allocate(3000);
    assert_eq!(p, start() + BIG_ALLOC_HEADER_BYTES as usize);
    assert_eq!(a.usable_size(p), Some(2 * 2048 - BIG_ALLOC_HEADER_BYTES as usize));
    a.deallocate(p);
    assert_eq!(a.usable_size(p), None);
    let q = a.allocate(2500);
    assert_eq!(q, p);
    assert_eq!(a.total_minipages(), 2);
}

#[test]
fn out_of_memory_single_class() {
    let mut a = new_alloc();
    let mut n: usize = 0;
    loop {
        let p = a.allocate(2048);
        if p == 0 {
            break;
        }
        n += 1;
    }
    // 200 pages of 32 minipages, less the meta page; one segment each.
    assert_eq!(n, (200 * 32 - 1) * 1);
    assert_eq!(a.alloc_failure_cause(), Some(AllocFail::AddMiniPageNoSpace));
}

#[test]
fn out_of_memory_class_ten() {
    let mut a = new_alloc();
    let mut n: usize = 0;
    while a.allocate(1024) != 0 {
        n += 1;
    }
    assert_eq!(n, (200 * 32 - 1) * 2);
}

#[test]
fn double_free_is_silent() {
    let mut a = new_alloc();
    let p = a.allocate(16);
    a.deallocate(p);
    a.deallocate(p);
    let q = a.allocate(16);
    assert_eq!(q, p);
    let r = a.allocate(16);
    assert_ne!(r, p);
}

#[test]
fn mixed_sizes_keep_separate_minipages() {
    let mut a = new_alloc();
    let mut eights = Vec::new();
    let mut sixteens = Vec::new();
    let mut bigs = Vec::new();
    for _ in 0..4 {
        eights.push(a.allocate(8));
        sixteens.push(a.allocate(16));
        bigs.push(a.allocate(2048));
    }
    let page_of = |p: usize| (p - start()) / 2048;
    assert!(eights.iter().all(|p| page_of(*p) == page_of(eights[0])));
    assert!(sixteens.iter().all(|p| page_of(*p) == page_of(sixteens[0])));
    assert_ne!(page_of(eights[0]), page_of(sixteens[0]));
    a.deallocate(sixteens[1]);
    for p in eights.iter().chain(bigs.iter()) {
        assert!(a.usable_size(*p).is_some());
    }
    assert_eq!(a.usable_size(sixteens[1]), None);
    assert_eq!(a.allocate(16), sixteens[1]);
    let e = a.allocate(8);
    assert!(!eights.contains(&e));
}

#[test]
fn zero_alloc_returns_null() {
    let mut a = new_alloc();
    assert_eq!(a.allocate(0), 0);
    assert_eq!(a.alloc_failure_cause(), Some(AllocFail::NoZeroAlloc));
}

#[test]
fn largest_class_is_small_next_is_big() {
    let mut a = new_alloc();
    let p = a.allocate(2048);
    assert_eq!((p - start()) % 2048, 0);
    assert_eq!(a.usable_size(p), Some(2048));
    let q = a.allocate(2049);
    assert_eq!((q - start()) % 2048, BIG_ALLOC_HEADER_BYTES as usize);
    assert_eq!(a.usable_size(q), Some(2 * 2048 - BIG_ALLOC_HEADER_BYTES as usize));
}

#[test]
fn region_sized_request_fails() {
    let mut a = new_alloc();
    assert_eq!(a.allocate(REGION_BYTES as usize + 1), 0);
    assert_eq!(a.alloc_failure_cause(), Some(AllocFail::AddMiniPageNoSpace));
}

#[test]
fn full_region_fails_but_frees_work() {
    let mut a = new_alloc();
    let mut ptrs = Vec::new();
    loop {
        let p = a.allocate(2048);
        if p == 0 {
            break;
        }
        ptrs.push(p);
    }
    assert_eq!(a.allocate(2048), 0);
    assert_eq!(a.allocate(8), 0);
    assert_eq!(a.allocate(5000), 0);
    let last = ptrs[ptrs.len() - 1];
    a.deallocate(last);
    assert_eq!(a.allocate(2048), last);
}

#[test]
fn host_refusal_gives_null() {
    let mut a = AlligatorAlloc::new(TestHeap { pages: 0, max_pages: 10 });
    assert_eq!(a.allocate(8), 0);
    assert_eq!(a.alloc_failure_cause(), Some(AllocFail::HostGrowFail));
    assert_eq!(a.allocate(16), 0);
    assert_eq!(a.allocate(5000), 0);
    assert_eq!(a.total_minipages(), 0);
}

#[test]
fn dealloc_in_freed_big_region_is_refused() {
    let mut a = new_alloc();
    let p = a.allocate(5000);
    a.deallocate(p);
    a.deallocate(p);
    assert_eq!(a.alloc_failure_cause(), Some(AllocFail::BigDeallocHeaderNotFound));
}

#[test]
fn size_class_arithmetic() {
    assert_eq!(SizeClass::new(1).exp, 3);
    assert_eq!(SizeClass::new(7).exp, 7);
    assert_eq!(SizeClass::new_from_bytes(0).exp, 3);
    assert_eq!(SizeClass::new_from_bytes(9).exp, 4);
    assert_eq!(SizeClass::new_from_bytes(2048).exp, 11);
    assert_eq!(SizeClass::new_from_bytes(2049).exp, 12);
    assert_eq!(SizeClass::new(5).segment_bytes(), 32);
    assert_eq!(SizeClass::new(5).segments_max_num(), 64);
    assert_eq!(SizeClass::new(11).exp_as_idx(), 8);
}

#[test]
fn big_header_size() {
    assert_eq!(BigAllocHeader::compute_size(3000), (2 * 2048 - 16, 2));
    assert_eq!(BigAllocHeader::compute_size(2032), (2032, 1));
    assert_eq!(BigAllocHeader::compute_size(2033), (2 * 2048 - 16, 2));
}
