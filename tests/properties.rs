use alligator::engine::{AllocatorImpl, AlligatorAlloc};
use alligator::heap::HostHeap;
use alligator::META_PAGE_BYTES;

const BASE: usize = 0x4000_0000;

struct GrowingHeap {
    pages: usize,
}

impl HostHeap for GrowingHeap {
    fn memory_size(&mut self) -> usize {
        self.pages
    }

    fn memory_grow(&mut self, delta_pages: usize) -> usize {
        let old = self.pages;
        self.pages += delta_pages;
        old
    }

    fn base_ptr(&mut self) -> usize {
        BASE
    }
}

fn start() -> usize {
    BASE + META_PAGE_BYTES as usize
}

fn new_alloc() -> AlligatorAlloc<GrowingHeap> {
    AlligatorAlloc::new(GrowingHeap { pages: 0 })
}

#[test]
fn current_minipage_serves_each_free_segment_once() {
    let mut a = new_alloc();
    let mut ptrs = Vec::new();
    for _ in 0..256 {
        ptrs.push(a.allocate(8));
    }
    for (k, p) in ptrs.iter().enumerate() {
        assert_eq!(*p, start() + 8 * k);
    }
    let next = a.allocate(8);
    assert_eq!(next, start() + 2048);
    a.deallocate(ptrs[10]);
    a.deallocate(ptrs[20]);
    a.deallocate(ptrs[30]);
    let mut again = vec![a.allocate(8), a.allocate(8), a.allocate(8)];
    again.sort();
    assert_eq!(again, vec![ptrs[10], ptrs[20], ptrs[30]]);
    assert_eq!(a.allocate(8), start() + 2048 + 8);
}

#[test]
fn live_allocations_do_not_overlap() {
    let mut a = new_alloc();
    let sizes = [8usize, 13, 16, 100, 2048, 3000, 7, 500, 9000, 64];
    let mut live: Vec<(usize, usize)> = Vec::new();
    for round in 0..30 {
        let n = sizes[round % sizes.len()];
        let p = a.allocate(n);
        assert_ne!(p, 0);
        assert!(p >= start());
        live.push((p, n));
        if round % 4 == 3 {
            let (q, _) = live.remove(round % live.len());
            a.deallocate(q);
        }
    }
    for i in 0..live.len() {
        for j in (i + 1)..live.len() {
            let (p, n) = live[i];
            let (q, m) = live[j];
            assert!(p + n <= q || q + m <= p, "{:x}+{} overlaps {:x}+{}", p, n, q, m);
        }
    }
}

#[test]
fn small_allocations_are_aligned_to_their_class() {
    let mut a = new_alloc();
    for e in 3..=11u32 {
        let size = 1usize << e;
        for _ in 0..5 {
            let p = a.allocate(size);
            assert_eq!((p - start()) % size, 0);
        }
    }
}

#[test]
fn alloc_dealloc_pairs_keep_minipage_count() {
    let mut a = new_alloc();
    let first = a.allocate(64);
    let pages = a.total_minipages();
    for _ in 0..1000 {
        let p = a.allocate(64);
        assert_ne!(p, 0);
        a.deallocate(p);
    }
    assert_eq!(a.total_minipages(), pages);
    a.deallocate(first);
    assert_eq!(a.total_minipages(), pages);
}

#[test]
fn round_trip_returns_same_address() {
    let mut a = new_alloc();
    let keep = a.allocate(100);
    let p = a.allocate(100);
    a.deallocate(p);
    assert_eq!(a.usable_size(p), None);
    assert_eq!(a.allocate(100), p);
    assert_eq!(a.usable_size(keep), Some(128));
}

#[test]
fn double_dealloc_changes_nothing() {
    let mut a = new_alloc();
    let p = a.allocate(32);
    let q = a.allocate(32);
    a.deallocate(p);
    let pages = a.total_minipages();
    a.deallocate(p);
    assert_eq!(a.total_minipages(), pages);
    assert_eq!(a.usable_size(q), Some(32));
    assert_eq!(a.allocate(32), p);
    assert_ne!(a.allocate(32), p);
}

#[test]
fn engine_used_directly() {
    let mut heap = GrowingHeap { pages: 0 };
    let mut e = AllocatorImpl::new();
    assert_eq!(e.total_minipages(), 0);
    let p = e.allocate(&mut heap, 24);
    assert_eq!(p, start());
    assert_eq!(e.usable_size(p), Some(32));
    assert_eq!(heap.pages, 200);
    let q = e.allocate(&mut heap, 4096);
    assert_eq!(q, start() + 2048 + 16);
    assert_eq!(e.total_minipages(), 4);
    e.deallocate(q);
    assert_eq!(e.usable_size(q), None);
    e.deallocate(p);
    assert_eq!(e.usable_size(p), None);
    let stats = e.fresh_reused_stats();
    assert_eq!(stats.total_alloc_fresh[2], 1);
    assert_eq!(e.alloc_failure_cause(), None);
}

#[test]
fn dealloc_of_foreign_address_is_ignored() {
    let mut a = new_alloc();
    a.deallocate(12345);
    let p = a.allocate(8);
    a.deallocate(BASE);
    a.deallocate(p + 1_000_000);
    assert_eq!(a.usable_size(p), Some(8));
}
