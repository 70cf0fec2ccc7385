use alligator::engine::{grow_request, host_region_ok};
use alligator::addr::{AllocAddr, MiniPageMeta, MiniPageSegment};
use alligator::minipage::MiniPageHeader;
use alligator::size_class::{exp_for_bytes, SizeClass};
use alligator::stack::FixedStack;

#[test]
fn fixed_stack_is_lifo_and_bounded() {
    let mut s = FixedStack::new(2);
    assert_eq!(s.peek(), None);
    assert_eq!(s.push(4), Some(4));
    assert_eq!(s.push(9), Some(9));
    assert_eq!(s.push(1), None);
    assert_eq!(s.size(), 2);
    assert_eq!(s.peek(), Some(9));
    assert_eq!(s.pop(), Some(9));
    assert_eq!(s.pop(), Some(4));
    assert_eq!(s.pop(), None);
    s.push(3);
    s.clear();
    assert_eq!(s.size(), 0);
}

#[test]
fn bitmap_bits_are_independent() {
    let mut h = MiniPageHeader::new_free(4, None);
    assert!(h.get_free_bitmap(0));
    assert!(h.get_free_bitmap(127));
    h.write_free_bitmap(9, false);
    assert!(!h.get_free_bitmap(9));
    assert!(h.get_free_bitmap(8));
    assert!(h.get_free_bitmap(10));
    assert_eq!(h.free_segments[1], 0b1111_1101);
    h.write_free_bitmap(9, true);
    assert!(h.get_free_bitmap(9));
    assert_eq!(h.free_segments[1], 0xff);
}

#[test]
fn address_to_minipage_and_segment() {
    let addr = AllocAddr::new(2048 * 3 + 100);
    let page = addr.get_page_meta();
    assert_eq!(page.page_idx, 3);
    assert_eq!(page.addr.addr, 6144);
    let seg = addr.get_segment(SizeClass::new(4));
    assert_eq!(seg.segment_idx, 6);
    assert_eq!(seg.bitmap_byte_idx, 0);
    assert_eq!(seg.bitmap_byte_bit_idx, 6);
    assert_eq!(seg.as_addr().addr, 6144 + 96);
    assert_eq!(seg.segment_idx_u16(), 6);
    let seg2 = MiniPageSegment::from_addr(SizeClass::new(3), AllocAddr::from_usize(2048 + 8 * 17));
    assert_eq!(seg2.segment_idx, 17);
    assert_eq!(seg2.bitmap_byte_idx, 2);
    assert_eq!(seg2.bitmap_byte_bit_idx, 1);
    assert_eq!(addr.addr_usize(), 6244);
}

#[test]
fn offsets_from_and_to_addresses() {
    let a = AllocAddr::from_ptr(0x1000, 0x1000 + 4100);
    assert_eq!(a.addr, 4100);
    assert_eq!(a.as_ptr(0x1000), 0x1000 + 4100);
    assert_eq!(a.get_page_meta().page_idx, 2);
}

#[test]
fn minipage_meta_segments() {
    let m = MiniPageMeta::new(5);
    assert_eq!(m.addr.addr, 10240);
    assert_eq!(m.page_idx_u32(), 5);
    let s = m.get_segment(SizeClass::new(9), 3);
    assert_eq!(s.as_addr().addr, 10240 + 3 * 512);
    let from = MiniPageMeta::from_addr(AllocAddr::new(10240 + 2047));
    assert_eq!(from.page_idx, 5);
}

#[test]
fn ceil_log2_of_sizes() {
    assert_eq!(exp_for_bytes(0), 0);
    assert_eq!(exp_for_bytes(1), 0);
    assert_eq!(exp_for_bytes(2), 1);
    assert_eq!(exp_for_bytes(3), 2);
    assert_eq!(exp_for_bytes(1024), 10);
    assert_eq!(exp_for_bytes(1025), 11);
    assert_eq!(exp_for_bytes(usize::MAX), 64);
}

#[test]
fn host_grow_decisions() {
    assert_eq!(grow_request(0), Some(200));
    assert_eq!(grow_request(17), Some(183));
    assert_eq!(grow_request(200), None);
    assert_eq!(grow_request(500), None);
    assert!(host_region_ok(0, 0x1000));
    assert!(!host_region_ok(usize::MAX, 0x1000));
    assert!(!host_region_ok(3, usize::MAX - 100));
}
