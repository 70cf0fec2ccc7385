//! Properties of the allocator that relate its operations, proved from
//! their contracts.
use vstd::arithmetic::power2::pow2;
use vstd::prelude::*;

use crate::engine::{
    alloc_result, dealloc_result, lemma_live_block_bounds, lemma_live_blocks_disjoint, lemma_small_page_in_range, lemma_small_page_count_bound, lemma_on_stack_iff_stacked, lemma_free_run_single, lemma_free_run_all, free_run, class_segments, lemma_segment_offset,
    lemma_stacked_minipages_have_free_segment, same_layout, small_pick, AllocatorImpl, Block,
};
use crate::size_class::{class_exp_for, lemma_ceil_log2_bounds, lemma_class_facts, segments_per_minipage};
use crate::{ALLOC_AREA_BYTES, MAX_SIZE_CLASS, MIN_SIZE_CLASS, MINI_PAGE_ALLOC_BYTES, NUM_SIZE_CLASSES};

verus! {

/// The free segments of minipage `i`.
pub open spec fn free_segment_set(a: &AllocatorImpl, i: int) -> Set<int> {
    Set::new(|s: int| 0 <= s < segments_per_minipage(a.page_class(i) as nat) && a.seg_free(i, s))
}

/// The current minipage of a class has as many free segments in its bitmap
/// as its class's free-segments stack holds, so the stack serves each of
/// them once before the minipage is full.
pub proof fn law_free_segments_match_bitmap(a: &AllocatorImpl, c: int)
    requires
        a.wf(),
        0 <= c < NUM_SIZE_CLASSES,
        a.current_page(c) is Some,
    ensures
        a.free_segments(c).len() == free_segment_set(a, a.current_page(c).unwrap() as int).len(),
        a.free_segments(c).len() > 0,
{
    let i = a.current_page(c).unwrap() as int;
    let fs = a.free_segments(c);
    lemma_stacked_minipages_have_free_segment(a, c, a.free_minipages(c).len() - 1);
    assert(a.segments_ok(c));
    let t = fs.map_values(|x: u16| x as int);
    assert(t.no_duplicates()) by {
        assert forall|x: int, y: int| 0 <= x < t.len() && 0 <= y < t.len() && x != y implies t[x] != t[y] by {
            assert(fs[x] != fs[y]);
        }
    }
    t.unique_seq_to_set();
    assert(t.to_set() =~= free_segment_set(a, i)) by {
        assert forall|s: int| t.to_set().contains(s) implies free_segment_set(a, i).contains(s) by {
            let k = choose|k: int| 0 <= k < t.len() && t[k] == s;
            assert(fs.contains(fs[k]));
        }
        assert forall|s: int| free_segment_set(a, i).contains(s) implies t.to_set().contains(s) by {
            lemma_class_facts((c + MIN_SIZE_CLASS) as nat);
            assert(fs.contains(s as u16));
            let k = choose|k: int| 0 <= k < fs.len() && fs[k] == s as u16;
            assert(t[k] == s);
        }
    }
    let w = choose|w: int| 0 <= w < segments_per_minipage(a.page_class(i) as nat) && #[trigger] a.seg_free(i, w);
    lemma_class_facts((c + MIN_SIZE_CLASS) as nat);
    assert(fs.contains(w as u16));
}

/// An address handed out by an allocation starts a block that was not live
/// before and is live after; the request fits in that block, the block lies
/// in the allocation area, and it shares no byte with any other live block.
pub proof fn law_alloc_disjoint(pre: &AllocatorImpl, post: &AllocatorImpl, n: int, r: int)
    requires
        pre.wf(),
        post.wf(),
        pre.is_init(),
        n > 0,
        alloc_result(pre, post, n, r),
        r != 0,
    ensures
        exists|b: Block|
            {
                &&& !pre.live(b)
                &&& post.live(b)
                &&& post.block_range(b).0 == r - post.alloc_start()
                &&& r - post.alloc_start() + n <= post.block_range(b).1 <= ALLOC_AREA_BYTES
                &&& forall|b2: Block|
                    #[trigger] post.live(b2) && b2 != b ==> post.block_range(b).1 <= post.block_range(b2).0
                        || post.block_range(b2).1 <= post.block_range(b).0
            },
{
    let e = class_exp_for(n as nat);
    lemma_ceil_log2_bounds(n as nat);
    if e <= MAX_SIZE_CLASS {
        let c = e - MIN_SIZE_CLASS;
        let (i, s) = small_pick(pre, c).unwrap();
        let b = Block::Small { page: i, segment: s };
        lemma_class_facts(e as nat);
        if crate::size_class::ceil_log2(n as nat) < MIN_SIZE_CLASS {
            vstd::arithmetic::power2::lemma2_to64();
            if crate::size_class::ceil_log2(n as nat) < 3 {
                assert(pow2(crate::size_class::ceil_log2(n as nat)) <= pow2(3)) by {
                    if crate::size_class::ceil_log2(n as nat) < 3 {
                        vstd::arithmetic::power2::lemma_pow2_strictly_increases(crate::size_class::ceil_log2(n as nat), 3);
                    }
                }
            }
        }
        assert(post.live(b));
        assert forall|b2: Block| #[trigger] post.live(b2) && b2 != b implies post.block_range(b).1 <= post.block_range(b2).0
            || post.block_range(b2).1 <= post.block_range(b).0 by {
            lemma_live_blocks_disjoint(post, b, b2);
        }
        lemma_live_block_bounds(post, b);
    } else {
        if exists|j: int| crate::engine::big_fits(pre, n, j) {
            let j = choose|j: int|
                {
                    &&& crate::engine::first_fit(pre, n, j)
                    &&& post.big_headers() == pre.big_headers().update(
                        j,
                        crate::addr::BigAllocHeader { free: false, ..pre.big_headers()[j] },
                    )
                    &&& r == pre.alloc_start() + pre.block_range(Block::Big { index: j }).0
                    &&& post.block_range(Block::Big { index: j }) == pre.block_range(Block::Big { index: j })
                    &&& crate::engine::takes_block(pre, post, Block::Big { index: j })
                    &&& post.page_count() == pre.page_count()
                };
            let b = Block::Big { index: j };
            assert forall|b2: Block| #[trigger] post.live(b2) && b2 != b implies post.block_range(b).1 <= post.block_range(b2).0
                || post.block_range(b2).1 <= post.block_range(b).0 by {
                lemma_live_blocks_disjoint(post, b, b2);
            }
            lemma_live_block_bounds(post, b);
        } else {
            let j = pre.big_headers().len() as int;
            let b = Block::Big { index: j };
            let m = crate::addr::big_alloc_slots(n as nat) as int;
            lemma_small_page_count_bound(pre);
            assert(post.big_headers()[j] == post.big_headers().last());
            assert(post.big_headers()[j].size_bytes == m * MINI_PAGE_ALLOC_BYTES - crate::BIG_ALLOC_HEADER_BYTES);
            assert(post.big_headers()[j].start_idx == pre.page_count());
            assert(m * MINI_PAGE_ALLOC_BYTES >= n + crate::BIG_ALLOC_HEADER_BYTES) by {
                vstd::arithmetic::div_mod::lemma_fundamental_div_mod(
                    n + crate::BIG_ALLOC_HEADER_BYTES + MINI_PAGE_ALLOC_BYTES - 1,
                    MINI_PAGE_ALLOC_BYTES as int,
                );
            }
            assert forall|b2: Block| #[trigger] post.live(b2) && b2 != b implies post.block_range(b).1 <= post.block_range(b2).0
                || post.block_range(b2).1 <= post.block_range(b).0 by {
                lemma_live_blocks_disjoint(post, b, b2);
            }
            lemma_live_block_bounds(post, b);
        }
    }
}

/// A small allocation's address is aligned to its segment size, counted from
/// the first byte after the meta page.
pub proof fn law_small_alloc_aligned(pre: &AllocatorImpl, post: &AllocatorImpl, n: int, r: int)
    requires
        pre.wf(),
        pre.is_init(),
        n > 0,
        class_exp_for(n as nat) <= MAX_SIZE_CLASS,
        alloc_result(pre, post, n, r),
        r != 0,
    ensures
        (r - post.alloc_start()) % pow2(class_exp_for(n as nat) as nat) as int == 0,
{
    let e = class_exp_for(n as nat);
    let c = e - MIN_SIZE_CLASS;
    let (i, s) = small_pick(pre, c).unwrap();
    lemma_class_facts(e as nat);
    let p = pow2(e as nat) as int;
    let m = segments_per_minipage(e as nat) as int;
    assert(i * MINI_PAGE_ALLOC_BYTES + s * p == (i * m + s) * p) by (nonlinear_arith)
        requires
            p * m == MINI_PAGE_ALLOC_BYTES,
    ;
    vstd::arithmetic::div_mod::lemma_mod_multiples_basic(i * m + s, p);
}

/// An allocation followed by the release of the address it returned leaves
/// every allocation as it was, and leaves that address's minipage current
/// with the address's segment on top of its stack: unless the policy then
/// asks for a fresh minipage, the next allocation of the same size returns
/// the same address.
pub proof fn law_alloc_dealloc_round_trip(
    pre: &AllocatorImpl,
    mid: &AllocatorImpl,
    post: &AllocatorImpl,
    n: int,
    r: int,
)
    requires
        pre.wf(),
        mid.wf(),
        pre.is_init(),
        n > 0,
        class_exp_for(n as nat) <= MAX_SIZE_CLASS,
        alloc_result(pre, mid, n, r),
        r != 0,
        dealloc_result(mid, post, r),
        same_layout(post, mid),
    ensures
        forall|b: Block| #[trigger] post.live(b) == pre.live(b),
        ({
            let c = class_exp_for(n as nat) - MIN_SIZE_CLASS;
            let i = (r - pre.alloc_start()) / MINI_PAGE_ALLOC_BYTES as int;
            &&& post.current_page(c) == Some(i as u16)
            &&& post.next_segment(c) == Some(((r - pre.alloc_start()) % MINI_PAGE_ALLOC_BYTES as int
                / pow2(class_exp_for(n as nat) as nat) as int) as u16)
            &&& !post.needs_fresh(c) ==> forall|post2: AllocatorImpl, r2: int|
                #[trigger] alloc_result(post, &post2, n, r2) ==> r2 == r
        }),
{
    let e = class_exp_for(n as nat);
    let c = e - MIN_SIZE_CLASS;
    let (i, s) = small_pick(pre, c).unwrap();
    lemma_class_facts(e as nat);
    let p = pow2(e as nat) as int;
    let m = segments_per_minipage(e as nat) as int;
    let b = Block::Small { page: i, segment: s };
    assert(mid.live(b));
    lemma_small_page_in_range(mid, i);
    lemma_segment_offset(i, s, p, m);
    let off = r - mid.alloc_start();
    assert(off == i * MINI_PAGE_ALLOC_BYTES + s * p);
    assert(off / MINI_PAGE_ALLOC_BYTES as int == i);
    assert((off % MINI_PAGE_ALLOC_BYTES as int) / p == s);
    assert(mid.page_class(i) == e);
    assert(!mid.seg_free(i, s));
    assert forall|b2: Block| #[trigger] post.live(b2) == pre.live(b2) by {
        if b2 != b {
            assert(post.live(b2) == mid.live(b2));
            assert(mid.live(b2) == pre.live(b2));
        }
    }
    if mid.has_free_segment(i) {
        assert(mid.current_page(c) == Some(i as u16));
    } else {
        lemma_on_stack_iff_stacked(mid, i);
        assert(mid.current_page(c) != Some(i as u16)) by {
            if mid.current_page(c) == Some(i as u16) {
                let fm = mid.free_minipages(c);
                assert(fm[fm.len() - 1] == i as u16);
                assert(fm.contains(i as u16));
            }
        }
        assert forall|t: int| 0 <= t < m && t != s implies !#[trigger] post.seg_free(i, t) by {
            assert(post.seg_free(i, t) == mid.seg_free(i, t));
        }
        lemma_free_run_single(post, i, 0, m, s);
    }
    assert(post.current_page(c) == Some(i as u16));
    assert(post.next_segment(c) == Some(s as u16));
    if !post.needs_fresh(c) {
        assert forall|post2: AllocatorImpl, r2: int| #[trigger] alloc_result(post, &post2, n, r2) implies r2 == r by {
            assert(small_pick(post, c) == Some((i, s)));
        }
    }
}

/// An allocation and the release of its address, for a class that has a
/// current minipage and a policy that does not ask for a fresh one, leave
/// the number of minipage slots and the class's current minipage unchanged;
/// so pairs repeat without new minipages while the policy keeps reusing.
pub proof fn law_alloc_dealloc_keeps_minipage_count(
    pre: &AllocatorImpl,
    mid: &AllocatorImpl,
    post: &AllocatorImpl,
    n: int,
    r: int,
)
    requires
        pre.wf(),
        mid.wf(),
        pre.is_init(),
        n > 0,
        class_exp_for(n as nat) <= MAX_SIZE_CLASS,
        pre.current_page(class_exp_for(n as nat) - MIN_SIZE_CLASS) is Some,
        !pre.needs_fresh(class_exp_for(n as nat) - MIN_SIZE_CLASS),
        alloc_result(pre, mid, n, r),
        dealloc_result(mid, post, r),
        same_layout(post, mid),
    ensures
        post.page_count() == pre.page_count(),
        post.current_page(class_exp_for(n as nat) - MIN_SIZE_CLASS) == pre.current_page(
            class_exp_for(n as nat) - MIN_SIZE_CLASS,
        ),
{
    let c = class_exp_for(n as nat) - MIN_SIZE_CLASS;
    lemma_stacked_minipages_have_free_segment(pre, c, pre.free_minipages(c).len() - 1);
    lemma_small_page_in_range(pre, pre.current_page(c).unwrap() as int);
    let e = class_exp_for(n as nat);
    let (i, sg) = small_pick(pre, c).unwrap();
    lemma_class_facts(e as nat);
    pre.lemma_base_range();
    let p = pow2(e as nat) as int;
    lemma_segment_offset(i, sg, p, segments_per_minipage(e as nat) as int);
    assert(r - pre.alloc_start() == i * MINI_PAGE_ALLOC_BYTES + sg * p);
    assert((r - pre.alloc_start()) / MINI_PAGE_ALLOC_BYTES as int == i);
    law_alloc_dealloc_round_trip(pre, mid, post, n, r);
}

/// Once the region has no room for another minipage, an allocation fails
/// when its class has no minipage to serve it (or the policy asks for a
/// fresh one), and a big allocation fails when no free big allocation fits.
pub proof fn law_full_region_alloc_fails(pre: &AllocatorImpl, post: &AllocatorImpl, n: int, r: int)
    requires
        pre.wf(),
        pre.is_init(),
        n > 0,
        !pre.room_for(MINI_PAGE_ALLOC_BYTES as int),
        alloc_result(pre, post, n, r),
    ensures
        ({
            let e = class_exp_for(n as nat);
            let c = e - MIN_SIZE_CLASS;
            e <= MAX_SIZE_CLASS && (pre.current_page(c) is None || pre.needs_fresh(c)) ==> r == 0
        }),
        class_exp_for(n as nat) > MAX_SIZE_CLASS && !(exists|j: int| crate::engine::big_fits(pre, n, j))
            ==> r == 0,
{
    let m = crate::addr::big_alloc_slots(n as nat) as int;
    assert(m >= 1);
    assert(m * MINI_PAGE_ALLOC_BYTES >= MINI_PAGE_ALLOC_BYTES) by (nonlinear_arith)
        requires
            m >= 1,
    ;
}

/// The free segments that the current minipage of class index `c` still
/// offers, or 0 when the class has none.
pub open spec fn segments_left(a: &AllocatorImpl, c: int) -> int {
    if a.current_page(c) is Some {
        a.free_segments(c).len() as int
    } else {
        0
    }
}

/// A class that is being filled without releases: nothing was served from a
/// reused minipage, and the only minipage on its stack is its fresh one.
pub open spec fn filling(a: &AllocatorImpl, c: int) -> bool {
    &&& a.reused_count(c) == 0
    &&& a.free_minipages(c).len() <= 1
    &&& a.free_minipages(c).len() == 1 ==> a.fresh_minipage(c) == Some(a.free_minipages(c)[0])
}

/// One allocation while a class fills: it succeeds exactly when the current
/// minipage has a segment left or a new minipage fits; it takes one segment
/// of the current minipage, or opens a minipage and leaves all but one of its
/// segments; and the class is still filling. Repeated from a new allocator,
/// this hands out every segment of every minipage that fits, one minipage
/// at a time, before the first null.
pub proof fn law_fill_step(pre: &AllocatorImpl, post: &AllocatorImpl, n: int, r: int)
    requires
        pre.wf(),
        post.wf(),
        pre.is_init(),
        n > 0,
        class_exp_for(n as nat) <= MAX_SIZE_CLASS,
        filling(pre, class_exp_for(n as nat) - MIN_SIZE_CLASS),
        alloc_result(pre, post, n, r),
    ensures
        ({
            let c = class_exp_for(n as nat) - MIN_SIZE_CLASS;
            &&& r != 0 <==> (pre.current_page(c) is Some || pre.room_for(MINI_PAGE_ALLOC_BYTES as int))
            &&& r != 0 ==> {
                &&& filling(post, c)
                &&& post.page_count() == pre.page_count() + (if pre.current_page(c) is Some {
                    0int
                } else {
                    1int
                })
                &&& segments_left(pre, c) >= (if pre.current_page(c) is Some {
                    1int
                } else {
                    0int
                })
                &&& segments_left(post, c) == (if pre.current_page(c) is Some {
                    segments_left(pre, c) - 1
                } else {
                    class_segments(c) - 1
                })
            }
        }),
{
    let e = class_exp_for(n as nat);
    let c = e - MIN_SIZE_CLASS;
    let nn = class_segments(c) as int;
    lemma_class_facts(e as nat);
    pre.lemma_base_range();
    lemma_small_page_count_bound(pre);
    if pre.current_page(c) is Some {
        law_free_segments_match_bitmap(pre, c);
    }
    if let Some((i, s)) = small_pick(pre, c) {
        assert(r > 0) by {
            assert(0 <= i * MINI_PAGE_ALLOC_BYTES + s * pow2(e as nat)) by (nonlinear_arith)
                requires
                    0 <= i,
                    0 <= s,
            ;
        }
        if pre.current_page(c) is None {
            lemma_small_page_in_range(post, i);
            assert(pre.free_minipages(c).len() == 0);
            assert(pre.free_minipages(c).push(i as u16).len() == 1);
            if post.has_free_segment(i) {
                assert forall|t: int| 1 <= t < nn implies #[trigger] post.seg_free(i, t) by {}
                lemma_free_run_all(post, i, 1, nn);
                assert(!post.seg_free(i, 0));
                assert(free_run(post, i, 0, nn) == free_run(post, i, 1, nn));
            } else {
                if nn > 1 {
                    assert(post.seg_free(i, 1));
                }
            }
        } else {
            lemma_stacked_minipages_have_free_segment(pre, c, pre.free_minipages(c).len() - 1);
            lemma_small_page_in_range(pre, i);
            assert(i != pre.page_count());
            if !post.has_free_segment(i) {
                law_free_segments_match_bitmap(pre, c);
                assert(pre.free_segments(c).len() == 1) by {
                    if pre.free_segments(c).len() > 1 {
                        let fs = pre.free_segments(c);
                        let t = fs[fs.len() - 2];
                        assert(pre.segments_ok(c));
                        assert(fs.contains(t));
                        assert(fs.no_duplicates());
                        assert(t != s as u16);
                        assert(post.seg_free(i, t as int));
                    }
                }
            }
        }
    }
}

} // verus!
