//! The header of a minipage: its size class and its occupancy bitmap.
use vstd::prelude::*;

use crate::MINI_PAGE_FREE_SEGMENTS_SIZE;

verus! {

/// Bit `k` of `byte` is set.
pub open spec fn bit_set(byte: u8, k: int) -> bool {
    (byte >> (k as u8)) & 1u8 == 1u8
}

/// Segment `s` is marked free in `bitmap` (bit `s % 8` of byte `s / 8`).
pub open spec fn bitmap_free(bitmap: Seq<u8>, s: int) -> bool {
    bit_set(bitmap[s / 8], s % 8)
}

/// Setting or clearing bit `k` of a byte changes that bit alone.
pub proof fn lemma_write_bit(b: u8, k: u8, j: u8)
    requires
        k < 8,
        j < 8,
    ensures
        ((b | (1u8 << k)) >> j) & 1u8 == if j == k {
            1u8
        } else {
            (b >> j) & 1u8
        },
        ((b & !(1u8 << k)) >> j) & 1u8 == if j == k {
            0u8
        } else {
            (b >> j) & 1u8
        },
{
    assert(((b | (1u8 << k)) >> j) & 1u8 == if j == k {
        1u8
    } else {
        (b >> j) & 1u8
    }) by (bit_vector)
        requires
            k < 8,
            j < 8,
    ;
    assert(((b & !(1u8 << k)) >> j) & 1u8 == if j == k {
        0u8
    } else {
        (b >> j) & 1u8
    }) by (bit_vector)
        requires
            k < 8,
            j < 8,
    ;
}

/// Every bit of a byte with all bits set is set.
pub proof fn lemma_full_byte(j: u8)
    requires
        j < 8,
    ensures
        (255u8 >> j) & 1u8 == 1u8,
{
    assert((255u8 >> j) & 1u8 == 1u8) by (bit_vector)
        requires
            j < 8,
    ;
}

/// Header of a minipage, kept in the meta page's header table.
pub struct MiniPageHeader {
    /// Size class exponent.
    pub size_class_exp: u8,
    /// The minipage created before this one for the same size class.
    pub next: Option<u16>,
    /// Bit-packed occupancy: a 1 bit marks a free segment, a 0 bit a used one.
    pub free_segments: Vec<u8>,
    /// True while this minipage is on its class's free-minipages stack.
    pub on_free_minipages_stack: bool,
}

impl MiniPageHeader {
    /// Segment `s` is free.
    pub open spec fn is_free(&self, s: int) -> bool {
        bitmap_free(self.free_segments@, s)
    }

    /// The bitmap has its full size.
    pub open spec fn wf(&self) -> bool {
        self.free_segments@.len() == MINI_PAGE_FREE_SEGMENTS_SIZE
    }

    /// A header for a new minipage of class `exp`: every segment free, and
    /// on the free-minipages stack.
    pub fn new_free(exp: u8, next: Option<u16>) -> (r: MiniPageHeader)
        ensures
            r.wf(),
            r.size_class_exp == exp,
            r.next == next,
            r.on_free_minipages_stack,
            forall|s: int| 0 <= s < 8 * MINI_PAGE_FREE_SEGMENTS_SIZE ==> #[trigger] r.is_free(s),
    {
        let free_segments = vec![255u8; MINI_PAGE_FREE_SEGMENTS_SIZE];
        proof {
            assert forall|s: int| 0 <= s < 8 * MINI_PAGE_FREE_SEGMENTS_SIZE implies bitmap_free(
                free_segments@,
                s,
            ) by {
                lemma_full_byte((s % 8) as u8);
            }
        }
        MiniPageHeader { size_class_exp: exp, next, free_segments, on_free_minipages_stack: true }
    }

    /// A header for a slot that belongs to a big allocation: no segments.
    pub fn placeholder() -> (r: MiniPageHeader)
        ensures
            r.wf(),
            !r.on_free_minipages_stack,
    {
        MiniPageHeader {
            size_class_exp: 0,
            next: None,
            free_segments: vec![0u8; MINI_PAGE_FREE_SEGMENTS_SIZE],
            on_free_minipages_stack: false,
        }
    }

    /// Marks segment `s` free (`free == true`) or used.
    pub fn write_free_bitmap(&mut self, s: u16, free: bool)
        requires
            old(self).wf(),
            s < 8 * MINI_PAGE_FREE_SEGMENTS_SIZE,
        ensures
            final(self).wf(),
            final(self).size_class_exp == old(self).size_class_exp,
            final(self).next == old(self).next,
            final(self).on_free_minipages_stack == old(self).on_free_minipages_stack,
            final(self).is_free(s as int) == free,
            forall|t: int|
                0 <= t < 8 * MINI_PAGE_FREE_SEGMENTS_SIZE && t != s
                    ==> #[trigger] final(self).is_free(t) == old(self).is_free(t),
    {
        let byte_idx = (s / 8) as usize;
        let bit = (s % 8) as u8;
        let byte = self.free_segments[byte_idx];
        let mask: u8 = 1u8 << bit;
        let new_byte: u8 = if free {
            mask | byte
        } else {
            !mask & byte
        };
        self.free_segments.set(byte_idx, new_byte);
        proof {
            assert(!mask & byte == byte & !mask) by (bit_vector);
            assert(mask | byte == byte | mask) by (bit_vector);
            assert forall|t: int|
                0 <= t < 8 * MINI_PAGE_FREE_SEGMENTS_SIZE implies #[trigger] self.is_free(t) == if t
                == s {
                free
            } else {
                old(self).is_free(t)
            } by {
                lemma_write_bit(byte, bit, (t % 8) as u8);
                if t / 8 != s / 8 {
                    assert(self.free_segments@[t / 8] == old(self).free_segments@[t / 8]);
                } else {
                    assert(self.free_segments@[t / 8] == new_byte);
                    assert(byte == old(self).free_segments@[t / 8]);
                    assert((t == s) == (t % 8 == bit));
                    if free {
                        assert(new_byte == byte | mask);
                    } else {
                        assert(new_byte == byte & !mask);
                    }
                }
            }
        }
    }

    /// Whether segment `s` is free.
    pub fn get_free_bitmap(&self, s: u16) -> (r: bool)
        requires
            self.wf(),
            s < 8 * MINI_PAGE_FREE_SEGMENTS_SIZE,
        ensures
            r == self.is_free(s as int),
    {
        let bit = (s % 8) as u8;
        let byte = self.free_segments[(s / 8) as usize];
        (byte >> bit) & 1u8 == 1u8
    }
}

} // verus!
