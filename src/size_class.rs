//! Size class arithmetic: exponents, segment sizes and segment counts.
use vstd::arithmetic::power2::{pow2, lemma2_to64, lemma_pow2_unfold, lemma_pow2_strictly_increases};
use vstd::prelude::*;

use crate::{MAX_SIZE_CLASS, MIN_SIZE_CLASS, MINI_PAGE_ALLOC_BYTES};

verus! {

/// The smallest `e` with `2^e >= n`.
pub open spec fn ceil_log2(n: nat) -> nat
    decreases n,
{
    if n <= 1 {
        0
    } else {
        1 + ceil_log2(((n + 1) / 2) as nat)
    }
}

/// An exponent clamped up to the smallest size class.
pub open spec fn clamp_exp(e: int) -> int {
    if e < MIN_SIZE_CLASS {
        MIN_SIZE_CLASS as int
    } else {
        e
    }
}

/// The size class exponent that fits `n` bytes.
pub open spec fn class_exp_for(n: nat) -> int {
    clamp_exp(ceil_log2(n) as int)
}

/// The number of segments of class `e` in one minipage.
pub open spec fn segments_per_minipage(e: nat) -> nat {
    (MINI_PAGE_ALLOC_BYTES as nat / pow2(e)) as nat
}

/// `ceil_log2(n)` is the least exponent whose power of two reaches `n`.
pub proof fn lemma_ceil_log2_bounds(n: nat)
    ensures
        pow2(ceil_log2(n)) >= n,
        ceil_log2(n) > 0 ==> pow2((ceil_log2(n) - 1) as nat) < n,
    decreases n,
{
    lemma2_to64();
    if n > 1 {
        let m = ((n + 1) / 2) as nat;
        lemma_ceil_log2_bounds(m);
        lemma_pow2_unfold(ceil_log2(n));
        if ceil_log2(m) > 0 {
            lemma_pow2_unfold(ceil_log2(m));
        }
    }
}

/// An exponent that is the least one reaching `n` is `ceil_log2(n)`.
pub proof fn lemma_ceil_log2_unique(n: nat, e: nat)
    requires
        pow2(e) >= n,
        e > 0 ==> pow2((e - 1) as nat) < n,
    ensures
        e == ceil_log2(n),
    decreases e,
{
    lemma2_to64();
    if n <= 1 {
        if e > 0 {
            vstd::arithmetic::power2::lemma_pow2_pos((e - 1) as nat);
        }
    } else {
        let m = ((n + 1) / 2) as nat;
        lemma_pow2_unfold(e);
        if e > 1 {
            lemma_pow2_unfold((e - 1) as nat);
        }
        lemma_ceil_log2_unique(m, (e - 1) as nat);
    }
}

/// Concrete values of the powers of two and segment counts of the size classes.
pub proof fn lemma_class_facts(e: nat)
    requires
        MIN_SIZE_CLASS <= e <= MAX_SIZE_CLASS,
    ensures
        8 <= pow2(e) <= 2048,
        pow2(e) * segments_per_minipage(e) == 2048,
        1 <= segments_per_minipage(e) <= 256,
{
    lemma2_to64();
    assert(segments_per_minipage(e) == 2048nat / pow2(e));
    if e == 3 {
        assert(pow2(e) == 8nat);
        assert(segments_per_minipage(e) == 2048nat / 8nat);
    } else if e == 4 {
        assert(pow2(e) == 16nat);
        assert(segments_per_minipage(e) == 2048nat / 16nat);
    } else if e == 5 {
        assert(pow2(e) == 32nat);
        assert(segments_per_minipage(e) == 2048nat / 32nat);
    } else if e == 6 {
        assert(pow2(e) == 64nat);
        assert(segments_per_minipage(e) == 2048nat / 64nat);
    } else if e == 7 {
        assert(pow2(e) == 128nat);
        assert(segments_per_minipage(e) == 2048nat / 128nat);
    } else if e == 8 {
        assert(pow2(e) == 256nat);
        assert(segments_per_minipage(e) == 2048nat / 256nat);
    } else if e == 9 {
        assert(pow2(e) == 512nat);
        assert(segments_per_minipage(e) == 2048nat / 512nat);
    } else if e == 10 {
        assert(pow2(e) == 1024nat);
        assert(segments_per_minipage(e) == 2048nat / 1024nat);
    } else {
        assert(pow2(e) == 2048nat);
        assert(segments_per_minipage(e) == 2048nat / 2048nat);
    }
}

/// Calculates size class values.
#[derive(Copy, Clone, Debug, PartialEq, Eq, Structural)]
pub struct SizeClass {
    /// Exponent `e` in `2^e`, which identifies the size class.
    pub exp: u8,
}

impl SizeClass {
    /// A size class from an exponent, clamped up to the smallest class.
    pub fn new(exp: u8) -> (r: SizeClass)
        ensures
            r.exp == clamp_exp(exp as int),
    {
        let mut norm_exp = exp;
        if norm_exp < MIN_SIZE_CLASS {
            norm_exp = MIN_SIZE_CLASS;
        }
        SizeClass { exp: norm_exp }
    }

    /// The size class that fits `bytes` bytes: `ceil(log2(bytes))`, clamped
    /// up to the smallest class.
    pub fn new_from_bytes(bytes: u16) -> (r: SizeClass)
        ensures
            r.exp == class_exp_for(bytes as nat),
    {
        let e = exp_for_bytes(bytes as usize);
        SizeClass::new(e)
    }

    /// The exponent as an index that starts at 0 for the smallest class.
    pub fn exp_as_idx(self) -> (r: usize)
        requires
            self.exp >= MIN_SIZE_CLASS,
        ensures
            r == self.exp - MIN_SIZE_CLASS,
    {
        (self.exp - MIN_SIZE_CLASS) as usize
    }

    /// Size of a segment in bytes: `2^exp`.
    pub fn segment_bytes(self) -> (r: u16)
        requires
            self.exp < 16,
        ensures
            r == pow2(self.exp as nat),
    {
        proof {
            vstd::bits::lemma_u16_pow2_no_overflow(self.exp as nat);
            vstd::bits::lemma_u16_shl_is_mul(1, self.exp as u16);
        }
        1u16 << (self.exp as u16)
    }

    /// The number of segments of this class in one minipage.
    pub fn segments_max_num(&self) -> (r: u16)
        requires
            self.exp < 16,
        ensures
            r == segments_per_minipage(self.exp as nat),
    {
        let b = self.segment_bytes();
        proof {
            vstd::arithmetic::power2::lemma_pow2_pos(self.exp as nat);
        }
        (MINI_PAGE_ALLOC_BYTES as u16) / b
    }
}

/// `ceil(log2(n))`, computed without floating point.
pub fn exp_for_bytes(n: usize) -> (r: u8)
    ensures
        r == ceil_log2(n as nat),
{
    let mut e: u8 = 0;
    let mut p: u128 = 1;
    proof {
        lemma2_to64();
    }
    while p < n as u128
        invariant
            p == pow2(e as nat),
            1 <= p <= 2 * (usize::MAX as nat),
            e <= 64,
            e > 0 ==> pow2((e - 1) as nat) < n,
        decreases 2 * (usize::MAX as nat) - p,
    {
        proof {
            lemma2_to64();
            lemma_pow2_unfold((e + 1) as nat);
            if e > 64 {
                lemma_pow2_strictly_increases(64, e as nat);
            }
        }
        p = p * 2;
        e = e + 1;
    }
    proof {
        lemma_ceil_log2_unique(n as nat, e as nat);
    }
    e
}

} // verus!
