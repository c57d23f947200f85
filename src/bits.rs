//! Facts about power-of-two masks on 32-bit words.
use vstd::prelude::*;

verus! {

/// `n` is a non-zero power of two.
pub open spec fn is_pow2(n: u32) -> bool {
    n != 0 && n & ((n - 1) as u32) == 0
}

/// Two counters less than `m + 1` apart land on distinct slots of a ring masked by `m`.
pub proof fn lemma_mask_distinct(t: u32, k: u32, j: u32, m: u32)
    requires
        ((m + 1) as u32) & m == 0,
        m < 0x8000_0000,
        k < j,
        j <= m,
    ensures
        ((t + k) as u32) & m != ((t + j) as u32) & m,
{
    assert(((t + k) as u32) & m != ((t + j) as u32) & m) by (bit_vector)
        requires
            ((m + 1) as u32) & m == 0,
            m < 0x8000_0000u32,
            k < j,
            j <= m,
    ;
}

/// Advancing a counter by one and then by `k` is advancing it by `k + 1`.
pub proof fn lemma_wrap_step(t: u32, k: u32)
    requires
        k < 0xffff_ffff,
    ensures
        (((t + 1) as u32) + k) as u32 == (t + (k + 1) as u32) as u32,
{
    assert((((t + 1) as u32) + k) as u32 == (t + (k + 1) as u32) as u32) by (bit_vector)
        requires
            k < 0xffff_ffffu32,
    ;
}

/// `u32::wrapping_add` agrees with truncating the exact sum.
pub proof fn lemma_wrapping_add(x: u32, y: u32)
    ensures
        x.wrapping_add(y) == (x + y) as u32,
{
    let w = x.wrapping_add(y);
    assert(w == (x + y) as u32) by (bit_vector)
        requires
            w == (if x + y > 0xffff_ffffu32 { (x + y - 0x1_0000_0000u64) as u32 } else { (x + y) as u32 }),
    ;
}

} // verus!
