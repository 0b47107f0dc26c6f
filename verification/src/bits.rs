//! Bit counting on 64-bit child masks.

use vstd::prelude::*;

verus! {

/// Bit `i` of `mask` is set.
pub open spec fn bit(mask: u64, i: int) -> bool {
    (mask >> (i as u64)) & 1 == 1
}

/// Number of set bits of `mask` below bit `n`.
pub open spec fn ones_below(mask: u64, n: nat) -> nat
    decreases n,
{
    if n == 0 {
        0
    } else {
        ones_below(mask, (n - 1) as nat) + (if bit(mask, n - 1) {
            1nat
        } else {
            0nat
        })
    }
}

/// Number of set bits of `mask`.
pub open spec fn ones(mask: u64) -> nat {
    ones_below(mask, 64)
}

pub proof fn lemma_ones_below_bound(mask: u64, n: nat)
    ensures
        ones_below(mask, n) <= n,
    decreases n,
{
    if n > 0 {
        lemma_ones_below_bound(mask, (n - 1) as nat);
    }
}

pub proof fn lemma_ones_below_mono(mask: u64, a: nat, b: nat)
    requires
        a <= b,
    ensures
        ones_below(mask, a) <= ones_below(mask, b),
    decreases b,
{
    if a < b {
        lemma_ones_below_mono(mask, a, (b - 1) as nat);
    }
}

/// The rank of a set bit is a valid index among all set bits.
pub proof fn lemma_rank_in_range(mask: u64, i: int)
    requires
        0 <= i < 64,
        bit(mask, i),
    ensures
        ones_below(mask, i as nat) < ones(mask),
{
    lemma_ones_below_mono(mask, (i + 1) as nat, 64);
}

pub proof fn lemma_zero_mask(n: nat)
    requires
        n <= 64,
    ensures
        ones_below(0, n) == 0,
    decreases n,
{
    if n > 0 {
        lemma_zero_mask((n - 1) as nat);
        let k = (n - 1) as u64;
        assert((0u64 >> k) & 1 == 0) by (bit_vector);
    }
}

/// A mask with no set bit is zero.
pub proof fn lemma_no_ones(mask: u64)
    requires
        ones(mask) == 0,
    ensures
        mask == 0,
{
    if mask != 0 {
        vstd::std_specs::bits::axiom_u64_trailing_zeros(mask);
        let k = vstd::std_specs::bits::u64_trailing_zeros(mask) as int;
        assert(bit(mask, k));
        lemma_rank_in_range(mask, k);
    }
}

/// Tests bit `i`.
pub fn test_bit(mask: u64, i: u32) -> (r: bool)
    requires
        i < 64,
    ensures
        r == bit(mask, i as int),
{
    (mask >> (i as u64)) & 1 == 1
}

/// Number of set bits below bit `n`.
pub fn rank(mask: u64, n: u32) -> (r: u32)
    requires
        n <= 64,
    ensures
        r == ones_below(mask, n as nat),
        r <= n,
{
    let mut c: u32 = 0;
    let mut i: u32 = 0;
    while i < n
        invariant
            i <= n <= 64,
            c == ones_below(mask, i as nat),
            c <= i,
        decreases n - i,
    {
        if test_bit(mask, i) {
            c += 1;
        }
        i += 1;
    }
    c
}

/// Number of set bits.
pub fn count_ones(mask: u64) -> (r: u32)
    ensures
        r == ones(mask),
        r <= 64,
        r == 0 <==> mask == 0,
{
    proof {
        lemma_zero_mask(64);
        if ones(mask) == 0 {
            lemma_no_ones(mask);
        }
    }
    rank(mask, 64)
}

/// A mask from its two words.
pub open spec fn join_mask(lo: u32, hi: u32) -> u64 {
    ((hi as u64) << 32) | (lo as u64)
}

/// Splitting a mask into words and joining them gives it back.
pub proof fn lemma_join_mask(mask: u64)
    ensures
        join_mask(mask as u32, (mask >> 32) as u32) == mask,
{
    assert((((mask >> 32) as u32) as u64) << 32 | ((mask as u32) as u64) == mask) by (bit_vector);
}

pub fn split_lo(mask: u64) -> (r: u32)
    ensures
        r == mask as u32,
{
    mask as u32
}

pub fn split_hi(mask: u64) -> (r: u32)
    ensures
        r == (mask >> 32) as u32,
{
    (mask >> 32) as u32
}

/// The mask in words `at` and `at + 1`.
pub fn read_mask(buf: &Vec<u32>, at: usize) -> (r: u64)
    requires
        at + 1 < buf.len(),
    ensures
        r == join_mask(buf[at as int], buf[at + 1]),
{
    ((buf[at + 1] as u64) << 32) | (buf[at] as u64)
}

/// Sets bit `i`.
pub fn set_bit(mask: u64, i: u32) -> (r: u64)
    requires
        i < 64,
    ensures
        forall|j: int| 0 <= j < 64 ==> (#[trigger] bit(r, j) <==> bit(mask, j) || j == i),
{
    let k: u64 = i as u64;
    let r: u64 = mask | (1u64 << k);
    proof {
        assert forall|j: int| 0 <= j < 64 implies (#[trigger] bit(r, j) <==> bit(mask, j) || j
            == i) by {
            let jj = j as u64;
            assert(((mask | (1u64 << k)) >> jj) & 1 == (if jj == k { 1 } else { (mask >> jj) & 1 }))
                by (bit_vector)
                requires
                    jj < 64,
                    k < 64,
            ;
        }
    }
    r
}

} // verus!
