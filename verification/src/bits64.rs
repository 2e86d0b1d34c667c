//! Bit-level facts about `u64` words used by literal sets.

use vstd::prelude::*;

verus! {

/// Bit `k` of `x`.
pub open spec fn bit_set(x: u64, k: int) -> bool {
    (x >> (k as u64)) & 1u64 == 1u64
}

/// Number of set bits of `x` among positions `0..n`.
pub open spec fn bits_upto(x: u64, n: int) -> nat
    decreases n,
{
    if n <= 0 {
        0
    } else {
        bits_upto(x, n - 1) + if bit_set(x, n - 1) { 1nat } else { 0nat }
    }
}

/// Number of set bits of `x`.
pub open spec fn popcount(x: u64) -> nat {
    bits_upto(x, 64)
}

pub proof fn lemma_bits_upto_bound(x: u64, n: int)
    requires
        0 <= n,
    ensures
        bits_upto(x, n) <= n,
    decreases n,
{
    if n > 0 {
        lemma_bits_upto_bound(x, n - 1);
    }
}

pub proof fn lemma_mask_test(x: u64, y: u64, k: u64)
    requires
        k < 64,
    ensures
        ((x | y) & (1u64 << k) != 0u64) == (((x >> k) & 1u64 == 1u64) || ((y >> k) & 1u64 == 1u64)),
        (x & (1u64 << k) != 0u64) == ((x >> k) & 1u64 == 1u64),
{
    assert(((x | y) & (1u64 << k) != 0u64) == (((x >> k) & 1u64 == 1u64) || ((y >> k) & 1u64
        == 1u64))) by (bit_vector)
        requires
            k < 64,
    ;
    assert((x & (1u64 << k) != 0u64) == ((x >> k) & 1u64 == 1u64)) by (bit_vector)
        requires
            k < 64,
    ;
}

pub proof fn lemma_or_bit(x: u64, y: u64, j: u64)
    requires
        j < 64,
    ensures
        (((x | y) >> j) & 1u64 == 1u64) == (((x >> j) & 1u64 == 1u64) || ((y >> j) & 1u64 == 1u64)),
{
    assert((((x | y) >> j) & 1u64 == 1u64) == (((x >> j) & 1u64 == 1u64) || ((y >> j) & 1u64
        == 1u64))) by (bit_vector)
        requires
            j < 64,
    ;
}

pub proof fn lemma_set_bit(x: u64, k: u64, j: u64)
    requires
        k < 64,
        j < 64,
    ensures
        (((x | (1u64 << k)) >> j) & 1u64 == 1u64) == (((x >> j) & 1u64 == 1u64) || j == k),
{
    assert((((x | (1u64 << k)) >> j) & 1u64 == 1u64) == (((x >> j) & 1u64 == 1u64) || j == k))
        by (bit_vector)
        requires
            k < 64,
            j < 64,
    ;
}

/// Counts the set bits of `x`.
pub fn count_ones_u64(x: u64) -> (r: u32)
    ensures
        r == popcount(x),
{
    let mut count: u32 = 0;
    let mut k: u64 = 0;
    while k < 64
        invariant
            k <= 64,
            count == bits_upto(x, k as int),
        decreases 64 - k,
    {
        proof {
            lemma_bits_upto_bound(x, k as int);
        }
        if (x >> k) & 1 == 1 {
            count = count + 1;
        }
        k = k + 1;
    }
    count
}

} // verus!
