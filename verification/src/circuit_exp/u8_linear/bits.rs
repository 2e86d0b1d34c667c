//! Shared bit and score helpers of the byte-input learners.

use vstd::prelude::*;
use crate::batch::slice_range;

verus! {

/// Bit `i` of `x` (bit 0 is the least significant).
pub open spec fn bit8(x: u8, i: int) -> bool {
    (x >> (i as u8)) & 1u8 == 1u8
}

/// Number of set bits of `x` among positions `0..n`.
pub open spec fn ones8_upto(x: u8, n: int) -> nat
    decreases n,
{
    if n <= 0 {
        0
    } else {
        ones8_upto(x, n - 1) + if bit8(x, n - 1) { 1nat } else { 0nat }
    }
}

/// Number of set bits of `x`.
pub open spec fn ones8(x: u8) -> nat {
    ones8_upto(x, 8)
}

/// Sum over bits `i < n` of `byte` of the weight it selects: `w1[base + i]`
/// when the bit is set, `w0[base + i]` otherwise.
pub open spec fn byte_score(byte: u8, w0: Seq<i8>, w1: Seq<i8>, base: int, n: int) -> int
    decreases n,
{
    if n <= 0 {
        0
    } else {
        byte_score(byte, w0, w1, base, n - 1) + if bit8(byte, n - 1) {
            w1[base + n - 1] as int
        } else {
            w0[base + n - 1] as int
        }
    }
}

/// Linear score of the first `m` bytes of `xs`; byte `j` selects among the
/// weights `8 * j .. 8 * j + 8`.
pub open spec fn linear_score(xs: Seq<u8>, w0: Seq<i8>, w1: Seq<i8>, m: int) -> int
    decreases m,
{
    if m <= 0 {
        0
    } else {
        linear_score(xs, w0, w1, m - 1) + byte_score(xs[m - 1], w0, w1, 8 * (m - 1), 8)
    }
}

/// Sum over bits `i < n` of `byte` of the unpacked memory bit it selects.
pub open spec fn mem_byte_score(byte: u8, w0: Seq<u8>, w1: Seq<u8>, n: int) -> int
    decreases n,
{
    if n <= 0 {
        0
    } else {
        mem_byte_score(byte, w0, w1, n - 1) + if bit8(byte, n - 1) { w1[n - 1] as int } else { w0[n - 1] as int }
    }
}

/// Memory bits selected by `byte` from packed `w0` (bit clear) and `w1` (bit set).
pub open spec fn selected_bits(byte: u8, w0: u8, w1: u8) -> u8 {
    (w0 & !byte) | (w1 & byte)
}

/// Packed memory score of the first `m` bytes of `xs`.
pub open spec fn mem_score(xs: Seq<u8>, w0: Seq<u8>, w1: Seq<u8>, m: int) -> int
    decreases m,
{
    if m <= 0 {
        0
    } else {
        mem_score(xs, w0, w1, m - 1) + ones8(selected_bits(xs[m - 1], w0[m - 1], w1[m - 1]))
    }
}

/// Symmetric memory score of the first `m` bytes: matching bits per byte.
pub open spec fn sym_score(xs: Seq<u8>, mem: Seq<u8>, m: int) -> int
    decreases m,
{
    if m <= 0 {
        0
    } else {
        sym_score(xs, mem, m - 1) + (8 - ones8(xs[m - 1] ^ mem[m - 1]))
    }
}

/// Sample `idx` of a flat buffer of `n_inputs`-byte samples.
pub open spec fn sample_of(x_flat: Seq<u8>, n_inputs: int, idx: int) -> Seq<u8> {
    x_flat.subrange(idx * n_inputs, idx * n_inputs + n_inputs)
}

proof fn lemma_ones8_bound(x: u8, n: int)
    requires
        0 <= n,
    ensures
        ones8_upto(x, n) <= n,
    decreases n,
{
    if n > 0 {
        lemma_ones8_bound(x, n - 1);
    }
}

proof fn lemma_byte_score_bound(byte: u8, w0: Seq<i8>, w1: Seq<i8>, base: int, n: int)
    requires
        0 <= n,
    ensures
        -128 * n <= byte_score(byte, w0, w1, base, n) <= 127 * n,
    decreases n,
{
    if n > 0 {
        lemma_byte_score_bound(byte, w0, w1, base, n - 1);
    }
}

proof fn lemma_linear_score_bound(xs: Seq<u8>, w0: Seq<i8>, w1: Seq<i8>, m: int)
    requires
        0 <= m,
    ensures
        -1024 * m <= linear_score(xs, w0, w1, m) <= 1016 * m,
    decreases m,
{
    if m > 0 {
        lemma_linear_score_bound(xs, w0, w1, m - 1);
        lemma_byte_score_bound(xs[m - 1], w0, w1, 8 * (m - 1), 8);
    }
}

proof fn lemma_byte_score_window(byte: u8, w0: Seq<i8>, w1: Seq<i8>, s0: Seq<i8>, s1: Seq<i8>, base: int, n: int)
    requires
        0 <= n <= 8,
        s0.len() >= 8,
        s1.len() >= 8,
        forall|i: int| 0 <= i < 8 ==> #[trigger] s0[i] == w0[base + i],
        forall|i: int| 0 <= i < 8 ==> #[trigger] s1[i] == w1[base + i],
    ensures
        byte_score(byte, s0, s1, 0, n) == byte_score(byte, w0, w1, base, n),
    decreases n,
{
    if n > 0 {
        lemma_byte_score_window(byte, w0, w1, s0, s1, base, n - 1);
        assert(s0[n - 1] == w0[base + n - 1]);
        assert(s1[n - 1] == w1[base + n - 1]);
    }
}

pub proof fn lemma_mem_score_bound(xs: Seq<u8>, w0: Seq<u8>, w1: Seq<u8>, m: int)
    requires
        0 <= m,
    ensures
        0 <= mem_score(xs, w0, w1, m) <= 8 * m,
    decreases m,
{
    if m > 0 {
        lemma_mem_score_bound(xs, w0, w1, m - 1);
        lemma_ones8_bound(selected_bits(xs[m - 1], w0[m - 1], w1[m - 1]), 8);
    }
}

pub proof fn lemma_sym_score_bound(xs: Seq<u8>, mem: Seq<u8>, m: int)
    requires
        0 <= m,
    ensures
        0 <= sym_score(xs, mem, m) <= 8 * m,
    decreases m,
{
    if m > 0 {
        lemma_sym_score_bound(xs, mem, m - 1);
        lemma_ones8_bound(xs[m - 1] ^ mem[m - 1], 8);
    }
}

/// Shifting a byte right one more place moves the next bit into place.
proof fn lemma_shift_step(byte: u8, i: u8)
    requires
        i < 8,
    ensures
        (byte >> i) >> 1u8 == byte >> ((i + 1) as u8),
        ((byte >> i) & 1u8 != 0u8) == bit8(byte, i as int),
{
    assert((byte >> i) >> 1u8 == byte >> ((i + 1) as u8)) by (bit_vector)
        requires i < 8;
    assert(((byte >> i) & 1u8 != 0u8) == ((byte >> i) & 1u8 == 1u8)) by (bit_vector);
}

/// Counts the set bits of `x`.
pub fn count_ones_u8(x: u8) -> (r: u32)
    ensures
        r == ones8(x),
{
    let mut count: u32 = 0;
    let mut k: u8 = 0;
    while k < 8
        invariant
            k <= 8,
            count == ones8_upto(x, k as int),
        decreases 8 - k,
    {
        proof {
            lemma_ones8_bound(x, k as int);
        }
        if (x >> k) & 1 == 1 {
            count = count + 1;
        }
        k = k + 1;
    }
    count
}

pub fn sample<'a>(x_flat: &'a [u8], n_inputs: usize, idx: usize) -> (r: &'a [u8])
    requires
        idx * n_inputs + n_inputs <= x_flat@.len(),
    ensures
        r@ == sample_of(x_flat@, n_inputs as int, idx as int),
{
    let len = x_flat.len();
    let off = idx * n_inputs;
    slice_range(x_flat, off, off + n_inputs)
}

pub fn score_i8(xs: &[u8], w0: &[i8], w1: &[i8]) -> (r: i32)
    requires
        w0@.len() == 8 * xs@.len(),
        w1@.len() >= 8 * xs@.len(),
        xs@.len() <= 2_000_000,
    ensures
        r == linear_score(xs@, w0@, w1@, xs@.len() as int),
{
    let mut s: i32 = 0;
    let mut j: usize = 0;
    while j < xs.len()
        invariant
            w0@.len() == 8 * xs@.len(),
            w1@.len() >= 8 * xs@.len(),
            xs@.len() <= 2_000_000,
            j <= xs@.len(),
            s == linear_score(xs@, w0@, w1@, j as int),
        decreases xs@.len() - j,
    {
        let base = j * 8;
        let s0 = slice_range(w0, base, base + 8);
        let s1 = slice_range(w1, base, base + 8);
        let part = score_byte(xs[j], s0, s1);
        proof {
            lemma_byte_score_window(xs@[j as int], w0@, w1@, s0@, s1@, base as int, 8);
            lemma_linear_score_bound(xs@, w0@, w1@, j + 1);
        }
        s = s + part;
        j = j + 1;
    }
    s
}

pub fn score_byte(byte: u8, w0: &[i8], w1: &[i8]) -> (r: i32)
    requires
        w0@.len() == 8,
        w1@.len() >= 8,
    ensures
        r == byte_score(byte, w0@, w1@, 0, 8),
{
    let mut s: i32 = 0;
    let mut b = byte;
    let mut i: u8 = 0;
    assert(byte >> 0u8 == byte) by (bit_vector);
    while i < 8
        invariant
            w0@.len() == 8,
            w1@.len() >= 8,
            i <= 8,
            b == byte >> i,
            s == byte_score(byte, w0@, w1@, 0, i as int),
        decreases 8 - i,
    {
        proof {
            lemma_shift_step(byte, i);
            lemma_byte_score_bound(byte, w0@, w1@, 0, i + 1);
        }
        if b & 1 != 0 {
            s = s + w1[i as usize] as i32;
        } else {
            s = s + w0[i as usize] as i32;
        }
        b = b >> 1u8;
        i = i + 1;
    }
    s
}

pub fn score_mem_u8(xs: &[u8], w0: &[u8], w1: &[u8], midpoint: i32) -> (r: i32)
    requires
        xs@.len() == w0@.len(),
        xs@.len() == w1@.len(),
        8 * xs@.len() <= i32::MAX,
        i32::MIN <= mem_score(xs@, w0@, w1@, xs@.len() as int) - midpoint <= i32::MAX,
    ensures
        r == mem_score(xs@, w0@, w1@, xs@.len() as int) - midpoint,
{
    let mut s: i32 = 0;
    let mut j: usize = 0;
    while j < xs.len()
        invariant
            xs@.len() == w0@.len(),
            xs@.len() == w1@.len(),
            8 * xs@.len() <= i32::MAX,
            j <= xs@.len(),
            s == mem_score(xs@, w0@, w1@, j as int),
        decreases xs@.len() - j,
    {
        proof {
            lemma_mem_score_bound(xs@, w0@, w1@, j + 1);
        }
        s = s + score_byte_mem_packed(xs[j], w0[j], w1[j]);
        j = j + 1;
    }
    s - midpoint
}

/// Sum of active memory bits: `w1` where the input bit is 1, `w0` where it is 0.
pub fn score_byte_mem_packed(byte: u8, w0: u8, w1: u8) -> (r: i32)
    ensures
        r == ones8(selected_bits(byte, w0, w1)),
{
    proof {
        lemma_ones8_bound(selected_bits(byte, w0, w1), 8);
    }
    count_ones_u8((w0 & !byte) | (w1 & byte)) as i32
}

/// Stores `target` in every bit of `w1` whose input bit is set and in every
/// bit of `w0` whose input bit is clear; the other bits keep their value.
pub fn update_byte_mem(w0: &mut u8, w1: &mut u8, byte: u8, target: u8)
    ensures
        *final(w1) == (*old(w1) & !byte) | (byte & 0u8.wrapping_sub(target)),
        *final(w0) == (*old(w0) & byte) | (!byte & 0u8.wrapping_sub(target)),
        target <= 1 ==> forall|i: int| 0 <= i < 8 ==> #[trigger] bit8(*final(w1), i)
            == if bit8(byte, i) { target == 1 } else { bit8(*old(w1), i) },
        target <= 1 ==> forall|i: int| 0 <= i < 8 ==> #[trigger] bit8(*final(w0), i)
            == if bit8(byte, i) { bit8(*old(w0), i) } else { target == 1 },
{
    let mask = 0u8.wrapping_sub(target);
    let old_w0 = *w0;
    let old_w1 = *w1;
    let new_w1 = (old_w1 & !byte) | (byte & mask);
    let new_w0 = (old_w0 & byte) | (!byte & mask);
    proof {
        if target <= 1 {
            assert(mask == if target == 1 { 0xFFu8 } else { 0u8 });
            assert forall|i: int| 0 <= i < 8 implies #[trigger] bit8(new_w1, i)
                == if bit8(byte, i) { target == 1 } else { bit8(old_w1, i) } by {
                let k = i as u8;
                assert((((old_w1 & !byte) | (byte & mask)) >> k) & 1u8 == 1u8
                    <==> (if (byte >> k) & 1u8 == 1u8 { mask == 0xFFu8 } else { (old_w1 >> k) & 1u8 == 1u8 }))
                    by (bit_vector)
                    requires k < 8, mask == 0xFFu8 || mask == 0u8;
            }
            assert forall|i: int| 0 <= i < 8 implies #[trigger] bit8(new_w0, i)
                == if bit8(byte, i) { bit8(old_w0, i) } else { target == 1 } by {
                let k = i as u8;
                assert((((old_w0 & byte) | (!byte & mask)) >> k) & 1u8 == 1u8
                    <==> (if (byte >> k) & 1u8 == 1u8 { (old_w0 >> k) & 1u8 == 1u8 } else { mask == 0xFFu8 }))
                    by (bit_vector)
                    requires k < 8, mask == 0xFFu8 || mask == 0u8;
            }
        }
    }
    *w1 = new_w1;
    *w0 = new_w0;
}

/// Unpacked memory score: `w1[i]` where bit `i` of the input is set, `w0[i]` otherwise.
pub fn score_byte_mem(byte: u8, w0: &[u8], w1: &[u8]) -> (r: i32)
    requires
        w0@.len() == 8,
        w1@.len() >= 8,
    ensures
        r == mem_byte_score(byte, w0@, w1@, 8),
{
    let mut s: i32 = 0;
    let mut b = byte;
    let mut i: u8 = 0;
    assert(byte >> 0u8 == byte) by (bit_vector);
    while i < 8
        invariant
            w0@.len() == 8,
            w1@.len() >= 8,
            i <= 8,
            b == byte >> i,
            s == mem_byte_score(byte, w0@, w1@, i as int),
            0 <= s <= 255 * i,
        decreases 8 - i,
    {
        proof {
            lemma_shift_step(byte, i);
        }
        if b & 1 != 0 {
            s = s + w1[i as usize] as i32;
        } else {
            s = s + w0[i as usize] as i32;
        }
        b = b >> 1u8;
        i = i + 1;
    }
    s
}

/// The packed memory score equals the unpacked score over the bits of the
/// packed words.
pub proof fn law_packed_mem_matches_unpacked(byte: u8, w0: u8, w1: u8, u0: Seq<u8>, u1: Seq<u8>)
    requires
        u0.len() == 8,
        u1.len() == 8,
        forall|i: int| 0 <= i < 8 ==> #[trigger] u0[i] == if bit8(w0, i) { 1u8 } else { 0u8 },
        forall|i: int| 0 <= i < 8 ==> #[trigger] u1[i] == if bit8(w1, i) { 1u8 } else { 0u8 },
    ensures
        ones8(selected_bits(byte, w0, w1)) == mem_byte_score(byte, u0, u1, 8),
{
    lemma_selected_prefix(byte, w0, w1, u0, u1, 8);
}

proof fn lemma_selected_prefix(byte: u8, w0: u8, w1: u8, u0: Seq<u8>, u1: Seq<u8>, n: int)
    requires
        0 <= n <= 8,
        u0.len() == 8,
        u1.len() == 8,
        forall|i: int| 0 <= i < 8 ==> #[trigger] u0[i] == if bit8(w0, i) { 1u8 } else { 0u8 },
        forall|i: int| 0 <= i < 8 ==> #[trigger] u1[i] == if bit8(w1, i) { 1u8 } else { 0u8 },
    ensures
        ones8_upto(selected_bits(byte, w0, w1), n) == mem_byte_score(byte, u0, u1, n),
    decreases n,
{
    if n > 0 {
        lemma_selected_prefix(byte, w0, w1, u0, u1, n - 1);
        let k = (n - 1) as u8;
        assert(((((w0 & !byte) | (w1 & byte)) >> k) & 1u8 == 1u8)
            == (if (byte >> k) & 1u8 == 1u8 { (w1 >> k) & 1u8 == 1u8 } else { (w0 >> k) & 1u8 == 1u8 }))
            by (bit_vector)
            requires k < 8;
        assert(u0[n - 1] == if bit8(w0, n - 1) { 1u8 } else { 0u8 });
        assert(u1[n - 1] == if bit8(w1, n - 1) { 1u8 } else { 0u8 });
    }
}

/// Symmetric memory score: matching bits minus `midpoint`.
pub fn score_sym_u8(xs: &[u8], mem: &[u8], midpoint: i32) -> (r: i32)
    requires
        xs@.len() == mem@.len(),
        8 * xs@.len() <= i32::MAX,
        i32::MIN <= sym_score(xs@, mem@, xs@.len() as int) - midpoint <= i32::MAX,
    ensures
        r == sym_score(xs@, mem@, xs@.len() as int) - midpoint,
{
    let mut s: i32 = 0;
    let mut j: usize = 0;
    while j < xs.len()
        invariant
            xs@.len() == mem@.len(),
            8 * xs@.len() <= i32::MAX,
            j <= xs@.len(),
            s == sym_score(xs@, mem@, j as int),
        decreases xs@.len() - j,
    {
        proof {
            lemma_sym_score_bound(xs@, mem@, j + 1);
        }
        s = s + score_byte_sym(xs[j], mem[j]);
        j = j + 1;
    }
    s - midpoint
}

/// Number of bits on which `byte` and `mem` agree.
pub fn score_byte_sym(byte: u8, mem: u8) -> (r: i32)
    ensures
        r == 8 - ones8(byte ^ mem),
{
    proof {
        lemma_ones8_bound(byte ^ mem, 8);
    }
    (8 - count_ones_u8(byte ^ mem)) as i32
}

/// Number of the first `n` samples whose prediction under `f` differs from its label.
pub open spec fn errors_upto(x_flat: Seq<u8>, y: Seq<bool>, n_inputs: int, f: spec_fn(Seq<u8>) -> bool, n: int) -> nat
    decreases n,
{
    if n <= 0 {
        0
    } else {
        errors_upto(x_flat, y, n_inputs, f, n - 1) + if f(sample_of(x_flat, n_inputs, n - 1)) != y[n - 1] {
            1nat
        } else {
            0nat
        }
    }
}

proof fn lemma_errors_bound(x_flat: Seq<u8>, y: Seq<bool>, n_inputs: int, f: spec_fn(Seq<u8>) -> bool, n: int)
    requires
        0 <= n,
    ensures
        errors_upto(x_flat, y, n_inputs, f, n) <= n,
    decreases n,
{
    if n > 0 {
        lemma_errors_bound(x_flat, y, n_inputs, f, n - 1);
    }
}

/// Number of samples that `pred` labels wrongly; `model` is what `pred` computes.
pub fn count_errors<F: Fn(&[u8]) -> bool>(
    x_flat: &[u8],
    y: &[bool],
    n_inputs: usize,
    pred: F,
    Ghost(model): Ghost<spec_fn(Seq<u8>) -> bool>,
) -> (r: usize)
    requires
        y@.len() * n_inputs <= x_flat@.len(),
        forall|s: &[u8]| s@.len() == n_inputs ==> #[trigger] pred.requires((s,)),
        forall|s: &[u8], b: bool| #[trigger] pred.ensures((s,), b) ==> b == model(s@),
    ensures
        r == errors_upto(x_flat@, y@, n_inputs as int, model, y@.len() as int),
{
    let mut count: usize = 0;
    let mut i: usize = 0;
    while i < y.len()
        invariant
            y@.len() * n_inputs <= x_flat@.len(),
            forall|s: &[u8]| s@.len() == n_inputs ==> #[trigger] pred.requires((s,)),
            forall|s: &[u8], b: bool| #[trigger] pred.ensures((s,), b) ==> b == model(s@),
            i <= y@.len(),
            count == errors_upto(x_flat@, y@, n_inputs as int, model, i as int),
        decreases y@.len() - i,
    {
        proof {
            assert(i * n_inputs + n_inputs <= y@.len() * n_inputs) by (nonlinear_arith)
                requires i < y@.len();
            lemma_errors_bound(x_flat@, y@, n_inputs as int, model, i as int);
        }
        let xs = sample(x_flat, n_inputs, i);
        let p = pred(xs);
        if p != y[i] {
            count = count + 1;
        }
        i = i + 1;
    }
    count
}

} // verus!
