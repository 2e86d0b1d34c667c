//! Random linear threshold functions over bytes (bit 0 of each byte first).

use vstd::prelude::*;
use rand_chacha::ChaCha8Rng;
use crate::circuit_exp::rng::{fair_coin, random_i8};
use crate::circuit_exp::u8_linear::bits::{linear_score, score_i8};

verus! {

pub const BITS_PER_U8: usize = 8;

pub const MAX_SAMPLE_POOL: usize = 65_536;

#[derive(Debug, Clone, Copy, PartialEq, Eq, Structural)]
pub enum WeightMode {
    I8,
    Binary,
}

impl WeightMode {
    pub fn as_str(self) -> (r: &'static str)
        ensures
            r@ == match self {
                WeightMode::I8 => "i8"@,
                WeightMode::Binary => "binary"@,
            },
    {
        match self {
            WeightMode::I8 => "i8",
            WeightMode::Binary => "binary",
        }
    }
}

/// `256^n`.
pub open spec fn pow256(n: nat) -> nat
    decreases n,
{
    if n == 0 { 1 } else { 256 * pow256((n - 1) as nat) }
}

/// Number of input vectors the pool draws from: the whole domain when it
/// holds at most `MAX_SAMPLE_POOL` vectors, else `MAX_SAMPLE_POOL`.
pub open spec fn pool_size(n: nat) -> int {
    if pow256(n) <= MAX_SAMPLE_POOL { pow256(n) as int } else { MAX_SAMPLE_POOL as int }
}

pub fn n_bits(n_inputs: usize) -> (r: usize)
    requires
        n_inputs * 8 <= usize::MAX,
    ensures
        r == n_inputs * 8,
{
    n_inputs * BITS_PER_U8
}

proof fn lemma_pow256_mono(n: nat, m: nat)
    requires
        n <= m,
    ensures
        pow256(n) <= pow256(m),
    decreases m,
{
    if n < m {
        lemma_pow256_mono(n, (m - 1) as nat);
    }
}

pub proof fn lemma_pow256_positive(n: nat)
    ensures
        pow256(n) >= 1,
    decreases n,
{
    if n > 0 {
        lemma_pow256_positive((n - 1) as nat);
    }
}

/// Number of distinct `n_inputs`-byte inputs.
pub fn domain_size(n_inputs: usize) -> (r: u128)
    requires
        n_inputs < 16,
    ensures
        r == pow256(n_inputs as nat),
{
    let mut r: u128 = 1;
    let mut i: usize = 0;
    while i < n_inputs
        invariant
            n_inputs < 16,
            i <= n_inputs,
            r == pow256(i as nat),
        decreases n_inputs - i,
    {
        proof {
            lemma_pow256_mono(i as nat, 14);
            assert(pow256(14) * 256 == pow256(15));
            assert(pow256(15) == 0x1000000000000000000000000000000nat) by {
                reveal_with_fuel(pow256, 16);
            }
        }
        r = r * 256;
        i = i + 1;
    }
    r
}

pub fn sample_pool_size(n_inputs: usize) -> (r: usize)
    requires
        n_inputs < 16,
    ensures
        r == pool_size(n_inputs as nat),
{
    let domain = domain_size(n_inputs);
    if domain <= MAX_SAMPLE_POOL as u128 {
        domain as usize
    } else {
        MAX_SAMPLE_POOL
    }
}

pub fn score(xs: &[u8], w0: &[i8], w1: &[i8]) -> (r: i32)
    requires
        w0@.len() == 8 * xs@.len(),
        w1@.len() >= 8 * xs@.len(),
        xs@.len() <= 2_000_000,
    ensures
        r == linear_score(xs@, w0@, w1@, xs@.len() as int),
{
    score_i8(xs, w0, w1)
}

#[derive(Debug, Clone)]
pub struct LinearU8Dgp {
    pub n_inputs: usize,
    pub w0: Vec<i8>,
    pub w1: Vec<i8>,
}

impl LinearU8Dgp {
    /// One weight pair per input bit.
    pub open spec fn wf(&self) -> bool {
        &&& self.w0@.len() == 8 * self.n_inputs
        &&& self.w1@.len() == 8 * self.n_inputs
        &&& self.n_inputs <= 2_000_000
    }

    /// The label of input `xs`: its linear score is not negative.
    pub open spec fn label(&self, xs: Seq<u8>) -> bool {
        linear_score(xs, self.w0@, self.w1@, self.n_inputs as int) >= 0
    }

    pub fn random(rng: &mut ChaCha8Rng, n_inputs: usize) -> (r: Self)
        requires
            n_inputs <= 2_000_000,
        ensures
            r.wf(),
            r.n_inputs == n_inputs,
    {
        Self::random_with_mode(rng, n_inputs, WeightMode::I8)
    }

    pub fn random_with_mode(rng: &mut ChaCha8Rng, n_inputs: usize, mode: WeightMode) -> (r: Self)
        requires
            n_inputs <= 2_000_000,
        ensures
            r.wf(),
            r.n_inputs == n_inputs,
            mode == WeightMode::Binary ==> forall|i: int| 0 <= i < r.w0@.len()
                ==> (#[trigger] r.w0@[i] == 0 || r.w0@[i] == 1) && (r.w1@[i] == 0 || r.w1@[i] == 1),
    {
        let nb = n_bits(n_inputs);
        let mut w0: Vec<i8> = Vec::new();
        let mut w1: Vec<i8> = Vec::new();
        let mut i: usize = 0;
        while i < nb
            invariant
                i <= nb,
                w0@.len() == i,
                w1@.len() == i,
                mode == WeightMode::Binary ==> forall|k: int| 0 <= k < i
                    ==> (#[trigger] w0@[k] == 0 || w0@[k] == 1) && (w1@[k] == 0 || w1@[k] == 1),
            decreases nb - i,
        {
            let a = sample_weight(rng, mode);
            let b = sample_weight(rng, mode);
            w0.push(a);
            w1.push(b);
            i = i + 1;
        }
        Self { n_inputs, w0, w1 }
    }

    pub fn eval(&self, xs: &[u8]) -> (r: bool)
        requires
            self.wf(),
            xs@.len() == self.n_inputs,
        ensures
            r == self.label(xs@),
    {
        score(xs, self.w0.as_slice(), self.w1.as_slice()) >= 0
    }
}

/// A random weight: any `i8`, or a fair 0/1 in binary mode.
fn sample_weight(rng: &mut ChaCha8Rng, mode: WeightMode) -> (r: i8)
    ensures
        mode == WeightMode::Binary ==> r == 0 || r == 1,
{
    match mode {
        WeightMode::I8 => random_i8(rng),
        WeightMode::Binary => if fair_coin(rng) { 1 } else { 0 },
    }
}

} // verus!
