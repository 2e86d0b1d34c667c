//! Train / test split over byte-input samples (flat storage).

use vstd::prelude::*;
use crate::circuit_exp::rng::{random_u8, seeded_rng, shuffle};
use crate::circuit_exp::u8_linear::bits::{sample, sample_of};
use crate::circuit_exp::u8_linear::dgp::{domain_size, pool_size, sample_pool_size, LinearU8Dgp};
use crate::circuit_exp::u8_linear::learner::{all_indices, is_epoch_order};

verus! {

#[derive(Debug, Clone)]
pub struct U8Dataset {
    pub n_inputs: usize,
    pub train_n: usize,
    pub train_x: Vec<u8>,
    pub train_y: Vec<bool>,
    pub test_x: Vec<u8>,
    pub test_y: Vec<bool>,
}

impl U8Dataset {
    /// Each label has its sample in the flat buffers.
    pub open spec fn wf(&self) -> bool {
        &&& self.train_x@.len() == self.train_y@.len() * self.n_inputs
        &&& self.test_x@.len() == self.test_y@.len() * self.n_inputs
        &&& self.train_n == self.train_y@.len()
    }

    /// Every sample carries the label that `dgp` gives it.
    pub open spec fn labeled_by(&self, dgp: LinearU8Dgp) -> bool {
        &&& forall|k: int| 0 <= k < self.train_y@.len()
            ==> #[trigger] self.train_y@[k] == dgp.label(sample_of(self.train_x@, self.n_inputs as int, k))
        &&& forall|k: int| 0 <= k < self.test_y@.len()
            ==> #[trigger] self.test_y@[k] == dgp.label(sample_of(self.test_x@, self.n_inputs as int, k))
    }

    /// The training samples are the samples of `pool` at the first
    /// `train_n` positions of `order`, the test samples those at the rest,
    /// in order.
    pub open spec fn split_of(&self, pool: Seq<u8>, order: Seq<usize>) -> bool {
        &&& self.train_y@.len() + self.test_y@.len() == order.len()
        &&& forall|j: int| 0 <= j < self.train_y@.len() ==> #[trigger] sample_of(self.train_x@, self.n_inputs as int, j)
            == sample_of(pool, self.n_inputs as int, order[j] as int)
        &&& forall|j: int| 0 <= j < self.test_y@.len() ==> #[trigger] sample_of(self.test_x@, self.n_inputs as int, j)
            == sample_of(pool, self.n_inputs as int, order[self.train_y@.len() + j] as int)
    }

    pub fn train_len(&self) -> (r: usize)
        ensures
            r == self.train_y@.len(),
    {
        self.train_y.len()
    }

    pub fn test_len(&self) -> (r: usize)
        ensures
            r == self.test_y@.len(),
    {
        self.test_y.len()
    }

    pub fn train_sample(&self, idx: usize) -> (r: &[u8])
        requires
            self.wf(),
            idx < self.train_y@.len(),
        ensures
            r@ == sample_of(self.train_x@, self.n_inputs as int, idx as int),
    {
        proof {
            assert(idx * self.n_inputs + self.n_inputs <= self.train_y@.len() * self.n_inputs) by (nonlinear_arith)
                requires idx < self.train_y@.len();
        }
        sample(self.train_x.as_slice(), self.n_inputs, idx)
    }

    pub fn test_sample(&self, idx: usize) -> (r: &[u8])
        requires
            self.wf(),
            idx < self.test_y@.len(),
        ensures
            r@ == sample_of(self.test_x@, self.n_inputs as int, idx as int),
    {
        proof {
            assert(idx * self.n_inputs + self.n_inputs <= self.test_y@.len() * self.n_inputs) by (nonlinear_arith)
                requires idx < self.test_y@.len();
        }
        sample(self.test_x.as_slice(), self.n_inputs, idx)
    }

    /// Splits the sample pool of `dgp`'s input space, shuffled by `seed`, into
    /// `train_count` training samples (clamped to `1..=max(n - 1, 1)`) and
    /// test samples, each labeled by `dgp`.
    pub fn split_counted(seed: u64, dgp: &LinearU8Dgp, train_count: usize) -> (r: Self)
        requires
            dgp.wf(),
            1 <= dgp.n_inputs < 16,
        ensures
            r.wf(),
            r.n_inputs == dgp.n_inputs,
            r.labeled_by(*dgp),
            r.train_y@.len() + r.test_y@.len() == pool_size(dgp.n_inputs as nat),
            r.train_n == clamp_train(train_count as int, pool_size(dgp.n_inputs as nat)),
            exists|pool: Seq<u8>, order: Seq<usize>| {
                &&& pool.len() == pool_size(dgp.n_inputs as nat) * dgp.n_inputs
                &&& is_epoch_order(order, pool_size(dgp.n_inputs as nat))
                &&& #[trigger] r.split_of(pool, order)
            },
    {
        let n_inputs = dgp.n_inputs;
        let x_flat = generate_samples_flat(n_inputs, seed);
        let n_samples = x_flat.len() / n_inputs;
        proof {
            lemma_div_exact(x_flat@.len() as int, n_inputs as int, pool_size(n_inputs as nat));
        }
        let max_train = if n_samples >= 2 { n_samples - 1 } else { 1 };
        let train_n = if train_count < 1 { 1 } else if train_count > max_train { max_train } else { train_count };

        let mut perm: Vec<usize> = Vec::new();
        let mut k: usize = 0;
        while k < n_samples
            invariant
                k <= n_samples,
                perm@.len() == k,
                forall|j: int| 0 <= j < k ==> #[trigger] perm@[j] == j,
            decreases n_samples - k,
        {
            perm.push(k);
            k = k + 1;
        }
        assert(perm@ =~= all_indices(n_samples as int));
        let mut rng = seeded_rng(seed);
        let ghost before = perm@;
        shuffle(perm.as_mut_slice(), &mut rng);
        proof {
            assert(is_epoch_order(perm@, n_samples as int));
            assert forall|j: int| 0 <= j < perm@.len() implies #[trigger] perm@[j] < n_samples by {
                vstd::seq_lib::to_multiset_contains(perm@, perm@[j]);
                vstd::seq_lib::to_multiset_contains(before, perm@[j]);
                assert(perm@.contains(perm@[j]));
                assert(before.contains(perm@[j]));
            }
            assert forall|j: int| 0 <= j < perm@.len() implies (#[trigger] perm@[j] as int) * n_inputs + n_inputs <= x_flat@.len() by {
                assert(perm@[j] < n_samples);
                assert((perm@[j] as int) * n_inputs + n_inputs <= n_samples * n_inputs) by (nonlinear_arith)
                    requires perm@[j] < n_samples;
            }
        }

        proof {
            assert(n_samples == pool_size(n_inputs as nat));
            assert(train_n == clamp_train(train_count as int, n_samples as int));
            assert(n_samples >= 1) by {
                crate::circuit_exp::u8_linear::dgp::lemma_pow256_positive(n_inputs as nat);
            }
        }
        let r = Self::split_by_order(x_flat.as_slice(), n_inputs, dgp, perm.as_slice(), train_n);
        proof {
            assert(r.split_of(x_flat@, perm@));
        }
        r
    }

    /// Splits the samples of `pool` in the order `order`: the first
    /// `train_n` go to training, the rest to test, each labeled by `dgp`.
    pub fn split_by_order(pool: &[u8], n_inputs: usize, dgp: &LinearU8Dgp, order: &[usize], train_n: usize) -> (r: Self)
        requires
            dgp.wf(),
            n_inputs == dgp.n_inputs,
            1 <= n_inputs,
            train_n <= order@.len(),
            forall|j: int| 0 <= j < order@.len() ==> (#[trigger] order@[j] as int) * n_inputs + n_inputs <= pool@.len(),
        ensures
            r.wf(),
            r.n_inputs == n_inputs,
            r.labeled_by(*dgp),
            r.train_y@.len() == train_n,
            r.split_of(pool@, order@),
    {
        let mut train_x: Vec<u8> = Vec::new();
        let mut train_y: Vec<bool> = Vec::new();
        let mut test_x: Vec<u8> = Vec::new();
        let mut test_y: Vec<bool> = Vec::new();
        let mut slot: usize = 0;
        while slot < order.len()
            invariant
                dgp.wf(),
                n_inputs == dgp.n_inputs,
                1 <= n_inputs,
                train_n <= order@.len(),
                forall|j: int| 0 <= j < order@.len() ==> (#[trigger] order@[j] as int) * n_inputs + n_inputs <= pool@.len(),
                slot <= order@.len(),
                train_y@.len() == if slot < train_n { slot as int } else { train_n as int },
                train_y@.len() + test_y@.len() == slot,
                train_x@.len() == train_y@.len() * n_inputs,
                test_x@.len() == test_y@.len() * n_inputs,
                forall|j: int| 0 <= j < train_y@.len()
                    ==> #[trigger] train_y@[j] == dgp.label(sample_of(train_x@, n_inputs as int, j)),
                forall|j: int| 0 <= j < test_y@.len()
                    ==> #[trigger] test_y@[j] == dgp.label(sample_of(test_x@, n_inputs as int, j)),
                forall|j: int| 0 <= j < train_y@.len() ==> #[trigger] sample_of(train_x@, n_inputs as int, j)
                    == sample_of(pool@, n_inputs as int, order@[j] as int),
                forall|j: int| 0 <= j < test_y@.len() ==> #[trigger] sample_of(test_x@, n_inputs as int, j)
                    == sample_of(pool@, n_inputs as int, order@[train_n + j] as int),
            decreases order@.len() - slot,
        {
            let i = order[slot];
            let xs = sample(pool, n_inputs, i);
            let y = dgp.eval(xs);
            if slot < train_n {
                let ghost before = train_x@;
                let ghost count = train_y@.len() as int;
                push_labeled(&mut train_x, &mut train_y, xs, y, n_inputs, Ghost(*dgp));
                proof {
                    lemma_appended_samples(before, train_x@, xs@, n_inputs as int, count);
                    assert forall|j: int| 0 <= j < train_y@.len() implies #[trigger] sample_of(train_x@, n_inputs as int, j)
                        == sample_of(pool@, n_inputs as int, order@[j] as int) by {
                        if j < count {
                            assert(sample_of(train_x@, n_inputs as int, j) == sample_of(before, n_inputs as int, j));
                        }
                    }
                }
            } else {
                let ghost before = test_x@;
                let ghost count = test_y@.len() as int;
                push_labeled(&mut test_x, &mut test_y, xs, y, n_inputs, Ghost(*dgp));
                proof {
                    lemma_appended_samples(before, test_x@, xs@, n_inputs as int, count);
                    assert forall|j: int| 0 <= j < test_y@.len() implies #[trigger] sample_of(test_x@, n_inputs as int, j)
                        == sample_of(pool@, n_inputs as int, order@[train_n + j] as int) by {
                        if j < count {
                            assert(sample_of(test_x@, n_inputs as int, j) == sample_of(before, n_inputs as int, j));
                        } else {
                            assert(train_n + j == slot);
                        }
                    }
                }
            }
            slot = slot + 1;
        }
        Self { n_inputs, train_n: train_y.len(), train_x, train_y, test_x, test_y }
    }
}

/// Training size for `n` samples: `count` clamped to `1..=max(n - 1, 1)`.
pub open spec fn clamp_train(count: int, n: int) -> int {
    let max_train = if n >= 2 { n - 1 } else { 1 };
    if count < 1 { 1 } else if count > max_train { max_train } else { count }
}

proof fn lemma_div_exact(len: int, n: int, k: int)
    requires
        n >= 1,
        k >= 0,
        len == k * n,
    ensures
        len / n == k,
{
    vstd::arithmetic::div_mod::lemma_div_by_multiple(k, n);
}

/// After appending `xs` to a buffer of `count` samples, the old samples are
/// unchanged and sample `count` is `xs`.
proof fn lemma_appended_samples(before: Seq<u8>, after: Seq<u8>, xs: Seq<u8>, n: int, count: int)
    requires
        n >= 1,
        count >= 0,
        before.len() == count * n,
        xs.len() == n,
        after == before + xs,
    ensures
        forall|j: int| 0 <= j < count ==> #[trigger] sample_of(after, n, j) == sample_of(before, n, j),
        sample_of(after, n, count) == xs,
{
    assert forall|j: int| 0 <= j < count implies #[trigger] sample_of(after, n, j) == sample_of(before, n, j) by {
        assert(j * n + n <= count * n) by (nonlinear_arith)
            requires j < count, n >= 1;
        assert(sample_of(after, n, j) =~= sample_of(before, n, j));
    }
    assert(sample_of(after, n, count) =~= xs);
}

/// Appends a sample and its label to a labeled buffer.
fn push_labeled(
    samples: &mut Vec<u8>,
    labels: &mut Vec<bool>,
    xs: &[u8],
    y: bool,
    n_inputs: usize,
    Ghost(dgp): Ghost<LinearU8Dgp>,
)
    requires
        n_inputs >= 1,
        xs@.len() == n_inputs,
        y == dgp.label(xs@),
        old(samples)@.len() == old(labels)@.len() * n_inputs,
        forall|j: int| 0 <= j < old(labels)@.len()
            ==> #[trigger] old(labels)@[j] == dgp.label(sample_of(old(samples)@, n_inputs as int, j)),
    ensures
        final(labels)@ == old(labels)@.push(y),
        final(samples)@ == old(samples)@ + xs@,
        final(samples)@.len() == final(labels)@.len() * n_inputs,
        forall|j: int| 0 <= j < final(labels)@.len()
            ==> #[trigger] final(labels)@[j] == dgp.label(sample_of(final(samples)@, n_inputs as int, j)),
{
    let ghost old_x = samples@;
    let ghost count = labels@.len() as int;
    append_sample(samples, xs);
    labels.push(y);
    proof {
        lemma_appended_samples(old_x, samples@, xs@, n_inputs as int, count);
        assert(samples@.len() == (count + 1) * n_inputs) by (nonlinear_arith)
            requires samples@.len() == count * n_inputs + n_inputs;
        assert forall|j: int| 0 <= j < labels@.len()
            implies #[trigger] labels@[j] == dgp.label(sample_of(samples@, n_inputs as int, j)) by {
            if j < count {
                assert(sample_of(samples@, n_inputs as int, j) == sample_of(old_x, n_inputs as int, j));
            }
        }
    }
}

/// Appends the bytes of `xs` to `out`.
fn append_sample(out: &mut Vec<u8>, xs: &[u8])
    ensures
        final(out)@ == old(out)@ + xs@,
{
    let mut j: usize = 0;
    while j < xs.len()
        invariant
            j <= xs@.len(),
            out@ == old(out)@ + xs@.subrange(0, j as int),
        decreases xs@.len() - j,
    {
        out.push(xs[j]);
        j = j + 1;
        assert(out@ =~= old(out)@ + xs@.subrange(0, j as int));
    }
    assert(xs@.subrange(0, xs@.len() as int) =~= xs@);
}

/// The sample pool: every input vector when the domain fits the pool, else
/// random vectors drawn from a seed derived from `seed`.
fn generate_samples_flat(n_inputs: usize, seed: u64) -> (r: Vec<u8>)
    requires
        1 <= n_inputs < 16,
    ensures
        r@.len() == pool_size(n_inputs as nat) * n_inputs,
{
    let pool = sample_pool_size(n_inputs);
    proof {
        assert(pool * n_inputs <= 65_536 * 16) by (nonlinear_arith)
            requires pool <= 65_536, n_inputs < 16;
    }
    if domain_size(n_inputs) <= pool as u128 {
        enumerate_all_flat(n_inputs)
    } else {
        random_samples_flat(seed.wrapping_add(999), n_inputs, sample_pool_size(n_inputs))
    }
}

/// Every input vector of `n_inputs` bytes, in little-endian counting order.
fn enumerate_all_flat(n_inputs: usize) -> (r: Vec<u8>)
    requires
        1 <= n_inputs < 16,
    ensures
        r@.len() == pool_size(n_inputs as nat) * n_inputs,
{
    let n = sample_pool_size(n_inputs);
    proof {
        assert(n * n_inputs <= 65_536 * 16) by (nonlinear_arith)
            requires n <= 65_536, n_inputs < 16;
    }
    let mut out: Vec<u8> = Vec::new();
    let mut v: Vec<u8> = crate::workspace::filled(0u8, n_inputs);
    let mut i: usize = 0;
    while i < n
        invariant
            n <= 65_536,
            n_inputs < 16,
            i <= n,
            v@.len() == n_inputs,
            out@.len() == i * n_inputs,
        decreases n - i,
    {
        proof {
            assert(i * n_inputs + n_inputs == (i + 1) * n_inputs) by (nonlinear_arith);
        }
        append_sample(&mut out, v.as_slice());
        increment_mixed_radix(v.as_mut_slice());
        i = i + 1;
    }
    out
}

/// Every digit below `k` is 255, so a carry reaches digit `k`.
pub open spec fn carry_reaches(before: Seq<u8>, k: int) -> bool {
    forall|j: int| 0 <= j < k ==> #[trigger] before[j] == 255
}

/// `after` is `before` plus one, read as a little-endian base-256 number
/// that wraps to zero.
pub open spec fn incremented(before: Seq<u8>, after: Seq<u8>) -> bool {
    &&& after.len() == before.len()
    &&& forall|k: int| 0 <= k < before.len() ==> #[trigger] after[k] == if carry_reaches(before, k) {
        if before[k] < 255 { (before[k] + 1) as u8 } else { 0u8 }
    } else {
        before[k]
    }
}

fn increment_mixed_radix(v: &mut [u8])
    ensures
        incremented(old(v)@, final(v)@),
{
    let mut k: usize = 0;
    while k < v.len()
        invariant
            k <= v@.len(),
            v@.len() == old(v)@.len(),
            forall|j: int| 0 <= j < k ==> #[trigger] old(v)@[j] == 255,
            forall|j: int| 0 <= j < k ==> #[trigger] v@[j] == 0,
            forall|j: int| k <= j < v@.len() ==> #[trigger] v@[j] == old(v)@[j],
        decreases v@.len() - k,
    {
        if v[k] < 255 {
            v[k] = v[k] + 1;
            proof {
                assert forall|j: int| 0 <= j < v@.len() implies #[trigger] v@[j] == if carry_reaches(old(v)@, j) {
                    if old(v)@[j] < 255 { (old(v)@[j] + 1) as u8 } else { 0u8 }
                } else {
                    old(v)@[j]
                } by {
                    if j > k {
                        assert(old(v)@[k as int] != 255);
                        assert(!carry_reaches(old(v)@, j));
                    } else if j == k {
                        assert(carry_reaches(old(v)@, j));
                    } else {
                        assert(carry_reaches(old(v)@, j));
                    }
                }
            }
            return;
        }
        v[k] = 0;
        k = k + 1;
    }
    proof {
        assert forall|j: int| 0 <= j < v@.len() implies #[trigger] v@[j] == if carry_reaches(old(v)@, j) {
            if old(v)@[j] < 255 { (old(v)@[j] + 1) as u8 } else { 0u8 }
        } else {
            old(v)@[j]
        } by {
            assert(carry_reaches(old(v)@, j));
        }
    }
}

/// `count` samples of random bytes drawn from `seed`.
fn random_samples_flat(seed: u64, n_inputs: usize, count: usize) -> (r: Vec<u8>)
    requires
        count * n_inputs <= usize::MAX,
    ensures
        r@.len() == count * n_inputs,
{
    let mut rng = seeded_rng(seed);
    let total = count * n_inputs;
    let mut out: Vec<u8> = Vec::new();
    let mut k: usize = 0;
    while k < total
        invariant
            k <= total,
            out@.len() == k,
        decreases total - k,
    {
        out.push(random_u8(&mut rng));
        k = k + 1;
    }
    out
}

} // verus!
