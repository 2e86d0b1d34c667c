//! Latest-label memory learner over byte inputs.
//!
//! Weights are packed: one byte per input byte for `w0` (labels when a bit
//! is 0) and `w1` (labels when a bit is 1). Inference counts the selected
//! memory bits, `popcount((w0 & !x) | (w1 & x))`, against the midpoint.

use vstd::prelude::*;
use crate::circuit_exp::rng::{seeded_rng, shuffle};
use crate::circuit_exp::u8_linear::bits::{
    count_errors, errors_upto, mem_score, sample, sample_of, score_mem_u8, update_byte_mem,
};
use crate::circuit_exp::u8_linear::dgp::n_bits;
use crate::circuit_exp::u8_linear::learner::{all_indices, indices_below, is_epoch_order, lemma_permuted_below};

verus! {

pub fn label_u8(y: bool) -> (r: u8)
    ensures
        r == if y { 1u8 } else { 0u8 },
{
    if y { 1 } else { 0 }
}

pub fn score_mem(xs: &[u8], w0: &[u8], w1: &[u8]) -> (r: i32)
    requires
        xs@.len() == w0@.len(),
        xs@.len() == w1@.len(),
        8 * xs@.len() <= i32::MAX,
    ensures
        r == mem_score(xs@, w0@, w1@, xs@.len() as int) - 4 * xs@.len(),
{
    proof {
        crate::circuit_exp::u8_linear::bits::lemma_mem_score_bound(xs@, w0@, w1@, xs@.len() as int);
    }
    score_mem_u8(xs, w0, w1, (n_bits(xs.len()) / 2) as i32)
}

/// `w0` and `w1` after storing label `t` under `byte`.
pub open spec fn mem_stored(w0: u8, w1: u8, byte: u8, t: u8) -> (u8, u8) {
    ((w0 & byte) | (!byte & 0u8.wrapping_sub(t)), (w1 & !byte) | (byte & 0u8.wrapping_sub(t)))
}

#[derive(Debug, Clone)]
pub struct U8MemLearner {
    pub n_inputs: usize,
    pub w0: Vec<u8>,
    pub w1: Vec<u8>,
    midpoint: i32,
}

impl U8MemLearner {
    /// One memory byte pair per input byte; the midpoint is half the bits.
    pub closed spec fn wf(&self) -> bool {
        &&& self.w0@.len() == self.inputs()
        &&& self.w1@.len() == self.inputs()
        &&& 8 * self.inputs() <= i32::MAX
        &&& self.spec_midpoint() == 4 * self.inputs()
    }

    pub closed spec fn spec_midpoint(&self) -> int {
        self.midpoint as int
    }

    /// Memory bits stored for input bits that are 0.
    pub closed spec fn mem0(&self) -> Seq<u8> {
        self.w0@
    }

    /// Memory bits stored for input bits that are 1.
    pub closed spec fn mem1(&self) -> Seq<u8> {
        self.w1@
    }

    pub closed spec fn inputs(&self) -> int {
        self.n_inputs as int
    }

    /// The learner's label for input `xs`: at least half the selected bits are set.
    pub closed spec fn predicts(&self, xs: Seq<u8>) -> bool {
        mem_score(xs, self.w0@, self.w1@, self.inputs() as int) >= 4 * self.inputs()
    }

    /// The label for `xs`: at least half of the selected memory bits are set.
    pub proof fn lemma_predicts(&self, xs: Seq<u8>)
        ensures
            self.predicts(xs) == (mem_score(xs, self.mem0(), self.mem1(), self.inputs()) >= 4 * self.inputs()),
    {
    }

    /// `next` is this learner after `update_one(xs, y)`.
    pub open spec fn updated_by(&self, next: Self, xs: Seq<u8>, y: bool) -> bool {
        &&& next.wf()
        &&& next.inputs() == self.inputs()
        &&& forall|j: int| 0 <= j < self.inputs() ==> (#[trigger] next.mem0()[j], next.mem1()[j])
            == mem_stored(self.mem0()[j], self.mem1()[j], xs[j], label_of(y))
    }

    /// `states` runs from this learner to `next`, one update per sample of
    /// `order`, which visits every sample once.
    pub open spec fn epoch_by(&self, next: Self, x_flat: Seq<u8>, y: Seq<bool>, order: Seq<usize>, states: Seq<Self>) -> bool {
        &&& is_epoch_order(order, y.len() as int)
        &&& states.len() == order.len() + 1
        &&& states[0] == *self
        &&& states[order.len() as int] == next
        &&& forall|k: int| 0 <= k < order.len() ==> #[trigger] states[k].updated_by(states[k + 1],
            sample_of(x_flat, self.inputs(), order[k] as int), y[order[k] as int])
    }

    /// One pass over the samples in some order leads from this learner to `next`.
    pub open spec fn epoch_to(&self, next: Self, x_flat: Seq<u8>, y: Seq<bool>) -> bool {
        exists|order: Seq<usize>, states: Seq<Self>| self.epoch_by(next, x_flat, y, order, states)
    }

    /// `runs` holds this learner and the learner after each of `r` passes,
    /// the last being `last`; every pass but the last left some sample
    /// mislabeled.
    pub open spec fn trained_to(&self, last: Self, runs: Seq<Self>, r: int, x_flat: Seq<u8>, y: Seq<bool>) -> bool {
        &&& runs.len() == r + 1
        &&& runs[0] == *self
        &&& runs[r] == last
        &&& forall|e: int| 0 <= e < r ==> #[trigger] runs[e].epoch_to(runs[e + 1], x_flat, y)
        &&& forall|e: int| 1 <= e < r ==> #[trigger] runs[e].errors_on(x_flat, y) > 0
    }

    /// Number of samples this learner labels wrongly.
    pub open spec fn errors_on(&self, x_flat: Seq<u8>, y: Seq<bool>) -> nat {
        errors_upto(x_flat, y, self.inputs(), |s: Seq<u8>| self.predicts(s), y.len() as int)
    }

    pub fn new(n_inputs: usize) -> (r: Self)
        requires
            8 * n_inputs <= i32::MAX,
        ensures
            r.wf(),
            r.inputs() == n_inputs,
            r.mem0().len() == n_inputs,
            r.mem1().len() == n_inputs,
            forall|j: int| 0 <= j < n_inputs ==> #[trigger] r.mem0()[j] == 0 && r.mem1()[j] == 0,
    {
        let nb = n_inputs * 8;
        Self {
            n_inputs,
            w0: crate::workspace::filled(0u8, n_inputs),
            w1: crate::workspace::filled(0u8, n_inputs),
            midpoint: (nb / 2) as i32,
        }
    }

    pub fn predict(&self, x: &[u8]) -> (r: bool)
        requires
            self.wf(),
            x@.len() == self.inputs(),
        ensures
            r == self.predicts(x@),
    {
        proof {
            crate::circuit_exp::u8_linear::bits::lemma_mem_score_bound(x@, self.w0@, self.w1@, x@.len() as int);
        }
        score_mem_u8(x, self.w0.as_slice(), self.w1.as_slice(), self.midpoint) >= 0
    }

    /// Trains for up to `epochs` passes over the samples in a shuffled order,
    /// stopping after the first pass that leaves no sample mislabeled;
    /// returns the number of passes run.
    pub fn fit(&mut self, x_flat: &[u8], y: &[bool], epochs: usize) -> (r: usize)
        requires
            old(self).wf(),
            y@.len() * old(self).inputs() == x_flat@.len(),
        ensures
            final(self).wf(),
            final(self).inputs() == old(self).inputs(),
            r <= epochs,
            epochs > 0 ==> r >= 1,
            r < epochs ==> errors_upto(x_flat@, y@, final(self).inputs() as int,
                |s: Seq<u8>| final(self).predicts(s), y@.len() as int) == 0,
            exists|runs: Seq<Self>| #[trigger] old(self).trained_to(*final(self), runs, r as int, x_flat@, y@),
    {
        let n = y.len();
        let n_inputs = self.n_inputs;
        let mut rng = seeded_rng(0);
        let mut indices: Vec<usize> = Vec::new();
        let mut k: usize = 0;
        while k < n
            invariant
                k <= n,
                indices@.len() == k,
                indices_below(indices@, n as int),
                forall|j: int| 0 <= j < k ==> #[trigger] indices@[j] == j,
            decreases n - k,
        {
            indices.push(k);
            k = k + 1;
        }
        assert(indices@ =~= all_indices(n as int));
        let ghost runs: Seq<Self> = seq![*self];
        let mut epochs_run: usize = 0;
        while epochs_run < epochs
            invariant
                self.wf(),
                self.n_inputs == n_inputs,
                n_inputs == old(self).inputs(),
                n == y@.len(),
                y@.len() * n_inputs == x_flat@.len(),
                indices_below(indices@, n as int),
                is_epoch_order(indices@, n as int),
                epochs_run <= epochs,
                runs.len() == epochs_run + 1,
                runs[0] == *old(self),
                runs[epochs_run as int] == *self,
                forall|e: int| 0 <= e < epochs_run ==> #[trigger] runs[e].epoch_to(runs[e + 1], x_flat@, y@),
                forall|e: int| 1 <= e <= epochs_run && e < runs.len() - 1 ==> #[trigger] runs[e].errors_on(x_flat@, y@) > 0,
                epochs_run >= 1 ==> runs[epochs_run as int].errors_on(x_flat@, y@) > 0,
            decreases epochs - epochs_run,
        {
            epochs_run = epochs_run + 1;
            let ghost before = indices@;
            shuffle(indices.as_mut_slice(), &mut rng);
            proof {
                lemma_permuted_below(before, indices@, n as int);
            }
            let ghost start = *self;
            let ghost states: Seq<Self> = seq![*self];
            let mut p: usize = 0;
            while p < indices.len()
                invariant
                    self.wf(),
                    self.n_inputs == n_inputs,
                    start.inputs() == n_inputs,
                    n == y@.len(),
                    y@.len() * n_inputs == x_flat@.len(),
                    indices_below(indices@, n as int),
                    p <= indices@.len(),
                    states.len() == p + 1,
                    states[0] == start,
                    states[p as int] == *self,
                    forall|j: int| 0 <= j < p ==> #[trigger] states[j].updated_by(states[j + 1],
                        sample_of(x_flat@, start.inputs(), indices@[j] as int), y@[indices@[j] as int]),
                decreases indices@.len() - p,
            {
                let i = indices[p];
                proof {
                    assert(i * n_inputs + n_inputs <= y@.len() * n_inputs) by (nonlinear_arith)
                        requires i < y@.len();
                }
                let xs = sample(x_flat, n_inputs, i);
                self.update_one(xs, y[i]);
                proof {
                    let ghost prev_states = states;
                    states = states.push(*self);
                    assert forall|j: int| 0 <= j < p + 1 implies #[trigger] states[j].updated_by(states[j + 1],
                        sample_of(x_flat@, start.inputs(), indices@[j] as int), y@[indices@[j] as int]) by {
                        if j < p {
                            assert(states[j] == prev_states[j] && states[j + 1] == prev_states[j + 1]);
                        }
                    }
                }
                p = p + 1;
            }
            proof {
                assert(start.epoch_by(*self, x_flat@, y@, indices@, states));
                let ghost prev_runs = runs;
                runs = runs.push(*self);
                assert forall|e: int| 0 <= e < epochs_run implies #[trigger] runs[e].epoch_to(runs[e + 1], x_flat@, y@) by {
                    if e < epochs_run - 1 {
                        assert(runs[e] == prev_runs[e] && runs[e + 1] == prev_runs[e + 1]);
                    } else {
                        assert(runs[e] == start);
                    }
                }
                assert forall|e: int| 1 <= e < epochs_run implies #[trigger] runs[e].errors_on(x_flat@, y@) > 0 by {
                    assert(runs[e] == prev_runs[e]);
                }
            }
            let errors = self.error_count(x_flat, y);
            if errors == 0 {
                proof {
                    assert forall|e: int| 1 <= e < epochs_run implies #[trigger] runs[e].errors_on(x_flat@, y@) > 0 by {}
                    assert(runs[epochs_run as int] == *self);
                    assert(old(self).trained_to(*self, runs, epochs_run as int, x_flat@, y@));
                }
                return epochs_run;
            }
        }
        proof {
            assert(old(self).trained_to(*self, runs, epochs_run as int, x_flat@, y@));
        }
        epochs_run
    }

    /// Stores label `y` in every memory bit that the sample selects.
    pub fn update_one(&mut self, x: &[u8], y: bool)
        requires
            old(self).wf(),
            x@.len() == old(self).inputs(),
        ensures
            final(self).wf(),
            final(self).inputs() == old(self).inputs(),
            forall|j: int| 0 <= j < old(self).inputs() ==> (#[trigger] final(self).mem0()[j], final(self).mem1()[j])
                == mem_stored(old(self).mem0()[j], old(self).mem1()[j], x@[j], label_of(y)),
    {
        let ghost old_self = *self;
        let t = label_u8(y);
        let n_inputs = self.n_inputs;
        let mut j: usize = 0;
        while j < n_inputs
            invariant
                old_self.wf(),
                x@.len() == n_inputs,
                n_inputs == old_self.n_inputs,
                self.n_inputs == n_inputs,
                self.w0@.len() == n_inputs,
                self.w1@.len() == n_inputs,
                self.spec_midpoint() == old_self.spec_midpoint(),
                t == label_of(y),
                j <= n_inputs,
                forall|k: int| 0 <= k < n_inputs ==> (#[trigger] self.w0@[k], self.w1@[k]) == if k < j {
                    mem_stored(old_self.w0@[k], old_self.w1@[k], x@[k], t)
                } else {
                    (old_self.w0@[k], old_self.w1@[k])
                },
            decreases n_inputs - j,
        {
            let mut a = self.w0[j];
            let mut b = self.w1[j];
            update_byte_mem(&mut a, &mut b, x[j], t);
            self.w0[j] = a;
            self.w1[j] = b;
            j = j + 1;
        }
    }

    pub fn error_count(&self, x_flat: &[u8], y: &[bool]) -> (r: usize)
        requires
            self.wf(),
            y@.len() * self.inputs() <= x_flat@.len(),
        ensures
            r == errors_upto(x_flat@, y@, self.inputs() as int, |s: Seq<u8>| self.predicts(s), y@.len() as int),
    {
        let me = &*self;
        let pred = |xs: &[u8]| -> (r: bool)
            requires
                xs@.len() == me.n_inputs,
            ensures
                r == me.predicts(xs@),
        {
            me.predict(xs)
        };
        count_errors(x_flat, y, self.n_inputs, pred, Ghost(|s: Seq<u8>| self.predicts(s)))
    }

    pub fn weights(&self) -> (r: (&[u8], &[u8]))
        ensures
            r.0@ == self.mem0(),
            r.1@ == self.mem1(),
    {
        (self.w0.as_slice(), self.w1.as_slice())
    }
}

/// Label `y` as a bit.
pub open spec fn label_of(y: bool) -> u8 {
    if y { 1u8 } else { 0u8 }
}

} // verus!
