//! Symmetric latest-label memory: one packed byte per input byte.
//!
//! Stores the input byte when the label is 1 and its complement when it is
//! 0; prediction counts the bits that agree with the memory against the
//! midpoint.

use vstd::prelude::*;
use crate::circuit_exp::rng::{seeded_rng, shuffle};
use crate::circuit_exp::u8_linear::bits::{count_errors, errors_upto, sample, sample_of, score_sym_u8, sym_score};
use crate::circuit_exp::u8_linear::learner::{all_indices, indices_below, is_epoch_order, lemma_permuted_below};
use crate::circuit_exp::u8_linear::learner_mem::label_u8;

verus! {

#[derive(Debug, Clone)]
pub struct U8SymLearner {
    pub n_inputs: usize,
    /// One packed byte per input byte (bit `i` = last label polarity for bit `i`).
    pub mem: Vec<u8>,
    midpoint: i32,
}

impl U8SymLearner {
    /// One memory byte per input byte; the midpoint is half the bits.
    pub closed spec fn wf(&self) -> bool {
        &&& self.mem@.len() == self.n_inputs
        &&& 8 * self.n_inputs <= i32::MAX
        &&& self.midpoint == 4 * self.n_inputs
    }

    /// The stored memory bytes.
    pub closed spec fn memory(&self) -> Seq<u8> {
        self.mem@
    }

    pub closed spec fn inputs(&self) -> int {
        self.n_inputs as int
    }

    /// The learner's label for input `xs`: at least half its bits agree with the memory.
    pub closed spec fn predicts(&self, xs: Seq<u8>) -> bool {
        sym_score(xs, self.mem@, self.n_inputs as int) >= 4 * self.n_inputs
    }

    /// `next` is this learner after `update_one(xs, y)`.
    pub open spec fn updated_by(&self, next: Self, xs: Seq<u8>, y: bool) -> bool {
        &&& next.wf()
        &&& next.inputs() == self.inputs()
        &&& next.memory().len() == self.memory().len()
        &&& forall|j: int| 0 <= j < self.inputs() ==> #[trigger] next.memory()[j] == if y { xs[j] } else { !xs[j] }
    }

    /// `states` runs from this learner to `next`, one update per sample of
    /// `order`, which visits every sample once.
    pub open spec fn epoch_by(&self, next: Self, x_flat: Seq<u8>, y: Seq<bool>, order: Seq<usize>, states: Seq<Self>) -> bool {
        &&& is_epoch_order(order, y.len() as int)
        &&& states.len() == order.len() + 1
        &&& states[0] == *self
        &&& states[order.len() as int] == next
        &&& forall|k: int| 0 <= k < order.len() ==> #[trigger] states[k].updated_by(states[k + 1],
            sample_of(x_flat, self.inputs(), order[k] as int), y[order[k] as int])
    }

    /// One pass over the samples in some order leads from this learner to `next`.
    pub open spec fn epoch_to(&self, next: Self, x_flat: Seq<u8>, y: Seq<bool>) -> bool {
        exists|order: Seq<usize>, states: Seq<Self>| self.epoch_by(next, x_flat, y, order, states)
    }

    /// `runs` holds this learner and the learner after each of `r` passes,
    /// the last being `last`; every pass but the last left some sample
    /// mislabeled.
    pub open spec fn trained_to(&self, last: Self, runs: Seq<Self>, r: int, x_flat: Seq<u8>, y: Seq<bool>) -> bool {
        &&& runs.len() == r + 1
        &&& runs[0] == *self
        &&& runs[r] == last
        &&& forall|e: int| 0 <= e < r ==> #[trigger] runs[e].epoch_to(runs[e + 1], x_flat, y)
        &&& forall|e: int| 1 <= e < r ==> #[trigger] runs[e].errors_on(x_flat, y) > 0
    }

    /// Number of samples this learner labels wrongly.
    pub open spec fn errors_on(&self, x_flat: Seq<u8>, y: Seq<bool>) -> nat {
        errors_upto(x_flat, y, self.inputs(), |s: Seq<u8>| self.predicts(s), y.len() as int)
    }

    /// The label for `xs`: at least half of its bits agree with the memory.
    pub proof fn lemma_predicts(&self, xs: Seq<u8>)
        ensures
            self.predicts(xs) == (sym_score(xs, self.memory(), self.inputs()) >= 4 * self.inputs()),
    {
    }

    pub fn new(n_inputs: usize) -> (r: Self)
        requires
            8 * n_inputs <= i32::MAX,
        ensures
            r.wf(),
            r.inputs() == n_inputs,
            r.memory().len() == n_inputs,
            forall|j: int| 0 <= j < n_inputs ==> #[trigger] r.memory()[j] == 0,
    {
        let nb = n_inputs * 8;
        Self { n_inputs, mem: crate::workspace::filled(0u8, n_inputs), midpoint: (nb / 2) as i32 }
    }

    pub fn predict(&self, x: &[u8]) -> (r: bool)
        requires
            self.wf(),
            x@.len() == self.inputs(),
        ensures
            r == self.predicts(x@),
    {
        proof {
            crate::circuit_exp::u8_linear::bits::lemma_sym_score_bound(x@, self.mem@, x@.len() as int);
        }
        score_sym_u8(x, self.mem.as_slice(), self.midpoint) >= 0
    }

    /// Trains for up to `epochs` passes over the samples in a shuffled order,
    /// stopping after the first pass that leaves no sample mislabeled;
    /// returns the number of passes run.
    pub fn fit(&mut self, x_flat: &[u8], y: &[bool], epochs: usize) -> (r: usize)
        requires
            old(self).wf(),
            y@.len() * old(self).inputs() == x_flat@.len(),
        ensures
            final(self).wf(),
            final(self).inputs() == old(self).inputs(),
            r <= epochs,
            epochs > 0 ==> r >= 1,
            r < epochs ==> errors_upto(x_flat@, y@, final(self).inputs(),
                |s: Seq<u8>| final(self).predicts(s), y@.len() as int) == 0,
            exists|runs: Seq<Self>| #[trigger] old(self).trained_to(*final(self), runs, r as int, x_flat@, y@),
    {
        let n = y.len();
        let n_inputs = self.n_inputs;
        let mut rng = seeded_rng(0);
        let mut indices: Vec<usize> = Vec::new();
        let mut k: usize = 0;
        while k < n
            invariant
                k <= n,
                indices@.len() == k,
                indices_below(indices@, n as int),
                forall|j: int| 0 <= j < k ==> #[trigger] indices@[j] == j,
            decreases n - k,
        {
            indices.push(k);
            k = k + 1;
        }
        assert(indices@ =~= all_indices(n as int));
        let ghost runs: Seq<Self> = seq![*self];
        let mut epochs_run: usize = 0;
        while epochs_run < epochs
            invariant
                self.wf(),
                self.n_inputs == n_inputs,
                n_inputs == old(self).inputs(),
                n == y@.len(),
                y@.len() * n_inputs == x_flat@.len(),
                indices_below(indices@, n as int),
                is_epoch_order(indices@, n as int),
                epochs_run <= epochs,
                runs.len() == epochs_run + 1,
                runs[0] == *old(self),
                runs[epochs_run as int] == *self,
                forall|e: int| 0 <= e < epochs_run ==> #[trigger] runs[e].epoch_to(runs[e + 1], x_flat@, y@),
                forall|e: int| 1 <= e <= epochs_run && e < runs.len() - 1 ==> #[trigger] runs[e].errors_on(x_flat@, y@) > 0,
                epochs_run >= 1 ==> runs[epochs_run as int].errors_on(x_flat@, y@) > 0,
            decreases epochs - epochs_run,
        {
            epochs_run = epochs_run + 1;
            let ghost before = indices@;
            shuffle(indices.as_mut_slice(), &mut rng);
            proof {
                lemma_permuted_below(before, indices@, n as int);
            }
            let ghost start = *self;
            let ghost states: Seq<Self> = seq![*self];
            let mut p: usize = 0;
            while p < indices.len()
                invariant
                    self.wf(),
                    self.n_inputs == n_inputs,
                    start.inputs() == n_inputs,
                    n == y@.len(),
                    y@.len() * n_inputs == x_flat@.len(),
                    indices_below(indices@, n as int),
                    p <= indices@.len(),
                    states.len() == p + 1,
                    states[0] == start,
                    states[p as int] == *self,
                    forall|j: int| 0 <= j < p ==> #[trigger] states[j].updated_by(states[j + 1],
                        sample_of(x_flat@, start.inputs(), indices@[j] as int), y@[indices@[j] as int]),
                decreases indices@.len() - p,
            {
                let i = indices[p];
                proof {
                    assert(i * n_inputs + n_inputs <= y@.len() * n_inputs) by (nonlinear_arith)
                        requires i < y@.len();
                }
                let xs = sample(x_flat, n_inputs, i);
                self.update_one(xs, y[i]);
                proof {
                    let ghost prev_states = states;
                    states = states.push(*self);
                    assert forall|j: int| 0 <= j < p + 1 implies #[trigger] states[j].updated_by(states[j + 1],
                        sample_of(x_flat@, start.inputs(), indices@[j] as int), y@[indices@[j] as int]) by {
                        if j < p {
                            assert(states[j] == prev_states[j] && states[j + 1] == prev_states[j + 1]);
                        }
                    }
                }
                p = p + 1;
            }
            proof {
                assert(start.epoch_by(*self, x_flat@, y@, indices@, states));
                let ghost prev_runs = runs;
                runs = runs.push(*self);
                assert forall|e: int| 0 <= e < epochs_run implies #[trigger] runs[e].epoch_to(runs[e + 1], x_flat@, y@) by {
                    if e < epochs_run - 1 {
                        assert(runs[e] == prev_runs[e] && runs[e + 1] == prev_runs[e + 1]);
                    } else {
                        assert(runs[e] == start);
                    }
                }
                assert forall|e: int| 1 <= e < epochs_run implies #[trigger] runs[e].errors_on(x_flat@, y@) > 0 by {
                    assert(runs[e] == prev_runs[e]);
                }
            }
            let errors = self.error_count(x_flat, y);
            if errors == 0 {
                proof {
                    assert forall|e: int| 1 <= e < epochs_run implies #[trigger] runs[e].errors_on(x_flat@, y@) > 0 by {}
                    assert(runs[epochs_run as int] == *self);
                    assert(old(self).trained_to(*self, runs, epochs_run as int, x_flat@, y@));
                }
                return epochs_run;
            }
        }
        proof {
            assert(old(self).trained_to(*self, runs, epochs_run as int, x_flat@, y@));
        }
        epochs_run
    }

    /// Stores each input byte when the label is 1, its complement when it is 0.
    pub fn update_one(&mut self, x: &[u8], y: bool)
        requires
            old(self).wf(),
            x@.len() == old(self).inputs(),
        ensures
            final(self).wf(),
            final(self).inputs() == old(self).inputs(),
            final(self).memory().len() == old(self).memory().len(),
            forall|j: int| 0 <= j < old(self).inputs() ==> #[trigger] final(self).memory()[j]
                == if y { x@[j] } else { !x@[j] },
    {
        let ghost old_self = *self;
        let t = label_u8(y);
        let n_inputs = self.n_inputs;
        let mut j: usize = 0;
        while j < n_inputs
            invariant
                old_self.wf(),
                x@.len() == n_inputs,
                n_inputs == old_self.n_inputs,
                self.n_inputs == n_inputs,
                self.midpoint == old_self.midpoint,
                self.mem@.len() == n_inputs,
                t == if y { 1u8 } else { 0u8 },
                j <= n_inputs,
                forall|k: int| 0 <= k < j ==> #[trigger] self.mem@[k] == if y { x@[k] } else { !x@[k] },
            decreases n_inputs - j,
        {
            let byte = x[j];
            self.mem[j] = if t != 0 { byte } else { !byte };
            j = j + 1;
        }
    }

    pub fn error_count(&self, x_flat: &[u8], y: &[bool]) -> (r: usize)
        requires
            self.wf(),
            y@.len() * self.inputs() <= x_flat@.len(),
        ensures
            r == errors_upto(x_flat@, y@, self.inputs(), |s: Seq<u8>| self.predicts(s), y@.len() as int),
    {
        let me = &*self;
        let pred = |xs: &[u8]| -> (r: bool)
            requires
                xs@.len() == me.inputs(),
            ensures
                r == me.predicts(xs@),
        {
            me.predict(xs)
        };
        count_errors(x_flat, y, self.n_inputs, pred, Ghost(|s: Seq<u8>| self.predicts(s)))
    }

    pub fn weights(&self) -> (r: &[u8])
        ensures
            r@ == self.memory(),
    {
        self.mem.as_slice()
    }
}

} // verus!
