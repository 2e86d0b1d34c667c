//! Batch perceptron learner for byte-input linear threshold functions.

use vstd::prelude::*;
use crate::batch::slice_range;
use crate::circuit_exp::rng::{seeded_rng, shuffle};
use crate::circuit_exp::u8_linear::bits::{
    bit8, count_errors, errors_upto, linear_score, sample, sample_of, score_byte,
};

verus! {

/// `w` moved one step by `delta` (`+1` or `-1`), saturating at the `i8` bounds.
pub open spec fn saturating_step(w: i8, delta: i8) -> i8 {
    if delta > 0 {
        if w == 127 { 127 } else { (w + 1) as i8 }
    } else {
        if w == -128 { -128i8 } else { (w - 1) as i8 }
    }
}

/// Every weight below position `m` at a bit whose value is `when_set`
/// moved one step toward label `y`; the others are as before.
pub open spec fn stepped_upto(before: Seq<i8>, after: Seq<i8>, x: Seq<u8>, y: bool, when_set: bool, m: int) -> bool {
    &&& after.len() == before.len()
    &&& forall|k: int| 0 <= k < before.len() ==> #[trigger] after[k] == if k < m && bit8(x[k / 8], k % 8) == when_set {
        saturating_step(before[k], if y { 1i8 } else { -1i8 })
    } else {
        before[k]
    }
}

fn step_weight(w: i8, delta: i8) -> (r: i8)
    ensures
        r == saturating_step(w, delta),
{
    if delta > 0 {
        if w == 127 { 127 } else { w + 1 }
    } else {
        if w == -128 { -128 } else { w - 1 }
    }
}

/// Every index of `indices` is below `n`.
pub open spec fn indices_below(indices: Seq<usize>, n: int) -> bool {
    forall|k: int| 0 <= k < indices.len() ==> #[trigger] indices[k] < n
}

/// The indices `0..n` in order.
pub open spec fn all_indices(n: int) -> Seq<usize> {
    Seq::new(n as nat, |i: int| i as usize)
}

/// `order` visits each of `0..n` exactly once.
pub open spec fn is_epoch_order(order: Seq<usize>, n: int) -> bool {
    &&& order.len() == n
    &&& order.to_multiset() == all_indices(n).to_multiset()
}

pub proof fn lemma_permuted_below(a: Seq<usize>, b: Seq<usize>, n: int)
    requires
        indices_below(a, n),
        b.to_multiset() == a.to_multiset(),
    ensures
        indices_below(b, n),
{
    assert forall|k: int| 0 <= k < b.len() implies #[trigger] b[k] < n by {
        vstd::seq_lib::to_multiset_contains(b, b[k]);
        vstd::seq_lib::to_multiset_contains(a, b[k]);
        assert(b.contains(b[k]));
        assert(a.contains(b[k]));
    }
}

#[derive(Debug, Clone)]
pub struct U8LinearLearner {
    pub n_inputs: usize,
    pub w0: Vec<i8>,
    pub w1: Vec<i8>,
}

impl U8LinearLearner {
    /// One weight pair per input bit.
    pub open spec fn wf(&self) -> bool {
        &&& self.w0@.len() == 8 * self.n_inputs
        &&& self.w1@.len() == 8 * self.n_inputs
        &&& self.n_inputs <= 2_000_000
    }

    /// The learner's label for input `xs`.
    pub open spec fn predicts(&self, xs: Seq<u8>) -> bool {
        linear_score(xs, self.w0@, self.w1@, self.n_inputs as int) >= 0
    }

    /// `next` is this learner after `update_one(xs, y)`.
    pub open spec fn updated_by(&self, next: Self, xs: Seq<u8>, y: bool) -> bool {
        &&& next.wf()
        &&& next.n_inputs == self.n_inputs
        &&& self.predicts(xs) == y ==> next == *self
        &&& self.predicts(xs) != y ==> stepped_upto(self.w1@, next.w1@, xs, y, true, 8 * self.n_inputs)
            && stepped_upto(self.w0@, next.w0@, xs, y, false, 8 * self.n_inputs)
    }

    /// `states` runs from this learner to `next`, one update per sample of
    /// `order`, which visits every sample once.
    pub open spec fn epoch_by(&self, next: Self, x_flat: Seq<u8>, y: Seq<bool>, order: Seq<usize>, states: Seq<Self>) -> bool {
        &&& is_epoch_order(order, y.len() as int)
        &&& states.len() == order.len() + 1
        &&& states[0] == *self
        &&& states[order.len() as int] == next
        &&& forall|k: int| 0 <= k < order.len() ==> #[trigger] states[k].updated_by(states[k + 1],
            sample_of(x_flat, self.n_inputs as int, order[k] as int), y[order[k] as int])
    }

    /// One pass over the samples in some order leads from this learner to `next`.
    pub open spec fn epoch_to(&self, next: Self, x_flat: Seq<u8>, y: Seq<bool>) -> bool {
        exists|order: Seq<usize>, states: Seq<Self>| self.epoch_by(next, x_flat, y, order, states)
    }

    /// `runs` holds this learner and the learner after each of `r` passes,
    /// the last being `last`; every pass but the last left some sample
    /// mislabeled.
    pub open spec fn trained_to(&self, last: Self, runs: Seq<Self>, r: int, x_flat: Seq<u8>, y: Seq<bool>) -> bool {
        &&& runs.len() == r + 1
        &&& runs[0] == *self
        &&& runs[r] == last
        &&& forall|e: int| 0 <= e < r ==> #[trigger] runs[e].epoch_to(runs[e + 1], x_flat, y)
        &&& forall|e: int| 1 <= e < r ==> #[trigger] runs[e].errors_on(x_flat, y) > 0
    }

    /// Number of samples this learner labels wrongly.
    pub open spec fn errors_on(&self, x_flat: Seq<u8>, y: Seq<bool>) -> nat {
        errors_upto(x_flat, y, self.n_inputs as int, |s: Seq<u8>| self.predicts(s), y.len() as int)
    }

    pub fn new(n_inputs: usize) -> (r: Self)
        requires
            n_inputs <= 2_000_000,
        ensures
            r.wf(),
            r.n_inputs == n_inputs,
            forall|k: int| 0 <= k < 8 * n_inputs ==> #[trigger] r.w0@[k] == 0 && r.w1@[k] == 0,
    {
        let nb = n_inputs * 8;
        Self { n_inputs, w0: crate::workspace::filled(0i8, nb), w1: crate::workspace::filled(0i8, nb) }
    }

    pub fn predict(&self, x: &[u8]) -> (r: bool)
        requires
            self.wf(),
            x@.len() == self.n_inputs,
        ensures
            r == self.predicts(x@),
    {
        crate::circuit_exp::u8_linear::bits::score_i8(x, self.w0.as_slice(), self.w1.as_slice()) >= 0
    }

    /// Trains for up to `epochs` passes over the samples in a shuffled order,
    /// stopping after the first pass that leaves no sample mislabeled;
    /// returns the number of passes run.
    pub fn fit(&mut self, x_flat: &[u8], y: &[bool], epochs: usize) -> (r: usize)
        requires
            old(self).wf(),
            y@.len() * old(self).n_inputs == x_flat@.len(),
        ensures
            final(self).wf(),
            final(self).n_inputs == old(self).n_inputs,
            r <= epochs,
            epochs > 0 ==> r >= 1,
            r < epochs ==> errors_upto(x_flat@, y@, final(self).n_inputs as int,
                |s: Seq<u8>| final(self).predicts(s), y@.len() as int) == 0,
            exists|runs: Seq<Self>| #[trigger] old(self).trained_to(*final(self), runs, r as int, x_flat@, y@),
    {
        let n = y.len();
        let n_inputs = self.n_inputs;
        let mut rng = seeded_rng(0);
        let mut indices: Vec<usize> = Vec::new();
        let mut k: usize = 0;
        while k < n
            invariant
                k <= n,
                indices@.len() == k,
                indices_below(indices@, n as int),
                forall|j: int| 0 <= j < k ==> #[trigger] indices@[j] == j,
            decreases n - k,
        {
            indices.push(k);
            k = k + 1;
        }
        assert(indices@ =~= all_indices(n as int));
        let ghost runs: Seq<Self> = seq![*self];
        let mut epochs_run: usize = 0;
        while epochs_run < epochs
            invariant
                self.wf(),
                self.n_inputs == n_inputs,
                n_inputs == old(self).n_inputs as int,
                n == y@.len(),
                y@.len() * n_inputs == x_flat@.len(),
                indices_below(indices@, n as int),
                is_epoch_order(indices@, n as int),
                epochs_run <= epochs,
                runs.len() == epochs_run + 1,
                runs[0] == *old(self),
                runs[epochs_run as int] == *self,
                forall|e: int| 0 <= e < epochs_run ==> #[trigger] runs[e].epoch_to(runs[e + 1], x_flat@, y@),
                forall|e: int| 1 <= e <= epochs_run && e < runs.len() - 1 ==> #[trigger] runs[e].errors_on(x_flat@, y@) > 0,
                epochs_run >= 1 ==> runs[epochs_run as int].errors_on(x_flat@, y@) > 0,
            decreases epochs - epochs_run,
        {
            epochs_run = epochs_run + 1;
            let ghost before = indices@;
            shuffle(indices.as_mut_slice(), &mut rng);
            proof {
                lemma_permuted_below(before, indices@, n as int);
            }
            let ghost start = *self;
            let ghost states: Seq<Self> = seq![*self];
            let mut p: usize = 0;
            while p < indices.len()
                invariant
                    self.wf(),
                    self.n_inputs == n_inputs,
                    start.n_inputs as int == n_inputs,
                    n == y@.len(),
                    y@.len() * n_inputs == x_flat@.len(),
                    indices_below(indices@, n as int),
                    p <= indices@.len(),
                    states.len() == p + 1,
                    states[0] == start,
                    states[p as int] == *self,
                    forall|j: int| 0 <= j < p ==> #[trigger] states[j].updated_by(states[j + 1],
                        sample_of(x_flat@, start.n_inputs as int, indices@[j] as int), y@[indices@[j] as int]),
                decreases indices@.len() - p,
            {
                let i = indices[p];
                proof {
                    assert(i * n_inputs + n_inputs <= y@.len() * n_inputs) by (nonlinear_arith)
                        requires i < y@.len();
                }
                let xs = sample(x_flat, n_inputs, i);
                self.update_one(xs, y[i]);
                proof {
                    let ghost prev_states = states;
                    states = states.push(*self);
                    assert forall|j: int| 0 <= j < p + 1 implies #[trigger] states[j].updated_by(states[j + 1],
                        sample_of(x_flat@, start.n_inputs as int, indices@[j] as int), y@[indices@[j] as int]) by {
                        if j < p {
                            assert(states[j] == prev_states[j] && states[j + 1] == prev_states[j + 1]);
                        }
                    }
                }
                p = p + 1;
            }
            proof {
                assert(start.epoch_by(*self, x_flat@, y@, indices@, states));
                let ghost prev_runs = runs;
                runs = runs.push(*self);
                assert forall|e: int| 0 <= e < epochs_run implies #[trigger] runs[e].epoch_to(runs[e + 1], x_flat@, y@) by {
                    if e < epochs_run - 1 {
                        assert(runs[e] == prev_runs[e] && runs[e + 1] == prev_runs[e + 1]);
                    } else {
                        assert(runs[e] == start);
                    }
                }
                assert forall|e: int| 1 <= e < epochs_run implies #[trigger] runs[e].errors_on(x_flat@, y@) > 0 by {
                    assert(runs[e] == prev_runs[e]);
                }
            }
            let errors = self.error_count(x_flat, y);
            if errors == 0 {
                proof {
                    assert forall|e: int| 1 <= e < epochs_run implies #[trigger] runs[e].errors_on(x_flat@, y@) > 0 by {}
                    assert(runs[epochs_run as int] == *self);
                    assert(old(self).trained_to(*self, runs, epochs_run as int, x_flat@, y@));
                }
                return epochs_run;
            }
        }
        proof {
            assert(old(self).trained_to(*self, runs, epochs_run as int, x_flat@, y@));
        }
        epochs_run
    }

    /// One perceptron step: when the sample is mislabeled, every weight that
    /// the sample selects moves one step toward its label.
    pub fn update_one(&mut self, x: &[u8], y: bool)
        requires
            old(self).wf(),
            x@.len() == old(self).n_inputs,
        ensures
            final(self).wf(),
            final(self).n_inputs == old(self).n_inputs,
            old(self).predicts(x@) == y ==> *final(self) == *old(self),
            old(self).predicts(x@) != y ==> stepped_upto(old(self).w1@, final(self).w1@, x@, y, true, 8 * old(self).n_inputs),
            old(self).predicts(x@) != y ==> stepped_upto(old(self).w0@, final(self).w0@, x@, y, false, 8 * old(self).n_inputs),
    {
        let ghost old_self = *self;
        if self.predict(x) == y {
            return;
        }
        let delta: i8 = if y { 1 } else { -1 };
        let nb = self.n_inputs * 8;
        let mut k: usize = 0;
        while k < nb
            invariant
                old_self.wf(),
                x@.len() == old_self.n_inputs,
                nb == 8 * old_self.n_inputs,
                self.n_inputs == old_self.n_inputs,
                k <= nb,
                delta == if y { 1i8 } else { -1i8 },
                stepped_upto(old_self.w1@, self.w1@, x@, y, true, k as int),
                stepped_upto(old_self.w0@, self.w0@, x@, y, false, k as int),
            decreases nb - k,
        {
            let byte = x[k / 8];
            let shift = (k % 8) as u8;
            proof {
                assert(((byte >> shift) & 1u8 != 0u8) == ((byte >> shift) & 1u8 == 1u8)) by (bit_vector);
            }
            if (byte >> shift) & 1 != 0 {
                let w = self.w1[k];
                self.w1[k] = step_weight(w, delta);
            } else {
                let w = self.w0[k];
                self.w0[k] = step_weight(w, delta);
            }
            k = k + 1;
        }
    }

    pub fn error_count(&self, x_flat: &[u8], y: &[bool]) -> (r: usize)
        requires
            self.wf(),
            y@.len() * self.n_inputs <= x_flat@.len(),
        ensures
            r == errors_upto(x_flat@, y@, self.n_inputs as int, |s: Seq<u8>| self.predicts(s), y@.len() as int),
    {
        let me = &*self;
        let pred = |xs: &[u8]| -> (r: bool)
            requires
                xs@.len() == me.n_inputs,
            ensures
                r == me.predicts(xs@),
        {
            me.predict(xs)
        };
        count_errors(x_flat, y, self.n_inputs, pred, Ghost(|s: Seq<u8>| self.predicts(s)))
    }

    pub fn weights(&self) -> (r: (&[i8], &[i8]))
        ensures
            r.0@ == self.w0@,
            r.1@ == self.w1@,
    {
        (self.w0.as_slice(), self.w1.as_slice())
    }
}

} // verus!
