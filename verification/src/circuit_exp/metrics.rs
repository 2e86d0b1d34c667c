//! Streaming accuracy counts (after warmup, last-N), steps to the 95%
//! prequential accuracy, and summed step timings.

use vstd::prelude::*;

verus! {

#[derive(Debug, Clone, Copy, PartialEq, Eq, Structural)]
pub enum LearnerKind {
    Pair,
    Wire,
}

impl LearnerKind {
    pub fn as_str(self) -> (r: &'static str)
        ensures
            r@ == match self {
                LearnerKind::Pair => "pair"@,
                LearnerKind::Wire => "wire"@,
            },
    {
        match self {
            LearnerKind::Pair => "pair",
            LearnerKind::Wire => "wire",
        }
    }
}

/// Mean step durations, in nanoseconds.
#[derive(Debug, Clone, Default)]
pub struct StepTimings {
    pub predict_ns: u64,
    pub observe_ns: u64,
}

pub const LAST_N: usize = 100;

/// The counts a stream of predictions ends with.
#[derive(Debug, Clone)]
pub struct StreamTotals {
    pub post_warmup_correct: u64,
    pub post_warmup_steps: u64,
    pub last_n_correct: usize,
    pub last_n_len: usize,
    pub steps_to_95pct: Option<u64>,
    pub total_steps: u64,
    pub warmup_len: u64,
    pub timings: StepTimings,
}

/// The last `LAST_N` entries of `s` (all of them when it is shorter).
pub open spec fn last_window(s: Seq<bool>) -> Seq<bool> {
    if s.len() <= LAST_N { s } else { s.subrange(s.len() - LAST_N, s.len() as int) }
}

/// Number of `true` entries among the first `n` of `s`.
pub open spec fn trues_upto(s: Seq<bool>, n: int) -> nat
    decreases n,
{
    if n <= 0 { 0 } else { trues_upto(s, n - 1) + if s[n - 1] { 1nat } else { 0nat } }
}

pub struct MetricsTracker {
    t: u64,
    warmup_len: u64,
    post_warmup_correct: u64,
    post_warmup_steps: u64,
    prequential_correct: u64,
    steps_to_95: Option<u64>,
    last_n: Vec<bool>,
    predict_ns: u128,
    observe_ns: u128,
}

impl MetricsTracker {
    pub closed spec fn wf(&self) -> bool {
        &&& self.last_n@.len() <= LAST_N
        &&& self.post_warmup_correct <= self.post_warmup_steps <= self.t
        &&& self.prequential_correct <= self.t
    }

    pub closed spec fn steps(&self) -> int { self.t as int }

    pub closed spec fn warmup(&self) -> int { self.warmup_len as int }

    pub closed spec fn post_warmup(&self) -> (int, int) {
        (self.post_warmup_correct as int, self.post_warmup_steps as int)
    }

    pub closed spec fn prequential(&self) -> int { self.prequential_correct as int }

    pub closed spec fn first_95(&self) -> Option<u64> { self.steps_to_95 }

    pub closed spec fn window(&self) -> Seq<bool> { self.last_n@ }

    pub closed spec fn time_sums(&self) -> (int, int) {
        (self.predict_ns as int, self.observe_ns as int)
    }

    pub fn new(warmup_len: u64) -> (r: Self)
        ensures
            r.wf(),
            r.steps() == 0,
            r.warmup() == warmup_len,
            r.post_warmup() == (0int, 0int),
            r.prequential() == 0,
            r.first_95() is None,
            r.window() == Seq::<bool>::empty(),
            r.time_sums() == (0int, 0int),
    {
        Self {
            t: 0,
            warmup_len,
            post_warmup_correct: 0,
            post_warmup_steps: 0,
            prequential_correct: 0,
            steps_to_95: None,
            last_n: Vec::new(),
            predict_ns: 0,
            observe_ns: 0,
        }
    }

    /// Records one step: whether the prediction matched the label and how
    /// long predict and observe took.
    pub fn record(&mut self, pred: bool, y: bool, predict_ns: u128, observe_ns: u128)
        requires
            old(self).wf(),
            old(self).steps() < u64::MAX,
            old(self).time_sums().0 + predict_ns <= u128::MAX,
            old(self).time_sums().1 + observe_ns <= u128::MAX,
        ensures
            final(self).wf(),
            final(self).steps() == old(self).steps() + 1,
            final(self).warmup() == old(self).warmup(),
            final(self).prequential() == old(self).prequential() + if pred == y { 1int } else { 0int },
            final(self).post_warmup() == if final(self).steps() > old(self).warmup() {
                (old(self).post_warmup().0 + if pred == y { 1int } else { 0int }, old(self).post_warmup().1 + 1)
            } else {
                old(self).post_warmup()
            },
            final(self).window() == last_window(old(self).window().push(pred == y)),
            final(self).first_95() == if old(self).first_95() is None
                && 20 * final(self).prequential() >= 19 * final(self).steps() {
                Some(final(self).steps() as u64)
            } else {
                old(self).first_95()
            },
            final(self).time_sums() == (old(self).time_sums().0 + predict_ns, old(self).time_sums().1 + observe_ns),
    {
        self.t = self.t + 1;
        let correct = pred == y;
        if correct {
            self.prequential_correct = self.prequential_correct + 1;
        }
        if self.t > self.warmup_len {
            self.post_warmup_steps = self.post_warmup_steps + 1;
            if correct {
                self.post_warmup_correct = self.post_warmup_correct + 1;
            }
        }
        let ghost before = self.last_n@;
        if self.last_n.len() == LAST_N {
            self.last_n.remove(0);
        }
        self.last_n.push(correct);
        proof {
            let pushed = before.push(correct);
            if before.len() == LAST_N {
                assert(self.last_n@ =~= pushed.subrange(pushed.len() - LAST_N, pushed.len() as int));
            } else {
                assert(self.last_n@ =~= pushed);
            }
        }
        if self.steps_to_95.is_none() && 20 * (self.prequential_correct as u128) >= 19 * (self.t as u128) {
            self.steps_to_95 = Some(self.t);
        }
        self.predict_ns = self.predict_ns + predict_ns;
        self.observe_ns = self.observe_ns + observe_ns;
    }

    /// The final counts; mean timings are the sums over the step count
    /// (at least one), truncated to `u64`.
    pub fn finish(self) -> (r: StreamTotals)
        requires
            self.wf(),
        ensures
            r.post_warmup_correct == self.post_warmup().0,
            r.post_warmup_steps == self.post_warmup().1,
            r.last_n_correct == trues_upto(self.window(), self.window().len() as int),
            r.last_n_len == self.window().len(),
            r.steps_to_95pct == self.first_95(),
            r.total_steps == self.steps(),
            r.warmup_len == self.warmup(),
            r.timings.predict_ns == (self.time_sums().0 / if self.steps() >= 1 { self.steps() } else { 1 }) as u64,
            r.timings.observe_ns == (self.time_sums().1 / if self.steps() >= 1 { self.steps() } else { 1 }) as u64,
    {
        let t: u64 = if self.t >= 1 { self.t } else { 1 };
        let mut last_n_correct: usize = 0;
        let mut i: usize = 0;
        while i < self.last_n.len()
            invariant
                i <= self.last_n@.len(),
                self.last_n@.len() <= LAST_N,
                last_n_correct == trues_upto(self.last_n@, i as int),
                last_n_correct <= i,
            decreases self.last_n@.len() - i,
        {
            if self.last_n[i] {
                last_n_correct = last_n_correct + 1;
            }
            i = i + 1;
        }
        StreamTotals {
            post_warmup_correct: self.post_warmup_correct,
            post_warmup_steps: self.post_warmup_steps,
            last_n_correct,
            last_n_len: self.last_n.len(),
            steps_to_95pct: self.steps_to_95,
            total_steps: self.t,
            warmup_len: self.warmup_len,
            timings: StepTimings {
                predict_ns: (self.predict_ns / t as u128) as u64,
                observe_ns: (self.observe_ns / t as u128) as u64,
            },
        }
    }
}

} // verus!
