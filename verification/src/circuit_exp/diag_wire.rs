//! Per-gate counters of what the per-wire learner did while observing, and
//! of the parent targets that one observation set in conflicting directions.

use vstd::prelude::*;
use crate::circuit_exp::gate::pole;
use crate::circuit_exp::gate_wire::BackpropOutcome;
use crate::circuit_exp::learner_wire::{StreamLearnerWire, WireEvent};
use crate::circuit_exp::circuit::FixedCircuit;
use crate::circuit_exp::dgp::stream_sample;
use crate::circuit_exp::rng::seeded_rng;

verus! {

/// What happened at one gate over a stream.
#[derive(Debug, Clone, Copy)]
pub struct GateCounts {
    pub fix_gate_visits: u64,
    pub backprop_checks: u64,
    pub backprop_fired: u64,
    pub skip_cur_agrees: u64,
    pub skip_other_not_better: u64,
    pub target_conflicts: u64,
}

/// Every counter of `c` is at most `bound`.
pub open spec fn counts_below(c: GateCounts, bound: int) -> bool {
    &&& c.fix_gate_visits <= bound
    &&& c.backprop_checks <= bound
    &&& c.backprop_fired <= bound
    &&& c.skip_cur_agrees <= bound
    &&& c.skip_other_not_better <= bound
    &&& c.target_conflicts <= bound
}

/// Counters of a gate after one more visit.
pub open spec fn after_visit(c: GateCounts) -> GateCounts {
    GateCounts { fix_gate_visits: (c.fix_gate_visits + 1) as u64, ..c }
}

/// Counters of a gate after one more parent check with `outcome`, where
/// `conflict` says whether the parent already held the opposite target.
pub open spec fn after_check(c: GateCounts, outcome: BackpropOutcome, conflict: bool) -> GateCounts {
    let checked = GateCounts { backprop_checks: (c.backprop_checks + 1) as u64, ..c };
    match outcome {
        BackpropOutcome::Fired { want } => GateCounts {
            backprop_fired: (c.backprop_fired + 1) as u64,
            target_conflicts: (c.target_conflicts + if conflict { 1int } else { 0int }) as u64,
            ..checked
        },
        BackpropOutcome::AlreadyAligned => GateCounts { skip_cur_agrees: (c.skip_cur_agrees + 1) as u64, ..checked },
        BackpropOutcome::WeightTie => GateCounts {
            skip_other_not_better: (c.skip_other_not_better + 1) as u64,
            ..checked
        },
    }
}

/// Pole of a requested parent sign.
pub open spec fn pole_of(want: u8) -> i8 {
    if want != 0 { 127i8 } else { -128i8 }
}

/// Counters per gate, and the pole target each node received in the current
/// observation (0 when none).
pub struct WireLearnerDiag {
    pub gates: Vec<GateCounts>,
    pub wave_targets: Vec<i8>,
}

impl WireLearnerDiag {
    /// Pole target that each node received in the current observation.
    pub open spec fn wave(&self) -> Seq<i8> {
        self.wave_targets@
    }

    pub fn new(num_gates: usize, num_nodes: usize) -> (r: Self)
        ensures
            r.gates@.len() == num_gates,
            forall|g: int| 0 <= g < num_gates ==> #[trigger] r.gates@[g] == GateCounts::default_counts(),
            r.wave().len() == num_nodes,
            forall|v: int| 0 <= v < num_nodes ==> #[trigger] r.wave()[v] == 0,
    {
        let mut gates: Vec<GateCounts> = Vec::new();
        let mut g: usize = 0;
        while g < num_gates
            invariant
                g <= num_gates,
                gates@.len() == g,
                forall|k: int| 0 <= k < g ==> #[trigger] gates@[k] == GateCounts::default_counts(),
            decreases num_gates - g,
        {
            gates.push(GateCounts::zero());
            g = g + 1;
        }
        let mut wave_targets: Vec<i8> = Vec::new();
        let mut v: usize = 0;
        while v < num_nodes
            invariant
                v <= num_nodes,
                wave_targets@.len() == v,
                forall|k: int| 0 <= k < v ==> #[trigger] wave_targets@[k] == 0,
            decreases num_nodes - v,
        {
            wave_targets.push(0);
            v = v + 1;
        }
        Self { gates, wave_targets }
    }

    /// Forgets the targets of the previous observation.
    pub fn begin_observe(&mut self)
        ensures
            final(self).gates@ == old(self).gates@,
            final(self).wave().len() == old(self).wave().len(),
            forall|v: int| 0 <= v < final(self).wave().len() ==> #[trigger] final(self).wave()[v] == 0,
    {
        let n = self.wave_targets.len();
        let mut v: usize = 0;
        while v < n
            invariant
                n == self.wave_targets@.len(),
                self.gates@ == old(self).gates@,
                v <= n,
                forall|k: int| 0 <= k < v ==> #[trigger] self.wave_targets@[k] == 0,
            decreases n - v,
        {
            self.wave_targets.set(v, 0);
            v = v + 1;
        }
    }

    /// Counts a visit of gate `g`.
    pub fn record_fix_gate(&mut self, g: usize)
        requires
            g < old(self).gates@.len(),
            counts_below(old(self).gates@[g as int], u64::MAX - 1),
        ensures
            final(self).gates@ == old(self).gates@.update(g as int, after_visit(old(self).gates@[g as int])),
            final(self).wave() == old(self).wave(),
    {
        let mut c = self.gates[g];
        c.fix_gate_visits = c.fix_gate_visits + 1;
        self.gates.set(g, c);
    }

    /// Counts a check of `parent` by gate `g`; a fired check sets the parent's
    /// target and counts a conflict when another target was set before.
    pub fn record_backprop(&mut self, g: usize, parent: usize, outcome: BackpropOutcome)
        requires
            g < old(self).gates@.len(),
            parent < old(self).wave().len(),
            counts_below(old(self).gates@[g as int], u64::MAX - 1),
        ensures
            final(self).gates@ == old(self).gates@.update(g as int, after_check(old(self).gates@[g as int], outcome,
                match outcome {
                    BackpropOutcome::Fired { want } => old(self).wave()[parent as int] != 0
                        && old(self).wave()[parent as int] != pole_of(want),
                    _ => false,
                })),
            final(self).wave() == match outcome {
                BackpropOutcome::Fired { want } => old(self).wave().update(parent as int, pole_of(want)),
                _ => old(self).wave(),
            },
    {
        let mut c = self.gates[g];
        c.backprop_checks = c.backprop_checks + 1;
        match outcome {
            BackpropOutcome::Fired { want } => {
                c.backprop_fired = c.backprop_fired + 1;
                let p = pole(want);
                let current = self.wave_targets[parent];
                if current != 0 && current != p {
                    c.target_conflicts = c.target_conflicts + 1;
                }
                self.wave_targets.set(parent, p);
            },
            BackpropOutcome::AlreadyAligned => {
                c.skip_cur_agrees = c.skip_cur_agrees + 1;
            },
            BackpropOutcome::WeightTie => {
                c.skip_other_not_better = c.skip_other_not_better + 1;
            },
        }
        self.gates.set(g, c);
    }
}

impl GateCounts {
    pub open spec fn default_counts() -> GateCounts {
        GateCounts {
            fix_gate_visits: 0,
            backprop_checks: 0,
            backprop_fired: 0,
            skip_cur_agrees: 0,
            skip_other_not_better: 0,
            target_conflicts: 0,
        }
    }

    pub fn zero() -> (r: GateCounts)
        ensures
            r == GateCounts::default_counts(),
    {
        GateCounts {
            fix_gate_visits: 0,
            backprop_checks: 0,
            backprop_fired: 0,
            skip_cur_agrees: 0,
            skip_other_not_better: 0,
            target_conflicts: 0,
        }
    }
}

/// Every event of one observation names a counted gate and, for a check, a
/// node of the circuit.
pub open spec fn events_fit(events: Seq<WireEvent>, num_gates: int, num_nodes: int) -> bool {
    forall|e: int| 0 <= e < events.len() ==> match #[trigger] events[e] {
        WireEvent::FixGate { gate } => gate < num_gates,
        WireEvent::Backprop { gate, parent, outcome } => gate < num_gates && parent < num_nodes,
    }
}

/// The counters and targets after one event.
pub open spec fn diag_step(state: (Seq<GateCounts>, Seq<i8>), event: WireEvent) -> (Seq<GateCounts>, Seq<i8>) {
    match event {
        WireEvent::FixGate { gate } => (state.0.update(gate as int, after_visit(state.0[gate as int])), state.1),
        WireEvent::Backprop { gate, parent, outcome } => {
            let conflict = match outcome {
                BackpropOutcome::Fired { want } => state.1[parent as int] != 0 && state.1[parent as int] != pole_of(want),
                _ => false,
            };
            (
                state.0.update(gate as int, after_check(state.0[gate as int], outcome, conflict)),
                match outcome {
                    BackpropOutcome::Fired { want } => state.1.update(parent as int, pole_of(want)),
                    _ => state.1,
                },
            )
        },
    }
}

/// The counters and targets after the first `k` events.
pub open spec fn diag_replay(init: (Seq<GateCounts>, Seq<i8>), events: Seq<WireEvent>, k: int) -> (Seq<GateCounts>, Seq<i8>)
    decreases k,
{
    if k <= 0 { init } else { diag_step(diag_replay(init, events, k - 1), events[k - 1]) }
}

impl WireLearnerDiag {
    /// Starts a new observation and counts its events in order.
    pub fn record_events(&mut self, events: &[WireEvent])
        requires
            events_fit(events@, old(self).gates@.len() as int, old(self).wave().len() as int),
            forall|g: int| 0 <= g < old(self).gates@.len() ==> counts_below(#[trigger] old(self).gates@[g], u64::MAX - 1 - events@.len()),
        ensures
            (final(self).gates@, final(self).wave()) == diag_replay(
                (old(self).gates@, Seq::new(old(self).wave().len(), |v: int| 0i8)), events@, events@.len() as int),
    {
        self.begin_observe();
        let ghost init = (self.gates@, self.wave());
        proof {
            assert(init.1 =~= Seq::new(old(self).wave().len(), |v: int| 0i8));
        }
        let ghost n = events@.len() as int;
        let mut e: usize = 0;
        while e < events.len()
            invariant
                e <= events@.len(),
                n == events@.len(),
                self.gates@.len() == old(self).gates@.len(),
                self.wave().len() == old(self).wave().len(),
                init == (old(self).gates@, Seq::new(old(self).wave().len(), |v: int| 0i8)),
                (self.gates@, self.wave()) == diag_replay(init, events@, e as int),
                events_fit(events@, self.gates@.len() as int, self.wave().len() as int),
                forall|g: int| 0 <= g < self.gates@.len() ==> counts_below(#[trigger] self.gates@[g], u64::MAX - 1 - n + e),
            decreases events@.len() - e,
        {
            let ghost before = self.gates@;
            match events[e] {
                WireEvent::FixGate { gate } => {
                    self.record_fix_gate(gate);
                },
                WireEvent::Backprop { gate, parent, outcome } => {
                    self.record_backprop(gate, parent, outcome);
                },
            }
            proof {
                assert forall|g: int| 0 <= g < self.gates@.len() implies counts_below(#[trigger] self.gates@[g], u64::MAX - 1 - n + e + 1) by {
                    assert(counts_below(before[g], u64::MAX - 1 - n + e));
                }
            }
            e = e + 1;
        }
    }
}

/// Over `samples` random inputs drawn from `stream_seed`, the number of
/// inputs on which each gate's boolean readout (activation not negative)
/// differs from the matching node of `dgp`.
pub fn gate_error_counts(learner: &mut StreamLearnerWire, dgp: &FixedCircuit, samples: u64, stream_seed: u64) -> (r: Vec<u64>)
    requires
        old(learner).wf(),
        dgp.wf(),
        old(learner).inputs() == dgp.d,
        old(learner).weight_words().len() == dgp.num_gates,
    ensures
        final(learner).wf(),
        final(learner).inputs() == old(learner).inputs(),
        final(learner).steps() == old(learner).steps(),
        final(learner).weight_words() == old(learner).weight_words(),
        r@.len() == dgp.num_gates,
        forall|g: int| 0 <= g < dgp.num_gates ==> #[trigger] r@[g] <= samples,
{
    let mut rng = seeded_rng(stream_seed);
    let g = dgp.num_gates;
    let mut wrong: Vec<u64> = crate::workspace::filled(0u64, g);
    let mut s: u64 = 0;
    while s < samples
        invariant
            learner.wf(),
            dgp.wf(),
            learner.inputs() == dgp.d,
            learner.inputs() == old(learner).inputs(),
            learner.steps() == old(learner).steps(),
            learner.weight_words() == old(learner).weight_words(),
            old(learner).weight_words().len() == dgp.num_gates,
            g == dgp.num_gates,
            s <= samples,
            wrong@.len() == g,
            forall|k: int| 0 <= k < g ==> #[trigger] wrong@[k] <= s,
        decreases samples - s,
    {
        let sample = stream_sample(&mut rng, dgp.d);
        let values = dgp.eval_dgp(sample.x.as_slice());
        learner.predict(sample.x.as_slice());
        let acts = learner.activations_snapshot();
        proof {
            learner.lemma_activation_len();
        }
        let mut gi: usize = 0;
        while gi < g
            invariant
                g == dgp.num_gates,
                dgp.d + g <= 256,
                gi <= g,
                values@.len() == dgp.d + g,
                acts@.len() == dgp.d + g,
                wrong@.len() == g,
                s < samples,
                forall|k: int| 0 <= k < g ==> #[trigger] wrong@[k] <= s + if k < gi { 1int } else { 0int },
            decreases g - gi,
        {
            let node = dgp.d + gi;
            let pred = acts[node] >= 0;
            if pred != values[node] {
                wrong[gi] = wrong[gi] + 1;
            }
            gi = gi + 1;
        }
        s = s + 1;
    }
    wrong
}

} // verus!
