//! `StreamLearnerWire`: per-wire weights, summed gate output, pole targets.

use vstd::prelude::*;
use crate::circuit_exp::circuit::FixedCircuit;
use crate::circuit_exp::gate::{get_weight, pole, set_weight, sign, sign_of, weight_at};
use crate::circuit_exp::gate_wire::{
    activation_matches_target, backprop_outcome, backprop_outcome_of, bool_target_pole, clamp_i8,
    forward_sum, lane_a, lane_b, nudge_weight, parent_weights, unpack_sa, unpack_sb, BackpropOutcome,
};

verus! {

/// What one observe step did, in order: gates visited and backprop checks.
#[derive(Debug, Clone, Copy, PartialEq, Eq, Structural)]
pub enum WireEvent {
    FixGate { gate: usize },
    Backprop { gate: usize, parent: usize, outcome: BackpropOutcome },
}

/// `3^k`.
pub open spec fn pow3(k: nat) -> nat
    decreases k,
{
    if k == 0 { 1 } else { 3 * pow3((k - 1) as nat) }
}

/// Termination measure of a pending queue: each gate weighs `3^gate`, more
/// than the two upstream gates it can enqueue together.
pub open spec fn queue_weight(q: Seq<usize>) -> nat
    decreases q.len(),
{
    if q.len() == 0 { 0 } else { pow3(q[0] as nat) + queue_weight(q.drop_first()) }
}

proof fn lemma_queue_push(q: Seq<usize>, x: usize)
    ensures
        queue_weight(q.push(x)) == queue_weight(q) + pow3(x as nat),
    decreases q.len(),
{
    if q.len() > 0 {
        assert(q.push(x).drop_first() =~= q.drop_first().push(x));
        lemma_queue_push(q.drop_first(), x);
    } else {
        assert(q.push(x).drop_first() =~= q);
    }
}

/// Weight `w` nudged one step toward the pole of `t`, held at the bounds.
pub open spec fn wire_nudged(w: i8, t: i8) -> int {
    if t > 0 {
        if w < 127 { w + 1 } else { w as int }
    } else {
        if w > -128 { w - 1 } else { w as int }
    }
}

/// Gate word `after` is `before` with the two lanes that `signs` selects
/// nudged toward the pole of `t`.
pub open spec fn lanes_nudged(before: u32, after: u32, signs: u8, t: i8) -> bool {
    let sa = signs & 1;
    let sb = (signs >> 1u8) & 1;
    forall|row: u8| row < 4 ==> #[trigger] weight_at(after, row) == if row == sa {
        wire_nudged(weight_at(before, sa), t)
    } else if row == 2 + sb {
        wire_nudged(weight_at(before, (2 + sb) as u8), t)
    } else {
        weight_at(before, row) as int
    }
}

/// Outcome of checking `parent` through the lane pair of gate word `wg`.
pub open spec fn check_outcome(wg: u32, acts: Seq<i8>, parent: int, is_b: bool, t: i8) -> BackpropOutcome {
    backprop_outcome_of(t, weight_at(wg, if is_b { 2u8 } else { 0u8 }), weight_at(wg, if is_b { 3u8 } else { 1u8 }), acts[parent])
}

/// Events of checking `parent`: one, unless the parent is an input.
pub open spec fn check_events(wg: u32, acts: Seq<i8>, d: int, g: int, parent: int, is_b: bool, t: i8) -> Seq<WireEvent> {
    if parent < d {
        Seq::empty()
    } else {
        seq![WireEvent::Backprop { gate: g as usize, parent: parent as usize, outcome: check_outcome(wg, acts, parent, is_b, t) }]
    }
}

/// Targets after checking `parent`: a fired check sets the pole of the
/// wanted sign.
pub open spec fn check_targets(targets: Seq<i8>, wg: u32, acts: Seq<i8>, d: int, parent: int, is_b: bool, t: i8) -> Seq<i8> {
    if parent >= d {
        match check_outcome(wg, acts, parent, is_b, t) {
            BackpropOutcome::Fired { want } => targets.update(parent, if want != 0 { 127i8 } else { -128i8 }),
            _ => targets,
        }
    } else {
        targets
    }
}

/// Gate to enqueue after checking `parent`: its producer, when the check fired.
pub open spec fn check_next(wg: u32, acts: Seq<i8>, d: int, parent: int, is_b: bool, t: i8) -> Option<usize> {
    if parent >= d && check_outcome(wg, acts, parent, is_b, t) is Fired {
        Some((parent - d) as usize)
    } else {
        None
    }
}

/// After its lanes are nudged, gate `g` stops when its output agrees with its
/// target; otherwise it checks its left parent, then its right parent.
spec fn gate_checked(
    pre: StreamLearnerWire,
    post: StreamLearnerWire,
    g: int,
    events_pre: Seq<WireEvent>,
    events_post: Seq<WireEvent>,
    r: (Option<usize>, Option<usize>),
) -> bool {
    let node = pre.d + g;
    let t = pre.targets@[node];
    let acts = pre.activations@;
    let wg = post.weights@[g];
    let a = pre.left@[g] as int;
    let b = pre.right@[g] as int;
    if (acts[node] >= 0) == (t > 0) {
        r == (None::<usize>, None::<usize>) && events_post == events_pre && post.targets@ == pre.targets@
    } else {
        &&& events_post == events_pre + check_events(wg, acts, pre.d as int, g, a, false, t) + check_events(wg, acts, pre.d as int, g, b, true, t)
        &&& post.targets@ == check_targets(check_targets(pre.targets@, wg, acts, pre.d as int, a, false, t), wg, acts, pre.d as int, b, true, t)
        &&& r == (check_next(wg, acts, pre.d as int, a, false, t), check_next(wg, acts, pre.d as int, b, true, t))
    }
}

/// `learner` is `pre` after one more step with the label's pole stored as
/// the sink's target.
spec fn wire_labelled(pre: StreamLearnerWire, learner: StreamLearnerWire, y: bool) -> bool {
    &&& learner.d == pre.d
    &&& learner.t == pre.t + 1
    &&& learner.sink == pre.sink
    &&& learner.left@ == pre.left@
    &&& learner.right@ == pre.right@
    &&& learner.topo_order@ == pre.topo_order@
    &&& learner.gate_of_node@ == pre.gate_of_node@
    &&& learner.weights@ == pre.weights@
    &&& learner.activations@ == pre.activations@
    &&& learner.active_signs@ == pre.active_signs@
    &&& learner.targets@ == pre.targets@.update(pre.sink as int, if y { 127i8 } else { -128i8 })
}

/// The queue's start: the sink's producer, when the sink is a gate node.
spec fn first_queue(learner: StreamLearnerWire) -> Seq<usize> {
    let sink = learner.sink as int;
    if learner.gate_of_node@[sink] != 255 { seq![learner.gate_of_node@[sink] as usize] } else { Seq::empty() }
}

/// A gate named by a fix, if any, as a sequence.
pub open spec fn option_seq(o: Option<usize>) -> Seq<usize> {
    match o {
        Some(g) => seq![g],
        None => Seq::empty(),
    }
}

/// The gates that the fixes in `results` enqueued, in order.
pub open spec fn queued(results: Seq<(Option<usize>, Option<usize>)>) -> Seq<usize>
    decreases results.len(),
{
    if results.len() == 0 {
        Seq::empty()
    } else {
        queued(results.drop_last()) + option_seq(results.last().0) + option_seq(results.last().1)
    }
}

proof fn lemma_queued_push(results: Seq<(Option<usize>, Option<usize>)>, r: (Option<usize>, Option<usize>))
    ensures
        queued(results.push(r)) == queued(results) + option_seq(r.0) + option_seq(r.1),
{
    assert(results.push(r).drop_last() =~= results);
}

/// Fixing gate `g` leads from `pre` to `post`: only gate `g`'s word and
/// the targets can change, its two active lanes are nudged, and its parents
/// are checked as `gate_checked` says.
spec fn wire_fix_step(
    pre: StreamLearnerWire,
    post: StreamLearnerWire,
    g: int,
    events_pre: Seq<WireEvent>,
    events_post: Seq<WireEvent>,
    r: (Option<usize>, Option<usize>),
) -> bool {
    &&& 0 <= g < pre.weights@.len()
    &&& post.d == pre.d
    &&& post.t == pre.t
    &&& post.sink == pre.sink
    &&& post.left@ == pre.left@
    &&& post.right@ == pre.right@
    &&& post.topo_order@ == pre.topo_order@
    &&& post.gate_of_node@ == pre.gate_of_node@
    &&& post.activations@ == pre.activations@
    &&& post.active_signs@ == pre.active_signs@
    &&& post.weights@.len() == pre.weights@.len()
    &&& forall|k: int| 0 <= k < pre.weights@.len() && k != g ==> #[trigger] post.weights@[k] == pre.weights@[k]
    &&& lanes_nudged(pre.weights@[g], post.weights@[g], pre.active_signs@[g], pre.targets@[pre.d + g])
    &&& gate_checked(pre, post, g, events_pre, events_post, r)
}

/// One observation of label `y` from `pre` to `post` with `events`: the
/// sink's target is set, then the gates of `queue` are fixed first in first
/// out, starting with the sink's producer; each fix logs its gate, then its
/// checks, and enqueues the gates it names. `states` holds the learner
/// before and after each fix, `logs` the events so far.
pub closed spec fn wire_observe_trace(
    pre: StreamLearnerWire,
    post: StreamLearnerWire,
    y: bool,
    events: Seq<WireEvent>,
    states: Seq<StreamLearnerWire>,
    queue: Seq<usize>,
    results: Seq<(Option<usize>, Option<usize>)>,
    logs: Seq<Seq<WireEvent>>,
) -> bool {
    &&& states.len() == queue.len() + 1
    &&& results.len() == queue.len()
    &&& logs.len() == queue.len() + 1
    &&& wire_labelled(pre, states[0], y)
    &&& queue == first_queue(states[0]) + queued(results)
    &&& logs[0] == Seq::<WireEvent>::empty()
    &&& forall|k: int| 0 <= k < queue.len() ==> #[trigger] wire_fix_step(states[k], states[k + 1], queue[k] as int,
        logs[k].push(WireEvent::FixGate { gate: queue[k] }), logs[k + 1], results[k])
    &&& states[queue.len() as int] == post
    &&& logs[queue.len() as int] == events
}

/// `x` clamped to the `i8` range.
pub open spec fn clamp_of(x: int) -> int {
    if x < -128 { -128 } else if x > 127 { 127 } else { x }
}

/// Gate `j` read its parents' signs and holds the clamped sum of the two
/// selected lane weights.
pub open spec fn wire_gate_ok(acts: Seq<i8>, weights: Seq<u32>, signs: Seq<u8>, left: Seq<u8>, right: Seq<u8>, d: int, j: int) -> bool {
    let sa = sign_of(acts[left[j] as int]);
    let sb = sign_of(acts[right[j] as int]);
    &&& signs[j] == sa | (sb << 1u8)
    &&& acts[d + j] == clamp_of(weight_at(weights[j], sa) + weight_at(weights[j], (2 + sb) as u8))
}

proof fn lemma_pow3_positive(k: nat)
    ensures
        pow3(k) >= 1,
    decreases k,
{
    if k > 0 {
        lemma_pow3_positive((k - 1) as nat);
    }
}

proof fn lemma_pow3_step(g: nat)
    requires
        g >= 1,
    ensures
        2 * pow3((g - 1) as nat) < pow3(g),
{
    lemma_pow3_positive((g - 1) as nat);
}

proof fn lemma_pow3_mono(a: nat, b: nat)
    requires
        a <= b,
    ensures
        pow3(a) <= pow3(b),
    decreases b,
{
    if a < b {
        lemma_pow3_mono(a, (b - 1) as nat);
        lemma_pow3_positive((b - 1) as nat);
    }
}

pub struct StreamLearnerWire {
    d: usize,
    sink: u8,
    left: Vec<u8>,
    right: Vec<u8>,
    topo_order: Vec<usize>,
    gate_of_node: Vec<u8>,
    weights: Vec<u32>,
    activations: Vec<i8>,
    targets: Vec<i8>,
    active_signs: Vec<u8>,
    t: u64,
}

impl StreamLearnerWire {
    /// Layered wiring over `d` inputs; every buffer has one entry per node or gate.
    pub closed spec fn wf(&self) -> bool {
        let g = self.weights@.len();
        let n = self.d + g;
        &&& n <= 256
        &&& self.left@.len() == g
        &&& self.right@.len() == g
        &&& self.topo_order@.len() == g
        &&& self.active_signs@.len() == g
        &&& self.gate_of_node@.len() == n
        &&& self.activations@.len() == n
        &&& self.targets@.len() == n
        &&& self.sink < n
        &&& forall|k: int| 0 <= k < g ==> #[trigger] self.left@[k] < self.d + k && self.right@[k] < self.d + k
        &&& forall|k: int| 0 <= k < g ==> #[trigger] self.topo_order@[k] == k
        &&& forall|i: int| 0 <= i < n ==> #[trigger] self.gate_of_node@[i] == if i < self.d { 255 } else { i - self.d }
    }

    /// A well-formed learner holds one activation per input and per gate.
    pub proof fn lemma_activation_len(&self)
        requires
            self.wf(),
        ensures
            self.activation_values().len() == self.inputs() + self.weight_words().len(),
    {
    }

    pub closed spec fn inputs(&self) -> int {
        self.d as int
    }

    pub closed spec fn steps(&self) -> int {
        self.t as int
    }

    pub closed spec fn weight_words(&self) -> Seq<u32> {
        self.weights@
    }

    pub closed spec fn activation_values(&self) -> Seq<i8> {
        self.activations@
    }

    pub closed spec fn sink_node(&self) -> int {
        self.sink as int
    }

    /// The forward pass on `x`: inputs read `+1` / `-1`; each gate sums the
    /// weight of its first parent's sign lane and of its second parent's
    /// sign lane, clamped to `i8`.
    pub closed spec fn forward_ok(&self, x: Seq<bool>) -> bool {
        &&& forall|i: int| 0 <= i < self.d ==> #[trigger] self.activations@[i] == if x[i] { 1i8 } else { -1i8 }
        &&& forall|k: int| 0 <= k < self.weights@.len() ==> #[trigger] wire_gate_ok(self.activations@,
            self.weights@, self.active_signs@, self.left@, self.right@, self.d as int, k)
    }

    /// First parent node of each gate.
    pub closed spec fn left_parents(&self) -> Seq<u8> {
        self.left@
    }

    /// Second parent node of each gate.
    pub closed spec fn right_parents(&self) -> Seq<u8> {
        self.right@
    }

    /// Parent sign bits each gate read in the last forward pass.
    pub closed spec fn active_sign_bits(&self) -> Seq<u8> {
        self.active_signs@
    }

    /// A forward pass on `x` sets each input to `+1` / `-1` and each gate to
    /// the clamped sum of the two lane weights its parents' signs select.
    pub proof fn lemma_forward(&self, x: Seq<bool>)
        requires
            self.forward_ok(x),
        ensures
            forall|i: int| 0 <= i < self.inputs() ==> #[trigger] self.activation_values()[i] == if x[i] { 1i8 } else { -1i8 },
            forall|k: int| 0 <= k < self.weight_words().len() ==> #[trigger] wire_gate_ok(self.activation_values(),
                self.weight_words(), self.active_sign_bits(), self.left_parents(), self.right_parents(), self.inputs(), k),
    {
    }

    pub fn new(topology: FixedCircuit) -> (r: Self)
        requires
            topology.wf(),
        ensures
            r.wf(),
            r.inputs() == topology.d,
            r.steps() == 0,
            r.sink_node() == topology.sink,
            r.weight_words().len() == topology.num_gates,
            forall|k: int| 0 <= k < topology.num_gates ==> #[trigger] r.weight_words()[k] == 0,
    {
        let d = topology.d;
        let g = topology.num_gates;
        let n = d + g;
        let mut gate_of_node: Vec<u8> = Vec::new();
        let mut i: usize = 0;
        while i < n
            invariant
                n == d + g,
                n <= 256,
                i <= n,
                gate_of_node@.len() == i,
                forall|k: int| 0 <= k < i ==> #[trigger] gate_of_node@[k] == if k < d { 255 } else { k - d },
            decreases n - i,
        {
            gate_of_node.push(if i < d { 255 } else { (i - d) as u8 });
            i = i + 1;
        }
        Self {
            d,
            sink: topology.sink,
            left: topology.left,
            right: topology.right,
            topo_order: topology.topo_order,
            gate_of_node,
            weights: crate::workspace::filled(0u32, g),
            activations: crate::workspace::filled(0i8, n),
            targets: crate::workspace::filled(0i8, n),
            active_signs: crate::workspace::filled(0u8, g),
            t: 0,
        }
    }

    pub fn step_count(&self) -> (r: u64)
        ensures
            r == self.steps(),
    {
        self.t
    }

    /// Forward pass: the sink's activation is not negative.
    #[verifier::spinoff_prover]
    pub fn predict(&mut self, x: &[bool]) -> (r: bool)
        requires
            old(self).wf(),
            x@.len() == old(self).inputs(),
        ensures
            final(self).wf(),
            final(self).inputs() == old(self).inputs(),
            final(self).steps() == old(self).steps(),
            final(self).weight_words() == old(self).weight_words(),
            final(self).sink_node() == old(self).sink_node(),
            final(self).forward_ok(x@),
            r == (final(self).activation_values()[old(self).sink_node()] >= 0),
    {
        let d = self.d;
        let mut i: usize = 0;
        while i < d
            invariant
                self.wf(),
                d == self.d,
                x@.len() == d,
                i <= d,
                self.weights@ == old(self).weights@,
                self.t == old(self).t,
                self.d == old(self).d,
                self.sink == old(self).sink,
                forall|k: int| 0 <= k < i ==> #[trigger] self.activations@[k] == if x@[k] { 1i8 } else { -1i8 },
            decreases d - i,
        {
            self.activations[i] = if x[i] { 1 } else { -1 };
            i = i + 1;
        }
        let g_count = self.topo_order.len();
        let mut k: usize = 0;
        while k < g_count
            invariant
                self.wf(),
                d == self.d,
                g_count == self.weights@.len(),
                x@.len() == d,
                k <= g_count,
                self.weights@ == old(self).weights@,
                self.t == old(self).t,
                self.d == old(self).d,
                self.sink == old(self).sink,
                forall|j: int| 0 <= j < d ==> #[trigger] self.activations@[j] == if x@[j] { 1i8 } else { -1i8 },
                forall|j: int| 0 <= j < k ==> #[trigger] wire_gate_ok(self.activations@, self.weights@,
                    self.active_signs@, self.left@, self.right@, d as int, j),
            decreases g_count - k,
        {
            let g = self.topo_order[k];
            let a = self.left[g] as usize;
            let b = self.right[g] as usize;
            let ghost before = *self;
            let (sum, signs) = forward_sum(self.weights[g], self.activations[a], self.activations[b]);
            self.active_signs[g] = signs;
            self.activations[d + g] = clamp_i8(sum);
            proof {
                assert forall|j: int| 0 <= j < k + 1 implies #[trigger] wire_gate_ok(self.activations@, self.weights@,
                    self.active_signs@, self.left@, self.right@, d as int, j) by {
                    if j < k {
                        assert(wire_gate_ok(before.activations@, before.weights@, before.active_signs@, before.left@,
                            before.right@, d as int, j));
                        assert(self.left@[j] < d + j);
                        assert(self.right@[j] < d + j);
                    }
                }
            }
            k = k + 1;
        }
        self.activations[self.sink as usize] >= 0
    }

    pub fn observe(&mut self, y: bool)
        requires
            old(self).wf(),
            old(self).steps() < u64::MAX,
        ensures
            final(self).wf(),
            final(self).inputs() == old(self).inputs(),
            final(self).steps() == old(self).steps() + 1,
            final(self).sink_node() == old(self).sink_node(),
            final(self).activation_values() == old(self).activation_values(),
            final(self).weight_words().len() == old(self).weight_words().len(),
            exists|events: Seq<WireEvent>, states: Seq<StreamLearnerWire>, queue: Seq<usize>, results: Seq<(Option<usize>, Option<usize>)>,
                logs: Seq<Seq<WireEvent>>| #[trigger] wire_observe_trace(*old(self), *final(self), y, events, states, queue, results, logs),
    {
        let _events = self.observe_with_diag(y);
    }

    /// Stores the label's pole as the sink's target and fixes gates from the
    /// sink upstream, first in first out; returns what it did, in order.
    pub fn observe_with_diag(&mut self, y: bool) -> (events: Vec<WireEvent>)
        requires
            old(self).wf(),
            old(self).steps() < u64::MAX,
        ensures
            final(self).wf(),
            final(self).inputs() == old(self).inputs(),
            final(self).steps() == old(self).steps() + 1,
            final(self).sink_node() == old(self).sink_node(),
            final(self).activation_values() == old(self).activation_values(),
            final(self).weight_words().len() == old(self).weight_words().len(),
            forall|e: int| 0 <= e < events@.len() ==> match #[trigger] events@[e] {
                WireEvent::FixGate { gate } => gate < old(self).weight_words().len(),
                WireEvent::Backprop { gate, parent, outcome } => gate < old(self).weight_words().len()
                    && old(self).inputs() <= parent < old(self).inputs() + gate,
            },
            exists|states: Seq<StreamLearnerWire>, queue: Seq<usize>, results: Seq<(Option<usize>, Option<usize>)>, logs: Seq<Seq<WireEvent>>|
                #[trigger] wire_observe_trace(*old(self), *final(self), y, events@, states, queue, results, logs),
    {
        let mut events: Vec<WireEvent> = Vec::new();
        self.t = self.t + 1;
        let sink = self.sink as usize;
        self.targets[sink] = bool_target_pole(y);
        let mut pending: Vec<usize> = Vec::new();
        let sg = self.gate_of_node[sink];
        if sg != 255 {
            pending.push(sg as usize);
        }
        let ghost labelled = *self;
        let ghost mut states: Seq<StreamLearnerWire> = seq![*self];
        let ghost mut results: Seq<(Option<usize>, Option<usize>)> = Seq::empty();
        let ghost mut logs: Seq<Seq<WireEvent>> = seq![events@];
        assert(wire_labelled(*old(self), labelled, y));
        assert(pending@ =~= first_queue(labelled) + queued(results));
        let mut head: usize = 0;
        while head < pending.len()
            invariant
                self.wf(),
                wire_labelled(*old(self), labelled, y),
                states.len() == head + 1,
                results.len() == head,
                logs.len() == head + 1,
                states[0] == labelled,
                states[head as int] == *self,
                logs[0] == Seq::<WireEvent>::empty(),
                logs[head as int] == events@,
                pending@ == first_queue(labelled) + queued(results),
                forall|k: int| 0 <= k < head ==> #[trigger] wire_fix_step(states[k], states[k + 1], pending@[k] as int,
                    logs[k].push(WireEvent::FixGate { gate: pending@[k] }), logs[k + 1], results[k]),
                self.d == old(self).d,
                self.t == old(self).t + 1,
                self.sink == old(self).sink,
                self.activations@ == old(self).activations@,
                self.weights@.len() == old(self).weights@.len(),
                head <= pending@.len(),
                forall|k: int| 0 <= k < pending@.len() ==> #[trigger] pending@[k] < self.weights@.len(),
                forall|e: int| 0 <= e < events@.len() ==> match #[trigger] events@[e] {
                    WireEvent::FixGate { gate } => gate < old(self).weights@.len(),
                    WireEvent::Backprop { gate, parent, outcome } => gate < old(self).weights@.len()
                        && old(self).d <= parent < old(self).d + gate,
                },
            decreases queue_weight(pending@.subrange(head as int, pending@.len() as int)),
        {
            let g = pending[head];
            let ghost rest = pending@.subrange(head as int, pending@.len() as int);
            proof {
                assert(rest.drop_first() =~= pending@.subrange(head + 1, pending@.len() as int));
            }
            let ghost prev_states = states;
            let ghost prev_results = results;
            let ghost prev_logs = logs;
            let ghost prev_pending = pending@;
            head = head + 1;
            events.push(WireEvent::FixGate { gate: g });
            let (first, second) = self.fix_gate(g, &mut events);
            proof {
                states = states.push(*self);
                results = results.push((first, second));
                logs = logs.push(events@);
                lemma_queued_push(prev_results, (first, second));
            }
            let ghost after_pop = pending@.subrange(head as int, pending@.len() as int);
            if let Some(p) = first {
                proof {
                    lemma_queue_push(after_pop, p);
                    assert(pending@.push(p).subrange(head as int, pending@.len() as int + 1) =~= after_pop.push(p));
                }
                pending.push(p);
            }
            let ghost after_first = pending@.subrange(head as int, pending@.len() as int);
            if let Some(p) = second {
                proof {
                    lemma_queue_push(after_first, p);
                    assert(pending@.push(p).subrange(head as int, pending@.len() as int + 1) =~= after_first.push(p));
                }
                pending.push(p);
            }
            proof {
                let pg = pow3(g as nat);
                let lower = if g >= 1 { pow3((g - 1) as nat) } else { 0 };
                if g >= 1 {
                    lemma_pow3_step(g as nat);
                }
                if let Some(p) = first {
                    lemma_pow3_mono(p as nat, (g - 1) as nat);
                }
                if let Some(p) = second {
                    lemma_pow3_mono(p as nat, (g - 1) as nat);
                }
                assert(pending@ =~= first_queue(labelled) + queued(results));
                assert forall|k: int| 0 <= k < head implies #[trigger] wire_fix_step(states[k], states[k + 1], pending@[k] as int,
                    logs[k].push(WireEvent::FixGate { gate: pending@[k] }), logs[k + 1], results[k]) by {
                    if k + 1 < head {
                        assert(states[k] == prev_states[k] && states[k + 1] == prev_states[k + 1]);
                        assert(logs[k] == prev_logs[k] && logs[k + 1] == prev_logs[k + 1] && results[k] == prev_results[k]);
                        assert(pending@[k] == prev_pending[k]);
                    } else {
                        assert(pending@[k] == g);
                    }
                }
            }
        }
        proof {
            assert(pending@.len() == head);
            assert(wire_observe_trace(*old(self), *self, y, events@, states, pending@, results, logs));
        }
        events
    }

    pub fn activations_snapshot(&self) -> (r: &[i8])
        ensures
            r@ == self.activation_values(),
    {
        self.activations.as_slice()
    }

    /// Nudges both active lanes of gate `g` toward its target and, when the
    /// gate's output still misses the target, checks each internal parent for
    /// a backprop; returns the upstream gates to enqueue.
    fn fix_gate(&mut self, g: usize, events: &mut Vec<WireEvent>) -> (r: (Option<usize>, Option<usize>))
        requires
            old(self).wf(),
            g < old(self).weights@.len(),
            forall|e: int| 0 <= e < old(events)@.len() ==> match #[trigger] old(events)@[e] {
                WireEvent::FixGate { gate } => gate < old(self).weights@.len(),
                WireEvent::Backprop { gate, parent, outcome } => gate < old(self).weights@.len()
                    && old(self).d <= parent < old(self).d + gate,
            },
        ensures
            final(self).wf(),
            final(self).d == old(self).d,
            final(self).t == old(self).t,
            final(self).sink == old(self).sink,
            final(self).activations@ == old(self).activations@,
            final(self).weights@.len() == old(self).weights@.len(),
            r.0 matches Some(p) ==> p < g,
            r.1 matches Some(p) ==> p < g,
            forall|k: int| 0 <= k < old(self).weights@.len() && k != g ==> #[trigger] final(self).weights@[k] == old(self).weights@[k],
            lanes_nudged(old(self).weights@[g as int], final(self).weights@[g as int], old(self).active_signs@[g as int],
                old(self).targets@[old(self).d + g]),
            gate_checked(*old(self), *final(self), g as int, old(events)@, final(events)@, r),
            wire_fix_step(*old(self), *final(self), g as int, old(events)@, final(events)@, r),
            forall|e: int| 0 <= e < final(events)@.len() ==> match #[trigger] final(events)@[e] {
                WireEvent::FixGate { gate } => gate < old(self).weights@.len(),
                WireEvent::Backprop { gate, parent, outcome } => gate < old(self).weights@.len()
                    && old(self).d <= parent < old(self).d + gate,
            },
    {
        let node = self.d + g;
        let target = self.targets[node];
        let packed_signs = self.active_signs[g];
        let sa = unpack_sa(packed_signs);
        let sb = unpack_sb(packed_signs);
        proof {
            assert(packed_signs & 1 <= 1) by (bit_vector);
            assert((packed_signs >> 1u8) & 1 <= 1) by (bit_vector);
        }
        let lane_a_idx = lane_a(sa);
        let lane_b_idx = lane_b(sb);
        let mut packed = self.weights[g];
        let w_a = get_weight(packed, lane_a_idx);
        let w_b = get_weight(packed, lane_b_idx);
        set_weight(&mut packed, lane_a_idx, nudge_weight(w_a, target));
        set_weight(&mut packed, lane_b_idx, nudge_weight(w_b, target));
        self.weights[g] = packed;
        if activation_matches_target(self.activations[node], target) {
            return (None, None);
        }
        let a = self.left[g] as usize;
        let b = self.right[g] as usize;
        let first = self.backprop_parent(g, a, false, target, events);
        let second = self.backprop_parent(g, b, true, target, events);
        proof {
            assert(events@ == old(events)@ + check_events(packed, self.activations@, self.d as int, g as int, a as int, false, target)
                + check_events(packed, self.activations@, self.d as int, g as int, b as int, true, target));
        }
        (first, second)
    }

    /// Requests the sign that its lane weights favour from an
    /// internal parent whose current sign differs; returns the parent's gate
    /// to enqueue.
    fn backprop_parent(
        &mut self,
        g: usize,
        parent: usize,
        is_parent_b: bool,
        target: i8,
        events: &mut Vec<WireEvent>,
    ) -> (r: Option<usize>)
        requires
            old(self).wf(),
            g < old(self).weights@.len(),
            parent < old(self).d + g,
            forall|e: int| 0 <= e < old(events)@.len() ==> match #[trigger] old(events)@[e] {
                WireEvent::FixGate { gate } => gate < old(self).weights@.len(),
                WireEvent::Backprop { gate, parent, outcome } => gate < old(self).weights@.len()
                    && old(self).d <= parent < old(self).d + gate,
            },
        ensures
            final(self).wf(),
            final(self).d == old(self).d,
            final(self).t == old(self).t,
            final(self).sink == old(self).sink,
            final(self).activations@ == old(self).activations@,
            final(self).weights@ == old(self).weights@,
            final(self).left@ == old(self).left@,
            final(self).right@ == old(self).right@,
            final(self).topo_order@ == old(self).topo_order@,
            final(self).gate_of_node@ == old(self).gate_of_node@,
            final(self).active_signs@ == old(self).active_signs@,
            r matches Some(p) ==> p < g && p == parent - old(self).d,
            final(events)@ == old(events)@ + check_events(old(self).weights@[g as int], old(self).activations@, old(self).d as int,
                g as int, parent as int, is_parent_b, target),
            final(self).targets@ == check_targets(old(self).targets@, old(self).weights@[g as int], old(self).activations@,
                old(self).d as int, parent as int, is_parent_b, target),
            r == check_next(old(self).weights@[g as int], old(self).activations@, old(self).d as int, parent as int, is_parent_b, target),
            forall|e: int| 0 <= e < final(events)@.len() ==> match #[trigger] final(events)@[e] {
                WireEvent::FixGate { gate } => gate < old(self).weights@.len(),
                WireEvent::Backprop { gate, parent, outcome } => gate < old(self).weights@.len()
                    && old(self).d <= parent < old(self).d + gate,
            },
    {
        if parent < self.d {
            return None;
        }
        let (w0, w1) = parent_weights(self.weights[g], is_parent_b);
        let act_p = self.activations[parent];
        let outcome = backprop_outcome(target, w0, w1, act_p);
        events.push(WireEvent::Backprop { gate: g, parent, outcome });
        let ws = match outcome {
            BackpropOutcome::Fired { want } => want,
            _ => {
                return None;
            },
        };
        if sign(act_p) == ws {
            return None;
        }
        self.targets[parent] = pole(ws);
        let pg = self.gate_of_node[parent];
        if pg != 255 {
            return Some(pg as usize);
        }
        None
    }
}

} // verus!
