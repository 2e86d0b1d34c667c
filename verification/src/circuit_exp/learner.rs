//! `StreamLearner`: predict / observe with gate fixing propagated upstream.

use vstd::prelude::*;
use crate::circuit_exp::circuit::FixedCircuit;
use crate::circuit_exp::gate::{
    best_row_at_most_one_flip, best_row_of, mismatches_of, bool_target, get_weight, lane, nudge_weight, pole, row_weights,
    set_weight, sign, sign_mismatches, sign_of, weight_at,
};

verus! {

pub struct StreamLearner {
    d: usize,
    sink: u8,
    left: Vec<u8>,
    right: Vec<u8>,
    topo_order: Vec<usize>,
    gate_of_node: Vec<u8>,
    weights: Vec<u32>,
    activations: Vec<i8>,
    targets: Vec<i8>,
    active_row: Vec<u8>,
    t: u64,
}

impl StreamLearner {
    /// Layered wiring over `d` inputs; every buffer has one entry per node or gate.
    pub closed spec fn wf(&self) -> bool {
        let g = self.weights@.len();
        let n = self.d + g;
        &&& n <= 256
        &&& self.left@.len() == g
        &&& self.right@.len() == g
        &&& self.topo_order@.len() == g
        &&& self.active_row@.len() == g
        &&& self.gate_of_node@.len() == n
        &&& self.activations@.len() == n
        &&& self.targets@.len() == n
        &&& self.sink < n
        &&& forall|k: int| 0 <= k < g ==> #[trigger] self.left@[k] < self.d + k && self.right@[k] < self.d + k
        &&& forall|k: int| 0 <= k < g ==> #[trigger] self.topo_order@[k] == k
        &&& forall|k: int| 0 <= k < g ==> #[trigger] self.active_row@[k] < 4
        &&& forall|i: int| 0 <= i < n ==> #[trigger] self.gate_of_node@[i] == if i < self.d { 255 } else { i - self.d }
    }

    pub closed spec fn inputs(&self) -> int {
        self.d as int
    }

    pub closed spec fn steps(&self) -> int {
        self.t as int
    }

    /// Packed row weights, one word per gate.
    pub closed spec fn weight_words(&self) -> Seq<u32> {
        self.weights@
    }

    /// Last forward activations, one per node.
    pub closed spec fn activation_values(&self) -> Seq<i8> {
        self.activations@
    }

    /// Row that each gate read in the last forward pass.
    pub closed spec fn active_rows(&self) -> Seq<u8> {
        self.active_row@
    }

    pub closed spec fn sink_node(&self) -> int {
        self.sink as int
    }

    /// The forward pass on `x`: inputs read `+1` / `-1`, each gate reads the
    /// weight of the row its parents' signs select.
    pub closed spec fn forward_ok(&self, x: Seq<bool>) -> bool {
        &&& forall|i: int| 0 <= i < self.d ==> #[trigger] self.activations@[i] == if x[i] { 1i8 } else { -1i8 }
        &&& forall|k: int| 0 <= k < self.weights@.len() ==> {
            let row = (2 * sign_of(self.activations@[self.left@[k] as int]) + sign_of(self.activations@[self.right@[k] as int])) as u8;
            &&& #[trigger] self.active_row@[k] == row
            &&& self.activations@[self.d + k] == weight_at(self.weights@[k], row)
        }
    }

    /// First parent node of each gate.
    pub closed spec fn left_parents(&self) -> Seq<u8> {
        self.left@
    }

    /// Second parent node of each gate.
    pub closed spec fn right_parents(&self) -> Seq<u8> {
        self.right@
    }

    /// Row that gate `k` reads from its parents' current signs.
    pub open spec fn parent_row(&self, k: int) -> u8 {
        (2 * sign_of(self.activation_values()[self.left_parents()[k] as int])
            + sign_of(self.activation_values()[self.right_parents()[k] as int])) as u8
    }

    /// A forward pass on `x` sets each input to `+1` / `-1` and each gate
    /// to the weight of the row that its parents' signs select.
    pub proof fn lemma_forward(&self, x: Seq<bool>)
        requires
            self.forward_ok(x),
        ensures
            forall|i: int| 0 <= i < self.inputs() ==> #[trigger] self.activation_values()[i] == if x[i] { 1i8 } else { -1i8 },
            forall|k: int| 0 <= k < self.weight_words().len() ==> #[trigger] self.active_rows()[k] == self.parent_row(k)
                && self.activation_values()[self.inputs() + k] == weight_at(self.weight_words()[k], self.parent_row(k)),
    {
        assert forall|k: int| 0 <= k < self.weight_words().len() implies #[trigger] self.active_rows()[k] == self.parent_row(k)
            && self.activation_values()[self.inputs() + k] == weight_at(self.weight_words()[k], self.parent_row(k)) by {
            let row = (2 * sign_of(self.activations@[self.left@[k] as int]) + sign_of(self.activations@[self.right@[k] as int])) as u8;
            assert(self.active_row@[k] == row);
            assert(self.activations@[self.d + k] == weight_at(self.weights@[k], row));
            assert(self.parent_row(k) == row);
        }
    }

    pub fn new(topology: FixedCircuit) -> (r: Self)
        requires
            topology.wf(),
        ensures
            r.wf(),
            r.inputs() == topology.d,
            r.steps() == 0,
            r.sink_node() == topology.sink,
            r.weight_words().len() == topology.num_gates,
            forall|k: int| 0 <= k < topology.num_gates ==> #[trigger] r.weight_words()[k] == 0,
    {
        let d = topology.d;
        let g = topology.num_gates;
        let n = d + g;
        let mut gate_of_node: Vec<u8> = Vec::new();
        let mut i: usize = 0;
        while i < n
            invariant
                n == d + g,
                n <= 256,
                i <= n,
                gate_of_node@.len() == i,
                forall|k: int| 0 <= k < i ==> #[trigger] gate_of_node@[k] == if k < d { 255 } else { k - d },
            decreases n - i,
        {
            gate_of_node.push(if i < d { 255 } else { (i - d) as u8 });
            i = i + 1;
        }
        Self {
            d,
            sink: topology.sink,
            left: topology.left,
            right: topology.right,
            topo_order: topology.topo_order,
            gate_of_node,
            weights: crate::workspace::filled(0u32, g),
            activations: crate::workspace::filled(0i8, n),
            targets: crate::workspace::filled(0i8, n),
            active_row: crate::workspace::filled(0u8, g),
            t: 0,
        }
    }

    pub fn step_count(&self) -> (r: u64)
        ensures
            r == self.steps(),
    {
        self.t
    }

    /// Forward pass: the sink's activation is not negative.
    #[verifier::spinoff_prover]
    pub fn predict(&mut self, x: &[bool]) -> (r: bool)
        requires
            old(self).wf(),
            x@.len() == old(self).inputs(),
        ensures
            final(self).wf(),
            final(self).inputs() == old(self).inputs(),
            final(self).steps() == old(self).steps(),
            final(self).weight_words() == old(self).weight_words(),
            final(self).sink_node() == old(self).sink_node(),
            final(self).forward_ok(x@),
            r == (final(self).activation_values()[old(self).sink_node()] >= 0),
    {
        let d = self.d;
        let mut i: usize = 0;
        while i < d
            invariant
                self.wf(),
                d == self.d,
                x@.len() == d,
                i <= d,
                self.weights@ == old(self).weights@,
                self.t == old(self).t,
                self.d == old(self).d,
                self.sink == old(self).sink,
                forall|k: int| 0 <= k < i ==> #[trigger] self.activations@[k] == if x@[k] { 1i8 } else { -1i8 },
            decreases d - i,
        {
            self.activations[i] = if x[i] { 1 } else { -1 };
            i = i + 1;
        }
        let g_count = self.topo_order.len();
        let mut k: usize = 0;
        while k < g_count
            invariant
                self.wf(),
                d == self.d,
                g_count == self.weights@.len(),
                x@.len() == d,
                k <= g_count,
                self.weights@ == old(self).weights@,
                self.t == old(self).t,
                self.d == old(self).d,
                self.sink == old(self).sink,
                forall|j: int| 0 <= j < d ==> #[trigger] self.activations@[j] == if x@[j] { 1i8 } else { -1i8 },
                forall|j: int| 0 <= j < k ==> {
                    let row = (2 * sign_of(self.activations@[self.left@[j] as int]) + sign_of(self.activations@[self.right@[j] as int])) as u8;
                    &&& #[trigger] self.active_row@[j] == row
                    &&& self.activations@[d + j] == weight_at(self.weights@[j], row)
                },
            decreases g_count - k,
        {
            let g = self.topo_order[k];
            let a = self.left[g] as usize;
            let b = self.right[g] as usize;
            let ln = lane(self.activations[a], self.activations[b]);
            self.active_row[g] = ln;
            let w = get_weight(self.weights[g], ln);
            self.activations[d + g] = w;
            k = k + 1;
        }
        self.activations[self.sink as usize] >= 0
    }

    /// Stores the label as the sink's target and, when the sink missed it,
    /// fixes gates from the sink upstream. Each gate's weights change only in
    /// the row it read in the last forward pass.
    pub fn observe(&mut self, y: bool)
        requires
            old(self).wf(),
            old(self).steps() < u64::MAX,
        ensures
            final(self).wf(),
            final(self).inputs() == old(self).inputs(),
            final(self).steps() == old(self).steps() + 1,
            final(self).sink_node() == old(self).sink_node(),
            final(self).activation_values() == old(self).activation_values(),
            final(self).active_rows() == old(self).active_rows(),
            final(self).weight_words().len() == old(self).weight_words().len(),
            forall|k: int, row: u8| 0 <= k < old(self).weight_words().len() && row < 4 && row != old(self).active_rows()[k]
                ==> #[trigger] weight_at(final(self).weight_words()[k], row) == weight_at(old(self).weight_words()[k], row),
            old(self).activation_values()[old(self).sink_node()] == (if y { 1i8 } else { -1i8 })
                ==> final(self).weight_words() == old(self).weight_words(),
            exists|states: Seq<StreamLearner>, gates: Seq<usize>| #[trigger] observe_trace(*old(self), *final(self), y, states, gates),
    {
        self.t = self.t + 1;
        let sink = self.sink as usize;
        self.targets[sink] = bool_target(y);
        assert(self.targets@.len() == old(self).targets@.len());
        let mut next: Option<usize> = None;
        if self.activations[sink] != self.targets[sink] {
            let sg = self.gate_of_node[sink];
            if sg != 255 {
                next = Some(sg as usize);
            }
        }
        let ghost labelled = *self;
        let ghost first = next;
        let ghost mut states: Seq<StreamLearner> = seq![*self];
        let ghost mut gates: Seq<usize> = Seq::empty();
        assert(labelled_from(*old(self), labelled, y));
        assert(first == first_fix(labelled));
        loop
            invariant
                self.wf(),
                labelled_from(*old(self), labelled, y),
                first == first_fix(labelled),
                states.len() == gates.len() + 1,
                states[0] == labelled,
                states[gates.len() as int] == *self,
                gates.len() == 0 ==> next == first,
                gates.len() > 0 ==> first == Some(gates[0]),
                forall|k: int| 0 <= k < gates.len() ==> #[trigger] fix_step(states[k], states[k + 1], gates[k] as int,
                    next_of(gates, k, next)),
                self.d == old(self).d,
                self.t == old(self).t + 1,
                self.sink == old(self).sink,
                self.activations@ == old(self).activations@,
                self.active_row@ == old(self).active_row@,
                self.weights@.len() == old(self).weights@.len(),
                next matches Some(g) ==> g < self.weights@.len(),
                forall|k: int, row: u8| 0 <= k < old(self).weights@.len() && row < 4 && row != old(self).active_row@[k]
                    ==> #[trigger] weight_at(self.weights@[k], row) == weight_at(old(self).weights@[k], row),
                old(self).activations@[old(self).sink as int] == (if y { 1i8 } else { -1i8 })
                    ==> next is None && self.weights@ == old(self).weights@,
            ensures
                next is None,
            decreases queue_measure(next),
        {
            match next {
                None => {
                    break;
                },
                Some(g) => {
                    let ghost prev_states = states;
                    let ghost prev_gates = gates;
                    let ghost prev_next = next;
                    next = self.fix_gate(g);
                    proof {
                        states = states.push(*self);
                        gates = gates.push(g);
                        assert forall|k: int| 0 <= k < gates.len() implies #[trigger] fix_step(states[k], states[k + 1], gates[k] as int,
                            next_of(gates, k, next)) by {
                            if k + 1 < gates.len() {
                                assert(states[k] == prev_states[k] && states[k + 1] == prev_states[k + 1] && gates[k] == prev_gates[k]);
                                assert(fix_step(prev_states[k], prev_states[k + 1], prev_gates[k] as int,
                                    next_of(prev_gates, k, prev_next)));
                            }
                        }
                    }
                },
            }
        }
        proof {
            assert(observe_trace(*old(self), *self, y, states, gates));
        }
    }

    /// Nudges the active row of gate `g` toward the target when that row is the
    /// cheapest reachable with at most one parent flip, and returns the
    /// upstream gate to fix next, if any.
    fn fix_gate(&mut self, g: usize) -> (next: Option<usize>)
        requires
            old(self).wf(),
            g < old(self).weights@.len(),
        ensures
            old(self).activations@[old(self).d + g] == old(self).targets@[old(self).d + g]
                ==> next is None && *final(self) == *old(self),
            old(self).activations@[old(self).d + g] != old(self).targets@[old(self).d + g]
                ==> gate_fixed(*old(self), *final(self), g as int, next),
            fix_step(*old(self), *final(self), g as int, next),
            final(self).wf(),
            final(self).d == old(self).d,
            final(self).t == old(self).t,
            final(self).sink == old(self).sink,
            final(self).activations@ == old(self).activations@,
            final(self).active_row@ == old(self).active_row@,
            final(self).weights@.len() == old(self).weights@.len(),
            next matches Some(p) ==> p < g,
            forall|k: int| 0 <= k < old(self).weights@.len() && k != g ==> #[trigger] final(self).weights@[k] == old(self).weights@[k],
            forall|row: u8| row < 4 && row != old(self).active_row@[g as int]
                ==> #[trigger] weight_at(final(self).weights@[g as int], row) == weight_at(old(self).weights@[g as int], row),
    {
        let node = self.d + g;
        let target = self.targets[node];
        if self.activations[node] == target {
            return None;
        }
        let lane_idx = self.active_row[g];
        let a = self.left[g] as usize;
        let b = self.right[g] as usize;
        let act_a = self.activations[a];
        let act_b = self.activations[b];
        let weights = row_weights(self.weights[g]);
        let s_star = best_row_at_most_one_flip(act_a, act_b, weights, target);
        if lane_idx == s_star {
            let w_lane = weights[lane_idx as usize];
            if w_lane != target {
                let mut packed = self.weights[g];
                set_weight(&mut packed, lane_idx, nudge_weight(w_lane, target));
                self.weights[g] = packed;
            }
        }
        if sign_mismatches(s_star, act_a, act_b) != 1 {
            return None;
        }
        let s_a = s_star >> 1;
        let s_b = s_star & 1;
        if sign(act_a) != s_a && a >= self.d {
            self.targets[a] = pole(s_a);
            return self.propagate_producer(a);
        } else if sign(act_b) != s_b && b >= self.d {
            self.targets[b] = pole(s_b);
            return self.propagate_producer(b);
        }
        None
    }

    /// Gate producing `parent`, when its activation misses its target.
    fn propagate_producer(&self, parent: usize) -> (next: Option<usize>)
        requires
            self.wf(),
            parent < self.d + self.weights@.len(),
        ensures
            next matches Some(p) ==> p == parent - self.d && parent >= self.d,
            next == producer_next(*self, parent as int),
    {
        if parent < self.d {
            return None;
        }
        if self.activations[parent] != self.targets[parent] {
            let g = self.gate_of_node[parent];
            if g != 255 {
                return Some(g as usize);
            }
        }
        None
    }
}

/// `learner` is `pre` after one more step with the label's pole stored as
/// the sink's target.
spec fn labelled_from(pre: StreamLearner, learner: StreamLearner, y: bool) -> bool {
    &&& learner.d == pre.d
    &&& learner.t == pre.t + 1
    &&& learner.sink == pre.sink
    &&& learner.left == pre.left
    &&& learner.right == pre.right
    &&& learner.topo_order == pre.topo_order
    &&& learner.gate_of_node == pre.gate_of_node
    &&& learner.weights == pre.weights
    &&& learner.activations == pre.activations
    &&& learner.active_row == pre.active_row
    &&& learner.targets@ == pre.targets@.update(pre.sink as int, if y { 1i8 } else { -1i8 })
}

/// The first gate to fix: the sink's producer when the sink misses its target.
spec fn first_fix(learner: StreamLearner) -> Option<usize> {
    let sink = learner.sink as int;
    if learner.activations@[sink] != learner.targets@[sink] && learner.gate_of_node@[sink] != 255 {
        Some(learner.gate_of_node@[sink] as usize)
    } else {
        None
    }
}

/// Fixing gate `g` leads from `pre` to `post` and names `next`: nothing
/// changes when its node meets its target, else the rule of `gate_fixed`;
/// only gate `g`'s active row and the targets can change.
spec fn fix_step(pre: StreamLearner, post: StreamLearner, g: int, next: Option<usize>) -> bool {
    &&& 0 <= g < pre.weights@.len()
    &&& post.d == pre.d
    &&& post.t == pre.t
    &&& post.sink == pre.sink
    &&& post.left == pre.left
    &&& post.right == pre.right
    &&& post.topo_order == pre.topo_order
    &&& post.gate_of_node == pre.gate_of_node
    &&& post.activations == pre.activations
    &&& post.active_row == pre.active_row
    &&& post.weights@.len() == pre.weights@.len()
    &&& forall|k: int| 0 <= k < pre.weights@.len() && k != g ==> #[trigger] post.weights@[k] == pre.weights@[k]
    &&& forall|row: u8| row < 4 && row != pre.active_row@[g] ==> #[trigger] weight_at(post.weights@[g], row) == weight_at(pre.weights@[g], row)
    &&& if pre.activations@[pre.d + g] == pre.targets@[pre.d + g] {
        next is None && post == pre
    } else {
        gate_fixed(pre, post, g, next)
    }
}

/// Entry after the `k`-th of `gates`, or `last` after the final one.
pub open spec fn next_of(gates: Seq<usize>, k: int, last: Option<usize>) -> Option<usize> {
    if k + 1 < gates.len() { Some(gates[k + 1]) } else { last }
}

/// One observation of label `y` from `pre` to `post`: the sink's target is
/// set, then `gates` are fixed in turn starting with the sink's producer,
/// each naming the next, the last naming none; `states` holds the learner
/// before and after each fix.
pub closed spec fn observe_trace(pre: StreamLearner, post: StreamLearner, y: bool, states: Seq<StreamLearner>, gates: Seq<usize>) -> bool {
    &&& states.len() == gates.len() + 1
    &&& labelled_from(pre, states[0], y)
    &&& gates.len() == 0 ==> first_fix(states[0]) is None
    &&& gates.len() > 0 ==> first_fix(states[0]) == Some(gates[0])
    &&& forall|k: int| 0 <= k < gates.len() ==> #[trigger] fix_step(states[k], states[k + 1], gates[k] as int,
        next_of(gates, k, None))
    &&& states[gates.len() as int] == post
}

/// Producer of `parent`, when `parent` is a gate node whose
/// activation misses its target.
spec fn producer_next(learner: StreamLearner, parent: int) -> Option<usize> {
    if parent >= learner.d && learner.activations@[parent] != learner.targets@[parent] && learner.gate_of_node@[parent] != 255 {
        Some(learner.gate_of_node@[parent] as usize)
    } else {
        None
    }
}

/// What fixing gate `g` does when its activation misses its target: the
/// best row reachable with at most one parent flip is chosen; when the
/// active row is that row, its weight moves one step toward the target;
/// when one parent sign must flip, that parent, if it is a gate's node,
/// gets the pole of the wanted sign as its target and its producer is next.
spec fn gate_fixed(pre: StreamLearner, post: StreamLearner, g: int, next: Option<usize>) -> bool {
    let node = pre.d + g;
    let t = pre.targets@[node];
    let a = pre.left@[g] as int;
    let b = pre.right@[g] as int;
    let act_a = pre.activations@[a];
    let act_b = pre.activations@[b];
    let w = pre.weights@[g];
    let row = pre.active_row@[g];
    let s = best_row_of(act_a, act_b, seq![weight_at(w, 0), weight_at(w, 1), weight_at(w, 2), weight_at(w, 3)], t);
    let cur = weight_at(w, row);
    &&& weight_at(post.weights@[g], row) == (if row == s && cur < t { cur + 1 } else if row == s && cur > t { cur - 1 } else { cur as int })
    &&& if mismatches_of(s, act_a, act_b) != 1 {
        next is None && post.targets@ == pre.targets@
    } else if sign_of(act_a) != s >> 1 && a >= pre.d {
        post.targets@ == pre.targets@.update(a, if s >> 1 != 0 { 127i8 } else { -128i8 }) && next == producer_next(post, a)
    } else if sign_of(act_b) != s & 1 && b >= pre.d {
        post.targets@ == pre.targets@.update(b, if s & 1 != 0 { 127i8 } else { -128i8 }) && next == producer_next(post, b)
    } else {
        next is None && post.targets@ == pre.targets@
    }
}

/// Termination measure of the upstream fixing chain.
pub open spec fn queue_measure(next: Option<usize>) -> int {
    match next {
        Some(g) => g + 1,
        None => 0,
    }
}

} // verus!
