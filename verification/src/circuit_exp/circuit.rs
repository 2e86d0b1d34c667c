//! Fixed layered DAG topology for the data-generating circuit (truth-table
//! gates) and for the learner (`i8` row weights).

use vstd::prelude::*;
use rand_chacha::ChaCha8Rng;
use crate::boolean_circuit::gate_output;
use crate::circuit_exp::rng::{random_below, random_below_u8};

verus! {

/// How the learner wiring relates to the data-generating circuit.
#[derive(Debug, Clone, Copy, PartialEq, Eq, Structural)]
pub enum TopologyMode {
    /// Random DAG independent of the data-generating circuit.
    Independent,
    /// Same `(left, right)` parents as the data-generating circuit.
    Matched,
}

/// Immutable circuit graph: sources `0..d`, gates `d..d+G`, fixed sink.
#[derive(Debug, Clone)]
pub struct FixedCircuit {
    pub d: usize,
    pub num_gates: usize,
    pub left: Vec<u8>,
    pub right: Vec<u8>,
    /// Truth table per gate (4 bits, index `2*a+b`).
    pub truth_table: Vec<u8>,
    pub sink: u8,
    /// Gate indices in topological order.
    pub topo_order: Vec<usize>,
}

impl FixedCircuit {
    /// A layered circuit: every gate reads two earlier nodes, gates are
    /// listed in index order, and the sink is a node.
    pub open spec fn wf(&self) -> bool {
        &&& self.left@.len() == self.num_gates
        &&& self.right@.len() == self.num_gates
        &&& self.truth_table@.len() == self.num_gates
        &&& self.topo_order@.len() == self.num_gates
        &&& self.d + self.num_gates <= 256
        &&& forall|g: int| 0 <= g < self.num_gates ==> #[trigger] self.left@[g] < self.d + g && self.right@[g] < self.d + g
        &&& forall|k: int| 0 <= k < self.num_gates ==> #[trigger] self.topo_order@[k] == k
        &&& self.sink < self.d + self.num_gates
    }

    /// Boolean value of node `i` on input `x`: the input bit for a source,
    /// its truth table applied to its parents for a gate node.
    pub open spec fn node_value(self, x: Seq<bool>, i: int) -> bool
        decreases i,
    {
        if 0 <= i < self.d {
            x[i]
        } else if self.d <= i < self.d + self.num_gates && self.left@[i - self.d] < i && self.right@[i - self.d] < i {
            gate_output(
                self.truth_table@[i - self.d],
                self.node_value(x, self.left@[i - self.d] as int),
                self.node_value(x, self.right@[i - self.d] as int),
            )
        } else {
            false
        }
    }

    pub fn num_nodes(&self) -> (r: usize)
        requires
            self.wf(),
        ensures
            r == self.d + self.num_gates,
    {
        self.d + self.num_gates
    }

    /// The value of every node for input `x`.
    pub fn eval_dgp(&self, x: &[bool]) -> (r: Vec<bool>)
        requires
            self.wf(),
            x@.len() == self.d,
        ensures
            r@.len() == self.d + self.num_gates,
            forall|i: int| 0 <= i < self.d + self.num_gates ==> #[trigger] r@[i] == self.node_value(x@, i),
    {
        let n = self.num_nodes();
        let mut values = crate::workspace::filled(false, n);
        let mut i: usize = 0;
        while i < x.len()
            invariant
                self.wf(),
                x@.len() == self.d,
                n == self.d + self.num_gates,
                values@.len() == n,
                i <= x@.len(),
                forall|k: int| 0 <= k < i ==> #[trigger] values@[k] == self.node_value(x@, k),
            decreases x@.len() - i,
        {
            values[i] = x[i];
            i = i + 1;
        }
        let mut k: usize = 0;
        while k < self.topo_order.len()
            invariant
                self.wf(),
                x@.len() == self.d,
                n == self.d + self.num_gates,
                values@.len() == n,
                k <= self.num_gates,
                forall|j: int| 0 <= j < self.d + k ==> #[trigger] values@[j] == self.node_value(x@, j),
            decreases self.num_gates - k,
        {
            let g = self.topo_order[k];
            let a = values[self.left[g] as usize];
            let b = values[self.right[g] as usize];
            let idx: u8 = 2 * (if a { 1u8 } else { 0u8 }) + (if b { 1u8 } else { 0u8 });
            values[self.d + g] = (self.truth_table[g] >> idx) & 1 == 1;
            proof {
                assert(self.left@[g as int] < self.d + g);
                assert(self.right@[g as int] < self.d + g);
            }
            k = k + 1;
        }
        values
    }

    pub fn eval_sink(&self, x: &[bool]) -> (r: bool)
        requires
            self.wf(),
            x@.len() == self.d,
        ensures
            r == self.node_value(x@, self.sink as int),
    {
        let values = self.eval_dgp(x);
        values[self.sink as usize]
    }
}

/// The two parents drawn for a gate with `max_parent` earlier nodes: the
/// second moves up by one (cyclically) when it equals the first.
fn draw_parents(rng: &mut ChaCha8Rng, max_parent: usize) -> (r: (u8, u8))
    requires
        1 <= max_parent <= 255,
    ensures
        r.0 < max_parent,
        r.1 < max_parent,
        max_parent > 1 ==> r.0 != r.1,
{
    let a = random_below(rng, max_parent) as u8;
    let mut b = random_below(rng, max_parent) as u8;
    if a == b && max_parent > 1 {
        proof {
            let m = max_parent as int;
            let next = b + 1;
            if next < m {
                vstd::arithmetic::div_mod::lemma_small_mod(next as nat, m as nat);
            } else {
                vstd::arithmetic::div_mod::lemma_mod_self_0(m);
            }
        }
        b = ((b as usize + 1) % max_parent) as u8;
    }
    (a, b)
}

/// Builds a random layered DAG with `depth` layers of `width` gates, and a
/// learner topology of the same shape with independently drawn parents.
pub fn build_random_dag(
    rng: &mut ChaCha8Rng,
    d: usize,
    depth: usize,
    width: usize,
) -> (r: (FixedCircuit, FixedCircuit))
    requires
        d >= 1,
        depth * width <= 256,
        d + depth * width <= 256,
    ensures
        r.0.wf(),
        r.1.wf(),
        r.0.d == d && r.1.d == d,
        r.0.num_gates == depth * width && r.1.num_gates == depth * width,
        r.0.sink == d + depth * width - 1 && r.1.sink == r.0.sink,
        forall|g: int| 0 <= g < depth * width ==> #[trigger] r.0.truth_table@[g] < 16,
        forall|g: int| 0 <= g < depth * width && d + g > 1 ==> #[trigger] r.0.left@[g] != r.0.right@[g],
        forall|g: int| 0 <= g < depth * width && d + g > 1 ==> #[trigger] r.1.left@[g] != r.1.right@[g],
        forall|g: int| 0 <= g < depth * width ==> #[trigger] r.1.truth_table@[g] == 0,
{
    let num_gates = depth * width;
    let mut left: Vec<u8> = Vec::new();
    let mut right: Vec<u8> = Vec::new();
    let mut truth_table: Vec<u8> = Vec::new();
    let mut topo_order: Vec<usize> = Vec::new();
    let mut g: usize = 0;
    while g < num_gates
        invariant
            d >= 1,
            d + num_gates <= 256,
            g <= num_gates,
            left@.len() == g,
            right@.len() == g,
            truth_table@.len() == g,
            topo_order@.len() == g,
            forall|j: int| 0 <= j < g ==> #[trigger] left@[j] < d + j && right@[j] < d + j,
            forall|j: int| 0 <= j < g && d + j > 1 ==> #[trigger] left@[j] != right@[j],
            forall|j: int| 0 <= j < g ==> #[trigger] truth_table@[j] < 16,
            forall|j: int| 0 <= j < g ==> #[trigger] topo_order@[j] == j,
        decreases num_gates - g,
    {
        let max_parent = d + g;
        let (a, b) = draw_parents(rng, max_parent);
        left.push(a);
        right.push(b);
        truth_table.push(random_below_u8(rng, 16));
        topo_order.push(g);
        g = g + 1;
    }
    let sink = (d + num_gates - 1) as u8;
    let mut learner_left: Vec<u8> = Vec::new();
    let mut learner_right: Vec<u8> = Vec::new();
    let mut learner_table: Vec<u8> = Vec::new();
    let mut learner_topo: Vec<usize> = Vec::new();
    let mut g: usize = 0;
    while g < num_gates
        invariant
            d >= 1,
            d + num_gates <= 256,
            g <= num_gates,
            learner_left@.len() == g,
            learner_right@.len() == g,
            learner_table@.len() == g,
            learner_topo@.len() == g,
            forall|j: int| 0 <= j < g ==> #[trigger] learner_left@[j] < d + j && learner_right@[j] < d + j,
            forall|j: int| 0 <= j < g && d + j > 1 ==> #[trigger] learner_left@[j] != learner_right@[j],
            forall|j: int| 0 <= j < g ==> #[trigger] learner_table@[j] == 0,
            forall|j: int| 0 <= j < g ==> #[trigger] learner_topo@[j] == j,
        decreases num_gates - g,
    {
        let max_parent = d + g;
        let (a, b) = draw_parents(rng, max_parent);
        learner_left.push(a);
        learner_right.push(b);
        learner_table.push(0);
        learner_topo.push(g);
        g = g + 1;
    }
    let dgp = FixedCircuit { d, num_gates, left, right, truth_table, sink, topo_order };
    let learner = FixedCircuit {
        d,
        num_gates,
        left: learner_left,
        right: learner_right,
        truth_table: learner_table,
        sink,
        topo_order: learner_topo,
    };
    (dgp, learner)
}

/// Copies the circuit's parent wiring into a learner topology (matched mode).
pub fn matched_learner(dgp: &FixedCircuit) -> (r: FixedCircuit)
    requires
        dgp.wf(),
    ensures
        r.wf(),
        r.d == dgp.d,
        r.num_gates == dgp.num_gates,
        r.left@ == dgp.left@,
        r.right@ == dgp.right@,
        r.sink == dgp.sink,
        r.topo_order@ == dgp.topo_order@,
        forall|g: int| 0 <= g < dgp.num_gates ==> #[trigger] r.truth_table@[g] == 0,
{
    FixedCircuit {
        d: dgp.d,
        num_gates: dgp.num_gates,
        left: copy_vec(&dgp.left),
        right: copy_vec(&dgp.right),
        truth_table: crate::workspace::filled(0u8, dgp.num_gates),
        sink: dgp.sink,
        topo_order: copy_vec(&dgp.topo_order),
    }
}

/// A copy of `v`.
fn copy_vec<T: Copy>(v: &Vec<T>) -> (r: Vec<T>)
    ensures
        r@ == v@,
{
    let mut r: Vec<T> = Vec::new();
    let mut i: usize = 0;
    while i < v.len()
        invariant
            i <= v@.len(),
            r@ == v@.subrange(0, i as int),
        decreases v@.len() - i,
    {
        r.push(v[i]);
        i = i + 1;
        assert(r@ =~= v@.subrange(0, i as int));
    }
    assert(v@.subrange(0, v@.len() as int) =~= v@);
    r
}

} // verus!
