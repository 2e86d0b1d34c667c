//! Random data-generating circuits and i.i.d. fair-coin input streams.

use vstd::prelude::*;
use rand_chacha::ChaCha8Rng;
use crate::circuit_exp::circuit::{build_random_dag, matched_learner, FixedCircuit, TopologyMode};
use crate::circuit_exp::rng::fair_coin;

verus! {

/// One streaming step: input bits and the circuit's sink label.
#[derive(Debug, Clone)]
pub struct StreamSample {
    pub x: Vec<bool>,
    pub y: bool,
}

pub fn build_dgp(rng: &mut ChaCha8Rng, d: usize, depth: usize, width: usize) -> (r: FixedCircuit)
    requires
        d >= 1,
        depth * width <= 256,
        d + depth * width <= 256,
    ensures
        r.wf(),
        r.d == d,
        r.num_gates == depth * width,
        r.sink == d + depth * width - 1,
{
    let (dgp, _) = build_random_dag(rng, d, depth, width);
    dgp
}

pub fn build_learner_topology(
    rng: &mut ChaCha8Rng,
    dgp: &FixedCircuit,
    mode: TopologyMode,
) -> (r: FixedCircuit)
    requires
        dgp.wf(),
        mode == TopologyMode::Independent ==> dgp.d >= 1,
    ensures
        r.wf(),
        r.d == dgp.d,
        r.num_gates == dgp.num_gates,
        mode == TopologyMode::Matched ==> r.left@ == dgp.left@ && r.right@ == dgp.right@,
{
    match mode {
        TopologyMode::Matched => matched_learner(dgp),
        TopologyMode::Independent => {
            let depth = infer_depth(dgp);
            let width = infer_width(dgp);
            proof {
                assert(depth * width == dgp.num_gates) by (nonlinear_arith)
                    requires
                        depth == if dgp.num_gates == 0 { 0usize } else { 1usize },
                        width == if dgp.num_gates == 0 { 1 } else { dgp.num_gates };
            }
            let (_, learner) = build_random_dag(rng, dgp.d, depth, width);
            learner
        },
    }
}

/// Layer count recovered from the number of gates and the inferred width.
fn infer_depth(dgp: &FixedCircuit) -> (r: usize)
    requires
        dgp.wf(),
    ensures
        r == if dgp.num_gates == 0 { 0usize } else { 1usize },
{
    let width = infer_width(dgp);
    proof {
        if dgp.num_gates > 0 {
            vstd::arithmetic::div_mod::lemma_div_by_self(dgp.num_gates as int);
        }
    }
    dgp.num_gates / (if width >= 1 { width } else { 1 })
}

/// Largest divisor of the number of gates (one layer holding every gate), or 1
/// without gates.
fn infer_width(dgp: &FixedCircuit) -> (r: usize)
    requires
        dgp.wf(),
    ensures
        r == if dgp.num_gates == 0 { 1 } else { dgp.num_gates },
{
    if dgp.num_gates == 0 {
        return 1;
    }
    let g = dgp.num_gates;
    let mut w = g;
    while w >= 1
        invariant
            g == dgp.num_gates,
            g >= 1,
            w <= g,
            forall|v: int| w < v <= g ==> #[trigger] (g as int % v) != 0,
        decreases w,
    {
        if g % w == 0 {
            proof {
                if w < g {
                    vstd::arithmetic::div_mod::lemma_mod_self_0(g as int);
                    assert(g % g == 0);
                }
            }
            return w;
        }
        w = w - 1;
    }
    g
}

/// Input bits drawn by fair coins; the label is left `false`.
pub fn stream_sample(rng: &mut ChaCha8Rng, d: usize) -> (r: StreamSample)
    ensures
        r.x@.len() == d,
        !r.y,
{
    let mut x: Vec<bool> = Vec::new();
    let mut i: usize = 0;
    while i < d
        invariant
            i <= d,
            x@.len() == i,
        decreases d - i,
    {
        x.push(fair_coin(rng));
        i = i + 1;
    }
    StreamSample { x, y: false }
}

/// The sample `x` with the circuit's sink value as its label.
pub fn labeled_sample(dgp: &FixedCircuit, x: &[bool]) -> (r: StreamSample)
    requires
        dgp.wf(),
        x@.len() == dgp.d,
    ensures
        r.x@ == x@,
        r.y == dgp.node_value(x@, dgp.sink as int),
{
    let mut v: Vec<bool> = Vec::new();
    let mut i: usize = 0;
    while i < x.len()
        invariant
            i <= x@.len(),
            v@ == x@.subrange(0, i as int),
        decreases x@.len() - i,
    {
        v.push(x[i]);
        i = i + 1;
        assert(v@ =~= x@.subrange(0, i as int));
    }
    assert(x@.subrange(0, x@.len() as int) =~= x@);
    StreamSample { x: v, y: dgp.eval_sink(x) }
}

} // verus!
