//! Compact boolean functions: sources, constants and two-input truth-table
//! gates in topological order, evaluated with a scratch buffer.

use vstd::prelude::*;
use crate::boolean_circuit::{evaluate_truth_table, gate_output};
use crate::conjunction_expert::feature_value;

verus! {

#[derive(Debug, Clone, Copy, PartialEq, Eq, Structural)]
pub enum CompactNode {
    Source(usize),
    Constant(bool),
    Composed { first: usize, second: usize, truth_table: u8 },
}

/// Immutable compact boolean function for ensemble evaluation.
#[derive(Debug, Clone, PartialEq, Eq)]
pub struct FunctionGraph {
    source_indices: Vec<usize>,
    nodes: Vec<CompactNode>,
    n_sources: u16,
    n_nodes: u16,
    output: u16,
    invert_output: bool,
}

/// Nodes read only earlier nodes and existing source slots.
pub open spec fn nodes_topological(nodes: Seq<CompactNode>, source_slots: int) -> bool {
    forall|i: int| 0 <= i < nodes.len() ==> match #[trigger] nodes[i] {
        CompactNode::Source(s) => s < source_slots,
        CompactNode::Constant(_) => true,
        CompactNode::Composed { first, second, truth_table } => first < i && second < i,
    }
}

/// Value of node `i` on `features`; a missing feature reads as `false`.
pub open spec fn compact_value(nodes: Seq<CompactNode>, sources: Seq<usize>, features: Seq<bool>, i: int) -> bool
    decreases i,
{
    if 0 <= i < nodes.len() {
        match nodes[i] {
            CompactNode::Source(s) => feature_value(features, sources[s as int] as int),
            CompactNode::Constant(v) => v,
            CompactNode::Composed { first, second, truth_table } => if first < i && second < i {
                gate_output(
                    truth_table,
                    compact_value(nodes, sources, features, first as int),
                    compact_value(nodes, sources, features, second as int),
                )
            } else {
                false
            },
        }
    } else {
        false
    }
}

impl FunctionGraph {
    /// The source slots in use.
    pub closed spec fn sources(&self) -> Seq<usize> {
        self.source_indices@.subrange(0, self.n_sources as int)
    }

    /// All source slots, in use or not.
    pub closed spec fn source_slots(&self) -> Seq<usize> {
        self.source_indices@
    }

    /// The nodes in use.
    pub closed spec fn node_list(&self) -> Seq<CompactNode> {
        self.nodes@.subrange(0, self.n_nodes as int)
    }

    pub closed spec fn output_node(&self) -> int {
        self.output as int
    }

    pub closed spec fn inverts(&self) -> bool {
        self.invert_output
    }

    pub closed spec fn source_capacity(&self) -> nat {
        self.source_indices@.len()
    }

    pub closed spec fn node_capacity(&self) -> nat {
        self.nodes@.len()
    }

    pub closed spec fn wf(&self) -> bool {
        &&& self.n_sources <= self.source_indices@.len()
        &&& self.n_nodes <= self.nodes@.len()
    }

    /// The function's value on `features`.
    pub open spec fn value(&self, features: Seq<bool>) -> bool {
        let v = compact_value(self.node_list(), self.source_slots(), features, self.output_node());
        if self.inverts() { !v } else { v }
    }

    /// The sources in use are the first source slots.
    pub proof fn lemma_sources_prefix(&self)
        requires
            self.wf(),
        ensures
            forall|s: int| 0 <= s < self.sources().len() ==> #[trigger] self.source_slots()[s] == self.sources()[s],
    {
    }

    /// The sources in use are among the source slots.
    pub proof fn lemma_sources_within(&self)
        requires
            self.wf(),
        ensures
            self.sources().len() <= self.source_capacity(),
    {
    }

    pub fn empty(source_capacity: usize, node_capacity: usize) -> (r: Self)
        ensures
            r.wf(),
            r.sources() == Seq::<usize>::empty(),
            r.node_list() == Seq::<CompactNode>::empty(),
            r.output_node() == 0,
            !r.inverts(),
            r.source_capacity() == source_capacity,
            r.node_capacity() == node_capacity,
    {
        let r = Self {
            source_indices: crate::workspace::filled(0usize, source_capacity),
            nodes: crate::workspace::filled(CompactNode::Constant(false), node_capacity),
            n_sources: 0,
            n_nodes: 0,
            output: 0,
            invert_output: false,
        };
        assert(r.sources() =~= Seq::<usize>::empty());
        assert(r.node_list() =~= Seq::<CompactNode>::empty());
        r
    }

    pub fn reset_from_parts(
        &mut self,
        source_indices: &[usize],
        nodes: &[CompactNode],
        output: usize,
        invert_output: bool,
    )
        requires
            old(self).wf(),
            source_indices@.len() <= old(self).source_capacity(),
            nodes@.len() <= old(self).node_capacity(),
            source_indices@.len() <= u16::MAX,
            nodes@.len() <= u16::MAX,
            output <= u16::MAX,
        ensures
            final(self).wf(),
            final(self).sources() == source_indices@,
            final(self).node_list() == nodes@,
            final(self).output_node() == output,
            final(self).inverts() == invert_output,
            final(self).source_capacity() == old(self).source_capacity(),
            final(self).node_capacity() == old(self).node_capacity(),
            forall|k: int| source_indices@.len() <= k < old(self).source_capacity()
                ==> #[trigger] final(self).source_slots()[k] == old(self).source_slots()[k],
    {
        let mut i: usize = 0;
        while i < source_indices.len()
            invariant
                i <= source_indices@.len(),
                source_indices@.len() <= self.source_indices@.len(),
                self.source_indices@.len() == old(self).source_indices@.len(),
                self.nodes == old(self).nodes,
                forall|k: int| 0 <= k < i ==> #[trigger] self.source_indices@[k] == source_indices@[k],
                forall|k: int| i <= k < self.source_indices@.len() ==> #[trigger] self.source_indices@[k] == old(self).source_indices@[k],
            decreases source_indices@.len() - i,
        {
            self.source_indices[i] = source_indices[i];
            i = i + 1;
        }
        let mut j: usize = 0;
        while j < nodes.len()
            invariant
                j <= nodes@.len(),
                nodes@.len() <= self.nodes@.len(),
                self.nodes@.len() == old(self).nodes@.len(),
                self.source_indices@.len() == old(self).source_indices@.len(),
                forall|k: int| 0 <= k < source_indices@.len() ==> #[trigger] self.source_indices@[k] == source_indices@[k],
                forall|k: int| source_indices@.len() <= k < self.source_indices@.len() ==> #[trigger] self.source_indices@[k] == old(self).source_indices@[k],
                forall|k: int| 0 <= k < j ==> #[trigger] self.nodes@[k] == nodes@[k],
            decreases nodes@.len() - j,
        {
            self.nodes[j] = nodes[j];
            j = j + 1;
        }
        self.n_sources = source_indices.len() as u16;
        self.n_nodes = nodes.len() as u16;
        self.output = output as u16;
        self.invert_output = invert_output;
        assert(self.sources() =~= source_indices@);
        assert(self.node_list() =~= nodes@);
    }

    pub fn copy_from(&mut self, other: &Self)
        requires
            old(self).wf(),
            other.wf(),
            other.sources().len() <= old(self).source_capacity(),
            other.node_list().len() <= old(self).node_capacity(),
        ensures
            final(self).wf(),
            final(self).sources() == other.sources(),
            final(self).node_list() == other.node_list(),
            final(self).output_node() == other.output_node(),
            final(self).inverts() == other.inverts(),
            final(self).source_capacity() == old(self).source_capacity(),
            final(self).node_capacity() == old(self).node_capacity(),
    {
        let source_len = other.n_sources as usize;
        let node_len = other.n_nodes as usize;
        let mut i: usize = 0;
        while i < source_len
            invariant
                source_len == other.n_sources,
                other.wf(),
                i <= source_len,
                source_len <= self.source_indices@.len(),
                self.source_indices@.len() == old(self).source_indices@.len(),
                self.nodes == old(self).nodes,
                forall|k: int| 0 <= k < i ==> #[trigger] self.source_indices@[k] == other.source_indices@[k],
            decreases source_len - i,
        {
            self.source_indices[i] = other.source_indices[i];
            i = i + 1;
        }
        let mut j: usize = 0;
        while j < node_len
            invariant
                node_len == other.n_nodes,
                source_len == other.n_sources,
                other.wf(),
                j <= node_len,
                node_len <= self.nodes@.len(),
                source_len <= self.source_indices@.len(),
                self.nodes@.len() == old(self).nodes@.len(),
                self.source_indices@.len() == old(self).source_indices@.len(),
                forall|k: int| 0 <= k < source_len ==> #[trigger] self.source_indices@[k] == other.source_indices@[k],
                forall|k: int| 0 <= k < j ==> #[trigger] self.nodes@[k] == other.nodes@[k],
            decreases node_len - j,
        {
            self.nodes[j] = other.nodes[j];
            j = j + 1;
        }
        self.n_sources = other.n_sources;
        self.n_nodes = other.n_nodes;
        self.output = other.output;
        self.invert_output = other.invert_output;
        assert(self.sources() =~= other.sources());
        assert(self.node_list() =~= other.node_list());
    }

    pub fn clear(&mut self)
        requires
            old(self).wf(),
        ensures
            final(self).wf(),
            final(self).sources() == Seq::<usize>::empty(),
            final(self).node_list() == Seq::<CompactNode>::empty(),
            final(self).output_node() == 0,
            !final(self).inverts(),
            final(self).source_capacity() == old(self).source_capacity(),
            final(self).node_capacity() == old(self).node_capacity(),
    {
        self.n_sources = 0;
        self.n_nodes = 0;
        self.output = 0;
        self.invert_output = false;
        assert(self.sources() =~= Seq::<usize>::empty());
        assert(self.node_list() =~= Seq::<CompactNode>::empty());
    }

    /// Evaluates every node in order into `scratch`; returns the output
    /// node's value, inverted when the function says so.
    pub fn evaluate_with_scratch(&self, features: &[bool], scratch: &mut [bool]) -> (r: bool)
        requires
            self.wf(),
            nodes_topological(self.node_list(), self.source_capacity() as int),
            self.node_list().len() <= old(scratch)@.len(),
            self.output_node() < old(scratch)@.len(),
            self.output_node() < self.node_list().len(),
        ensures
            r == self.value(features@),
            final(scratch)@.len() == old(scratch)@.len(),
    {
        let n_nodes = self.n_nodes as usize;
        let ghost nodes = self.node_list();
        let ghost sources = self.source_slots();
        let mut index: usize = 0;
        while index < n_nodes
            invariant
                self.wf(),
                n_nodes == self.n_nodes,
                nodes == self.node_list(),
                sources == self.source_slots(),
                nodes_topological(nodes, sources.len() as int),
                n_nodes <= scratch@.len(),
                scratch@.len() == old(scratch)@.len(),
                index <= n_nodes,
                forall|k: int| 0 <= k < index ==> #[trigger] scratch@[k] == compact_value(nodes, sources, features@, k),
            decreases n_nodes - index,
        {
            proof {
                assert(nodes[index as int] == self.nodes@[index as int]);
            }
            let value = match self.nodes[index] {
                CompactNode::Source(source_index) => {
                    let input = self.source_indices[source_index];
                    if input < features.len() { features[input] } else { false }
                },
                CompactNode::Constant(value) => value,
                CompactNode::Composed { first, second, truth_table } => {
                    evaluate_truth_table(truth_table, scratch[first], scratch[second])
                },
            };
            scratch[index] = value;
            index = index + 1;
        }
        let value = scratch[self.output as usize];
        if self.invert_output { !value } else { value }
    }

    pub fn eval_scratch_len(&self) -> (r: usize)
        requires
            self.wf(),
        ensures
            r == self.node_list().len(),
    {
        self.n_nodes as usize
    }

    pub fn invert_output(&self) -> (r: bool)
        ensures
            r == self.inverts(),
    {
        self.invert_output
    }

    pub fn nodes(&self) -> (r: &[CompactNode])
        requires
            self.wf(),
        ensures
            r@ == self.node_list(),
    {
        crate::batch::slice_range(self.nodes.as_slice(), 0, self.n_nodes as usize)
    }

    pub fn node_count(&self) -> (r: usize)
        requires
            self.wf(),
        ensures
            r == self.node_list().len(),
    {
        self.n_nodes as usize
    }

    pub fn source_count(&self) -> (r: usize)
        requires
            self.wf(),
        ensures
            r == self.sources().len(),
    {
        self.n_sources as usize
    }
}

} // verus!
