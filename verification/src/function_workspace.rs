//! Preallocated buffers of the function builder and of compaction, with the
//! column cache of the nodes built so far.

use vstd::prelude::*;
use crate::boolean_circuit::{evaluate_truth_table, gate_output};
use crate::function_build_common::{
    BuildNodeId, EphemeralNode, PairCandidate, fcol, fcount, feature_rows_ok, node_col, node_value,
};
use crate::function_compact::{CompactSlot, NO_ALIAS, NO_MAP};
use crate::function_graph::CompactNode;
use crate::batch::SignBatch;
use crate::workspace::filled;

verus! {

/// Buffers sized once for at most `capacity` graph nodes.
#[derive(Debug)]
pub struct BuildWorkspace {
    pub nodes: Vec<EphemeralNode>,
    pub node_len: usize,
    pub layers: Vec<Vec<BuildNodeId>>,
    pub association_scores: Vec<i64>,
    pub accuracy_scores: Vec<u8>,
    pub columns: Vec<Option<Vec<bool>>>,
    pub pair_candidates: Vec<PairCandidate>,
    pub compact_aliases: Vec<u32>,
    pub compact_slots: Vec<CompactSlot>,
    pub compact_reachable: Vec<bool>,
    pub compact_order: Vec<u16>,
    pub compact_old_to_new: Vec<u16>,
    pub compact_sources: Vec<usize>,
    pub compact_nodes: Vec<CompactNode>,
}

/// Nodes `[0, n)` read only earlier nodes.
pub open spec fn prefix_topological(nodes: Seq<EphemeralNode>, n: int) -> bool {
    forall|i: int| 0 <= i < n ==> match #[trigger] nodes[i] {
        EphemeralNode::Source { input_index } => true,
        EphemeralNode::Composed { first, second, truth_table } => first.0 < i && second.0 < i,
    }
}

/// Sources among nodes `[0, n)` read feature columns of the batch.
pub open spec fn prefix_sources(nodes: Seq<EphemeralNode>, n: int, batch: SignBatch) -> bool {
    forall|i: int| 0 <= i < n ==> match #[trigger] nodes[i] {
        EphemeralNode::Source { input_index } => input_index < fcount(batch),
        EphemeralNode::Composed { first, second, truth_table } => true,
    }
}

impl BuildWorkspace {
    /// Number of graph nodes the buffers hold.
    pub open spec fn capacity(self) -> int {
        self.nodes@.len() as int
    }

    /// Every buffer is sized for `capacity()` nodes; the traversal stack for
    /// twice as many plus one.
    pub open spec fn wf(self) -> bool {
        let cap = self.capacity();
        &&& self.node_len <= cap
        &&& self.association_scores@.len() == cap
        &&& self.accuracy_scores@.len() == cap
        &&& self.columns@.len() == cap
        &&& self.compact_aliases@.len() == cap
        &&& self.compact_slots@.len() == cap
        &&& self.compact_reachable@.len() == cap
        &&& self.compact_order@.len() == 2 * cap + 1
        &&& self.compact_old_to_new@.len() == cap
        &&& self.compact_sources@.len() == cap
        &&& self.compact_nodes@.len() == cap
    }

    /// Every cached column belongs to a built node and holds its values on
    /// the first `n` rows.
    pub open spec fn cache_ok(self, batch: SignBatch, n: int) -> bool {
        forall|id: int| 0 <= id < self.columns@.len() && (#[trigger] self.columns@[id]) is Some ==> id < self.node_len
            && self.columns@[id].unwrap()@ == node_col(self.nodes@, batch, id, n)
    }

    /// Buffers for `capacity` graph nodes, holding none.
    pub fn new(capacity: usize) -> (r: Self)
        requires
            capacity < 0x4000_0000,
        ensures
            r.wf(),
            r.capacity() == capacity,
            r.node_len == 0,
            r.layers@.len() == 0,
            forall|id: int| 0 <= id < capacity ==> (#[trigger] r.columns@[id]) is None,
    {
        let mut columns: Vec<Option<Vec<bool>>> = Vec::new();
        let mut i: usize = 0;
        while i < capacity
            invariant
                i <= capacity,
                columns@.len() == i,
                forall|id: int| 0 <= id < i ==> (#[trigger] columns@[id]) is None,
            decreases capacity - i,
        {
            columns.push(None);
            i = i + 1;
        }
        Self {
            nodes: filled(EphemeralNode::Source { input_index: 0 }, capacity),
            node_len: 0,
            layers: Vec::new(),
            association_scores: filled(0i64, capacity),
            accuracy_scores: filled(0u8, capacity),
            columns,
            pair_candidates: Vec::new(),
            compact_aliases: filled(NO_ALIAS, capacity),
            compact_slots: filled(CompactSlot::default(), capacity),
            compact_reachable: filled(false, capacity),
            compact_order: filled(0u16, 2 * capacity + 1),
            compact_old_to_new: filled(NO_MAP, capacity),
            compact_sources: filled(0usize, capacity),
            compact_nodes: filled(CompactNode::Constant(false), capacity),
        }
    }

    /// Forgets every built node, layer, cached column and candidate.
    pub fn reset(&mut self)
        requires
            old(self).wf(),
        ensures
            final(self).wf(),
            final(self).capacity() == old(self).capacity(),
            final(self).node_len == 0,
            final(self).layers@.len() == 0,
            final(self).pair_candidates@.len() == 0,
            forall|id: int| 0 <= id < final(self).columns@.len() ==> (#[trigger] final(self).columns@[id]) is None,
    {
        self.node_len = 0;
        self.layers = Vec::new();
        self.pair_candidates = Vec::new();
        let n = self.columns.len();
        let ghost pre = *self;
        let mut i: usize = 0;
        while i < n
            invariant
                n == self.columns@.len(),
                same_but_columns(pre, *self),
                i <= n,
                forall|id: int| 0 <= id < i ==> (#[trigger] self.columns@[id]) is None,
            decreases n - i,
        {
            self.columns.set(i, None);
            i = i + 1;
        }
    }

    /// Drops every cached column but those of `keep`.
    pub fn retain_only(&mut self, keep: &[BuildNodeId])
        requires
            old(self).wf(),
        ensures
            same_but_columns(*old(self), *final(self)),
            forall|id: int| 0 <= id < final(self).columns@.len() ==> (#[trigger] final(self).columns@[id]) is Some
                ==> old(self).columns@[id] is Some && final(self).columns@[id] == old(self).columns@[id],
            forall|k: int| 0 <= k < keep@.len() && (#[trigger] keep@[k]).0 < old(self).columns@.len()
                ==> final(self).columns@[keep@[k].0 as int] == old(self).columns@[keep@[k].0 as int],
            forall|id: int| 0 <= id < final(self).columns@.len() && !(exists|k: int| 0 <= k < keep@.len() && (#[trigger] keep@[k]).0 == id)
                ==> (#[trigger] final(self).columns@[id]) is None,
    {
        let n = self.columns.len();
        let ghost before = self.columns@;
        let mut i: usize = 0;
        while i < n
            invariant
                n == self.columns@.len(),
                same_but_columns(*old(self), *self),
                before.len() == n,
                i <= n,
                forall|id: int| 0 <= id < n ==> (#[trigger] self.columns@[id]) is Some
                    ==> before[id] is Some && self.columns@[id] == before[id],
                forall|id: int| i <= id < n ==> #[trigger] self.columns@[id] == before[id],
                forall|k: int| 0 <= k < keep@.len() && (#[trigger] keep@[k]).0 < n
                    ==> self.columns@[keep@[k].0 as int] == before[keep@[k].0 as int],
                forall|id: int| 0 <= id < i && !(exists|k: int| 0 <= k < keep@.len() && (#[trigger] keep@[k]).0 == id)
                    ==> (#[trigger] self.columns@[id]) is None,
            decreases n - i,
        {
            let mut kept = false;
            let mut k: usize = 0;
            while k < keep.len()
                invariant
                    k <= keep@.len(),
                    kept == exists|j: int| 0 <= j < k && (#[trigger] keep@[j]).0 == i,
                decreases keep@.len() - k,
            {
                if keep[k].0 == i {
                    kept = true;
                }
                k = k + 1;
            }
            if !kept {
                self.columns.set(i, None);
            }
            i = i + 1;
        }
    }
}

/// Every field but the column cache is unchanged, and the cache keeps its size.
pub open spec fn same_but_columns(a: BuildWorkspace, b: BuildWorkspace) -> bool {
    &&& b.nodes == a.nodes
    &&& b.node_len == a.node_len
    &&& b.layers == a.layers
    &&& b.association_scores == a.association_scores
    &&& b.accuracy_scores == a.accuracy_scores
    &&& b.columns@.len() == a.columns@.len()
    &&& b.pair_candidates == a.pair_candidates
    &&& b.compact_aliases == a.compact_aliases
    &&& b.compact_slots == a.compact_slots
    &&& b.compact_reachable == a.compact_reachable
    &&& b.compact_order == a.compact_order
    &&& b.compact_old_to_new == a.compact_old_to_new
    &&& b.compact_sources == a.compact_sources
    &&& b.compact_nodes == a.compact_nodes
}

/// Truth table `truth_table` applied row by row over the common prefix.
pub fn gate_columns(truth_table: u8, first: &[bool], second: &[bool]) -> (out: Vec<bool>)
    ensures
        out@.len() == if first@.len() <= second@.len() { first@.len() } else { second@.len() },
        forall|r: int| 0 <= r < out@.len() ==> #[trigger] out@[r] == gate_output(truth_table, first@[r], second@[r]),
{
    let mut out: Vec<bool> = Vec::new();
    let mut i: usize = 0;
    while i < first.len() && i < second.len()
        invariant
            i <= first@.len(),
            i <= second@.len(),
            out@.len() == i,
            forall|r: int| 0 <= r < i ==> #[trigger] out@[r] == gate_output(truth_table, first@[r], second@[r]),
        decreases first@.len() - i,
    {
        out.push(evaluate_truth_table(truth_table, first[i], second[i]));
        i = i + 1;
    }
    out
}

/// Caches the column of node `id`, and of the nodes it reads.
pub fn ensure_column(ws: &mut BuildWorkspace, batch: SignBatch<'_>, id: BuildNodeId, Ghost(n): Ghost<int>)
    requires
        old(ws).wf(),
        id.0 < old(ws).node_len,
        prefix_topological(old(ws).nodes@, old(ws).node_len as int),
        prefix_sources(old(ws).nodes@, old(ws).node_len as int, batch),
        feature_rows_ok(batch, n),
        old(ws).cache_ok(batch, n),
    ensures
        same_but_columns(*old(ws), *final(ws)),
        final(ws).cache_ok(batch, n),
        final(ws).columns@[id.0 as int] is Some,
        forall|j: int| 0 <= j < old(ws).columns@.len() && (#[trigger] old(ws).columns@[j]) is Some
            ==> final(ws).columns@[j] == old(ws).columns@[j],
    decreases id.0,
{
    if ws.columns[id.0].is_some() {
        return;
    }
    match ws.nodes[id.0] {
        EphemeralNode::Source { input_index } => {
            let column = batch.feature_columns[input_index];
            let out = copy_slice(column);
            proof {
                assert(fcol(batch, input_index as int).len() == n);
                assert(out@ =~= node_col(ws.nodes@, batch, id.0 as int, n));
            }
            ws.columns.set(id.0, Some(out));
        },
        EphemeralNode::Composed { first, second, truth_table } => {
            assert(ws.nodes@[id.0 as int] == (EphemeralNode::Composed { first, second, truth_table }));
            ensure_column(ws, batch, first, Ghost(n));
            ensure_column(ws, batch, second, Ghost(n));
            let out = match &ws.columns[first.0] {
                Some(a) => match &ws.columns[second.0] {
                    Some(b) => gate_columns(truth_table, a.as_slice(), b.as_slice()),
                    None => Vec::new(),
                },
                None => Vec::new(),
            };
            proof {
                let fa = ws.columns@[first.0 as int].unwrap()@;
                let fb = ws.columns@[second.0 as int].unwrap()@;
                assert(fa == node_col(ws.nodes@, batch, first.0 as int, n));
                assert(fb == node_col(ws.nodes@, batch, second.0 as int, n));
                assert(out@ =~= node_col(ws.nodes@, batch, id.0 as int, n));
            }
            ws.columns.set(id.0, Some(out));
        },
    }
}

/// Copy of a slice.
fn copy_slice(column: &[bool]) -> (out: Vec<bool>)
    ensures
        out@ == column@,
{
    let mut out: Vec<bool> = Vec::new();
    let mut i: usize = 0;
    while i < column.len()
        invariant
            i <= column@.len(),
            out@ == column@.subrange(0, i as int),
        decreases column@.len() - i,
    {
        out.push(column[i]);
        i = i + 1;
        assert(out@ =~= column@.subrange(0, i as int));
    }
    assert(out@ =~= column@);
    out
}

/// The column of a built node: a source's batch column, or a cached column.
pub fn parent_column<'a>(ws: &'a BuildWorkspace, batch: SignBatch<'a>, id: BuildNodeId, Ghost(n): Ghost<int>) -> (r: &'a [bool])
    requires
        ws.wf(),
        id.0 < ws.node_len,
        prefix_sources(ws.nodes@, ws.node_len as int, batch),
        feature_rows_ok(batch, n),
        ws.cache_ok(batch, n),
        ws.nodes@[id.0 as int] is Composed ==> ws.columns@[id.0 as int] is Some,
    ensures
        r@ == node_col(ws.nodes@, batch, id.0 as int, n),
{
    match ws.nodes[id.0] {
        EphemeralNode::Source { input_index } => {
            let column = batch.feature_columns[input_index];
            proof {
                assert(fcol(batch, input_index as int).len() == n);
                assert(column@ =~= node_col(ws.nodes@, batch, id.0 as int, n));
            }
            column
        },
        EphemeralNode::Composed { .. } => {
            match &ws.columns[id.0] {
                Some(c) => c.as_slice(),
                None => {
                    assert(false);
                    &[]
                },
            }
        },
    }
}

} // verus!
