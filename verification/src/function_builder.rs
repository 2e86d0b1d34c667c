//! Layer-by-layer construction of a boolean function: non-constant sources,
//! then top-ranked pairwise truth-table gates over the previous layer.

use vstd::prelude::*;
use crate::association::{
    association, association_score, count_eq_upto, count_true, count_true_exec, count_true_upto,
    count_and_upto, min_len, lemma_count_eq_upto_bound, lemma_count_true_upto_bound,
    lemma_count_and_upto_bound,
};
use crate::batch::SignBatch;
use crate::binary_truth_table::{
    FeatureCounter, abs_int, column_counts, law_table_matches_are_column_hits, law_table_scores_are_column_counts,
    lemma_counts_are_column_counts,
    majority_table, zip_columns,
};
use crate::boolean_circuit::gate_output;
use crate::function_build_common::{
    effective_of, BuildNodeId, EphemeralGraph, EphemeralNode, FunctionBuildConfig, FunctionBuildError,
    FunctionModel, PairCandidate, best_by_effective, concat_layers, constant_col, correct_count,
    fcol, fcount, feature_rows_ok, first_len, is_constant_column, is_constant_truth_table,
    model_predictions, model_wf, node_col, node_value, ordered_pair, parent_top_k_slice, predict_model,
    ranked_prefix, score_at, nodes_sorted, node_before, select_output_top_k_by_association, sources_present, surviving_nodes,
    top_k_pair_candidates, topological, validate_batch, validate_build_config,
};
use crate::function_workspace::{
    BuildWorkspace, ensure_column, parent_column, prefix_sources, prefix_topological,
    same_but_columns,
};

verus! {

/// Majority table of the columns of `first` and `second` against the signs.
pub open spec fn pair_table(nodes: Seq<EphemeralNode>, batch: SignBatch, n: int, first: BuildNodeId, second: BuildNodeId) -> int {
    majority_table(column_counts(node_col(nodes, batch, first.0 as int, n), node_col(nodes, batch, second.0 as int, n), batch.signs@))
}

/// Both columns vary and their majority table is not constant: the pair
/// becomes a candidate.
pub open spec fn pair_wanted(nodes: Seq<EphemeralNode>, batch: SignBatch, n: int, first: BuildNodeId, second: BuildNodeId) -> bool {
    &&& !constant_col(node_col(nodes, batch, first.0 as int, n))
    &&& !constant_col(node_col(nodes, batch, second.0 as int, n))
    &&& pair_table(nodes, batch, n, first, second) != 0
    &&& pair_table(nodes, batch, n, first, second) != 15
}

/// Some candidate is the pair `p`.
pub open spec fn has_candidate(candidates: Seq<PairCandidate>, p: (BuildNodeId, BuildNodeId)) -> bool {
    exists|k: int| 0 <= k < candidates.len() && (#[trigger] candidates[k]).first == p.0 && candidates[k].second == p.1
}

/// Column of truth table `truth_table` over nodes `first` and `second`.
pub open spec fn pair_col(nodes: Seq<EphemeralNode>, batch: SignBatch, first: BuildNodeId, second: BuildNodeId, truth_table: u8, n: int) -> Seq<bool> {
    Seq::new(n as nat, |r: int| gate_output(truth_table, node_value(nodes, batch, first.0 as int, r), node_value(nodes, batch, second.0 as int, r)))
}

/// A scored pair of two non-constant parents under a non-constant table,
/// whose recorded matches are those of the pair's column.
pub open spec fn candidate_ok(nodes: Seq<EphemeralNode>, batch: SignBatch, n: int, parents: Seq<BuildNodeId>, c: PairCandidate) -> bool {
    &&& parents.contains(c.first)
    &&& parents.contains(c.second)
    &&& c.first.0 <= c.second.0
    &&& c.truth_table != 0 && c.truth_table != 15
    &&& !constant_col(node_col(nodes, batch, c.first.0 as int, n))
    &&& !constant_col(node_col(nodes, batch, c.second.0 as int, n))
    &&& c.matched as int == count_eq_upto(pair_col(nodes, batch, c.first, c.second, c.truth_table, n), batch.signs@, n)
    &&& c.abs_assoc as int == abs_int(association(pair_col(nodes, batch, c.first, c.second, c.truth_table, n), batch.signs@))
}

/// Recorded matches of every built node are those of its column.
pub open spec fn acc_ok(ws: BuildWorkspace, batch: SignBatch, n: int) -> bool {
    forall|id: int| 0 <= id < ws.node_len ==> #[trigger] ws.accuracy_scores@[id] as int
        == count_eq_upto(node_col(ws.nodes@, batch, id, n), batch.signs@, n)
}

/// The built nodes read earlier nodes and batch features, their cached
/// columns and recorded matches are right.
pub open spec fn built_ok(ws: BuildWorkspace, batch: SignBatch, n: int) -> bool {
    &&& ws.wf()
    &&& prefix_topological(ws.nodes@, ws.node_len as int)
    &&& prefix_sources(ws.nodes@, ws.node_len as int, batch)
    &&& ws.cache_ok(batch, n)
    &&& acc_ok(ws, batch, n)
}

/// Writing a node past `i` leaves the value of node `i` unchanged.
pub proof fn lemma_node_value_update(nodes: Seq<EphemeralNode>, k: int, x: EphemeralNode, batch: SignBatch, i: int, row: int)
    requires
        0 <= i < k < nodes.len(),
    ensures
        node_value(nodes.update(k, x), batch, i, row) == node_value(nodes, batch, i, row),
    decreases i,
{
    let m = nodes.update(k, x);
    assert(m[i] == nodes[i]);
    match nodes[i] {
        EphemeralNode::Source { input_index } => {},
        EphemeralNode::Composed { first, second, truth_table } => {
            if first.0 < i && second.0 < i {
                lemma_node_value_update(nodes, k, x, batch, first.0 as int, row);
                lemma_node_value_update(nodes, k, x, batch, second.0 as int, row);
            }
        },
    }
}

/// Writing a node past `i` leaves the column of node `i` unchanged.
pub proof fn lemma_node_col_update(nodes: Seq<EphemeralNode>, k: int, x: EphemeralNode, batch: SignBatch, i: int, n: int)
    requires
        0 <= i < k < nodes.len(),
        0 <= n,
    ensures
        node_col(nodes.update(k, x), batch, i, n) == node_col(nodes, batch, i, n),
{
    assert forall|row: int| 0 <= row < n implies #[trigger] node_col(nodes.update(k, x), batch, i, n)[row] == node_col(nodes, batch, i, n)[row] by {
        lemma_node_value_update(nodes, k, x, batch, i, row);
    }
    assert(node_col(nodes.update(k, x), batch, i, n) =~= node_col(nodes, batch, i, n));
}


/// Node sequences that agree on `[0, m)` give every node below `m` the same value.
pub proof fn lemma_node_value_prefix(a: Seq<EphemeralNode>, b: Seq<EphemeralNode>, m: int, batch: SignBatch, i: int, row: int)
    requires
        0 <= i < m,
        m <= a.len(),
        m <= b.len(),
        forall|j: int| 0 <= j < m ==> #[trigger] a[j] == b[j],
    ensures
        node_value(a, batch, i, row) == node_value(b, batch, i, row),
    decreases i,
{
    assert(a[i] == b[i]);
    match a[i] {
        EphemeralNode::Source { input_index } => {},
        EphemeralNode::Composed { first, second, truth_table } => {
            if first.0 < i && second.0 < i {
                lemma_node_value_prefix(a, b, m, batch, first.0 as int, row);
                lemma_node_value_prefix(a, b, m, batch, second.0 as int, row);
            }
        },
    }
}

/// Node sequences that agree on `[0, m)` give every node below `m` the same column.
pub proof fn lemma_node_col_prefix(a: Seq<EphemeralNode>, b: Seq<EphemeralNode>, m: int, batch: SignBatch, i: int, n: int)
    requires
        0 <= i < m,
        m <= a.len(),
        m <= b.len(),
        0 <= n,
        forall|j: int| 0 <= j < m ==> #[trigger] a[j] == b[j],
    ensures
        node_col(a, batch, i, n) == node_col(b, batch, i, n),
{
    assert forall|row: int| 0 <= row < n implies #[trigger] node_col(a, batch, i, n)[row] == node_col(b, batch, i, n)[row] by {
        lemma_node_value_prefix(a, b, m, batch, i, row);
    }
    assert(node_col(a, batch, i, n) =~= node_col(b, batch, i, n));
}

/// Appending a node whose recorded matches are those of its column keeps
/// the built nodes well formed.
pub proof fn lemma_push_node(before: BuildWorkspace, after: BuildWorkspace, batch: SignBatch, n: int, x: EphemeralNode)
    requires
        built_ok(before, batch, n),
        after.wf(),
        0 <= n,
        before.node_len < before.capacity(),
        after.nodes@ == before.nodes@.update(before.node_len as int, x),
        after.node_len == before.node_len + 1,
        after.columns == before.columns,
        after.accuracy_scores@.len() == before.accuracy_scores@.len(),
        forall|j: int| 0 <= j < before.node_len ==> #[trigger] after.accuracy_scores@[j] == before.accuracy_scores@[j],
        after.accuracy_scores@[before.node_len as int] as int
            == count_eq_upto(node_col(after.nodes@, batch, before.node_len as int, n), batch.signs@, n),
        match x {
            EphemeralNode::Source { input_index } => input_index < fcount(batch),
            EphemeralNode::Composed { first, second, truth_table } => first.0 < before.node_len && second.0 < before.node_len,
        },
    ensures
        built_ok(after, batch, n),
{
    let k = before.node_len as int;
    assert forall|i: int| 0 <= i < after.node_len implies match #[trigger] after.nodes@[i] {
        EphemeralNode::Source { input_index } => true,
        EphemeralNode::Composed { first, second, truth_table } => first.0 < i && second.0 < i,
    } by {
        if i < k {
            assert(after.nodes@[i] == before.nodes@[i]);
        }
    }
    assert forall|i: int| 0 <= i < after.node_len implies match #[trigger] after.nodes@[i] {
        EphemeralNode::Source { input_index } => input_index < fcount(batch),
        EphemeralNode::Composed { first, second, truth_table } => true,
    } by {
        if i < k {
            assert(after.nodes@[i] == before.nodes@[i]);
        }
    }
    assert forall|id: int| 0 <= id < after.columns@.len() && (#[trigger] after.columns@[id]) is Some implies id < after.node_len
        && after.columns@[id].unwrap()@ == node_col(after.nodes@, batch, id, n) by {
        assert(before.columns@[id] is Some);
        lemma_node_col_update(before.nodes@, k, x, batch, id, n);
    }
    assert forall|id: int| 0 <= id < after.node_len implies #[trigger] after.accuracy_scores@[id] as int
        == count_eq_upto(node_col(after.nodes@, batch, id, n), batch.signs@, n) by {
        if id < k {
            lemma_node_col_update(before.nodes@, k, x, batch, id, n);
        }
    }
}

/// Number of non-constant feature columns among the first `k`.
pub open spec fn varying_upto(batch: SignBatch, k: int) -> nat
    decreases k,
{
    if k <= 0 {
        0
    } else {
        varying_upto(batch, k - 1) + if constant_col(fcol(batch, k - 1)) { 0nat } else { 1nat }
    }
}

/// Number of non-constant feature columns.
pub open spec fn varying_count(batch: SignBatch) -> nat {
    varying_upto(batch, fcount(batch))
}

pub proof fn lemma_varying_mono(batch: SignBatch, a: int, b: int)
    requires
        0 <= a <= b,
    ensures
        varying_upto(batch, a) <= varying_upto(batch, b),
    decreases b - a,
{
    if a < b {
        lemma_varying_mono(batch, a, b - 1);
    }
}

/// A ranked prefix holds at most `k` of the ranked nodes, all of them nodes
/// of the input.
pub proof fn lemma_ranked_prefix_members(nodes: Seq<BuildNodeId>, scores: Seq<i64>, k: int, top: Seq<BuildNodeId>)
    requires
        ranked_prefix(nodes, scores, k, top),
        0 <= k,
    ensures
        top.len() == if nodes.len() <= k { nodes.len() as int } else { k },
        forall|x: BuildNodeId| #[trigger] top.contains(x) ==> nodes.contains(x),
{
    let ranked = choose|ranked: Seq<BuildNodeId>| #[trigger] ranked.to_multiset() == nodes.to_multiset()
        && crate::function_build_common::nodes_sorted(ranked, scores)
        && top == ranked.take(if nodes.len() <= k { nodes.len() as int } else { k });
    assert(ranked.len() == nodes.len()) by {
        ranked.to_multiset_ensures();
        nodes.to_multiset_ensures();
    }
    assert forall|x: BuildNodeId| #[trigger] top.contains(x) implies nodes.contains(x) by {
        let w = choose|w: int| 0 <= w < top.len() && top[w] == x;
        assert(ranked[w] == x);
        assert(ranked.contains(x));
        vstd::seq_lib::to_multiset_contains(ranked, x);
        vstd::seq_lib::to_multiset_contains(nodes, x);
    }
}

/// Every layer holds between one and `k_p` ids, all below `bound`.
pub open spec fn layers_ok(layers: Seq<Vec<BuildNodeId>>, bound: int, k_p: int) -> bool {
    forall|l: int| 0 <= l < layers.len() ==> {
        &&& 1 <= (#[trigger] layers[l])@.len() <= k_p
        &&& forall|j: int| 0 <= j < layers[l]@.len() ==> (#[trigger] layers[l]@[j]).0 < bound
    }
}

/// The concatenated layers hold ids below `bound`, and at least as many as
/// the first layer.
pub proof fn lemma_concat_layers(layers: Seq<Vec<BuildNodeId>>, k: int, bound: int, k_p: int)
    requires
        layers_ok(layers, bound, k_p),
        1 <= k <= layers.len(),
    ensures
        concat_layers(layers, k).len() >= layers[0]@.len(),
        forall|i: int| 0 <= i < concat_layers(layers, k).len() ==> (#[trigger] concat_layers(layers, k)[i]).0 < bound,
    decreases k,
{
    assert(layers[k - 1]@.len() >= 1);
    if k == 1 {
        assert(concat_layers(layers, 0) =~= Seq::<BuildNodeId>::empty());
        assert(concat_layers(layers, 1) =~= layers[0]@);
    } else {
        lemma_concat_layers(layers, k - 1, bound, k_p);
        let prev = concat_layers(layers, k - 1);
        assert forall|i: int| 0 <= i < concat_layers(layers, k).len() implies (#[trigger] concat_layers(layers, k)[i]).0 < bound by {
            if i >= prev.len() {
                assert(concat_layers(layers, k)[i] == layers[k - 1]@[i - prev.len()]);
            } else {
                assert(concat_layers(layers, k)[i] == prev[i]);
            }
        }
    }
}

/// In a topological sequence whose sources read batch features, every node's
/// sources are present.
pub proof fn lemma_sources_present(nodes: Seq<EphemeralNode>, batch: SignBatch, i: int)
    requires
        topological(nodes),
        prefix_sources(nodes, nodes.len() as int, batch),
        0 <= i < nodes.len(),
    ensures
        sources_present(nodes, batch, i),
    decreases i,
{
    match nodes[i] {
        EphemeralNode::Source { input_index } => {},
        EphemeralNode::Composed { first, second, truth_table } => {
            lemma_sources_present(nodes, batch, first.0 as int);
            lemma_sources_present(nodes, batch, second.0 as int);
        },
    }
}

/// Copy of a slice of ids.
fn copy_ids(ids: &[BuildNodeId]) -> (out: Vec<BuildNodeId>)
    ensures
        out@ == ids@,
{
    let mut out: Vec<BuildNodeId> = Vec::new();
    let mut i: usize = 0;
    while i < ids.len()
        invariant
            i <= ids@.len(),
            out@ == ids@.subrange(0, i as int),
        decreases ids@.len() - i,
    {
        out.push(ids[i]);
        i = i + 1;
        assert(out@ =~= ids@.subrange(0, i as int));
    }
    assert(out@ =~= ids@);
    out
}

/// Copy of the first `len` nodes.
fn copy_nodes(nodes: &[EphemeralNode], len: usize) -> (out: Vec<EphemeralNode>)
    requires
        len <= nodes@.len(),
    ensures
        out@ == nodes@.subrange(0, len as int),
{
    let mut out: Vec<EphemeralNode> = Vec::new();
    let mut i: usize = 0;
    while i < len
        invariant
            i <= len,
            len <= nodes@.len(),
            out@ == nodes@.subrange(0, i as int),
        decreases len - i,
    {
        out.push(nodes[i]);
        i = i + 1;
        assert(out@ =~= nodes@.subrange(0, i as int));
    }
    out
}

/// The association of columns of at most 255 rows lies within `[-255², 255²]`.
pub proof fn lemma_association_bound(values: Seq<bool>, signs: Seq<bool>)
    requires
        values.len() <= 255,
        signs.len() <= 255,
    ensures
        -65025 <= association(values, signs) <= 65025,
{
    let n = signs.len() as int;
    let m = min_len(values, signs);
    lemma_count_and_upto_bound(values, signs, m);
    lemma_count_true_upto_bound(values, values.len() as int);
    lemma_count_true_upto_bound(signs, signs.len() as int);
    let nxy = count_and_upto(values, signs, m) as int;
    let nx = count_true(values) as int;
    let ny = count_true(signs) as int;
    assert(0 <= n * nxy <= 65025) by (nonlinear_arith)
        requires
            0 <= n <= 255,
            0 <= nxy <= 255;
    assert(0 <= nx * ny <= 65025) by (nonlinear_arith)
        requires
            0 <= nx <= 255,
            0 <= ny <= 255;
}

/// Records the absolute association and the matches of source node `id`,
/// which reads column `input_index`.
fn push_source_scores(ws: &mut BuildWorkspace, batch: SignBatch<'_>, id: BuildNodeId, input_index: usize)
    requires
        old(ws).wf(),
        id.0 < old(ws).capacity(),
        input_index < fcount(batch),
        fcol(batch, input_index as int).len() <= 255,
        batch.signs@.len() <= 255,
    ensures
        final(ws).association_scores@ == old(ws).association_scores@.update(
            id.0 as int, abs_int(association(fcol(batch, input_index as int), batch.signs@)) as i64),
        final(ws).accuracy_scores@ == old(ws).accuracy_scores@.update(
            id.0 as int, count_eq_upto(fcol(batch, input_index as int), batch.signs@,
                min_len(fcol(batch, input_index as int), batch.signs@)) as u8),
        final(ws).nodes == old(ws).nodes,
        final(ws).node_len == old(ws).node_len,
        final(ws).layers == old(ws).layers,
        final(ws).columns == old(ws).columns,
        final(ws).pair_candidates == old(ws).pair_candidates,
        final(ws).wf(),
{
    let column = batch.feature_columns[input_index];
    proof {
        lemma_association_bound(column@, batch.signs@);
    }
    let assoc = association_score(column, batch.signs);
    let magnitude = if assoc < 0 { -assoc } else { assoc };
    ws.association_scores.set(id.0, magnitude);
    let matched = correct_count(column, batch.signs);
    ws.accuracy_scores.set(id.0, matched);
}

/// Largest recorded matches over a layer, 0 for an empty layer.
fn best_layer_accuracy(layer: &[BuildNodeId], accuracy_scores: &[u8]) -> (r: u8)
    requires
        forall|j: int| 0 <= j < layer@.len() ==> (#[trigger] layer@[j]).0 < accuracy_scores@.len(),
    ensures
        forall|j: int| 0 <= j < layer@.len() ==> accuracy_scores@[(#[trigger] layer@[j]).0 as int] <= r,
        layer@.len() == 0 ==> r == 0,
        layer@.len() > 0 ==> exists|j: int| 0 <= j < layer@.len() && accuracy_scores@[(#[trigger] layer@[j]).0 as int] == r,
{
    let mut best: u8 = 0;
    let mut i: usize = 0;
    while i < layer.len()
        invariant
            i <= layer@.len(),
            forall|j: int| 0 <= j < layer@.len() ==> (#[trigger] layer@[j]).0 < accuracy_scores@.len(),
            forall|j: int| 0 <= j < i ==> accuracy_scores@[(#[trigger] layer@[j]).0 as int] <= best,
            i == 0 ==> best == 0,
            i > 0 ==> exists|j: int| 0 <= j < i && accuracy_scores@[(#[trigger] layer@[j]).0 as int] == best,
        decreases layer@.len() - i,
    {
        let a = accuracy_scores[layer[i].0];
        if i == 0 || a > best {
            best = a;
        }
        proof {
            assert(accuracy_scores@[layer@[i as int].0 as int] == a);
        }
        i = i + 1;
    }
    best
}

/// Scores every pair of non-constant parents into the workspace's pair
/// candidates, dropping pairs whose majority table is constant.
fn score_pairs_into_workspace(
    ws: &mut BuildWorkspace,
    parents: &[BuildNodeId],
    batch: SignBatch<'_>,
    batch_size_i64: i64,
    ny: i64,
    Ghost(n): Ghost<int>,
) -> (r: Result<usize, FunctionBuildError>)
    requires
        built_ok(*old(ws), batch, n),
        feature_rows_ok(batch, n),
        batch.signs@.len() == n,
        0 <= n <= 255,
        batch_size_i64 == n,
        ny == count_true(batch.signs@),
        forall|j: int| 0 <= j < parents@.len() ==> (#[trigger] parents@[j]).0 < old(ws).node_len
            && (old(ws).nodes@[parents@[j].0 as int] is Composed ==> old(ws).columns@[parents@[j].0 as int] is Some),
    ensures
        r == Ok::<usize, FunctionBuildError>(final(ws).pair_candidates@.len() as usize),
        final(ws).pair_candidates@.len() <= usize::MAX,
        final(ws).nodes == old(ws).nodes,
        final(ws).node_len == old(ws).node_len,
        final(ws).layers == old(ws).layers,
        final(ws).columns == old(ws).columns,
        final(ws).association_scores == old(ws).association_scores,
        final(ws).accuracy_scores == old(ws).accuracy_scores,
        built_ok(*final(ws), batch, n),
        forall|k: int| 0 <= k < final(ws).pair_candidates@.len() ==> candidate_ok(
            old(ws).nodes@, batch, n, parents@, #[trigger] final(ws).pair_candidates@[k]),
        forall|i: int, j: int| 0 <= i < j < parents@.len()
            && pair_wanted(old(ws).nodes@, batch, n, ordered_pair(parents@[i], parents@[j]).0, ordered_pair(parents@[i], parents@[j]).1)
            ==> #[trigger] has_candidate(final(ws).pair_candidates@, ordered_pair(parents@[i], parents@[j])),
{
    ws.pair_candidates = Vec::new();
    let ghost pre = *ws;
    proof {
        lemma_count_true_upto_bound(batch.signs@, n);
    }
    let mut left_index: usize = 0;
    while left_index < parents.len()
        invariant
            built_ok(pre, batch, n),
            feature_rows_ok(batch, n),
            batch.signs@.len() == n,
            0 <= n <= 255,
            batch_size_i64 == n,
            ny == count_true(batch.signs@),
            0 <= ny <= n,
            forall|j: int| 0 <= j < parents@.len() ==> (#[trigger] parents@[j]).0 < pre.node_len
                && (pre.nodes@[parents@[j].0 as int] is Composed ==> pre.columns@[parents@[j].0 as int] is Some),
            left_index <= parents@.len(),
            ws.nodes == pre.nodes,
            ws.node_len == pre.node_len,
            ws.layers == pre.layers,
            ws.columns == pre.columns,
            ws.association_scores == pre.association_scores,
            ws.accuracy_scores == pre.accuracy_scores,
            ws.compact_aliases == pre.compact_aliases,
            ws.compact_slots == pre.compact_slots,
            ws.compact_reachable == pre.compact_reachable,
            ws.compact_order == pre.compact_order,
            ws.compact_old_to_new == pre.compact_old_to_new,
            ws.compact_sources == pre.compact_sources,
            ws.compact_nodes == pre.compact_nodes,
            forall|k: int| 0 <= k < ws.pair_candidates@.len() ==> candidate_ok(
                pre.nodes@, batch, n, parents@, #[trigger] ws.pair_candidates@[k]),
            forall|i: int, j: int| 0 <= i < j < parents@.len() && i < left_index
                && pair_wanted(pre.nodes@, batch, n, ordered_pair(parents@[i], parents@[j]).0, ordered_pair(parents@[i], parents@[j]).1)
                ==> #[trigger] has_candidate(ws.pair_candidates@, ordered_pair(parents@[i], parents@[j])),
        decreases parents@.len() - left_index,
    {
        let left = parents[left_index];
        let mut right_index: usize = left_index + 1;
        while right_index < parents.len()
            invariant
                built_ok(pre, batch, n),
                feature_rows_ok(batch, n),
                batch.signs@.len() == n,
                0 <= n <= 255,
                batch_size_i64 == n,
                ny == count_true(batch.signs@),
                0 <= ny <= n,
                forall|j: int| 0 <= j < parents@.len() ==> (#[trigger] parents@[j]).0 < pre.node_len
                    && (pre.nodes@[parents@[j].0 as int] is Composed ==> pre.columns@[parents@[j].0 as int] is Some),
                left_index < parents@.len(),
                left == parents@[left_index as int],
                right_index <= parents@.len(),
                ws.nodes == pre.nodes,
                ws.node_len == pre.node_len,
                ws.layers == pre.layers,
                ws.columns == pre.columns,
                ws.association_scores == pre.association_scores,
                ws.accuracy_scores == pre.accuracy_scores,
                ws.compact_aliases == pre.compact_aliases,
                ws.compact_slots == pre.compact_slots,
                ws.compact_reachable == pre.compact_reachable,
                ws.compact_order == pre.compact_order,
                ws.compact_old_to_new == pre.compact_old_to_new,
                ws.compact_sources == pre.compact_sources,
                ws.compact_nodes == pre.compact_nodes,
                forall|k: int| 0 <= k < ws.pair_candidates@.len() ==> candidate_ok(
                    pre.nodes@, batch, n, parents@, #[trigger] ws.pair_candidates@[k]),
                forall|i: int, j: int| 0 <= i < j < parents@.len() && (i < left_index || (i == left_index && j < right_index))
                    && pair_wanted(pre.nodes@, batch, n, ordered_pair(parents@[i], parents@[j]).0, ordered_pair(parents@[i], parents@[j]).1)
                    ==> #[trigger] has_candidate(ws.pair_candidates@, ordered_pair(parents@[i], parents@[j])),
                left_index < right_index,
            decreases parents@.len() - right_index,
        {
            let right = parents[right_index];
            let ghost cands_before = ws.pair_candidates@;
            let (first, second) = if left.0 <= right.0 { (left, right) } else { (right, left) };
            assert((first, second) == ordered_pair(parents@[left_index as int], parents@[right_index as int]));
            proof {
                assert(parents@.contains(left));
                assert(parents@[right_index as int] == right);
                assert(parents@.contains(right));
            }
            let first_column = parent_column(ws, batch, first, Ghost(n));
            let second_column = parent_column(ws, batch, second, Ghost(n));
            let first_constant = is_constant_column(first_column);
            let second_constant = is_constant_column(second_column);
            if !first_constant && !second_constant {
                match FeatureCounter::from_columns(first_column, second_column, batch.signs) {
                    Ok(counter) => {
                        let (truth_table, abs_assoc, matched) = counter.truth_table_and_scores(batch_size_i64, ny);
                        proof {
                            lemma_counts_are_column_counts(counter, first_column@, second_column@, batch.signs@);
                            law_table_matches_are_column_hits(counter, first_column@, second_column@, batch.signs@);
                            law_table_scores_are_column_counts(counter, first_column@, second_column@, batch.signs@);
                            assert(Seq::new(first_column@.len(), |r: int| gate_output(majority_table(counter.counts_view()) as u8, first_column@[r], second_column@[r]))
                                =~= pair_col(pre.nodes@, batch, first, second, truth_table, n));
                        }
                        if !is_constant_truth_table(truth_table) {
                            ws.pair_candidates.push(PairCandidate { first, second, truth_table, abs_assoc, matched });
                            proof {
                                let last = ws.pair_candidates@.len() - 1;
                                assert(ws.pair_candidates@[last].first == first && ws.pair_candidates@[last].second == second);
                                assert(has_candidate(ws.pair_candidates@, (first, second)));
                            }
                        }
                    },
                    Err(_) => {
                        proof {
                            assert(false);
                        }
                    },
                }
            }
            proof {
                assert forall|i: int, j: int| 0 <= i < j < parents@.len() && (i < left_index || (i == left_index && j < right_index + 1))
                    && pair_wanted(pre.nodes@, batch, n, ordered_pair(parents@[i], parents@[j]).0, ordered_pair(parents@[i], parents@[j]).1)
                    implies #[trigger] has_candidate(ws.pair_candidates@, ordered_pair(parents@[i], parents@[j])) by {
                    if i < left_index || (i == left_index && j < right_index) {
                        assert(has_candidate(cands_before, ordered_pair(parents@[i], parents@[j])));
                        let k = choose|k: int| 0 <= k < cands_before.len() && (#[trigger] cands_before[k]).first == ordered_pair(parents@[i], parents@[j]).0
                            && cands_before[k].second == ordered_pair(parents@[i], parents@[j]).1;
                        assert(ws.pair_candidates@[k] == cands_before[k]);
                    }
                }
            }
            right_index = right_index + 1;
        }
        left_index = left_index + 1;
    }
    Ok(ws.pair_candidates.len())
}

/// Recorded association of every built node is the magnitude of its
/// column's association with the labels.
pub open spec fn assoc_ok(ws: BuildWorkspace, batch: SignBatch, n: int) -> bool {
    forall|id: int| 0 <= id < ws.node_len ==> #[trigger] ws.association_scores@[id] as int
        == abs_int(association(node_col(ws.nodes@, batch, id, n), batch.signs@))
}

/// Every built source reads a non-constant column, and every built gate has
/// a non-constant table over its inputs, the lower id first.
pub open spec fn nodes_ok(nodes: Seq<EphemeralNode>, m: int, batch: SignBatch, n: int) -> bool {
    forall|i: int| 0 <= i < m ==> match #[trigger] nodes[i] {
        EphemeralNode::Source { input_index } => !constant_col(node_col(nodes, batch, i, n)),
        EphemeralNode::Composed { first, second, truth_table } => truth_table != 0 && truth_table != 15 && first.0 <= second.0,
    }
}

/// Pushing a source with a non-constant column or a gate with a
/// non-constant table over ordered inputs keeps the built nodes right.
pub proof fn lemma_nodes_ok_push(nodes: Seq<EphemeralNode>, k: int, x: EphemeralNode, batch: SignBatch, n: int)
    requires
        nodes_ok(nodes, k, batch, n),
        0 <= n,
        0 <= k < nodes.len(),
        match x {
            EphemeralNode::Source { input_index } => !constant_col(node_col(nodes.update(k, x), batch, k, n)),
            EphemeralNode::Composed { first, second, truth_table } => truth_table != 0 && truth_table != 15 && first.0 <= second.0,
        },
    ensures
        nodes_ok(nodes.update(k, x), k + 1, batch, n),
{
    let after = nodes.update(k, x);
    assert forall|i: int| 0 <= i < k + 1 implies match #[trigger] after[i] {
        EphemeralNode::Source { input_index } => !constant_col(node_col(after, batch, i, n)),
        EphemeralNode::Composed { first, second, truth_table } => truth_table != 0 && truth_table != 15 && first.0 <= second.0,
    } by {
        if i < k {
            assert(after[i] == nodes[i]);
            lemma_node_col_update(nodes, k, x, batch, i, n);
        }
    }
}

/// Pushing a node with its association recorded keeps every recorded
/// association right.
pub proof fn lemma_assoc_push(before: BuildWorkspace, after: BuildWorkspace, batch: SignBatch, n: int, x: EphemeralNode)
    requires
        assoc_ok(before, batch, n),
        0 <= n,
        before.node_len < before.nodes@.len(),
        after.nodes@ == before.nodes@.update(before.node_len as int, x),
        after.node_len == before.node_len + 1,
        forall|j: int| 0 <= j < before.node_len ==> #[trigger] after.association_scores@[j] == before.association_scores@[j],
        after.association_scores@[before.node_len as int] as int
            == abs_int(association(node_col(after.nodes@, batch, before.node_len as int, n), batch.signs@)),
    ensures
        assoc_ok(after, batch, n),
{
    assert forall|id: int| 0 <= id < after.node_len implies #[trigger] after.association_scores@[id] as int
        == abs_int(association(node_col(after.nodes@, batch, id, n), batch.signs@)) by {
        if id < before.node_len {
            lemma_node_col_update(before.nodes@, before.node_len as int, x, batch, id, n);
            assert(before.association_scores@[id] as int == abs_int(association(node_col(before.nodes@, batch, id, n), batch.signs@)));
        }
    }
}

/// Invariant of the composition phase.
pub open spec fn growing(ws: BuildWorkspace, batch: SignBatch, config: FunctionBuildConfig, n: int) -> bool {
    &&& built_ok(ws, batch, n)
    &&& assoc_ok(ws, batch, n)
    &&& nodes_ok(ws.nodes@, ws.node_len as int, batch, n)
    &&& config.valid()
    &&& n == config.batch_size
    &&& feature_rows_ok(batch, n)
    &&& batch.signs@.len() == n
    &&& ws.capacity() >= config.max_graph_nodes
    &&& ws.layers@.len() >= 1
    &&& layers_ok(ws.layers@, ws.node_len as int, config.parent_top_k as int)
}

/// Layers whose ids lie below `a` lie below any `b >= a`.
pub proof fn lemma_layers_ok_widen(layers: Seq<Vec<BuildNodeId>>, a: int, b: int, k_p: int)
    requires
        layers_ok(layers, a, k_p),
        a <= b,
    ensures
        layers_ok(layers, b, k_p),
{
    assert forall|l: int| 0 <= l < layers.len() implies {
        &&& 1 <= (#[trigger] layers[l])@.len() <= k_p
        &&& forall|j: int| 0 <= j < layers[l]@.len() ==> (#[trigger] layers[l]@[j]).0 < b
    } by {
        assert forall|j: int| 0 <= j < layers[l]@.len() implies (#[trigger] layers[l]@[j]).0 < b by {
            assert(layers[l]@[j].0 < a);
        }
    }
}

/// Builds one composed layer over the non-constant nodes of the last layer.
/// Returns whether building stops: fewer than two non-constant parents, no
/// candidate, a full graph, or a perfect match.
fn grow_layer(
    ws: &mut BuildWorkspace,
    batch: SignBatch<'_>,
    config: FunctionBuildConfig,
    batch_size_i64: i64,
    ny: i64,
    best_accuracy: &mut u8,
    Ghost(n): Ghost<int>,
) -> (done: bool)
    requires
        growing(*old(ws), batch, config, n),
        batch_size_i64 == n,
        ny == count_true(batch.signs@),
    ensures
        growing(*final(ws), batch, config, n),
        final(ws).capacity() == old(ws).capacity(),
        final(ws).layers@.len() == old(ws).layers@.len() || final(ws).layers@.len() == old(ws).layers@.len() + 1,
        forall|l: int| 0 <= l < old(ws).layers@.len() ==> #[trigger] final(ws).layers@[l] == old(ws).layers@[l],
        old(ws).node_len <= final(ws).node_len,
        forall|i: int| 0 <= i < old(ws).node_len ==> #[trigger] final(ws).nodes@[i] == old(ws).nodes@[i],
        !done ==> final(ws).layers@.len() == old(ws).layers@.len() + 1,
        old(ws).node_len < config.max_graph_nodes
            && (exists|x: BuildNodeId, y: BuildNodeId| old(ws).layers@.last()@.contains(x) && old(ws).layers@.last()@.contains(y)
                && x.0 < y.0 && #[trigger] pair_wanted(old(ws).nodes@, batch, n, x, y))
            ==> final(ws).layers@.len() == old(ws).layers@.len() + 1,
        *final(best_accuracy) >= *old(best_accuracy),
        !done ==> *final(best_accuracy) != config.batch_size,
        final(ws).layers@.len() == old(ws).layers@.len() + 1 && final(ws).node_len < config.max_graph_nodes
            ==> (done <==> *final(best_accuracy) == config.batch_size),
        final(ws).layers@.len() == old(ws).layers@.len() ==> final(ws).node_len == old(ws).node_len,
        final(ws).layers@.len() == old(ws).layers@.len() + 1 ==> final(ws).layers@.last()@ == Seq::new(
            (final(ws).node_len - old(ws).node_len) as nat, |i: int| BuildNodeId((old(ws).node_len + i) as usize)),
        forall|id: int| old(ws).node_len <= id < final(ws).node_len ==> #[trigger] final(ws).accuracy_scores@[id] <= *final(best_accuracy),
        *final(best_accuracy) == *old(best_accuracy) || exists|id: int| old(ws).node_len <= id < final(ws).node_len
            && #[trigger] final(ws).accuracy_scores@[id] == *final(best_accuracy),
{
    let ghost cap = ws.capacity();
    let ghost wanted = old(ws).node_len < config.max_graph_nodes
        && (exists|x: BuildNodeId, y: BuildNodeId| old(ws).layers@.last()@.contains(x) && old(ws).layers@.last()@.contains(y)
            && x.0 < y.0 && #[trigger] pair_wanted(old(ws).nodes@, batch, n, x, y));
    let parent_layer = ws.layers.len() - 1;
    let parents_all = copy_ids(ws.layers[parent_layer].as_slice());
    proof {
        assert(ws.layers@[parent_layer as int]@.len() >= 1);
        assert forall|j: int| 0 <= j < parents_all@.len() implies (#[trigger] parents_all@[j]).0 < ws.node_len by {
            assert(parents_all@[j] == ws.layers@[parent_layer as int]@[j]);
        }
    }
    let mut p: usize = 0;
    while p < parents_all.len()
        invariant
            growing(*ws, batch, config, n),
            ws.capacity() == cap,
            ws.layers == old(ws).layers,
            ws.node_len == old(ws).node_len,
            ws.nodes == old(ws).nodes,
            forall|j: int| 0 <= j < parents_all@.len() ==> (#[trigger] parents_all@[j]).0 < ws.node_len,
            p <= parents_all@.len(),
            forall|j: int| 0 <= j < p ==> ws.columns@[(#[trigger] parents_all@[j]).0 as int] is Some,
        decreases parents_all@.len() - p,
    {
        ensure_column(ws, batch, parents_all[p], Ghost(n));
        proof {
            assert forall|j: int| 0 <= j < p + 1 implies ws.columns@[(#[trigger] parents_all@[j]).0 as int] is Some by {}
        }
        p = p + 1;
    }
    let mut parents: Vec<BuildNodeId> = Vec::new();
    let mut q: usize = 0;
    while q < parents_all.len()
        invariant
            growing(*ws, batch, config, n),
            forall|j: int| 0 <= j < parents_all@.len() ==> (#[trigger] parents_all@[j]).0 < ws.node_len
                && ws.columns@[parents_all@[j].0 as int] is Some,
            q <= parents_all@.len(),
            forall|j: int| 0 <= j < parents@.len() ==> (#[trigger] parents@[j]).0 < ws.node_len
                && ws.columns@[parents@[j].0 as int] is Some,
            forall|j: int| 0 <= j < q && !constant_col(node_col(ws.nodes@, batch, (#[trigger] parents_all@[j]).0 as int, n))
                ==> parents@.contains(parents_all@[j]),
        decreases parents_all@.len() - q,
    {
        let candidate = parents_all[q];
        let column = parent_column(ws, batch, candidate, Ghost(n));
        let ghost parents_before = parents@;
        if !is_constant_column(column) {
            parents.push(candidate);
        }
        proof {
            assert forall|j: int| 0 <= j < q + 1 && !constant_col(node_col(ws.nodes@, batch, (#[trigger] parents_all@[j]).0 as int, n))
                implies parents@.contains(parents_all@[j]) by {
                if j < q {
                    let w = choose|w: int| 0 <= w < parents_before.len() && parents_before[w] == parents_all@[j];
                    assert(parents@[w] == parents_all@[j]);
                } else {
                    assert(parents@[parents@.len() - 1] == parents_all@[j]);
                }
            }
        }
        q = q + 1;
    }
    let ghost px = BuildNodeId(0);
    let ghost py = BuildNodeId(0);
    let ghost ip = 0int;
    let ghost iq = 0int;
    proof {
        if wanted {
            let (x, y) = choose|x: BuildNodeId, y: BuildNodeId| old(ws).layers@.last()@.contains(x) && old(ws).layers@.last()@.contains(y)
                && x.0 < y.0 && #[trigger] pair_wanted(old(ws).nodes@, batch, n, x, y);
            px = x;
            py = y;
            assert(parents_all@ == old(ws).layers@.last()@);
            let jx = choose|j: int| 0 <= j < parents_all@.len() && parents_all@[j] == x;
            let jy = choose|j: int| 0 <= j < parents_all@.len() && parents_all@[j] == y;
            assert(parents@.contains(parents_all@[jx]));
            assert(parents@.contains(parents_all@[jy]));
            ip = choose|j: int| 0 <= j < parents@.len() && parents@[j] == x;
            iq = choose|j: int| 0 <= j < parents@.len() && parents@[j] == y;
            assert(ip != iq);
            assert(parents@.len() >= 2);
        }
    }
    if parents.len() < 2 {
        return true;
    }
    let ghost scored_nodes = ws.nodes@;
    let ghost scored_len = ws.node_len as int;
    let ghost layers0 = ws.layers;
    let counted = score_pairs_into_workspace(ws, parents.as_slice(), batch, batch_size_i64, ny, Ghost(n));
    let candidate_count = match counted {
        Ok(c) => c,
        Err(e) => {
            return true;
        },
    };
    proof {
        if wanted {
            if ip < iq {
                assert(ordered_pair(parents@[ip], parents@[iq]) == (px, py));
                assert(has_candidate(ws.pair_candidates@, ordered_pair(parents@[ip], parents@[iq])));
            } else {
                assert(ordered_pair(parents@[iq], parents@[ip]) == (px, py));
                assert(has_candidate(ws.pair_candidates@, ordered_pair(parents@[iq], parents@[ip])));
            }
            assert(ws.pair_candidates@.len() >= 1);
            assert(counted == Ok::<usize, FunctionBuildError>(ws.pair_candidates@.len() as usize));
            assert(candidate_count > 0);
        }
    }
    if candidate_count == 0 {
        return true;
    }
    let ghost scored_candidates = ws.pair_candidates@;
    let keep_len = top_k_pair_candidates(ws.pair_candidates.as_mut_slice(), config.parent_top_k);
    proof {
        assert forall|k: int| 0 <= k < ws.pair_candidates@.len() implies candidate_ok(
            scored_nodes, batch, n, parents@, #[trigger] ws.pair_candidates@[k]) by {
            let x = ws.pair_candidates@[k];
            assert(ws.pair_candidates@.contains(x));
            vstd::seq_lib::to_multiset_contains(ws.pair_candidates@, x);
            vstd::seq_lib::to_multiset_contains(scored_candidates, x);
            let w = choose|w: int| 0 <= w < scored_candidates.len() && scored_candidates[w] == x;
        }
    }
    let ghost candidates = ws.pair_candidates@;
    let mut new_layer: Vec<BuildNodeId> = Vec::new();
    let mut graph_full = false;
    let ghost mut witness: int = 0;
    let mut index: usize = 0;
    while index < keep_len && !graph_full
        invariant
            built_ok(*ws, batch, n),
            config.valid(),
            n == config.batch_size,
            feature_rows_ok(batch, n),
            batch.signs@.len() == n,
            ws.capacity() == cap,
            cap >= config.max_graph_nodes,
            ws.layers == layers0,
            layers0@.len() >= 1,
            layers_ok(layers0@, scored_len, config.parent_top_k as int),
            0 <= scored_len <= ws.node_len,
            scored_nodes.len() == cap,
            forall|j: int| 0 <= j < scored_len ==> #[trigger] ws.nodes@[j] == scored_nodes[j],
            ws.pair_candidates@ == candidates,
            keep_len <= candidates.len(),
            keep_len <= config.parent_top_k,
            forall|k: int| 0 <= k < candidates.len() ==> candidate_ok(scored_nodes, batch, n, parents@, #[trigger] candidates[k]),
            forall|j: int| 0 <= j < parents@.len() ==> (#[trigger] parents@[j]).0 < scored_len,
            index <= keep_len,
            new_layer@.len() == index,
            ws.node_len == scored_len + index,
            scored_len == old(ws).node_len,
            graph_full ==> ws.node_len >= config.max_graph_nodes,
            wanted ==> keep_len >= 1,
            *best_accuracy >= *old(best_accuracy),
            assoc_ok(*ws, batch, n),
            nodes_ok(ws.nodes@, ws.node_len as int, batch, n),
            new_layer@ == Seq::new(index as nat, |i: int| BuildNodeId((scored_len + i) as usize)),
            forall|id: int| scored_len <= id < ws.node_len ==> #[trigger] ws.accuracy_scores@[id] <= *best_accuracy,
            *best_accuracy != *old(best_accuracy) ==> scored_len <= witness < ws.node_len
                && ws.accuracy_scores@[witness] == *best_accuracy,
            forall|j: int| 0 <= j < new_layer@.len() ==> (#[trigger] new_layer@[j]).0 < ws.node_len,
        decreases keep_len - index, if graph_full { 0int } else { 1int },
    {
        if ws.node_len >= config.max_graph_nodes {
            graph_full = true;
        } else {
            let candidate = ws.pair_candidates[index];
            proof {
                assert(candidate_ok(scored_nodes, batch, n, parents@, candidates[index as int]));
                let wf_ = choose|w: int| 0 <= w < parents@.len() && parents@[w] == candidate.first;
                let ws_ = choose|w: int| 0 <= w < parents@.len() && parents@[w] == candidate.second;
            }
            ensure_column(ws, batch, candidate.first, Ghost(n));
            ensure_column(ws, batch, candidate.second, Ghost(n));
            let k = ws.node_len;
            let id = BuildNodeId(k);
            let node = EphemeralNode::Composed {
                first: candidate.first,
                second: candidate.second,
                truth_table: candidate.truth_table,
            };
            let ghost before = *ws;
            ws.nodes.set(k, node);
            ws.node_len = k + 1;
            ws.association_scores.set(k, candidate.abs_assoc);
            ws.accuracy_scores.set(k, candidate.matched);
            proof {
                let after_nodes = ws.nodes@;
                assert forall|j: int| 0 <= j < scored_len implies #[trigger] after_nodes[j] == scored_nodes[j] by {
                    assert(after_nodes[j] == before.nodes@[j]);
                }
                assert forall|row: int| 0 <= row < n implies #[trigger] node_col(after_nodes, batch, k as int, n)[row]
                    == pair_col(scored_nodes, batch, candidate.first, candidate.second, candidate.truth_table, n)[row] by {
                    lemma_node_value_prefix(after_nodes, scored_nodes, scored_len, batch, candidate.first.0 as int, row);
                    lemma_node_value_prefix(after_nodes, scored_nodes, scored_len, batch, candidate.second.0 as int, row);
                }
                assert(node_col(after_nodes, batch, k as int, n)
                    =~= pair_col(scored_nodes, batch, candidate.first, candidate.second, candidate.truth_table, n));
                lemma_push_node(before, *ws, batch, n, node);
                lemma_assoc_push(before, *ws, batch, n, node);
                lemma_nodes_ok_push(before.nodes@, k as int, node, batch, n);
            }
            new_layer.push(id);
            ensure_column(ws, batch, id, Ghost(n));
            if candidate.matched > *best_accuracy {
                *best_accuracy = candidate.matched;
                proof {
                    witness = k as int;
                }
            }
            index = index + 1;
        }
    }
    proof {
        lemma_layers_ok_widen(layers0@, scored_len, ws.node_len as int, config.parent_top_k as int);
        if *best_accuracy != *old(best_accuracy) {
            assert(ws.accuracy_scores@[witness] == *best_accuracy);
        }
    }
    if graph_full {
        if new_layer.len() > 0 {
            ws.layers.push(new_layer);
            proof {
                assert(ws.layers@.last() == new_layer);
                assert forall|l: int| 0 <= l < ws.layers@.len() implies {
                    &&& 1 <= (#[trigger] ws.layers@[l])@.len() <= config.parent_top_k
                    &&& forall|j: int| 0 <= j < ws.layers@[l]@.len() ==> (#[trigger] ws.layers@[l]@[j]).0 < ws.node_len
                } by {
                    if l < layers0@.len() {
                        assert(ws.layers@[l] == layers0@[l]);
                    }
                }
            }
        }
        proof {
            if *best_accuracy != *old(best_accuracy) {
                assert(ws.accuracy_scores@[witness] == *best_accuracy);
            }
        }
        return true;
    }
    if new_layer.len() == 0 {
        return true;
    }
    ws.retain_only(new_layer.as_slice());
    ws.layers.push(new_layer);
    proof {
        assert forall|l: int| 0 <= l < ws.layers@.len() implies {
            &&& 1 <= (#[trigger] ws.layers@[l])@.len() <= config.parent_top_k
            &&& forall|j: int| 0 <= j < ws.layers@[l]@.len() ==> (#[trigger] ws.layers@[l]@[j]).0 < ws.node_len
        } by {
            if l < layers0@.len() {
                assert(ws.layers@[l] == layers0@[l]);
            }
        }
    }
    let batch_size_u8 = config.batch_size as u8;
    proof {
        if *best_accuracy != *old(best_accuracy) {
            assert(ws.accuracy_scores@[witness] == *best_accuracy);
        }
    }
    *best_accuracy == batch_size_u8
}

/// The batch has `batch_size` signs and feature columns of `batch_size` rows.
pub open spec fn batch_fits(batch: SignBatch, batch_size: int) -> bool {
    feature_rows_ok(batch, batch_size) && batch.signs@.len() == batch_size
}

/// Matches of node `id`'s column with the signs over the first `n` rows.
pub open spec fn node_matches(nodes: Seq<EphemeralNode>, batch: SignBatch, id: int, n: int) -> int {
    count_eq_upto(node_col(nodes, batch, id, n), batch.signs@, n) as int
}

/// A model whose nodes read earlier nodes and the batch's features, and whose
/// output is inverted exactly when its output node matches fewer than half of
/// the `n` rows.
pub open spec fn model_fits(model: FunctionModel, batch: SignBatch, n: int) -> bool {
    let nodes = model.graph.nodes@;
    let m = node_matches(nodes, batch, model.output.0 as int, n);
    &&& model_wf(model)
    &&& prefix_sources(nodes, nodes.len() as int, batch)
    &&& model.invert_output == (m < n - m)
}

/// The ids of the first `v` nodes, in order.
pub open spec fn first_ids(v: int) -> Seq<BuildNodeId> {
    Seq::new(v as nat, |i: int| BuildNodeId(i as usize))
}

/// Association magnitude of each of the first `v` nodes' columns.
pub open spec fn source_assoc(nodes: Seq<EphemeralNode>, batch: SignBatch, v: int, n: int) -> Seq<i64> {
    Seq::new(v as nat, |i: int| abs_int(association(node_col(nodes, batch, i, n), batch.signs@)) as i64)
}

/// The first layer holds the varying sources (the first nodes), all of them
/// when they number at most `parent_top_k`, else the `parent_top_k` of
/// highest association magnitude (ties to the lower id).
pub open spec fn first_layer_ranked(first: Seq<BuildNodeId>, nodes: Seq<EphemeralNode>, batch: SignBatch, config: FunctionBuildConfig) -> bool {
    let v = varying_count(batch) as int;
    let n = config.batch_size as int;
    &&& v <= nodes.len()
    &&& v <= usize::MAX
    &&& forall|i: int| 0 <= i < v ==> (#[trigger] nodes[i]) is Source
    &&& v <= config.parent_top_k ==> first == first_ids(v)
    &&& v > config.parent_top_k ==> ranked_prefix(first_ids(v), source_assoc(nodes, batch, v, n), config.parent_top_k as int, first)
}

/// A built model: its nodes are the workspace's built nodes (sources with
/// varying columns, gates with non-constant tables), the workspace records
/// each node's matches and the magnitude of its association with the labels,
/// and the output is, among the `parent_top_k`
/// surviving nodes of highest recorded association, the one with the most
/// effective matches.
pub open spec fn model_built(model: FunctionModel, batch: SignBatch, config: FunctionBuildConfig, ws: BuildWorkspace) -> bool {
    let n = config.batch_size as int;
    let nodes = model.graph.nodes@;
    let layers = model.graph.layers@;
    &&& model_fits(model, batch, n)
    &&& nodes == ws.nodes@.subrange(0, ws.node_len as int)
    &&& layers.len() >= 1
    &&& layers.len() <= config.max_composed_layers + 1
    &&& layers_ok(layers, ws.node_len as int, config.parent_top_k as int)
    &&& forall|id: int| 0 <= id < nodes.len() ==> #[trigger] ws.accuracy_scores@[id] as int == node_matches(nodes, batch, id, n)
    &&& forall|id: int| 0 <= id < nodes.len() ==> #[trigger] ws.association_scores@[id] as int
        == abs_int(association(node_col(nodes, batch, id, n), batch.signs@))
    &&& nodes_ok(nodes, nodes.len() as int, batch, n)
    &&& first_layer_ranked(layers[0]@, nodes, batch, config)
    &&& exists|top: Seq<BuildNodeId>| #[trigger] ranked_prefix(concat_layers(layers, layers.len() as int),
        ws.association_scores@.subrange(0, ws.node_len as int), config.parent_top_k as int, top)
        && best_by_effective(top, ws.accuracy_scores@.subrange(0, ws.node_len as int), n, model.output)
}

/// The first layer of a built model: every varying source when there are at
/// most `parent_top_k`; otherwise `parent_top_k` varying sources, each of
/// which beats every varying source left out by association magnitude, a
/// tie going to the lower id.
pub proof fn law_first_layer_top_sources(model: FunctionModel, batch: SignBatch, config: FunctionBuildConfig, ws: BuildWorkspace)
    requires
        model_built(model, batch, config, ws),
        config.valid(),
        batch.signs@.len() == config.batch_size,
    ensures
        ({
            let v = varying_count(batch) as int;
            let k = config.parent_top_k as int;
            let first = model.graph.layers@[0]@;
            let nodes = model.graph.nodes@;
            let n = config.batch_size as int;
            &&& v <= k ==> first == first_ids(v)
            &&& v > k ==> first.len() == k
            &&& v > k ==> forall|a: int| 0 <= a < k ==> (#[trigger] first[a]).0 < v
                && nodes[first[a].0 as int] is Source
            &&& v > k ==> forall|a: int, y: int| #![trigger first[a], node_col(nodes, batch, y, n)]
                0 <= a < k && 0 <= y < v && !first.contains(BuildNodeId(y as usize)) ==> {
                let ax = abs_int(association(node_col(nodes, batch, first[a].0 as int, n), batch.signs@));
                let ay = abs_int(association(node_col(nodes, batch, y, n), batch.signs@));
                ax > ay || (ax == ay && first[a].0 < y)
            }
        }),
{
    let v = varying_count(batch) as int;
    let k = config.parent_top_k as int;
    let first = model.graph.layers@[0]@;
    let nodes = model.graph.nodes@;
    let n = config.batch_size as int;
    let ids = first_ids(v);
    let scores = source_assoc(nodes, batch, v, n);
    assert(first_layer_ranked(first, nodes, batch, config));
    if v > k {
        assert(ranked_prefix(ids, scores, k, first));
        let ranked = choose|ranked: Seq<BuildNodeId>| #[trigger] ranked.to_multiset() == ids.to_multiset() && nodes_sorted(ranked, scores)
            && first == ranked.take(if ids.len() <= k { ids.len() as int } else { k });
        assert(ranked.len() == ids.len()) by {
            ranked.to_multiset_ensures();
            ids.to_multiset_ensures();
        }
        assert forall|a: int| 0 <= a < k implies (#[trigger] first[a]).0 < v && nodes[first[a].0 as int] is Source by {
            assert(first[a] == ranked[a]);
            vstd::seq_lib::to_multiset_contains(ranked, ranked[a]);
            vstd::seq_lib::to_multiset_contains(ids, ranked[a]);
            let w = choose|w: int| 0 <= w < ids.len() && ids[w] == ranked[a];
        }
        assert forall|a: int, y: int| #![trigger first[a], node_col(nodes, batch, y, n)]
            0 <= a < k && 0 <= y < v && !first.contains(BuildNodeId(y as usize)) implies {
            let ax = abs_int(association(node_col(nodes, batch, first[a].0 as int, n), batch.signs@));
            let ay = abs_int(association(node_col(nodes, batch, y, n), batch.signs@));
            ax > ay || (ax == ay && first[a].0 < y)
        } by {
            let x = first[a];
            let yid = BuildNodeId(y as usize);
            assert(x == ranked[a]);
            assert(ids[y] == yid);
            vstd::seq_lib::to_multiset_contains(ids, yid);
            vstd::seq_lib::to_multiset_contains(ranked, yid);
            let j = choose|j: int| 0 <= j < ranked.len() && ranked[j] == yid;
            if j < k {
                assert(first[j] == yid);
            }
            assert(!node_before(scores, ranked[j], ranked[a]));
            assert(x.0 < v) by {
                vstd::seq_lib::to_multiset_contains(ranked, x);
                vstd::seq_lib::to_multiset_contains(ids, x);
                let w = choose|w: int| 0 <= w < ids.len() && ids[w] == x;
            }
            assert(x != yid);
            assert(score_at(scores, x) == scores[x.0 as int]);
            assert(score_at(scores, yid) == scores[y]);
            lemma_association_bound(node_col(nodes, batch, x.0 as int, n), batch.signs@);
            lemma_association_bound(node_col(nodes, batch, y, n), batch.signs@);
        }
    }
}

/// Negating a column turns its matches into mismatches.
pub proof fn lemma_count_eq_negated(col: Seq<bool>, neg: Seq<bool>, signs: Seq<bool>, n: int)
    requires
        0 <= n <= col.len(),
        neg.len() == col.len(),
        forall|r: int| 0 <= r < col.len() ==> #[trigger] neg[r] == !col[r],
    ensures
        count_eq_upto(neg, signs, n) == n - count_eq_upto(col, signs, n),
    decreases n,
{
    if n > 0 {
        lemma_count_eq_negated(col, neg, signs, n - 1);
    }
}

/// A batch without feature columns has no non-constant column.
pub proof fn lemma_varying_needs_columns(batch: SignBatch)
    ensures
        varying_count(batch) > 0 ==> fcount(batch) > 0,
{
}

/// The matches of a fitted model's predictions are the effective matches of
/// its output node: whichever of the node and its negation matches more rows.
pub proof fn law_fit_score_is_effective_matches(model: FunctionModel, batch: SignBatch, n: int)
    requires
        model_fits(model, batch, n),
        0 <= n,
    ensures
        count_eq_upto(model_predictions(model, batch, n), batch.signs@, n)
            == effective_of(node_matches(model.graph.nodes@, batch, model.output.0 as int, n), n),
{
    let col = node_col(model.graph.nodes@, batch, model.output.0 as int, n);
    let p = model_predictions(model, batch, n);
    if model.invert_output {
        lemma_count_eq_negated(col, p, batch.signs@, n);
    } else {
        assert(p =~= col);
    }
}

/// A fitted model matches at least half of the rows it was fitted on.
pub proof fn law_fit_matches_at_least_half(model: FunctionModel, batch: SignBatch, n: int)
    requires
        model_fits(model, batch, n),
        0 <= n,
    ensures
        2 * count_eq_upto(model_predictions(model, batch, n), batch.signs@, n) >= n,
{
    law_fit_score_is_effective_matches(model, batch, n);
}

pub struct FunctionBuilder;

impl FunctionBuilder {
    /// Builds a model in a fresh workspace sized for the configuration.
    #[verifier::spinoff_prover]
    pub fn build(batch: SignBatch<'_>, config: FunctionBuildConfig) -> (r: Result<FunctionModel, FunctionBuildError>)
        requires
            config.max_graph_nodes < 0x4000_0000,
        ensures
            !config.valid() ==> r == Err::<FunctionModel, FunctionBuildError>(FunctionBuildError::InvalidConfig),
            config.valid() && !batch_fits(batch, config.batch_size as int)
                ==> r == Err::<FunctionModel, FunctionBuildError>(FunctionBuildError::InvalidBatch),
            config.valid() && batch_fits(batch, config.batch_size as int) && varying_count(batch) == 0
                ==> r == Err::<FunctionModel, FunctionBuildError>(FunctionBuildError::InvalidBatch),
            config.valid() && batch_fits(batch, config.batch_size as int) && varying_count(batch) > config.max_graph_nodes
                ==> r == Err::<FunctionModel, FunctionBuildError>(FunctionBuildError::GraphCapacity),
            config.valid() && batch_fits(batch, config.batch_size as int) && 0 < varying_count(batch) <= config.max_graph_nodes
                ==> r is Ok,
            r matches Ok(model) ==> model_fits(model, batch, config.batch_size as int),
            r matches Ok(model) ==> exists|ws: BuildWorkspace| #[trigger] model_built(model, batch, config, ws),
    {
        let mut workspace = BuildWorkspace::new(config.max_graph_nodes);
        let r = Self::build_in_workspace(batch, config, &mut workspace);
        proof {
            if r is Ok {
                assert(model_built(r->Ok_0, batch, config, workspace));
            }
        }
        r
    }

    /// Builds a model in a caller's workspace: the non-constant source
    /// columns, ranked by association, form the first layer; each further
    /// layer keeps the `parent_top_k` best truth-table gates over pairs of
    /// the previous layer's non-constant nodes.
    pub fn build_in_workspace(
        batch: SignBatch<'_>,
        config: FunctionBuildConfig,
        workspace: &mut BuildWorkspace,
    ) -> (r: Result<FunctionModel, FunctionBuildError>)
        requires
            old(workspace).wf(),
            config.valid() ==> old(workspace).capacity() >= config.max_graph_nodes,
        ensures
            final(workspace).wf(),
            final(workspace).capacity() == old(workspace).capacity(),
            !config.valid() ==> r == Err::<FunctionModel, FunctionBuildError>(FunctionBuildError::InvalidConfig),
            config.valid() && !batch_fits(batch, config.batch_size as int)
                ==> r == Err::<FunctionModel, FunctionBuildError>(FunctionBuildError::InvalidBatch),
            config.valid() && batch_fits(batch, config.batch_size as int) && varying_count(batch) == 0
                ==> r == Err::<FunctionModel, FunctionBuildError>(FunctionBuildError::InvalidBatch),
            config.valid() && batch_fits(batch, config.batch_size as int) && varying_count(batch) > old(workspace).capacity()
                ==> r == Err::<FunctionModel, FunctionBuildError>(FunctionBuildError::GraphCapacity),
            config.valid() && batch_fits(batch, config.batch_size as int) && 0 < varying_count(batch) <= old(workspace).capacity()
                ==> r is Ok,
            r matches Ok(model) ==> model_built(model, batch, config, *final(workspace)),
    {
        match validate_build_config(config) {
            Ok(()) => {},
            Err(e) => {
                return Err(e);
            },
        }
        match validate_batch(batch, config.batch_size) {
            Ok(()) => {},
            Err(e) => {
                return Err(e);
            },
        }
        let ghost n = config.batch_size as int;
        let ghost cap = workspace.capacity();
        workspace.reset();
        let source_count = batch.feature_columns.len();
        let batch_size_i64 = config.batch_size as i64;
        let ny = count_true_exec(batch.signs) as i64;
        proof {
            lemma_count_true_upto_bound(batch.signs@, n);
        }
        let mut layer0: Vec<BuildNodeId> = Vec::new();
        let mut input_index: usize = 0;
        while input_index < source_count
            invariant
                built_ok(*workspace, batch, n),
                workspace.capacity() == cap,
                cap == old(workspace).capacity(),
                workspace.layers@.len() == 0,
                config.valid(),
                n == config.batch_size,
                feature_rows_ok(batch, n),
                batch.signs@.len() == n,
                source_count == fcount(batch),
                input_index <= source_count,
                workspace.node_len == varying_upto(batch, input_index as int),
                assoc_ok(*workspace, batch, n),
                nodes_ok(workspace.nodes@, workspace.node_len as int, batch, n),
                layer0@.len() == workspace.node_len,
                forall|j: int| 0 <= j < layer0@.len() ==> (#[trigger] layer0@[j]).0 == j,
                forall|i: int| 0 <= i < workspace.node_len ==> (#[trigger] workspace.nodes@[i]) is Source,
            decreases source_count - input_index,
        {
            let column = batch.feature_columns[input_index];
            let constant = is_constant_column(column);
            if !constant {
                if workspace.node_len >= workspace.nodes.len() {
                    proof {
                        assert(column@ == fcol(batch, input_index as int));
                        assert(varying_upto(batch, input_index + 1) == varying_upto(batch, input_index as int) + 1);
                        lemma_varying_mono(batch, input_index + 1, fcount(batch));
                    }
                    return Err(FunctionBuildError::GraphCapacity);
                }
                let k = workspace.node_len;
                let id = BuildNodeId(k);
                let node = EphemeralNode::Source { input_index };
                let ghost before = *workspace;
                workspace.nodes.set(k, node);
                workspace.node_len = k + 1;
                proof {
                    assert(fcol(batch, input_index as int).len() == n);
                }
                push_source_scores(workspace, batch, id, input_index);
                proof {
                    assert(node_col(workspace.nodes@, batch, k as int, n) =~= fcol(batch, input_index as int));
                    assert(min_len(fcol(batch, input_index as int), batch.signs@) == n);
                    lemma_count_eq_upto_bound(fcol(batch, input_index as int), batch.signs@, n);
                    lemma_push_node(before, *workspace, batch, n, node);
                    lemma_association_bound(fcol(batch, input_index as int), batch.signs@);
                    assert(workspace.association_scores@[k as int] as int
                        == abs_int(association(node_col(workspace.nodes@, batch, k as int, n), batch.signs@)));
                    lemma_assoc_push(before, *workspace, batch, n, node);
                    assert(column@ == fcol(batch, input_index as int));
                    lemma_nodes_ok_push(before.nodes@, k as int, node, batch, n);
                }
                layer0.push(id);
            }
            input_index = input_index + 1;
        }
        if layer0.len() == 0 {
            return Err(FunctionBuildError::InvalidBatch);
        }
        let ghost v = workspace.node_len as int;
        let ghost v_nodes = workspace.nodes@;
        let ghost v_scores = workspace.association_scores@.subrange(0, v);
        proof {
            assert(v == varying_count(batch));
            assert(layer0@ =~= first_ids(v));
        }
        if layer0.len() > config.parent_top_k {
            let scores = vstd::slice::slice_subrange(workspace.association_scores.as_slice(), 0, workspace.node_len);
            let ghost refs = layer0@;
            layer0 = parent_top_k_slice(layer0.as_slice(), scores, config.parent_top_k);
            proof {
                lemma_ranked_prefix_members(refs, scores@, config.parent_top_k as int, layer0@);
                assert forall|j: int| 0 <= j < layer0@.len() implies (#[trigger] layer0@[j]).0 < workspace.node_len by {
                    assert(layer0@.contains(layer0@[j]));
                    let w = choose|w: int| 0 <= w < refs.len() && refs[w] == layer0@[j];
                }
            }
        }
        let mut p: usize = 0;
        while p < layer0.len()
            invariant
                built_ok(*workspace, batch, n),
                assoc_ok(*workspace, batch, n),
                nodes_ok(workspace.nodes@, workspace.node_len as int, batch, n),
                workspace.node_len == v,
                workspace.nodes@ == v_nodes,
                workspace.capacity() == cap,
                workspace.layers@.len() == 0,
                feature_rows_ok(batch, n),
                1 <= layer0@.len() <= config.parent_top_k,
                forall|j: int| 0 <= j < layer0@.len() ==> (#[trigger] layer0@[j]).0 < workspace.node_len,
                p <= layer0@.len(),
            decreases layer0@.len() - p,
        {
            ensure_column(workspace, batch, layer0[p], Ghost(n));
            p = p + 1;
        }
        workspace.retain_only(layer0.as_slice());
        let acc_scores = vstd::slice::slice_subrange(workspace.accuracy_scores.as_slice(), 0, workspace.node_len);
        let mut best_accuracy = best_layer_accuracy(layer0.as_slice(), acc_scores);
        let ghost first_layer = layer0@;
        proof {
            assert(v <= config.parent_top_k ==> first_layer == first_ids(v));
            assert(v > config.parent_top_k ==> ranked_prefix(first_ids(v), v_scores, config.parent_top_k as int, first_layer));
        }
        workspace.layers.push(layer0);
        proof {
            assert(workspace.layers@[0] == layer0);
        }
        let mut done = false;
        while !done && workspace.layers.len() - 1 < config.max_composed_layers
            invariant
                growing(*workspace, batch, config, n),
                workspace.capacity() == cap,
                workspace.layers@.len() - 1 <= config.max_composed_layers,
                workspace.layers@[0]@ == first_layer,
                v <= workspace.node_len,
                forall|i: int| 0 <= i < v ==> #[trigger] workspace.nodes@[i] == v_nodes[i],
                batch_size_i64 == n,
                ny == count_true(batch.signs@),
            decreases 2 * (config.max_composed_layers - (workspace.layers@.len() - 1)) + if done { 0int } else { 1int },
        {
            done = grow_layer(workspace, batch, config, batch_size_i64, ny, &mut best_accuracy, Ghost(n));
        }
        let node_len = workspace.node_len;
        let nodes = copy_nodes(workspace.nodes.as_slice(), node_len);
        let mut layers: Vec<Vec<BuildNodeId>> = Vec::new();
        core::mem::swap(&mut layers, &mut workspace.layers);
        let graph = EphemeralGraph { nodes, layers };
        let survivors = surviving_nodes(&graph);
        let assoc_scores = vstd::slice::slice_subrange(workspace.association_scores.as_slice(), 0, node_len);
        let accuracy = vstd::slice::slice_subrange(workspace.accuracy_scores.as_slice(), 0, node_len);
        let batch_size_u8 = config.batch_size as u8;
        proof {
            lemma_concat_layers(graph.layers@, graph.layers@.len() as int, node_len as int, config.parent_top_k as int);
            assert forall|i: int| 0 <= i < survivors@.len() implies (#[trigger] survivors@[i]).0 < accuracy@.len()
                && accuracy@[survivors@[i].0 as int] <= batch_size_u8 by {
                let id = survivors@[i].0 as int;
                lemma_count_eq_upto_bound(node_col(workspace.nodes@, batch, id, n), batch.signs@, n);
            }
        }
        let (output, invert_output) = select_output_top_k_by_association(
            survivors.as_slice(),
            assoc_scores,
            accuracy,
            batch_size_u8,
            config.parent_top_k,
        );
        let model = FunctionModel { graph, output, invert_output };
        proof {
            let full = workspace.nodes@;
            let sub = model.graph.nodes@;
            assert forall|j: int| 0 <= j < node_len implies #[trigger] sub[j] == full[j] by {}
            assert forall|id: int| 0 <= id < sub.len() implies #[trigger] workspace.accuracy_scores@[id] as int
                == node_matches(sub, batch, id, n) by {
                lemma_node_col_prefix(sub, full, node_len as int, batch, id, n);
            }
            assert forall|id: int| 0 <= id < sub.len() implies #[trigger] workspace.association_scores@[id] as int
                == abs_int(association(node_col(sub, batch, id, n), batch.signs@)) by {
                lemma_node_col_prefix(sub, full, node_len as int, batch, id, n);
                assert(workspace.association_scores@[id] as int == abs_int(association(node_col(full, batch, id, n), batch.signs@)));
            }
            assert forall|i: int| 0 <= i < sub.len() implies match #[trigger] sub[i] {
                EphemeralNode::Source { input_index } => !constant_col(node_col(sub, batch, i, n)),
                EphemeralNode::Composed { first, second, truth_table } => truth_table != 0 && truth_table != 15 && first.0 <= second.0,
            } by {
                assert(sub[i] == full[i]);
                lemma_node_col_prefix(sub, full, node_len as int, batch, i, n);
            }
            assert(topological(sub)) by {
                assert forall|i: int| 0 <= i < sub.len() implies match #[trigger] sub[i] {
                    EphemeralNode::Source { input_index } => true,
                    EphemeralNode::Composed { first, second, truth_table } => first.0 < i && second.0 < i,
                } by {
                    assert(sub[i] == full[i]);
                }
            }
            assert(prefix_sources(sub, sub.len() as int, batch)) by {
                assert forall|i: int| 0 <= i < sub.len() implies match #[trigger] sub[i] {
                    EphemeralNode::Source { input_index } => input_index < fcount(batch),
                    EphemeralNode::Composed { first, second, truth_table } => true,
                } by {
                    assert(sub[i] == full[i]);
                }
            }
            assert(survivors@.contains(output));
            let w = choose|w: int| 0 <= w < survivors@.len() && survivors@[w] == output;
            assert(output.0 < node_len);
            assert(workspace.accuracy_scores@[output.0 as int] as int == node_matches(sub, batch, output.0 as int, n));
            assert(model_fits(model, batch, n));
            let top = choose|top: Seq<BuildNodeId>| ranked_prefix(survivors@, assoc_scores@, config.parent_top_k as int, top)
                && best_by_effective(top, accuracy@, batch_size_u8 as int, output);
            assert(ranked_prefix(concat_layers(model.graph.layers@, model.graph.layers@.len() as int),
                workspace.association_scores@.subrange(0, workspace.node_len as int), config.parent_top_k as int, top));
            assert(model.graph.layers@.len() >= 1);
            assert(layers_ok(model.graph.layers@, workspace.node_len as int, config.parent_top_k as int));
            assert(model.graph.layers@[0]@ == first_layer);
            assert forall|i: int| 0 <= i < v implies #[trigger] source_assoc(sub, batch, v, n)[i] == v_scores[i] by {
                assert forall|j: int| 0 <= j < v implies #[trigger] v_nodes[j] == sub[j] by {
                    assert(sub[j] == full[j]);
                }
                lemma_node_col_prefix(v_nodes, sub, v, batch, i, n);
            }
            assert(source_assoc(sub, batch, v, n) =~= v_scores);
            assert forall|i: int| 0 <= i < v implies (#[trigger] sub[i]) is Source by {
                assert(sub[i] == full[i]);
                assert(full[i] == v_nodes[i]);
            }
            assert(first_layer_ranked(model.graph.layers@[0]@, sub, batch, config));
        }
        Ok(model)
    }

    /// Predictions of a model on a batch: its output node's column, negated
    /// when the model inverts its output.
    pub fn predict(model: &FunctionModel, batch: SignBatch<'_>) -> (r: Result<Vec<bool>, FunctionBuildError>)
        requires
            model_wf(*model),
        ensures
            r is Ok <==> feature_rows_ok(batch, first_len(batch))
                && sources_present(model.graph.nodes@, batch, model.output.0 as int),
            r is Err ==> r == Err::<Vec<bool>, FunctionBuildError>(FunctionBuildError::InvalidBatch),
            r matches Ok(p) ==> p@ == model_predictions(*model, batch, first_len(batch)),
    {
        predict_model(model, batch)
    }

    /// Builds a model and scores its predictions on the same batch.
    #[verifier::spinoff_prover]
    pub fn fit(batch: SignBatch<'_>, config: FunctionBuildConfig) -> (r: Result<(FunctionModel, u8), FunctionBuildError>)
        requires
            config.max_graph_nodes < 0x4000_0000,
        ensures
            !config.valid() ==> r == Err::<(FunctionModel, u8), FunctionBuildError>(FunctionBuildError::InvalidConfig),
            config.valid() && !batch_fits(batch, config.batch_size as int)
                ==> r == Err::<(FunctionModel, u8), FunctionBuildError>(FunctionBuildError::InvalidBatch),
            config.valid() && batch_fits(batch, config.batch_size as int) && varying_count(batch) == 0
                ==> r == Err::<(FunctionModel, u8), FunctionBuildError>(FunctionBuildError::InvalidBatch),
            config.valid() && batch_fits(batch, config.batch_size as int) && varying_count(batch) > config.max_graph_nodes
                ==> r == Err::<(FunctionModel, u8), FunctionBuildError>(FunctionBuildError::GraphCapacity),
            config.valid() && batch_fits(batch, config.batch_size as int) && 0 < varying_count(batch) <= config.max_graph_nodes
                ==> r is Ok,
            r matches Ok((model, score)) ==> {
                &&& model_fits(model, batch, config.batch_size as int)
                &&& exists|ws: BuildWorkspace| #[trigger] model_built(model, batch, config, ws)
                &&& score as int == count_eq_upto(model_predictions(model, batch, config.batch_size as int), batch.signs@, config.batch_size as int)
                &&& score as int == effective_of(node_matches(model.graph.nodes@, batch, model.output.0 as int, config.batch_size as int), config.batch_size as int)
            },
    {
        let model = match Self::build(batch, config) {
            Ok(m) => m,
            Err(e) => {
                return Err(e);
            },
        };
        let ghost n = config.batch_size as int;
        proof {
            lemma_varying_needs_columns(batch);
            assert(first_len(batch) == n);
            assert forall|i: int| 0 <= i < model.graph.nodes@.len() implies #[trigger] sources_present(model.graph.nodes@, batch, i) by {
                lemma_sources_present(model.graph.nodes@, batch, i);
            }
            assert(sources_present(model.graph.nodes@, batch, model.output.0 as int));
        }
        let predictions = match Self::predict(&model, batch) {
            Ok(p) => p,
            Err(e) => {
                return Err(e);
            },
        };
        let score = correct_count(predictions.as_slice(), batch.signs);
        proof {
            law_fit_score_is_effective_matches(model, batch, n);
            let ws = choose|ws: BuildWorkspace| #[trigger] model_built(model, batch, config, ws);
            assert(model_built(model, batch, config, ws));
        }
        Ok((model, score))
    }

    /// Fits a model and returns its predictions on the batch with its score.
    #[verifier::spinoff_prover]
    pub fn fit_predict(batch: SignBatch<'_>, config: FunctionBuildConfig) -> (r: Result<(Vec<bool>, u8), FunctionBuildError>)
        requires
            config.max_graph_nodes < 0x4000_0000,
        ensures
            !config.valid() ==> r == Err::<(Vec<bool>, u8), FunctionBuildError>(FunctionBuildError::InvalidConfig),
            config.valid() && !batch_fits(batch, config.batch_size as int)
                ==> r == Err::<(Vec<bool>, u8), FunctionBuildError>(FunctionBuildError::InvalidBatch),
            config.valid() && batch_fits(batch, config.batch_size as int) && varying_count(batch) == 0
                ==> r == Err::<(Vec<bool>, u8), FunctionBuildError>(FunctionBuildError::InvalidBatch),
            config.valid() && batch_fits(batch, config.batch_size as int) && varying_count(batch) > config.max_graph_nodes
                ==> r == Err::<(Vec<bool>, u8), FunctionBuildError>(FunctionBuildError::GraphCapacity),
            config.valid() && batch_fits(batch, config.batch_size as int) && 0 < varying_count(batch) <= config.max_graph_nodes
                ==> r is Ok,
            r matches Ok((predictions, score)) ==> exists|model: FunctionModel, ws: BuildWorkspace| {
                &&& #[trigger] model_built(model, batch, config, ws)
                &&& model_fits(model, batch, config.batch_size as int)
                &&& predictions@ == model_predictions(model, batch, config.batch_size as int)
                &&& score as int == count_eq_upto(predictions@, batch.signs@, config.batch_size as int)
                &&& 2 * score >= config.batch_size
            },
    {
        let (model, score) = match Self::fit(batch, config) {
            Ok(fitted) => fitted,
            Err(e) => {
                return Err(e);
            },
        };
        let ghost n = config.batch_size as int;
        proof {
            lemma_varying_needs_columns(batch);
            assert(first_len(batch) == n);
            lemma_sources_present(model.graph.nodes@, batch, model.output.0 as int);
        }
        let predictions = match Self::predict(&model, batch) {
            Ok(p) => p,
            Err(e) => {
                return Err(e);
            },
        };
        proof {
            law_fit_matches_at_least_half(model, batch, n);
            assert(model_fits(model, batch, n));
            let ws = choose|ws: BuildWorkspace| #[trigger] model_built(model, batch, config, ws);
            assert(model_built(model, batch, config, ws));
        }
        Ok((predictions, score))
    }
}

} // verus!
