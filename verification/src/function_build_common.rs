//! Configuration, graph types and selection helpers of the truth-table
//! function builder.

use vstd::prelude::*;
use std::collections::HashMap;
use vstd::std_specs::hash::spec_hash_map_iter;
use vstd::std_specs::iter::IteratorSpec;
use crate::association::{count_eq_upto, min_len, lemma_count_eq_upto_bound, count_and_upto, count_true_upto,
    lemma_count_and_upto_bound, lemma_count_true_upto_bound};
use crate::batch::SignBatch;
use crate::binary_truth_table::{FeatureCounter, FeatureCounterError, MAX_COUNTER_BATCH_SIZE, law_table_matches_are_column_hits, majority_table,
    abs_int, column_counts, lemma_counts_are_column_counts, table_matches, table_nz, table_nzy};
use crate::boolean_circuit::{evaluate_truth_table, gate_output};
use crate::seq_perm::{swapped, lemma_swap_multiset};

verus! {

#[derive(Debug, Clone, Copy)]
pub struct FunctionBuildConfig {
    pub batch_size: usize,
    pub parent_top_k: usize,
    pub max_composed_layers: usize,
    pub max_graph_nodes: usize,
    pub max_expert_nodes: usize,
}

pub const DEFAULT_MAX_EXPERT_NODES: usize = 64;

/// `(layers, pairs, nodes)` for `d` sources, parent width `k_p` and at most
/// `n_max` expert nodes: source slots are `min(k_p, max(d, 1))`, layers fill
/// the remaining node budget (at least one), and the graph holds the source
/// slots, `k_p` nodes per layer and one more.
pub open spec fn build_capacity(d: int, k_p: int, n_max: int) -> (int, int, int) {
    let pairs = (if k_p >= 1 { k_p - 1 } else { 0 }) * k_p / 2;
    let source_cap = if k_p <= (if d >= 1 { d } else { 1 }) { k_p } else { if d >= 1 { d } else { 1 } };
    let l_build = if n_max - source_cap >= 1 { n_max - source_cap } else { 1 };
    (l_build, pairs, source_cap + l_build * k_p + 1)
}

pub fn derive_build_capacity(d: usize, k_p: usize, n_max: usize) -> (r: (usize, usize, usize))
    requires
        k_p * k_p <= usize::MAX,
        (if n_max >= 1 { n_max } else { 1 }) * k_p + k_p + 1 <= usize::MAX,
    ensures
        (r.0 as int, r.1 as int, r.2 as int) == build_capacity(d as int, k_p as int, n_max as int),
{
    let below = if k_p >= 1 { k_p - 1 } else { 0 };
    proof {
        assert(below * k_p <= k_p * k_p) by (nonlinear_arith)
            requires below <= k_p;
    }
    let pairs = below * k_p / 2;
    let d_at_least_one = if d >= 1 { d } else { 1 };
    let source_cap = if k_p <= d_at_least_one { k_p } else { d_at_least_one };
    let l_build = if n_max > source_cap && n_max - source_cap >= 1 { n_max - source_cap } else { 1 };
    proof {
        assert(l_build <= (if n_max >= 1 { n_max } else { 1 }));
        assert(l_build * k_p <= (if n_max >= 1 { n_max } else { 1 }) * k_p) by (nonlinear_arith)
            requires l_build <= (if n_max >= 1 { n_max } else { 1 });
    }
    let v = source_cap + l_build * k_p + 1;
    (l_build, pairs, v)
}

impl FunctionBuildConfig {
    pub fn new(
        batch_size: usize,
        parent_top_k: usize,
        source_count: usize,
        max_expert_nodes: usize,
    ) -> (r: Self)
        requires
            parent_top_k * parent_top_k <= usize::MAX,
            (if max_expert_nodes >= 1 { max_expert_nodes } else { 1 }) * parent_top_k + parent_top_k + 1 <= usize::MAX,
        ensures
            r.batch_size == batch_size,
            r.parent_top_k == parent_top_k,
            r.max_composed_layers == build_capacity(source_count as int, parent_top_k as int, max_expert_nodes as int).0,
            r.max_graph_nodes == build_capacity(source_count as int, parent_top_k as int, max_expert_nodes as int).2,
            r.max_expert_nodes == max_expert_nodes,
    {
        let (max_composed_layers, _, max_graph_nodes) = derive_build_capacity(source_count, parent_top_k, max_expert_nodes);
        Self { batch_size, parent_top_k, max_composed_layers, max_graph_nodes, max_expert_nodes }
    }

    /// A positive batch that fits a counter, at least two parents, at least
    /// one layer, and fewer expert nodes than graph nodes.
    pub open spec fn valid(self) -> bool {
        &&& self.batch_size != 0
        &&& self.parent_top_k >= 2
        &&& self.max_composed_layers != 0
        &&& self.max_expert_nodes != 0
        &&& self.max_expert_nodes < self.max_graph_nodes
        &&& self.batch_size <= MAX_COUNTER_BATCH_SIZE
    }
}

#[derive(Debug, Clone, Copy, PartialEq, Eq, Structural)]
pub enum FunctionBuildError {
    InvalidConfig,
    InvalidBatch,
    BatchTooLarge,
    GraphCapacity,
}

impl From<FeatureCounterError> for FunctionBuildError {
    fn from(error: FeatureCounterError) -> (r: Self) {
        match error {
            FeatureCounterError::BatchTooLarge => FunctionBuildError::BatchTooLarge,
        }
    }
}

impl vstd::std_specs::convert::FromSpecImpl<FeatureCounterError> for FunctionBuildError {
    open spec fn obeys_from_spec() -> bool {
        true
    }

    open spec fn from_spec(error: FeatureCounterError) -> Self {
        match error {
            FeatureCounterError::BatchTooLarge => FunctionBuildError::BatchTooLarge,
        }
    }
}

#[derive(Debug, Clone, Copy, PartialEq, Eq, Structural, Hash, PartialOrd, Ord)]
pub struct BuildNodeId(pub usize);

#[derive(Debug, Clone, Copy)]
pub enum EphemeralNode {
    Source { input_index: usize },
    Composed { first: BuildNodeId, second: BuildNodeId, truth_table: u8 },
}

#[derive(Debug, Clone)]
pub struct EphemeralGraph {
    pub nodes: Vec<EphemeralNode>,
    pub layers: Vec<Vec<BuildNodeId>>,
}

#[derive(Debug, Clone)]
pub struct FunctionModel {
    pub graph: EphemeralGraph,
    pub output: BuildNodeId,
    pub invert_output: bool,
}

/// Every composed node reads earlier nodes only.
pub open spec fn topological(nodes: Seq<EphemeralNode>) -> bool {
    forall|i: int| 0 <= i < nodes.len() ==> match #[trigger] nodes[i] {
        EphemeralNode::Source { input_index } => true,
        EphemeralNode::Composed { first, second, truth_table } => first.0 < i && second.0 < i,
    }
}

/// Value of node `i` on row `row` of the batch.
pub open spec fn node_value(nodes: Seq<EphemeralNode>, batch: SignBatch, i: int, row: int) -> bool
    decreases i,
{
    if 0 <= i < nodes.len() {
        match nodes[i] {
            EphemeralNode::Source { input_index } => fcol(batch, input_index as int)[row],
            EphemeralNode::Composed { first, second, truth_table } => if first.0 < i && second.0 < i {
                gate_output(
                    truth_table,
                    node_value(nodes, batch, first.0 as int, row),
                    node_value(nodes, batch, second.0 as int, row),
                )
            } else {
                false
            },
        }
    } else {
        false
    }
}

/// Column of node `i` over the first `n` rows.
pub open spec fn node_col(nodes: Seq<EphemeralNode>, batch: SignBatch, i: int, n: int) -> Seq<bool> {
    Seq::new(n as nat, |row: int| node_value(nodes, batch, i, row))
}

pub fn validate_build_config(config: FunctionBuildConfig) -> (r: Result<(), FunctionBuildError>)
    ensures
        r is Ok <==> config.valid(),
        r is Err ==> r == Err::<(), FunctionBuildError>(FunctionBuildError::InvalidConfig),
{
    if config.batch_size == 0 || config.parent_top_k < 2 || config.max_composed_layers == 0
        || config.max_expert_nodes == 0 || config.max_expert_nodes >= config.max_graph_nodes
        || config.batch_size > MAX_COUNTER_BATCH_SIZE {
        return Err(FunctionBuildError::InvalidConfig);
    }
    Ok(())
}

/// A column of more than one row whose rows all agree.
pub open spec fn constant_col(c: Seq<bool>) -> bool {
    c.len() > 1 && forall|i: int| 0 <= i < c.len() ==> #[trigger] c[i] == c[0]
}

/// Whether a column of more than one row holds a single value.
pub fn is_constant_column(column: &[bool]) -> (r: bool)
    ensures
        r == constant_col(column@),
{
    if column.len() <= 1 {
        return false;
    }
    let first = column[0];
    let mut i: usize = 1;
    while i < column.len()
        invariant
            1 <= i <= column@.len(),
            first == column@[0],
            forall|k: int| 0 <= k < i ==> #[trigger] column@[k] == first,
        decreases column@.len() - i,
    {
        if column[i] != first {
            return false;
        }
        i = i + 1;
    }
    true
}

/// Number of rows, over the common prefix, where the values equal the signs.
pub fn correct_count(values: &[bool], signs: &[bool]) -> (r: u8)
    requires
        min_len(values@, signs@) <= 255,
    ensures
        r == count_eq_upto(values@, signs@, min_len(values@, signs@)),
{
    let n = if values.len() <= signs.len() { values.len() } else { signs.len() };
    let mut count: u8 = 0;
    let mut i: usize = 0;
    while i < n
        invariant
            n == min_len(values@, signs@),
            n <= values@.len(),
            n <= signs@.len(),
            n <= 255,
            i <= n,
            count == count_eq_upto(values@, signs@, i as int),
        decreases n - i,
    {
        proof {
            lemma_count_eq_upto_bound(values@, signs@, i as int);
        }
        if values[i] == signs[i] {
            count = count + 1;
        }
        i = i + 1;
    }
    count
}

/// A constant truth table ignores both inputs.
pub fn is_constant_truth_table(truth_table: u8) -> (r: bool)
    ensures
        r == (truth_table == 0 || truth_table == 15),
{
    truth_table == 0b0000 || truth_table == 0b1111
}

/// Matches of a node or of its negation, whichever is larger.
pub fn effective_matches(matched: u8, batch_size: u8) -> (r: u8)
    requires
        matched <= batch_size,
    ensures
        r == effective_of(matched as int, batch_size as int),
{
    let other = batch_size - matched;
    if matched >= other { matched } else { other }
}

/// Matches of a node or of its negation, whichever is larger.
pub open spec fn effective_of(matched: int, batch_size: int) -> int {
    if matched >= batch_size - matched { matched } else { batch_size - matched }
}

/// Feature column `i` of the batch's column slices.
pub open spec fn fcol(batch: SignBatch, i: int) -> Seq<bool> {
    batch.feature_columns@[i]@
}

/// Number of feature column slices.
pub open spec fn fcount(batch: SignBatch) -> int {
    batch.feature_columns@.len() as int
}

/// Rows of the first feature column, or 0 without columns.
pub open spec fn first_len(batch: SignBatch) -> int {
    if fcount(batch) > 0 { fcol(batch, 0).len() as int } else { 0 }
}

/// Every feature column has `batch_size` rows.
pub open spec fn feature_rows_ok(batch: SignBatch, batch_size: int) -> bool {
    forall|i: int| 0 <= i < fcount(batch) ==> (#[trigger] fcol(batch, i)).len() == batch_size
}

fn validate_feature_batch_with_size(batch: SignBatch<'_>, batch_size: usize) -> (r: Result<(), FunctionBuildError>)
    ensures
        r is Ok <==> feature_rows_ok(batch, batch_size as int),
        r is Err ==> r == Err::<(), FunctionBuildError>(FunctionBuildError::InvalidBatch),
{
    let count = batch.feature_columns.len();
    let mut index: usize = 0;
    while index < count
        invariant
            count == fcount(batch),
            index <= count,
            forall|i: int| 0 <= i < index ==> (#[trigger] fcol(batch, i)).len() == batch_size,
        decreases count - index,
    {
        if batch.feature_columns[index].len() != batch_size {
            assert(fcol(batch, index as int).len() != batch_size);
            return Err(FunctionBuildError::InvalidBatch);
        }
        index = index + 1;
    }
    Ok(())
}

pub fn validate_batch(batch: SignBatch<'_>, batch_size: usize) -> (r: Result<(), FunctionBuildError>)
    ensures
        r is Ok <==> feature_rows_ok(batch, batch_size as int) && batch.signs@.len() == batch_size,
        r is Err ==> r == Err::<(), FunctionBuildError>(FunctionBuildError::InvalidBatch),
{
    validate_feature_batch_with_size(batch, batch_size)?;
    if batch.signs.len() != batch_size {
        return Err(FunctionBuildError::InvalidBatch);
    }
    Ok(())
}

pub fn validate_feature_batch(batch: SignBatch<'_>) -> (r: Result<(), FunctionBuildError>)
    ensures
        r is Ok <==> feature_rows_ok(batch, first_len(batch)),
        r is Err ==> r == Err::<(), FunctionBuildError>(FunctionBuildError::InvalidBatch),
{
    let batch_size = if batch.feature_columns.len() > 0 { batch.feature_columns[0].len() } else { 0 };
    validate_feature_batch_with_size(batch, batch_size)
}

/// Copy of a column.
fn copy_column(column: &[bool]) -> (out: Vec<bool>)
    ensures
        out@ == column@,
{
    let mut out: Vec<bool> = Vec::new();
    let mut i: usize = 0;
    while i < column.len()
        invariant
            i <= column@.len(),
            out@ == column@.subrange(0, i as int),
        decreases column@.len() - i,
    {
        out.push(column[i]);
        i = i + 1;
        assert(out@ =~= column@.subrange(0, i as int));
    }
    assert(out@ =~= column@);
    out
}

/// The column of node `id` on the batch; a source past the batch's features
/// is refused.
pub fn node_column(graph: &EphemeralGraph, batch: SignBatch<'_>, id: BuildNodeId) -> (r: Result<Vec<bool>, FunctionBuildError>)
    requires
        id.0 < graph.nodes@.len(),
        topological(graph.nodes@),
        feature_rows_ok(batch, first_len(batch)),
    ensures
        r is Ok <==> sources_present(graph.nodes@, batch, id.0 as int),
        r is Err ==> r == Err::<Vec<bool>, FunctionBuildError>(FunctionBuildError::InvalidBatch),
        r matches Ok(c) ==> c@ == node_col(graph.nodes@, batch, id.0 as int, first_len(batch)),
    decreases id.0,
{
    match graph.nodes[id.0] {
        EphemeralNode::Source { input_index } => {
            if input_index < batch.feature_columns.len() {
                let out = copy_column(batch.feature_columns[input_index]);
                proof {
                    assert(fcol(batch, input_index as int).len() == first_len(batch));
                    assert(out@ =~= node_col(graph.nodes@, batch, id.0 as int, first_len(batch)));
                }
                Ok(out)
            } else {
                Err(FunctionBuildError::InvalidBatch)
            }
        },
        EphemeralNode::Composed { first, second, truth_table } => {
            let first_col = node_column(graph, batch, first)?;
            let second_col = node_column(graph, batch, second)?;
            let mut out: Vec<bool> = Vec::new();
            let mut i: usize = 0;
            while i < first_col.len() && i < second_col.len()
                invariant
                    first_col@.len() == second_col@.len(),
                    i <= first_col@.len(),
                    first_col@ == node_col(graph.nodes@, batch, first.0 as int, first_len(batch)),
                    second_col@ == node_col(graph.nodes@, batch, second.0 as int, first_len(batch)),
                    forall|k: int| 0 <= k < i ==> #[trigger] out@[k] == gate_output(truth_table, first_col@[k], second_col@[k]),
                    out@.len() == i,
                decreases first_col@.len() - i,
            {
                out.push(evaluate_truth_table(truth_table, first_col[i], second_col[i]));
                i = i + 1;
            }
            proof {
                assert(out@ =~= node_col(graph.nodes@, batch, id.0 as int, first_len(batch)));
            }
            Ok(out)
        },
    }
}

/// Every source that node `i` reads is a feature of the batch.
pub open spec fn sources_present(nodes: Seq<EphemeralNode>, batch: SignBatch, i: int) -> bool
    decreases i,
{
    if 0 <= i < nodes.len() {
        match nodes[i] {
            EphemeralNode::Source { input_index } => input_index < fcount(batch),
            EphemeralNode::Composed { first, second, truth_table } => first.0 < i && second.0 < i
                && sources_present(nodes, batch, first.0 as int) && sources_present(nodes, batch, second.0 as int),
        }
    } else {
        false
    }
}

/// The model's predictions on the first `n` rows: its output node's column,
/// negated when the model inverts its output.
pub open spec fn model_predictions(model: FunctionModel, batch: SignBatch, n: int) -> Seq<bool> {
    Seq::new(n as nat, |row: int| {
        let v = node_value(model.graph.nodes@, batch, model.output.0 as int, row);
        if model.invert_output { !v } else { v }
    })
}

/// A model that can be evaluated: a well-formed graph holding its output node.
pub open spec fn model_wf(model: FunctionModel) -> bool {
    &&& model.output.0 < model.graph.nodes@.len()
    &&& topological(model.graph.nodes@)
}

pub fn predict_model(model: &FunctionModel, batch: SignBatch<'_>) -> (r: Result<Vec<bool>, FunctionBuildError>)
    requires
        model_wf(*model),
    ensures
        r is Ok <==> feature_rows_ok(batch, first_len(batch))
            && sources_present(model.graph.nodes@, batch, model.output.0 as int),
        r is Err ==> r == Err::<Vec<bool>, FunctionBuildError>(FunctionBuildError::InvalidBatch),
        r matches Ok(p) ==> p@ == model_predictions(*model, batch, first_len(batch)),
{
    validate_feature_batch(batch)?;
    let mut predictions = node_column(&model.graph, batch, model.output)?;
    let ghost column = predictions@;
    if model.invert_output {
        let mut i: usize = 0;
        while i < predictions.len()
            invariant
                i <= predictions@.len(),
                predictions@.len() == column.len(),
                forall|k: int| 0 <= k < i ==> #[trigger] predictions@[k] == !column[k],
                forall|k: int| i <= k < column.len() ==> #[trigger] predictions@[k] == column[k],
            decreases predictions@.len() - i,
        {
            let v = predictions[i];
            predictions[i] = !v;
            i = i + 1;
        }
    }
    proof {
        assert(predictions@ =~= model_predictions(*model, batch, first_len(batch)));
    }
    Ok(predictions)
}

#[derive(Debug, Clone, Copy)]
pub struct PairCandidate {
    pub first: BuildNodeId,
    pub second: BuildNodeId,
    pub truth_table: u8,
    pub abs_assoc: i64,
    pub matched: u8,
}

/// `a` ranks before `b`: higher association, then lower first node, then
/// lower second node.
pub open spec fn pair_before(a: PairCandidate, b: PairCandidate) -> bool {
    a.abs_assoc > b.abs_assoc || (a.abs_assoc == b.abs_assoc && (a.first.0 < b.first.0
        || (a.first.0 == b.first.0 && a.second.0 < b.second.0)))
}

/// No later candidate ranks before an earlier one.
pub open spec fn pairs_sorted(s: Seq<PairCandidate>) -> bool {
    forall|i: int, j: int| 0 <= i < j < s.len() ==> !pair_before(#[trigger] s[j], #[trigger] s[i])
}

fn pair_ranks_before(a: &PairCandidate, b: &PairCandidate) -> (r: bool)
    ensures
        r == pair_before(*a, *b),
{
    a.abs_assoc > b.abs_assoc || (a.abs_assoc == b.abs_assoc && (a.first.0 < b.first.0
        || (a.first.0 == b.first.0 && a.second.0 < b.second.0)))
}

/// Sorts the candidates by rank and returns how many of them to keep: at
/// most `top_k`.
pub fn top_k_pair_candidates(candidates: &mut [PairCandidate], top_k: usize) -> (keep: usize)
    ensures
        final(candidates)@.len() == old(candidates)@.len(),
        final(candidates)@.to_multiset() == old(candidates)@.to_multiset(),
        pairs_sorted(final(candidates)@),
        keep == if old(candidates)@.len() <= top_k { old(candidates)@.len() as int } else { top_k as int },
{
    let n = candidates.len();
    let mut i: usize = 1;
    while i < n
        invariant
            n == candidates@.len(),
            candidates@.len() == old(candidates)@.len(),
            candidates@.to_multiset() == old(candidates)@.to_multiset(),
            1 <= i || n == 0,
            i <= n || n == 0,
            pairs_sorted(candidates@.subrange(0, i as int)) || n == 0,
        decreases n - i,
    {
        let mut j = i;
        proof {
            assert forall|a: int, b: int| 0 <= a < b <= i && b != j implies !pair_before(#[trigger] candidates@[b], #[trigger] candidates@[a]) by {
                assert(candidates@.subrange(0, i as int)[b] == candidates@[b]);
                assert(candidates@.subrange(0, i as int)[a] == candidates@[a]);
            }
        }
        while j > 0 && pair_ranks_before(&candidates[j], &candidates[j - 1])
            invariant
                n == candidates@.len(),
                candidates@.to_multiset() == old(candidates)@.to_multiset(),
                0 <= j <= i < n,
                forall|a: int, b: int| 0 <= a < b <= i && b != j ==> !pair_before(#[trigger] candidates@[b], #[trigger] candidates@[a]),
                j < i ==> forall|a: int| 0 <= a < j ==> !pair_before(candidates@[j + 1], #[trigger] candidates@[a]),
            decreases j,
        {
            let ghost before = candidates@;
            let tmp = candidates[j];
            let prev = candidates[j - 1];
            candidates[j] = prev;
            candidates[j - 1] = tmp;
            proof {
                lemma_swap_multiset(before, j - 1, j as int);
                assert(candidates@ =~= swapped(before, j - 1, j as int));
            }
            j = j - 1;
        }
        proof {
            assert(pairs_sorted(candidates@.subrange(0, i + 1))) by {
                assert forall|a: int, b: int| 0 <= a < b < i + 1 implies !pair_before(#[trigger] candidates@.subrange(0, i + 1)[b], #[trigger] candidates@.subrange(0, i + 1)[a]) by {
                    assert(candidates@.subrange(0, i + 1)[b] == candidates@[b]);
                    assert(candidates@.subrange(0, i + 1)[a] == candidates@[a]);
                }
            }
        }
        i = i + 1;
    }
    proof {
        if n > 0 {
            assert(candidates@.subrange(0, n as int) =~= candidates@);
        }
    }
    if n <= top_k { n } else { top_k }
}

/// Score recorded for node `id`, or 0 past the recorded scores.
pub open spec fn score_at(scores: Seq<i64>, id: BuildNodeId) -> int {
    if id.0 < scores.len() { scores[id.0 as int] as int } else { 0 }
}

/// `a` ranks before `b`: higher score, then lower id.
pub open spec fn node_before(scores: Seq<i64>, a: BuildNodeId, b: BuildNodeId) -> bool {
    score_at(scores, a) > score_at(scores, b) || (score_at(scores, a) == score_at(scores, b) && a.0 < b.0)
}

/// No later node ranks before an earlier one.
pub open spec fn nodes_sorted(s: Seq<BuildNodeId>, scores: Seq<i64>) -> bool {
    forall|i: int, j: int| 0 <= i < j < s.len() ==> !node_before(scores, #[trigger] s[j], #[trigger] s[i])
}

/// `top` is the first `min(k, len)` nodes of `nodes` ranked by score.
pub open spec fn ranked_prefix(nodes: Seq<BuildNodeId>, scores: Seq<i64>, k: int, top: Seq<BuildNodeId>) -> bool {
    exists|ranked: Seq<BuildNodeId>| #[trigger] ranked.to_multiset() == nodes.to_multiset() && nodes_sorted(ranked, scores)
        && top == ranked.take(if nodes.len() <= k { nodes.len() as int } else { k })
}

fn score_lookup(scores: &[i64], id: BuildNodeId) -> (r: i64)
    ensures
        r == score_at(scores@, id),
{
    if id.0 < scores.len() { scores[id.0] } else { 0 }
}

fn node_ranks_before(scores: &[i64], a: BuildNodeId, b: BuildNodeId) -> (r: bool)
    ensures
        r == node_before(scores@, a, b),
{
    let sa = score_lookup(scores, a);
    let sb = score_lookup(scores, b);
    sa > sb || (sa == sb && a.0 < b.0)
}

/// The nodes sorted by rank.
fn sort_nodes_by_score(references: &[BuildNodeId], scores: &[i64]) -> (r: Vec<BuildNodeId>)
    ensures
        r@.to_multiset() == references@.to_multiset(),
        nodes_sorted(r@, scores@),
{
    let mut v: Vec<BuildNodeId> = Vec::new();
    let mut k: usize = 0;
    while k < references.len()
        invariant
            k <= references@.len(),
            v@ == references@.subrange(0, k as int),
        decreases references@.len() - k,
    {
        v.push(references[k]);
        k = k + 1;
        assert(v@ =~= references@.subrange(0, k as int));
    }
    assert(v@ =~= references@);
    let n = v.len();
    let mut i: usize = 1;
    while i < n
        invariant
            n == v@.len(),
            v@.to_multiset() == references@.to_multiset(),
            1 <= i || n == 0,
            i <= n || n == 0,
            nodes_sorted(v@.subrange(0, i as int), scores@) || n == 0,
        decreases n - i,
    {
        let mut j = i;
        proof {
            assert forall|a: int, b: int| 0 <= a < b <= i && b != j implies !node_before(scores@, #[trigger] v@[b], #[trigger] v@[a]) by {
                assert(v@.subrange(0, i as int)[b] == v@[b]);
                assert(v@.subrange(0, i as int)[a] == v@[a]);
            }
        }
        while j > 0 && node_ranks_before(scores, v[j], v[j - 1])
            invariant
                n == v@.len(),
                v@.to_multiset() == references@.to_multiset(),
                0 <= j <= i < n,
                forall|a: int, b: int| 0 <= a < b <= i && b != j ==> !node_before(scores@, #[trigger] v@[b], #[trigger] v@[a]),
                j < i ==> forall|a: int| 0 <= a < j ==> !node_before(scores@, v@[j + 1], #[trigger] v@[a]),
            decreases j,
        {
            let ghost before = v@;
            let tmp = v[j];
            let prev = v[j - 1];
            v.set(j, prev);
            v.set(j - 1, tmp);
            proof {
                lemma_swap_multiset(before, j - 1, j as int);
                assert(v@ == before.update(j as int, before[j - 1]).update(j - 1, before[j as int]));
                assert(v@ =~= swapped(before, j - 1, j as int));
            }
            j = j - 1;
        }
        proof {
            assert forall|a: int, b: int| 0 <= a < b < i + 1 implies !node_before(scores@, #[trigger] v@.subrange(0, i + 1)[b], #[trigger] v@.subrange(0, i + 1)[a]) by {
                assert(v@.subrange(0, i + 1)[b] == v@[b]);
                assert(v@.subrange(0, i + 1)[a] == v@[a]);
            }
        }
        i = i + 1;
    }
    proof {
        if n > 0 {
            assert(v@.subrange(0, n as int) =~= v@);
        }
    }
    v
}

/// The `k` nodes of highest score (ties to the lower id).
pub fn parent_top_k_slice(references: &[BuildNodeId], association_scores: &[i64], k: usize) -> (r: Vec<BuildNodeId>)
    ensures
        ranked_prefix(references@, association_scores@, k as int, r@),
{
    let mut parents = sort_nodes_by_score(references, association_scores);
    let ghost ranked = parents@;
    let keep = if parents.len() <= k { parents.len() } else { k };
    parents.truncate(keep);
    proof {
        assert(parents@ =~= ranked.take(keep as int));
        assert(ranked.to_multiset() == references@.to_multiset());
        assert(ranked.len() == references@.len()) by {
            ranked.to_multiset_ensures();
            references@.to_multiset_ensures();
        }
    }
    parents
}

/// Accuracy recorded for node `id`, or 0 past the recorded accuracies.
pub open spec fn acc_at(acc: Seq<u8>, id: BuildNodeId) -> int {
    if id.0 < acc.len() { acc[id.0 as int] as int } else { 0 }
}

/// `b` is in `top` and has the most effective matches there, ties to the lower id.
pub open spec fn best_by_effective(top: Seq<BuildNodeId>, acc: Seq<u8>, batch_size: int, b: BuildNodeId) -> bool {
    &&& top.contains(b)
    &&& forall|x: BuildNodeId| #[trigger] top.contains(x) ==> effective_of(acc_at(acc, x), batch_size)
        < effective_of(acc_at(acc, b), batch_size)
        || (effective_of(acc_at(acc, x), batch_size) == effective_of(acc_at(acc, b), batch_size) && b.0 <= x.0)
}

/// Among the `top_k` candidates of highest association, the one with the
/// most effective matches (ties to the lower id), and whether to invert it.
pub fn select_output_top_k_by_association(
    candidates: &[BuildNodeId],
    association_scores: &[i64],
    accuracy_scores: &[u8],
    batch_size: u8,
    top_k: usize,
) -> (r: (BuildNodeId, bool))
    requires
        candidates@.len() >= 1,
        top_k >= 1,
        forall|i: int| 0 <= i < candidates@.len() ==> (#[trigger] candidates@[i]).0 < accuracy_scores@.len()
            && accuracy_scores@[candidates@[i].0 as int] <= batch_size,
    ensures
        exists|top: Seq<BuildNodeId>| #[trigger] ranked_prefix(candidates@, association_scores@, top_k as int, top)
            && best_by_effective(top, accuracy_scores@, batch_size as int, r.0),
        candidates@.contains(r.0),
        r.1 == (accuracy_scores@[r.0.0 as int] < batch_size - accuracy_scores@[r.0.0 as int]),
{
    let ranked = parent_top_k_slice(candidates, association_scores, top_k);
    let ghost top = ranked@;
    proof {
        let full = choose|full: Seq<BuildNodeId>| #[trigger] full.to_multiset() == candidates@.to_multiset() && nodes_sorted(full, association_scores@)
            && top == full.take(if candidates@.len() <= top_k { candidates@.len() as int } else { top_k as int });
        assert(full.len() == candidates@.len()) by {
            full.to_multiset_ensures();
            candidates@.to_multiset_ensures();
        }
        assert forall|x: BuildNodeId| top.contains(x) implies candidates@.contains(x) && x.0 < accuracy_scores@.len()
            && accuracy_scores@[x.0 as int] <= batch_size by {
            let w = choose|w: int| 0 <= w < top.len() && top[w] == x;
            assert(full[w] == x);
            assert(full.contains(x));
            vstd::seq_lib::to_multiset_contains(full, x);
            vstd::seq_lib::to_multiset_contains(candidates@, x);
            let v = choose|v: int| 0 <= v < candidates@.len() && candidates@[v] == x;
            assert(candidates@[v].0 < accuracy_scores@.len());
        }
        assert(top.len() >= 1);
        assert(top.contains(top[0]));
    }
    let mut best = ranked[0];
    let mut best_eff = effective_matches(accuracy_scores[best.0], batch_size);
    let mut i: usize = 1;
    proof {
        assert(top.subrange(0, 1)[0] == best);
    }
    while i < ranked.len()
        invariant
            ranked@ == top,
            1 <= i <= top.len(),
            forall|x: BuildNodeId| top.contains(x) ==> candidates@.contains(x) && x.0 < accuracy_scores@.len()
                && accuracy_scores@[x.0 as int] <= batch_size,
            top.subrange(0, i as int).contains(best),
            best_eff == effective_of(acc_at(accuracy_scores@, best), batch_size as int),
            forall|k: int| 0 <= k < i ==> effective_of(acc_at(accuracy_scores@, #[trigger] top[k]), batch_size as int) < best_eff
                || (effective_of(acc_at(accuracy_scores@, top[k]), batch_size as int) == best_eff && best.0 <= top[k].0),
        decreases top.len() - i,
    {
        let x = ranked[i];
        proof {
            assert(top.contains(top[i as int]));
        }
        let eff = effective_matches(accuracy_scores[x.0], batch_size);
        if eff > best_eff || (eff == best_eff && x.0 <= best.0) {
            best = x;
            best_eff = eff;
            proof {
                assert(top.subrange(0, i + 1)[i as int] == x);
            }
        } else {
            proof {
                let w = choose|w: int| 0 <= w < i && top.subrange(0, i as int)[w] == best;
                assert(top.subrange(0, i + 1)[w] == best);
            }
        }
        i = i + 1;
    }
    proof {
        let w = choose|w: int| 0 <= w < top.len() && top.subrange(0, top.len() as int)[w] == best;
        assert(top[w] == best);
        assert(top.contains(best));
    }
    let matched = accuracy_scores[best.0];
    let invert_output = matched < batch_size - matched;
    proof {
        assert forall|x: BuildNodeId| top.contains(x) implies effective_of(acc_at(accuracy_scores@, x), batch_size as int)
            < effective_of(acc_at(accuracy_scores@, best), batch_size as int)
            || (effective_of(acc_at(accuracy_scores@, x), batch_size as int)
                == effective_of(acc_at(accuracy_scores@, best), batch_size as int) && best.0 <= x.0) by {
            let k = choose|k: int| 0 <= k < top.len() && top[k] == x;
            assert(effective_of(acc_at(accuracy_scores@, top[k]), batch_size as int) < best_eff
                || (effective_of(acc_at(accuracy_scores@, top[k]), batch_size as int) == best_eff && best.0 <= top[k].0));
        }
        assert(ranked_prefix(candidates@, association_scores@, top_k as int, top));
        assert(best_by_effective(top, accuracy_scores@, batch_size as int, best));
    }
    (best, invert_output)
}

/// The ids of every layer, layer by layer.
pub open spec fn concat_layers(layers: Seq<Vec<BuildNodeId>>, n: int) -> Seq<BuildNodeId>
    decreases n,
{
    if n <= 0 { Seq::empty() } else { concat_layers(layers, n - 1) + layers[n - 1]@ }
}

pub fn surviving_nodes(graph: &EphemeralGraph) -> (r: Vec<BuildNodeId>)
    ensures
        r@ == concat_layers(graph.layers@, graph.layers@.len() as int),
{
    let mut out: Vec<BuildNodeId> = Vec::new();
    let mut l: usize = 0;
    while l < graph.layers.len()
        invariant
            l <= graph.layers@.len(),
            out@ == concat_layers(graph.layers@, l as int),
        decreases graph.layers@.len() - l,
    {
        let layer = &graph.layers[l];
        let ghost start = out@;
        let mut k: usize = 0;
        while k < layer.len()
            invariant
                k <= layer@.len(),
                out@ == start + layer@.subrange(0, k as int),
            decreases layer@.len() - k,
        {
            out.push(layer[k]);
            k = k + 1;
            assert(out@ =~= start + layer@.subrange(0, k as int));
        }
        assert(layer@.subrange(0, layer@.len() as int) =~= layer@);
        l = l + 1;
    }
    out
}

/// The most effective matches over all recorded nodes, 0 when none is.
pub fn best_effective_matches_slice(accuracy_scores: &[u8], batch_size: u8) -> (r: u8)
    requires
        forall|i: int| 0 <= i < accuracy_scores@.len() ==> #[trigger] accuracy_scores@[i] <= batch_size,
    ensures
        accuracy_scores@.len() == 0 ==> r == 0,
        accuracy_scores@.len() > 0 ==> exists|i: int| 0 <= i < accuracy_scores@.len()
            && r == effective_of(#[trigger] accuracy_scores@[i] as int, batch_size as int),
        forall|i: int| 0 <= i < accuracy_scores@.len() ==> effective_of(#[trigger] accuracy_scores@[i] as int, batch_size as int) <= r,
{
    let mut best: u8 = 0;
    let mut i: usize = 0;
    while i < accuracy_scores.len()
        invariant
            i <= accuracy_scores@.len(),
            forall|j: int| 0 <= j < accuracy_scores@.len() ==> #[trigger] accuracy_scores@[j] <= batch_size,
            i == 0 ==> best == 0,
            i > 0 ==> exists|j: int| 0 <= j < i && best == effective_of(#[trigger] accuracy_scores@[j] as int, batch_size as int),
            forall|j: int| 0 <= j < i ==> effective_of(#[trigger] accuracy_scores@[j] as int, batch_size as int) <= best,
        decreases accuracy_scores@.len() - i,
    {
        let e = effective_matches(accuracy_scores[i], batch_size);
        if i == 0 || e > best {
            best = e;
        }
        i = i + 1;
    }
    best
}

/// Node `a` outranks node `b` as an output: more effective matches, then a
/// higher association, then the lower id.
pub open spec fn variant_before(assoc: Seq<i64>, acc: Seq<u8>, batch_size: int, a: int, b: int) -> bool {
    let ea = effective_of(acc[a] as int, batch_size);
    let eb = effective_of(acc[b] as int, batch_size);
    let sa = score_at(assoc, BuildNodeId(a as usize));
    let sb = score_at(assoc, BuildNodeId(b as usize));
    ea > eb || (ea == eb && (sa > sb || (sa == sb && a < b)))
}

fn variant_ranks_before(association_scores: &[i64], accuracy_scores: &[u8], batch_size: u8, a: usize, b: usize) -> (r: bool)
    requires
        a < accuracy_scores@.len(),
        b < accuracy_scores@.len(),
        accuracy_scores@[a as int] <= batch_size,
        accuracy_scores@[b as int] <= batch_size,
    ensures
        r == variant_before(association_scores@, accuracy_scores@, batch_size as int, a as int, b as int),
{
    let ea = effective_matches(accuracy_scores[a], batch_size);
    let eb = effective_matches(accuracy_scores[b], batch_size);
    let sa = score_lookup(association_scores, BuildNodeId(a));
    let sb = score_lookup(association_scores, BuildNodeId(b));
    ea > eb || (ea == eb && (sa > sb || (sa == sb && a < b)))
}

/// The recorded node with the most effective matches (then the highest
/// association, then the lowest id), and whether its column is to be inverted.
pub fn select_output_and_variant_slices(association_scores: &[i64], accuracy_scores: &[u8], batch_size: u8) -> (r: (
    BuildNodeId,
    bool,
))
    requires
        accuracy_scores@.len() >= 1,
        forall|i: int| 0 <= i < accuracy_scores@.len() ==> #[trigger] accuracy_scores@[i] <= batch_size,
    ensures
        r.0.0 < accuracy_scores@.len(),
        forall|j: int| 0 <= j < accuracy_scores@.len() && j != r.0.0 ==> variant_before(
            association_scores@, accuracy_scores@, batch_size as int, r.0.0 as int, j),
        r.1 == (accuracy_scores@[r.0.0 as int] < batch_size - accuracy_scores@[r.0.0 as int]),
{
    let mut best: usize = 0;
    let mut i: usize = 1;
    while i < accuracy_scores.len()
        invariant
            1 <= i <= accuracy_scores@.len(),
            best < i,
            forall|j: int| 0 <= j < accuracy_scores@.len() ==> #[trigger] accuracy_scores@[j] <= batch_size,
            forall|j: int| 0 <= j < i && j != best ==> variant_before(
                association_scores@, accuracy_scores@, batch_size as int, best as int, j),
        decreases accuracy_scores@.len() - i,
    {
        let ghost old_best = best as int;
        if variant_ranks_before(association_scores, accuracy_scores, batch_size, i, best) {
            best = i;
        }
        proof {
            assert forall|j: int| 0 <= j < i + 1 && j != best implies variant_before(
                association_scores@, accuracy_scores@, batch_size as int, best as int, j) by {
                if j != old_best && j < i {
                    assert(variant_before(association_scores@, accuracy_scores@, batch_size as int, old_best, j));
                }
            }
        }
        i = i + 1;
    }
    let matched = accuracy_scores[best];
    (BuildNodeId(best), matched < batch_size - matched)
}

/// Index of the first layer that holds `id` at or past layer `k`, or 0 when none does.
pub open spec fn layer_from(layers: Seq<Vec<BuildNodeId>>, id: BuildNodeId, k: int) -> int
    decreases layers.len() - k,
{
    if k < 0 || k >= layers.len() {
        0
    } else if layers[k]@.contains(id) {
        k
    } else {
        layer_from(layers, id, k + 1)
    }
}

/// Index of the first layer that holds `id`, or 0 when none does.
pub fn node_layer(graph: &EphemeralGraph, id: BuildNodeId) -> (r: usize)
    ensures
        r == layer_from(graph.layers@, id, 0),
{
    let mut layer: usize = 0;
    while layer < graph.layers.len()
        invariant
            layer <= graph.layers@.len(),
            layer_from(graph.layers@, id, 0) == layer_from(graph.layers@, id, layer as int),
        decreases graph.layers@.len() - layer,
    {
        let nodes = &graph.layers[layer];
        let mut k: usize = 0;
        let mut found = false;
        while k < nodes.len()
            invariant
                k <= nodes@.len(),
                found == exists|m: int| 0 <= m < k && nodes@[m] == id,
            decreases nodes@.len() - k,
        {
            if nodes[k].0 == id.0 {
                found = true;
            }
            k = k + 1;
        }
        if found {
            return layer;
        }
        layer = layer + 1;
    }
    0
}

/// Node `a` outranks node `b` as an output: more matches, then a later
/// layer, then the lower id.
pub open spec fn table_output_before(layers: Seq<Vec<BuildNodeId>>, acc: Seq<u8>, a: int, b: int) -> bool {
    let la = layer_from(layers, BuildNodeId(a as usize), 0);
    let lb = layer_from(layers, BuildNodeId(b as usize), 0);
    acc[a] > acc[b] || (acc[a] == acc[b] && (la > lb || (la == lb && a < b)))
}

/// The recorded node with the most matches (then the latest layer, then the
/// lowest id), and whether its column is to be inverted.
pub fn select_output_truth_table_slices(graph: &EphemeralGraph, accuracy_scores: &[u8], batch_size: u8) -> (r: (
    BuildNodeId,
    bool,
))
    requires
        accuracy_scores@.len() >= 1,
        forall|i: int| 0 <= i < accuracy_scores@.len() ==> #[trigger] accuracy_scores@[i] <= batch_size,
    ensures
        r.0.0 < accuracy_scores@.len(),
        forall|j: int| 0 <= j < accuracy_scores@.len() && j != r.0.0 ==> table_output_before(
            graph.layers@, accuracy_scores@, r.0.0 as int, j),
        r.1 == (accuracy_scores@[r.0.0 as int] < batch_size - accuracy_scores@[r.0.0 as int]),
{
    let mut best: usize = 0;
    let mut best_layer = node_layer(graph, BuildNodeId(0));
    let mut i: usize = 1;
    while i < accuracy_scores.len()
        invariant
            1 <= i <= accuracy_scores@.len(),
            best < i,
            best_layer == layer_from(graph.layers@, BuildNodeId(best), 0),
            forall|j: int| 0 <= j < accuracy_scores@.len() ==> #[trigger] accuracy_scores@[j] <= batch_size,
            forall|j: int| 0 <= j < i && j != best ==> table_output_before(graph.layers@, accuracy_scores@, best as int, j),
        decreases accuracy_scores@.len() - i,
    {
        let layer = node_layer(graph, BuildNodeId(i));
        let a = accuracy_scores[i];
        let b = accuracy_scores[best];
        let ghost old_best = best as int;
        if a > b || (a == b && layer > best_layer) {
            best = i;
            best_layer = layer;
        }
        proof {
            assert forall|j: int| 0 <= j < i + 1 && j != best implies table_output_before(
                graph.layers@, accuracy_scores@, best as int, j) by {
                if j != old_best && j < i {
                    assert(table_output_before(graph.layers@, accuracy_scores@, old_best, j));
                }
            }
        }
        i = i + 1;
    }
    let matched = accuracy_scores[best];
    (BuildNodeId(best), matched < batch_size - matched)
}

/// The single-row tables scored for every pair: AND, and the three ANDs with
/// a negated input.
pub const PAIR_GATE_TABLES: [u8; 4] = [0b1000, 0b0100, 0b0010, 0b0001];

/// Length of the common prefix of three columns.
pub open spec fn common_len(first: Seq<bool>, second: Seq<bool>, signs: Seq<bool>) -> int {
    let a = min_len(first, second);
    if a <= signs.len() { a } else { signs.len() as int }
}

proof fn lemma_count_eq_upto_mono(a: Seq<bool>, b: Seq<bool>, i: int, j: int)
    requires
        0 <= i <= j,
    ensures
        count_eq_upto(a, b, i) <= count_eq_upto(a, b, j),
    decreases j - i,
{
    if i < j {
        lemma_count_eq_upto_mono(a, b, i, j - 1);
    }
}

/// Absolute association of the column of `truth_table` with the labels, and its matches,
/// over the common prefix of the columns.
pub open spec fn gate_scores(truth_table: u8, first: Seq<bool>, second: Seq<bool>, signs: Seq<bool>, ny: int) -> (int, int) {
    let m = common_len(first, second, signs);
    let g = gate_col(truth_table, first, second, m);
    (abs_int(signs.len() * count_and_upto(g, signs, m) - count_true_upto(g, m) * ny), count_eq_upto(g, signs, m) as int)
}

fn score_gate(first: &[bool], second: &[bool], signs: &[bool], truth_table: u8, ny: i64) -> (r: (i64, u8))
    requires
        signs@.len() < 0x8000_0000,
        -0x8000_0000 <= ny <= 0x8000_0000,
        gate_scores(truth_table, first@, second@, signs@, ny as int).1 <= 255,
    ensures
        r.0 == gate_scores(truth_table, first@, second@, signs@, ny as int).0,
        r.1 == gate_scores(truth_table, first@, second@, signs@, ny as int).1,
{
    let ghost m = common_len(first@, second@, signs@);
    let ghost g = gate_col(truth_table, first@, second@, m);
    let n = signs.len() as i64;
    let mut nz: i64 = 0;
    let mut nzy: i64 = 0;
    let mut matched: u8 = 0;
    let mut i: usize = 0;
    while i < first.len() && i < second.len() && i < signs.len()
        invariant
            m == common_len(first@, second@, signs@),
            g == gate_col(truth_table, first@, second@, m),
            0 <= i <= m,
            signs@.len() < 0x8000_0000,
            count_eq_upto(g, signs@, m) <= 255,
            nz == count_true_upto(g, i as int),
            nzy == count_and_upto(g, signs@, i as int),
            matched == count_eq_upto(g, signs@, i as int),
        decreases m - i,
    {
        proof {
            lemma_count_true_upto_bound(g, i as int);
            lemma_count_and_upto_bound(g, signs@, i as int);
            lemma_count_eq_upto_mono(g, signs@, i + 1, m);
        }
        let active = evaluate_truth_table(truth_table, first[i], second[i]);
        assert(active == g[i as int]);
        if active {
            nz = nz + 1;
            if signs[i] {
                nzy = nzy + 1;
            }
        }
        if active == signs[i] {
            matched = matched + 1;
        }
        i = i + 1;
    }
    proof {
        lemma_count_true_upto_bound(g, m);
        lemma_count_and_upto_bound(g, signs@, m);
        assert(0 <= n * nzy <= 0x7fff_ffff * 0x7fff_ffff) by (nonlinear_arith)
            requires
                0 <= n < 0x8000_0000,
                0 <= nzy < 0x8000_0000;
        assert(-0x7fff_ffff * 0x8000_0000 <= nz * ny <= 0x7fff_ffff * 0x8000_0000) by (nonlinear_arith)
            requires
                0 <= nz < 0x8000_0000,
                -0x8000_0000 <= ny <= 0x8000_0000;
    }
    let v = n * nzy - nz * ny;
    let a = if v < 0 { -v } else { v };
    (a, matched)
}

/// Absolute association and matches of each gate of `PAIR_GATE_TABLES` over
/// the pair of columns.
pub fn score_all_pair_gates(first: &[bool], second: &[bool], signs: &[bool], ny: i64) -> (r: [(i64, u8); 4])
    requires
        signs@.len() < 0x8000_0000,
        -0x8000_0000 <= ny <= 0x8000_0000,
        forall|t: int| 0 <= t < 4 ==> (#[trigger] gate_scores(PAIR_GATE_TABLES@[t], first@, second@, signs@, ny as int)).1 <= 255,
    ensures
        forall|t: int| 0 <= t < 4 ==> r@[t].0 == (#[trigger] gate_scores(PAIR_GATE_TABLES@[t], first@, second@, signs@, ny as int)).0
            && r@[t].1 == gate_scores(PAIR_GATE_TABLES@[t], first@, second@, signs@, ny as int).1,
{
    proof {
        assert(PAIR_GATE_TABLES@[0] == 0b1000u8);
        assert(PAIR_GATE_TABLES@[1] == 0b0100u8);
        assert(PAIR_GATE_TABLES@[2] == 0b0010u8);
        assert(PAIR_GATE_TABLES@[3] == 0b0001u8);
        assert(gate_scores(PAIR_GATE_TABLES@[0], first@, second@, signs@, ny as int).1 <= 255);
        assert(gate_scores(PAIR_GATE_TABLES@[1], first@, second@, signs@, ny as int).1 <= 255);
        assert(gate_scores(PAIR_GATE_TABLES@[2], first@, second@, signs@, ny as int).1 <= 255);
        assert(gate_scores(PAIR_GATE_TABLES@[3], first@, second@, signs@, ny as int).1 <= 255);
    }
    let r0 = score_gate(first, second, signs, 0b1000, ny);
    let r1 = score_gate(first, second, signs, 0b0100, ny);
    let r2 = score_gate(first, second, signs, 0b0010, ny);
    let r3 = score_gate(first, second, signs, 0b0001, ny);
    let r = [r0, r1, r2, r3];
    assert(r@ =~= seq![r0, r1, r2, r3]);
    r
}

/// The pair of `a` and `b`, lower id first.
pub open spec fn ordered_pair(a: BuildNodeId, b: BuildNodeId) -> (BuildNodeId, BuildNodeId) {
    if a.0 <= b.0 { (a, b) } else { (b, a) }
}

/// `p` comes before `q` by first id, then by second id.
pub open spec fn pair_lt(p: (BuildNodeId, BuildNodeId), q: (BuildNodeId, BuildNodeId)) -> bool {
    p.0.0 < q.0.0 || (p.0.0 == q.0.0 && p.1.0 < q.1.0)
}

/// Every pair comes strictly before the pairs after it.
pub open spec fn pairs_increasing(s: Seq<(BuildNodeId, BuildNodeId)>) -> bool {
    forall|i: int, j: int| 0 <= i < j < s.len() ==> pair_lt(#[trigger] s[i], #[trigger] s[j])
}

/// `p` pairs a frontier node with a different node of `global`, lower id first.
pub open spec fn cross_pair(frontier: Seq<BuildNodeId>, global: Seq<BuildNodeId>, p: (BuildNodeId, BuildNodeId)) -> bool {
    exists|a: int, b: int| 0 <= a < frontier.len() && 0 <= b < global.len() && frontier[a].0 != global[b].0
        && p == #[trigger] ordered_pair(frontier[a], global[b])
}

fn pair_less(p: (BuildNodeId, BuildNodeId), q: (BuildNodeId, BuildNodeId)) -> (r: bool)
    ensures
        r == pair_lt(p, q),
{
    p.0.0 < q.0.0 || (p.0.0 == q.0.0 && p.1.0 < q.1.0)
}

/// Inserts `p` at its place in an increasing sequence, unless it is there.
fn insert_pair_sorted(pairs: &mut Vec<(BuildNodeId, BuildNodeId)>, p: (BuildNodeId, BuildNodeId))
    requires
        pairs_increasing(old(pairs)@),
    ensures
        pairs_increasing(final(pairs)@),
        forall|q: (BuildNodeId, BuildNodeId)| #[trigger] final(pairs)@.contains(q) <==> (old(pairs)@.contains(q) || q == p),
{
    let ghost s = pairs@;
    let mut i: usize = 0;
    while i < pairs.len() && pair_less(pairs[i], p)
        invariant
            pairs@ == s,
            i <= s.len(),
            forall|k: int| 0 <= k < i ==> pair_lt(#[trigger] s[k], p),
        decreases s.len() - i,
    {
        i = i + 1;
    }
    if i < pairs.len() && pairs[i].0.0 == p.0.0 && pairs[i].1.0 == p.1.0 {
        assert(s[i as int] == p);
        assert forall|q: (BuildNodeId, BuildNodeId)| #[trigger] pairs@.contains(q) <==> (s.contains(q) || q == p) by {
            if q == p {
                assert(s[i as int] == q);
            }
        }
        return;
    }
    proof {
        assert forall|k: int| i <= k < s.len() implies pair_lt(p, #[trigger] s[k]) by {
            assert(!pair_lt(s[i as int], p));
            if k > i {
                assert(pair_lt(s[i as int], s[k]));
            }
        }
    }
    pairs.insert(i, p);
    proof {
        let t = pairs@;
        assert(t == s.insert(i as int, p));
        assert forall|a: int, b: int| 0 <= a < b < t.len() implies pair_lt(#[trigger] t[a], #[trigger] t[b]) by {
            if b < i {
                assert(t[a] == s[a] && t[b] == s[b]);
            } else if b == i {
                assert(t[a] == s[a]);
            } else if a < i {
                assert(t[a] == s[a] && t[b] == s[b - 1]);
                assert(pair_lt(s[a], p));
            } else if a == i {
                assert(t[b] == s[b - 1]);
            } else {
                assert(t[a] == s[a - 1] && t[b] == s[b - 1]);
            }
        }
        assert forall|q: (BuildNodeId, BuildNodeId)| #[trigger] t.contains(q) <==> (s.contains(q) || q == p) by {
            if t.contains(q) {
                let k = choose|k: int| 0 <= k < t.len() && t[k] == q;
                if k < i {
                    assert(s[k] == q);
                } else if k > i {
                    assert(s[k - 1] == q);
                }
            }
            if s.contains(q) {
                let k = choose|k: int| 0 <= k < s.len() && s[k] == q;
                if k < i {
                    assert(t[k] == q);
                } else {
                    assert(t[k + 1] == q);
                }
            }
            if q == p {
                assert(t[i as int] == q);
            }
        }
    }
}

/// Every pair of a frontier node with a different node of `global`, lower id
/// first, each once, in increasing order.
pub fn cross_layer_pairs(frontier: &[BuildNodeId], global: &[BuildNodeId]) -> (r: Vec<(BuildNodeId, BuildNodeId)>)
    ensures
        pairs_increasing(r@),
        forall|k: int| 0 <= k < r@.len() ==> cross_pair(frontier@, global@, #[trigger] r@[k]),
        forall|a: int, b: int| 0 <= a < frontier@.len() && 0 <= b < global@.len() && frontier@[a].0 != global@[b].0
            ==> r@.contains(#[trigger] ordered_pair(frontier@[a], global@[b])),
{
    let mut pairs: Vec<(BuildNodeId, BuildNodeId)> = Vec::new();
    let mut a: usize = 0;
    while a < frontier.len()
        invariant
            a <= frontier@.len(),
            pairs_increasing(pairs@),
            forall|k: int| 0 <= k < pairs@.len() ==> cross_pair(frontier@, global@, #[trigger] pairs@[k]),
            forall|x: int, y: int| 0 <= x < a && 0 <= y < global@.len() && frontier@[x].0 != global@[y].0
                ==> pairs@.contains(#[trigger] ordered_pair(frontier@[x], global@[y])),
        decreases frontier@.len() - a,
    {
        let left = frontier[a];
        let mut b: usize = 0;
        while b < global.len()
            invariant
                a < frontier@.len(),
                left == frontier@[a as int],
                b <= global@.len(),
                pairs_increasing(pairs@),
                forall|k: int| 0 <= k < pairs@.len() ==> cross_pair(frontier@, global@, #[trigger] pairs@[k]),
                forall|x: int, y: int| 0 <= x < frontier@.len() && 0 <= y < global@.len() && frontier@[x].0 != global@[y].0
                    && (x < a || (x == a && y < b)) ==> pairs@.contains(#[trigger] ordered_pair(frontier@[x], global@[y])),
            decreases global@.len() - b,
        {
            let right = global[b];
            if left.0 != right.0 {
                let p = if left.0 <= right.0 { (left, right) } else { (right, left) };
                let ghost before = pairs@;
                proof {
                    assert(p == ordered_pair(frontier@[a as int], global@[b as int]));
                }
                insert_pair_sorted(&mut pairs, p);
                proof {
                    assert forall|k: int| 0 <= k < pairs@.len() implies cross_pair(frontier@, global@, #[trigger] pairs@[k]) by {
                        assert(pairs@.contains(pairs@[k]));
                        if pairs@[k] != p {
                            assert(before.contains(pairs@[k]));
                            let j = choose|j: int| 0 <= j < before.len() && before[j] == pairs@[k];
                            assert(cross_pair(frontier@, global@, before[j]));
                        } else {
                            assert(frontier@[a as int].0 != global@[b as int].0);
                        }
                    }
                    assert forall|x: int, y: int| 0 <= x < frontier@.len() && 0 <= y < global@.len() && frontier@[x].0 != global@[y].0
                        && (x < a || (x == a && y < b + 1)) implies pairs@.contains(#[trigger] ordered_pair(frontier@[x], global@[y])) by {
                        if x < a || (x == a && y < b) {
                            assert(before.contains(ordered_pair(frontier@[x], global@[y])));
                        }
                    }
                }
            }
            b = b + 1;
        }
        a = a + 1;
    }
    pairs
}

/// Every id is smaller than the ids after it.
pub open spec fn ids_increasing(s: Seq<BuildNodeId>) -> bool {
    forall|i: int, j: int| 0 <= i < j < s.len() ==> (#[trigger] s[i]).0 < (#[trigger] s[j]).0
}

/// Inserts `id` at its place in an increasing sequence, unless it is there.
fn insert_id_sorted(ids: &mut Vec<BuildNodeId>, id: BuildNodeId)
    requires
        ids_increasing(old(ids)@),
    ensures
        ids_increasing(final(ids)@),
        forall|q: BuildNodeId| #[trigger] final(ids)@.contains(q) <==> (old(ids)@.contains(q) || q == id),
{
    let ghost s = ids@;
    let mut i: usize = 0;
    while i < ids.len() && ids[i].0 < id.0
        invariant
            ids@ == s,
            i <= s.len(),
            forall|k: int| 0 <= k < i ==> (#[trigger] s[k]).0 < id.0,
        decreases s.len() - i,
    {
        i = i + 1;
    }
    if i < ids.len() && ids[i].0 == id.0 {
        assert(s[i as int] == id);
        assert forall|q: BuildNodeId| #[trigger] ids@.contains(q) <==> (s.contains(q) || q == id) by {
            if q == id {
                assert(s[i as int] == q);
            }
        }
        return;
    }
    proof {
        assert forall|k: int| i <= k < s.len() implies id.0 < (#[trigger] s[k]).0 by {
            if k > i {
                assert(s[i as int].0 < s[k].0);
            }
        }
    }
    ids.insert(i, id);
    proof {
        let t = ids@;
        assert(t == s.insert(i as int, id));
        assert forall|a: int, b: int| 0 <= a < b < t.len() implies (#[trigger] t[a]).0 < (#[trigger] t[b]).0 by {
            if b < i {
                assert(t[a] == s[a] && t[b] == s[b]);
            } else if b == i {
                assert(t[a] == s[a]);
            } else if a < i {
                assert(t[a] == s[a] && t[b] == s[b - 1]);
            } else if a == i {
                assert(t[b] == s[b - 1]);
            } else {
                assert(t[a] == s[a - 1] && t[b] == s[b - 1]);
            }
        }
        assert forall|q: BuildNodeId| #[trigger] t.contains(q) <==> (s.contains(q) || q == id) by {
            if t.contains(q) {
                let k = choose|k: int| 0 <= k < t.len() && t[k] == q;
                if k < i {
                    assert(s[k] == q);
                } else if k > i {
                    assert(s[k - 1] == q);
                }
            }
            if s.contains(q) {
                let k = choose|k: int| 0 <= k < s.len() && s[k] == q;
                if k < i {
                    assert(t[k] == q);
                } else {
                    assert(t[k + 1] == q);
                }
            }
            if q == id {
                assert(t[i as int] == q);
            }
        }
    }
}

/// The nodes recorded at `depth`, in increasing id order.
pub fn nodes_at_depth(node_depth: &HashMap<usize, usize>, depth: usize) -> (r: Vec<BuildNodeId>)
    ensures
        ids_increasing(r@),
        forall|k: int| 0 <= k < r@.len() ==> node_depth@.contains_key((#[trigger] r@[k]).0) && node_depth@[r@[k].0] == depth,
        forall|id: usize| #[trigger] node_depth@.contains_key(id) && node_depth@[id] == depth ==> r@.contains(BuildNodeId(id)),
{
    broadcast use vstd::std_specs::hash::group_hash_axioms;
    let mut nodes: Vec<BuildNodeId> = Vec::new();
    let ghost entries = spec_hash_map_iter(node_depth).remaining();
    for entry in it: node_depth.iter()
        invariant
            it.seq() == entries,
            entries == spec_hash_map_iter(node_depth).remaining(),
            ids_increasing(nodes@),
            forall|k: int| 0 <= k < nodes@.len() ==> node_depth@.contains_key((#[trigger] nodes@[k]).0) && node_depth@[nodes@[k].0] == depth,
            forall|i: int| 0 <= i < it.index() && *entries[i].1 == depth ==> nodes@.contains(BuildNodeId(*(#[trigger] entries[i]).0)),
    {
        let (id, d) = entry;
        if *d == depth {
            let ghost before = nodes@;
            insert_id_sorted(&mut nodes, BuildNodeId(*id));
            proof {
                assert forall|k: int| 0 <= k < nodes@.len() implies node_depth@.contains_key((#[trigger] nodes@[k]).0) && node_depth@[nodes@[k].0] == depth by {
                    assert(nodes@.contains(nodes@[k]));
                    if nodes@[k] != BuildNodeId(*id) {
                        assert(before.contains(nodes@[k]));
                        let j = choose|j: int| 0 <= j < before.len() && before[j] == nodes@[k];
                        assert(node_depth@.contains_key(before[j].0));
                    }
                }
            }
        }
    }
    proof {
        assert forall|id: usize| #[trigger] node_depth@.contains_key(id) && node_depth@[id] == depth implies nodes@.contains(BuildNodeId(id)) by {
            assert(entries.contains((&id, &node_depth@[id])));
            let i = choose|i: int| 0 <= i < entries.len() && entries[i] == (&id, &node_depth@[id]);
            assert(*entries[i].0 == id);
        }
    }
    nodes
}

/// Columns of built nodes, computed on demand and kept until dropped.
pub struct ColumnCache {
    columns: Vec<Option<Vec<bool>>>,
}

impl ColumnCache {
    /// The cached column of each node id, if any.
    pub closed spec fn slots(&self) -> Seq<Option<Vec<bool>>> {
        self.columns@
    }

    /// Every cached column is the column of its node on the first `n` rows,
    /// whose sources are all present.
    pub open spec fn holds(&self, nodes: Seq<EphemeralNode>, batch: SignBatch, n: int) -> bool {
        forall|id: int| 0 <= id < self.slots().len() && (#[trigger] self.slots()[id]) is Some ==> id < nodes.len()
            && sources_present(nodes, batch, id) && self.slots()[id].unwrap()@ == node_col(nodes, batch, id, n)
    }

    pub fn new() -> (r: Self)
        ensures
            r.slots().len() == 0,
    {
        Self { columns: Vec::new() }
    }

    /// Caches the column of node `id` and of the nodes it reads; a source
    /// past the batch's features is refused.
    pub fn ensure(&mut self, graph: &EphemeralGraph, batch: SignBatch<'_>, id: BuildNodeId) -> (r: Result<(), FunctionBuildError>)
        requires
            id.0 < graph.nodes@.len(),
            topological(graph.nodes@),
            feature_rows_ok(batch, first_len(batch)),
            old(self).holds(graph.nodes@, batch, first_len(batch)),
        ensures
            r is Ok <==> sources_present(graph.nodes@, batch, id.0 as int),
            r is Err ==> r == Err::<(), FunctionBuildError>(FunctionBuildError::InvalidBatch),
            final(self).holds(graph.nodes@, batch, first_len(batch)),
            final(self).slots().len() >= old(self).slots().len(),
            r is Ok ==> id.0 < final(self).slots().len() && final(self).slots()[id.0 as int] is Some,
            forall|j: int| 0 <= j < old(self).slots().len() && (#[trigger] old(self).slots()[j]) is Some
                ==> final(self).slots()[j] == old(self).slots()[j],
        decreases id.0,
    {
        let ghost before = self.columns@;
        while self.columns.len() <= id.0
            invariant
                self.columns@.len() >= before.len(),
                forall|j: int| 0 <= j < before.len() ==> #[trigger] self.columns@[j] == before[j],
                forall|j: int| before.len() <= j < self.columns@.len() ==> (#[trigger] self.columns@[j]) is None,
            decreases id.0 + 1 - self.columns@.len(),
        {
            self.columns.push(None);
        }
        if self.columns[id.0].is_some() {
            return Ok(());
        }
        match graph.nodes[id.0] {
            EphemeralNode::Source { input_index } => {
                if input_index < batch.feature_columns.len() {
                    let out = copy_column(batch.feature_columns[input_index]);
                    proof {
                        assert(fcol(batch, input_index as int).len() == first_len(batch));
                        assert(out@ =~= node_col(graph.nodes@, batch, id.0 as int, first_len(batch)));
                    }
                    self.columns.set(id.0, Some(out));
                    Ok(())
                } else {
                    Err(FunctionBuildError::InvalidBatch)
                }
            },
            EphemeralNode::Composed { first, second, truth_table } => {
                assert(graph.nodes@[id.0 as int] == (EphemeralNode::Composed { first, second, truth_table }));
                let ghost mid0 = *self;
                match self.ensure(graph, batch, first) {
                    Ok(()) => {},
                    Err(e) => {
                        proof {
                            assert forall|j: int| 0 <= j < before.len() && (#[trigger] before[j]) is Some
                                implies self.slots()[j] == before[j] by {
                                assert(mid0.slots()[j] == before[j]);
                            }
                        }
                        return Err(e);
                    },
                }
                let ghost mid1 = *self;
                proof {
                    assert forall|j: int| 0 <= j < before.len() && (#[trigger] before[j]) is Some
                        implies mid1.slots()[j] == before[j] by {
                        assert(mid0.slots()[j] == before[j]);
                    }
                }
                match self.ensure(graph, batch, second) {
                    Ok(()) => {},
                    Err(e) => {
                        proof {
                            assert forall|j: int| 0 <= j < before.len() && (#[trigger] before[j]) is Some
                                implies self.slots()[j] == before[j] by {
                                assert(mid1.slots()[j] == before[j]);
                            }
                        }
                        return Err(e);
                    },
                }
                let ghost mid2 = *self;
                proof {
                    assert forall|j: int| 0 <= j < before.len() && (#[trigger] before[j]) is Some
                        implies mid2.slots()[j] == before[j] && j != id.0 by {
                        assert(mid1.slots()[j] == before[j]);
                        assert(mid0.slots()[id.0 as int] is None);
                    }
                }
                proof {
                    assert(mid1.slots()[first.0 as int] is Some);
                    assert(self.slots()[first.0 as int] == mid1.slots()[first.0 as int]);
                }
                let out = match &self.columns[first.0] {
                    Some(a) => match &self.columns[second.0] {
                        Some(b) => crate::function_workspace::gate_columns(truth_table, a.as_slice(), b.as_slice()),
                        None => Vec::new(),
                    },
                    None => Vec::new(),
                };
                proof {
                    assert(out@ =~= node_col(graph.nodes@, batch, id.0 as int, first_len(batch)));
                    assert(id.0 < mid0.slots().len());
                }
                self.columns.set(id.0, Some(out));
                Ok(())
            },
        }
    }

    /// The cached column of node `id`.
    pub fn column(&self, id: BuildNodeId) -> (r: &[bool])
        requires
            id.0 < self.slots().len(),
            self.slots()[id.0 as int] is Some,
        ensures
            r@ == self.slots()[id.0 as int].unwrap()@,
    {
        match &self.columns[id.0] {
            Some(c) => c.as_slice(),
            None => {
                assert(false);
                &[]
            },
        }
    }

    /// Drops every cached column but those of `keep`.
    pub fn retain_only(&mut self, keep: &[BuildNodeId])
        ensures
            final(self).slots().len() == old(self).slots().len(),
            forall|j: int| 0 <= j < final(self).slots().len() ==> (#[trigger] final(self).slots()[j]) == (
                if exists|k: int| 0 <= k < keep@.len() && keep@[k].0 == j { old(self).slots()[j] } else { None }),
    {
        let n = self.columns.len();
        let ghost before = self.columns@;
        let mut i: usize = 0;
        while i < n
            invariant
                n == self.columns@.len(),
                before.len() == n,
                i <= n,
                forall|j: int| 0 <= j < i ==> (#[trigger] self.columns@[j]) == (
                    if exists|k: int| 0 <= k < keep@.len() && keep@[k].0 == j { before[j] } else { None }),
                forall|j: int| i <= j < n ==> #[trigger] self.columns@[j] == before[j],
            decreases n - i,
        {
            let mut kept = false;
            let mut k: usize = 0;
            while k < keep.len()
                invariant
                    k <= keep@.len(),
                    kept == exists|m: int| 0 <= m < k && keep@[m].0 == i,
                decreases keep@.len() - k,
            {
                if keep[k].0 == i {
                    kept = true;
                }
                k = k + 1;
            }
            if !kept {
                self.columns.set(i, None);
            }
            i = i + 1;
        }
    }
}

/// Column of truth table `truth_table` over two columns, over the first `n` rows.
pub open spec fn gate_col(truth_table: u8, first: Seq<bool>, second: Seq<bool>, n: int) -> Seq<bool> {
    Seq::new(n as nat, |r: int| gate_output(truth_table, first[r], second[r]))
}

/// Number of unordered pairs of `n` parents.
pub open spec fn pair_count(n: int) -> int {
    if n >= 1 { (n - 1) * n / 2 } else { 0 }
}

/// Number of pairs `(i, j)`, `i < j < n`, whose left index is below `l`.
spec fn pairs_before(n: int, l: int) -> int
    decreases l,
{
    if l <= 0 { 0 } else { pairs_before(n, l - 1) + (n - l) }
}

proof fn lemma_pairs_before(n: int, l: int)
    requires
        0 <= l,
    ensures
        2 * pairs_before(n, l) == l * (2 * n - l - 1),
    decreases l,
{
    if l > 0 {
        lemma_pairs_before(n, l - 1);
        assert(2 * pairs_before(n, l) == l * (2 * n - l - 1)) by (nonlinear_arith)
            requires
                2 * pairs_before(n, l - 1) == (l - 1) * (2 * n - (l - 1) - 1),
                pairs_before(n, l) == pairs_before(n, l - 1) + (n - l);
    } else {
        assert(l * (2 * n - l - 1) == 0) by (nonlinear_arith)
            requires
                l == 0;
    }
}

proof fn lemma_pairs_before_mono(n: int, l: int, m: int)
    requires
        0 <= l <= m <= n,
    ensures
        pairs_before(n, l) <= pairs_before(n, m),
    decreases m - l,
{
    if l < m {
        lemma_pairs_before_mono(n, l, m - 1);
    }
}

/// The cached column of `id`.
pub open spec fn cached(cache: ColumnCache, id: BuildNodeId) -> Seq<bool> {
    cache.slots()[id.0 as int].unwrap()@
}

/// Parents `i` and `j` both have a cached column that is not constant.
pub open spec fn varying_pair(parents: Seq<BuildNodeId>, cache: ColumnCache, i: int, j: int) -> bool {
    !constant_col(cached(cache, parents[i])) && !constant_col(cached(cache, parents[j]))
}

/// The candidate scored for parents `i` and `j`: the lower id first, the
/// majority table of their slot counts, its association and its matches.
pub open spec fn expected_pair(
    parents: Seq<BuildNodeId>,
    cache: ColumnCache,
    signs: Seq<bool>,
    batch_size: int,
    ny: int,
    i: int,
    j: int,
) -> PairCandidate {
    let (first, second) = if parents[i].0 <= parents[j].0 { (parents[i], parents[j]) } else { (parents[j], parents[i]) };
    let cc = column_counts(cached(cache, first), cached(cache, second), signs);
    PairCandidate {
        first,
        second,
        truth_table: majority_table(cc) as u8,
        abs_assoc: abs_int(batch_size * table_nzy(cc) - table_nz(cc) * ny) as i64,
        matched: table_matches(cc) as u8,
    }
}

/// `c` is the candidate of some varying pair of parents.
pub open spec fn from_pair(
    parents: Seq<BuildNodeId>,
    cache: ColumnCache,
    signs: Seq<bool>,
    batch_size: int,
    ny: int,
    c: PairCandidate,
) -> bool {
    exists|i: int, j: int| 0 <= i < j < parents.len() && #[trigger] varying_pair(parents, cache, i, j)
        && c == expected_pair(parents, cache, signs, batch_size, ny, i, j)
}

spec fn visited(n: int, l: int, r: int, i: int, j: int) -> bool {
    0 <= i < j < n && (i < l || (i == l && j < r))
}

/// Preallocated pair counters for scoring every pair of up to `top_k` parents.
pub struct PairCounterScratch {
    counters: Vec<FeatureCounter>,
}

impl PairCounterScratch {
    /// Number of counters.
    pub closed spec fn capacity(&self) -> int {
        self.counters@.len() as int
    }

    /// One counter per pair of `top_k` parents.
    pub fn with_top_k(top_k: usize) -> (r: Self)
        requires
            (if top_k >= 1 { top_k - 1 } else { 0 }) * top_k <= usize::MAX,
        ensures
            r.capacity() == pair_count(top_k as int),
    {
        let below = if top_k >= 1 { top_k - 1 } else { 0 };
        let pair_count = below * top_k / 2;
        let mut counters: Vec<FeatureCounter> = Vec::new();
        let mut i: usize = 0;
        while i < pair_count
            invariant
                i <= pair_count,
                counters@.len() == i,
            decreases pair_count - i,
        {
            counters.push(FeatureCounter::zeroed());
            i = i + 1;
        }
        Self { counters }
    }

    /// Scores every pair of parents whose cached columns both vary, and keeps
    /// those whose majority table is not constant. A batch too large for a
    /// counter is refused at the first such pair.
    pub fn score_pairs(
        &mut self,
        parents: &[BuildNodeId],
        column_cache: &ColumnCache,
        batch: SignBatch<'_>,
        batch_size_i64: i64,
        ny: i64,
    ) -> (r: Result<Vec<PairCandidate>, FunctionBuildError>)
        requires
            old(self).capacity() >= pair_count(parents@.len() as int),
            -0x1_0000_0000 <= batch_size_i64 <= 0x1_0000_0000,
            -0x1_0000_0000 <= ny <= 0x1_0000_0000,
            forall|j: int| 0 <= j < parents@.len() ==> (#[trigger] parents@[j]).0 < column_cache.slots().len()
                && column_cache.slots()[parents@[j].0 as int] is Some
                && cached(*column_cache, parents@[j]).len() == batch.signs@.len(),
        ensures
            final(self).capacity() == old(self).capacity(),
            r is Err <==> batch.signs@.len() > MAX_COUNTER_BATCH_SIZE && exists|i: int, j: int|
                0 <= i < j < parents@.len() && #[trigger] varying_pair(parents@, *column_cache, i, j),
            r is Err ==> r == Err::<Vec<PairCandidate>, FunctionBuildError>(FunctionBuildError::BatchTooLarge),
            r matches Ok(candidates) ==> forall|k: int| 0 <= k < candidates@.len() ==> {
                let c = #[trigger] candidates@[k];
                &&& from_pair(parents@, *column_cache, batch.signs@, batch_size_i64 as int, ny as int, c)
                &&& c.truth_table != 0 && c.truth_table != 15
                &&& c.matched as int == count_eq_upto(
                    gate_col(c.truth_table, cached(*column_cache, c.first), cached(*column_cache, c.second), batch.signs@.len() as int),
                    batch.signs@, batch.signs@.len() as int)
            },
            r matches Ok(candidates) ==> forall|i: int, j: int| 0 <= i < j < parents@.len()
                && #[trigger] varying_pair(parents@, *column_cache, i, j)
                && expected_pair(parents@, *column_cache, batch.signs@, batch_size_i64 as int, ny as int, i, j).truth_table != 0
                && expected_pair(parents@, *column_cache, batch.signs@, batch_size_i64 as int, ny as int, i, j).truth_table != 15
                ==> candidates@.contains(expected_pair(parents@, *column_cache, batch.signs@, batch_size_i64 as int, ny as int, i, j)),
    {
        let ghost ps = parents@;
        let ghost cache = *column_cache;
        let ghost signs = batch.signs@;
        let ghost bs = batch_size_i64 as int;
        let ghost nyi = ny as int;
        let mut candidates: Vec<PairCandidate> = Vec::new();
        let mut pair_index: usize = 0;
        let n = parents.len();
        let capacity = self.counters.len();
        proof {
            lemma_pairs_before(n as int, n as int);
            assert((n - 1) * n == n * (2 * n - n - 1)) by (nonlinear_arith);
            assert(pairs_before(n as int, n as int) == pair_count(n as int));
        }
        let mut left_index: usize = 0;
        while left_index < n
            invariant
                n == ps.len(),
                ps == parents@,
                cache == *column_cache,
                signs == batch.signs@,
                bs == batch_size_i64,
                nyi == ny,
                self.capacity() == old(self).capacity(),
                self.capacity() == capacity,
                self.capacity() >= pairs_before(n as int, n as int),
                left_index <= n,
                pair_index <= pairs_before(n as int, left_index as int),
                -0x1_0000_0000 <= batch_size_i64 <= 0x1_0000_0000,
                -0x1_0000_0000 <= ny <= 0x1_0000_0000,
                forall|j: int| 0 <= j < ps.len() ==> (#[trigger] ps[j]).0 < cache.slots().len()
                    && cache.slots()[ps[j].0 as int] is Some
                    && cached(cache, ps[j]).len() == signs.len(),
                forall|k: int| 0 <= k < candidates@.len() ==> {
                    let c = #[trigger] candidates@[k];
                    &&& from_pair(ps, cache, signs, bs, nyi, c)
                    &&& c.truth_table != 0 && c.truth_table != 15
                    &&& c.matched as int == count_eq_upto(
                        gate_col(c.truth_table, cached(cache, c.first), cached(cache, c.second), signs.len() as int),
                        signs, signs.len() as int)
                },
                forall|i: int, j: int| visited(n as int, left_index as int, 0, i, j)
                    && #[trigger] varying_pair(ps, cache, i, j)
                    && expected_pair(ps, cache, signs, bs, nyi, i, j).truth_table != 0
                    && expected_pair(ps, cache, signs, bs, nyi, i, j).truth_table != 15
                    ==> candidates@.contains(expected_pair(ps, cache, signs, bs, nyi, i, j)),
                signs.len() > MAX_COUNTER_BATCH_SIZE ==> forall|i: int, j: int| visited(n as int, left_index as int, 0, i, j)
                    ==> !#[trigger] varying_pair(ps, cache, i, j),
            decreases n - left_index,
        {
            let left = parents[left_index];
            let mut right_index: usize = left_index + 1;
            proof {
                lemma_pairs_before_mono(n as int, left_index + 1, n as int);
            }
            while right_index < n
                invariant
                    n == ps.len(),
                    ps == parents@,
                    cache == *column_cache,
                    signs == batch.signs@,
                    bs == batch_size_i64,
                    nyi == ny,
                    self.capacity() == old(self).capacity(),
                    self.capacity() == capacity,
                    self.capacity() >= pairs_before(n as int, n as int),
                    pairs_before(n as int, left_index + 1) <= pairs_before(n as int, n as int),
                    left_index < n,
                    left == ps[left_index as int],
                    left_index + 1 <= right_index <= n,
                    pair_index <= pairs_before(n as int, left_index as int) + (right_index - left_index - 1),
                    -0x1_0000_0000 <= batch_size_i64 <= 0x1_0000_0000,
                    -0x1_0000_0000 <= ny <= 0x1_0000_0000,
                    forall|j: int| 0 <= j < ps.len() ==> (#[trigger] ps[j]).0 < cache.slots().len()
                        && cache.slots()[ps[j].0 as int] is Some
                        && cached(cache, ps[j]).len() == signs.len(),
                    forall|k: int| 0 <= k < candidates@.len() ==> {
                        let c = #[trigger] candidates@[k];
                        &&& from_pair(ps, cache, signs, bs, nyi, c)
                        &&& c.truth_table != 0 && c.truth_table != 15
                        &&& c.matched as int == count_eq_upto(
                            gate_col(c.truth_table, cached(cache, c.first), cached(cache, c.second), signs.len() as int),
                            signs, signs.len() as int)
                    },
                    forall|i: int, j: int| visited(n as int, left_index as int, right_index as int, i, j)
                        && #[trigger] varying_pair(ps, cache, i, j)
                        && expected_pair(ps, cache, signs, bs, nyi, i, j).truth_table != 0
                        && expected_pair(ps, cache, signs, bs, nyi, i, j).truth_table != 15
                        ==> candidates@.contains(expected_pair(ps, cache, signs, bs, nyi, i, j)),
                    signs.len() > MAX_COUNTER_BATCH_SIZE ==> forall|i: int, j: int| visited(n as int, left_index as int, right_index as int, i, j)
                        ==> !#[trigger] varying_pair(ps, cache, i, j),
                decreases n - right_index,
            {
                let right = parents[right_index];
                let ghost li = left_index as int;
                let ghost ri = right_index as int;
                let (first, second) = if left.0 <= right.0 { (left, right) } else { (right, left) };
                let first_column = column_cache.column(first);
                let second_column = column_cache.column(second);
                let ghost old_candidates = candidates@;
                if !is_constant_column(first_column) && !is_constant_column(second_column) {
                    proof {
                        assert(varying_pair(ps, cache, li, ri));
                    }
                    let counter = match FeatureCounter::from_columns(first_column, second_column, batch.signs) {
                        Ok(c) => c,
                        Err(e) => {
                            return Err(FunctionBuildError::from(e));
                        },
                    };
                    proof {
                        assert(pair_index < pairs_before(n as int, n as int));
                        assert(self.counters@.len() == capacity);
                    }
                    self.counters.set(pair_index, counter);
                    pair_index = pair_index + 1;
                    let (truth_table, abs_assoc, matched) = self.counters[pair_index - 1].truth_table_and_scores(batch_size_i64, ny);
                    let candidate = PairCandidate { first, second, truth_table, abs_assoc, matched };
                    proof {
                        lemma_counts_are_column_counts(counter, first_column@, second_column@, signs);
                        law_table_matches_are_column_hits(counter, first_column@, second_column@, signs);
                        assert(Seq::new(first_column@.len(), |r: int| gate_output(majority_table(counter.counts_view()) as u8, first_column@[r], second_column@[r]))
                            =~= gate_col(truth_table, first_column@, second_column@, signs.len() as int));
                        assert(candidate == expected_pair(ps, cache, signs, bs, nyi, li, ri));
                    }
                    if !is_constant_truth_table(truth_table) {
                        candidates.push(candidate);
                        proof {
                            assert(candidates@[candidates@.len() - 1] == candidate);
                            assert forall|k: int| 0 <= k < old_candidates.len() implies #[trigger] candidates@[k] == old_candidates[k] by {}
                        }
                    }
                }
                proof {
                    assert forall|i: int, j: int| visited(n as int, li, ri + 1, i, j)
                        && #[trigger] varying_pair(ps, cache, i, j)
                        && expected_pair(ps, cache, signs, bs, nyi, i, j).truth_table != 0
                        && expected_pair(ps, cache, signs, bs, nyi, i, j).truth_table != 15
                        implies candidates@.contains(expected_pair(ps, cache, signs, bs, nyi, i, j)) by {
                        if visited(n as int, li, ri, i, j) {
                            let k = choose|k: int| 0 <= k < old_candidates.len() && old_candidates[k] == expected_pair(ps, cache, signs, bs, nyi, i, j);
                            assert(candidates@[k] == old_candidates[k]);
                        } else {
                            assert(i == li && j == ri);
                            assert(candidates@[candidates@.len() - 1] == expected_pair(ps, cache, signs, bs, nyi, i, j));
                        }
                    }
                }
                right_index = right_index + 1;
            }
            left_index = left_index + 1;
        }
        Ok(candidates)
    }
}

} // verus!
