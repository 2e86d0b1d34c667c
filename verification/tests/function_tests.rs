use binaml::batch::SignBatch;
use binaml::function_build_common::{
    best_effective_matches_slice, cross_layer_pairs, is_constant_column, is_constant_truth_table, node_layer,
    nodes_at_depth, score_all_pair_gates, select_output_and_variant_slices, select_output_truth_table_slices,
    top_k_pair_candidates, BuildNodeId, ColumnCache, EphemeralGraph, EphemeralNode, FunctionBuildConfig,
    FunctionBuildError, PairCandidate, PairCounterScratch, DEFAULT_MAX_EXPERT_NODES,
};
use binaml::ensemble::{BooleanEnsemble, EnsembleError, EnsembleShape};
use binaml::{BClassifierError, BRegressorError};
use std::collections::HashMap;
use binaml::function_builder::FunctionBuilder;
use binaml::function_compact::{compact_build_workspace_into, CompactError};
use binaml::function_graph::{CompactNode, FunctionGraph};
use binaml::function_workspace::BuildWorkspace;

fn config(batch_size: usize, parent_top_k: usize, source_count: usize) -> FunctionBuildConfig {
    FunctionBuildConfig::new(batch_size, parent_top_k, source_count, DEFAULT_MAX_EXPERT_NODES)
}

#[test]
fn detects_constant_columns() {
    assert!(is_constant_column(&[false, false, false]));
    assert!(is_constant_column(&[true, true]));
    assert!(!is_constant_column(&[false, true]));
    assert!(!is_constant_column(&[false]));
}

#[test]
fn detects_constant_truth_tables() {
    assert!(is_constant_truth_table(0b0000));
    assert!(is_constant_truth_table(0b1111));
    assert!(!is_constant_truth_table(0b1010));
}

#[test]
fn skips_constant_truth_tables_when_scoring_pairs() {
    let first = [false, false, true, true];
    let second = [false, true, false, true];
    let columns = [&first[..], &second[..]];
    let signs = [false, true, true, false];
    let batch = SignBatch::from_columns(&columns, &signs);
    let graph = EphemeralGraph {
        nodes: vec![EphemeralNode::Source { input_index: 0 }, EphemeralNode::Source { input_index: 1 }],
        layers: vec![vec![BuildNodeId(0), BuildNodeId(1)]],
    };
    let mut cache = ColumnCache::new();
    cache.ensure(&graph, batch, BuildNodeId(0)).unwrap();
    cache.ensure(&graph, batch, BuildNodeId(1)).unwrap();
    let mut scratch = PairCounterScratch::with_top_k(2);
    let candidates = scratch.score_pairs(&graph.layers[0], &cache, batch, 4, 2).unwrap();
    assert!(candidates.iter().all(|candidate| !is_constant_truth_table(candidate.truth_table)));
}

#[test]
fn top_k_respects_constant_filtered_candidates() {
    let mut candidates = [
        PairCandidate { first: BuildNodeId(0), second: BuildNodeId(1), truth_table: 0b1010, abs_assoc: 1, matched: 2 },
        PairCandidate { first: BuildNodeId(0), second: BuildNodeId(2), truth_table: 0b1100, abs_assoc: 3, matched: 3 },
    ];
    let kept = top_k_pair_candidates(&mut candidates, 1);
    assert_eq!(kept, 1);
    assert_eq!(candidates[0].abs_assoc, 3);
}

#[test]
fn builds_function_from_synthetic_batch() {
    let first = [false, true, false, true];
    let second = [false, false, true, true];
    let columns = [&first[..], &second[..]];
    let signs = [false, true, true, true];
    let model = FunctionBuilder::build(SignBatch::from_columns(&columns, &signs), config(4, 2, 2)).unwrap();
    assert_eq!(model.graph.layers[1].len(), 1);
    assert!(!model.invert_output);
    assert!(matches!(model.graph.nodes[model.output.0], EphemeralNode::Composed { .. }));
}

#[test]
fn function_builder_skips_constant_source_columns() {
    let constant = [false; 4];
    let varying = [false, true, false, true];
    let columns = [&constant[..], &varying[..]];
    let signs = [false, true, false, true];
    let model = FunctionBuilder::build(SignBatch::from_columns(&columns, &signs), config(4, 2, 2)).unwrap();
    assert_eq!(model.graph.layers[0].len(), 1);
    assert_eq!(model.graph.layers.len(), 1);
}

#[test]
fn keeps_at_most_top_k_nodes_per_layer() {
    let a = [false; 4];
    let b = [true; 4];
    let c = [false, true, false, true];
    let columns = [&a[..], &b[..], &c[..]];
    let signs = [false, true, false, true];
    let model = FunctionBuilder::build(SignBatch::from_columns(&columns, &signs), config(4, 2, 3)).unwrap();
    assert_eq!(model.graph.layers[0].len(), 1);
    assert_eq!(model.graph.layers.len(), 1);
}

#[test]
fn function_builder_learns_negated_literal_target() {
    let feature = [false, true, false, true, false, true, false, true];
    let columns = [&feature[..]];
    let signs = [true, false, true, false, true, false, true, false];
    let (predictions, score) =
        FunctionBuilder::fit_predict(SignBatch::from_columns(&columns, &signs), config(8, 2, 1)).unwrap();
    assert_eq!(predictions, signs);
    assert_eq!(score, 8);
}

#[test]
fn learns_xor_with_truth_table_composition() {
    let first = [false, false, true, true];
    let second = [false, true, false, true];
    let columns = [&first[..], &second[..]];
    let signs = [false, true, true, false];
    let (predictions, score) =
        FunctionBuilder::fit_predict(SignBatch::from_columns(&columns, &signs), config(4, 2, 2)).unwrap();
    assert_eq!(predictions, signs);
    assert_eq!(score, 4);
}

#[test]
fn function_builder_predicts_on_a_holdout_batch() {
    let first = [false, true, false, true];
    let second = [false, false, true, true];
    let columns = [&first[..], &second[..]];
    let signs = [false, true, true, true];
    let model = FunctionBuilder::build(SignBatch::from_columns(&columns, &signs), config(4, 2, 2)).unwrap();
    let holdout_first = [false, true];
    let holdout_second = [true, true];
    let holdout_columns = [&holdout_first[..], &holdout_second[..]];
    let holdout_signs = [true, true];
    let predictions =
        FunctionBuilder::predict(&model, SignBatch::from_columns(&holdout_columns, &holdout_signs)).unwrap();
    assert_eq!(predictions, [true, true]);
}

/// Builds a model in a fresh workspace and lowers it to a compact graph.
fn build_and_compact(columns: &[&[bool]], signs: &[bool], config: FunctionBuildConfig) -> FunctionGraph {
    let mut workspace = BuildWorkspace::new(config.max_graph_nodes);
    let model = FunctionBuilder::build_in_workspace(SignBatch::from_columns(columns, signs), config, &mut workspace)
        .unwrap();
    let mut graph = FunctionGraph::empty(columns.len(), config.max_expert_nodes);
    compact_build_workspace_into(&mut workspace, model.output, model.invert_output, config.max_expert_nodes, &mut graph)
        .unwrap();
    graph
}

#[test]
fn compaction_drops_unused_sources() {
    let first = [false, true, false, true];
    let second = [true, true, true, true];
    let columns = [&first[..], &second[..]];
    let signs = [false, true, false, true];
    let graph = build_and_compact(&columns, &signs, config(4, 2, 2));
    assert!(graph.source_count() <= 2);
}

#[test]
fn compaction_folds_truth_tables() {
    let mut workspace = BuildWorkspace::new(config(4, 2, 1).max_graph_nodes);
    workspace.nodes[0] = EphemeralNode::Source { input_index: 0 };
    workspace.nodes[1] = EphemeralNode::Composed { first: BuildNodeId(0), second: BuildNodeId(0), truth_table: 0b1010 };
    workspace.node_len = 2;
    let mut graph = FunctionGraph::empty(1, DEFAULT_MAX_EXPERT_NODES);
    compact_build_workspace_into(&mut workspace, BuildNodeId(1), false, DEFAULT_MAX_EXPERT_NODES, &mut graph).unwrap();
    assert_eq!(graph.node_count(), 1);
}

#[test]
fn topological_order_valid() {
    let first = [false, true, false, true];
    let second = [false, false, true, true];
    let third = [true, false, true, false];
    let columns = [&first[..], &second[..], &third[..]];
    let signs = [false, true, true, false];
    let graph = build_and_compact(&columns, &signs, config(4, 3, 3));
    for (index, node) in graph.nodes().iter().enumerate() {
        if let CompactNode::Composed { first, second, .. } = node {
            assert!(first < &index);
            assert!(second < &index);
        }
    }
}

#[test]
fn compaction_refuses_an_output_past_the_built_nodes() {
    let mut workspace = BuildWorkspace::new(4);
    workspace.nodes[0] = EphemeralNode::Source { input_index: 0 };
    workspace.node_len = 1;
    let mut graph = FunctionGraph::empty(1, 4);
    let result = compact_build_workspace_into(&mut workspace, BuildNodeId(1), false, 4, &mut graph);
    assert_eq!(result, Err(CompactError::InvalidOutput));
    assert_eq!(graph.node_count(), 0);
}

#[test]
fn compaction_refuses_a_graph_larger_than_the_expert_cap() {
    let mut workspace = BuildWorkspace::new(4);
    workspace.nodes[0] = EphemeralNode::Source { input_index: 0 };
    workspace.nodes[1] = EphemeralNode::Source { input_index: 1 };
    workspace.nodes[2] = EphemeralNode::Composed { first: BuildNodeId(0), second: BuildNodeId(1), truth_table: 0b0110 };
    workspace.node_len = 3;
    let mut graph = FunctionGraph::empty(2, 4);
    let result = compact_build_workspace_into(&mut workspace, BuildNodeId(2), false, 2, &mut graph);
    assert_eq!(result, Err(CompactError::ExpertTooLarge));
}

#[test]
fn compacted_xor_keeps_its_values() {
    let first = [false, false, true, true];
    let second = [false, true, false, true];
    let columns = [&first[..], &second[..]];
    let signs = [false, true, true, false];
    let graph = build_and_compact(&columns, &signs, config(4, 2, 2));
    let mut scratch = vec![false; graph.eval_scratch_len()];
    for row in 0..4 {
        let features = [first[row], second[row]];
        assert_eq!(graph.evaluate_with_scratch(&features, &mut scratch), signs[row]);
    }
}

#[test]
fn build_rejects_invalid_config_and_batches() {
    let first = [false, true, false, true];
    let columns = [&first[..]];
    let signs = [false, true, false, true];
    let mut bad = config(4, 2, 1);
    bad.parent_top_k = 1;
    assert!(matches!(
        FunctionBuilder::build(SignBatch::from_columns(&columns, &signs), bad),
        Err(FunctionBuildError::InvalidConfig)
    ));
    let short_signs = [false, true, false];
    assert!(matches!(
        FunctionBuilder::build(SignBatch::from_columns(&columns, &short_signs), config(4, 2, 1)),
        Err(FunctionBuildError::InvalidBatch)
    ));
    let constant = [true; 4];
    let constant_columns = [&constant[..]];
    assert!(matches!(
        FunctionBuilder::build(SignBatch::from_columns(&constant_columns, &signs), config(4, 2, 1)),
        Err(FunctionBuildError::InvalidBatch)
    ));
}

#[test]
fn build_in_a_small_workspace_reports_graph_capacity() {
    let a = [false, true, false, true];
    let b = [false, false, true, true];
    let c = [true, false, false, true];
    let columns = [&a[..], &b[..], &c[..]];
    let signs = [false, true, true, false];
    let mut small = config(4, 2, 3);
    small.max_graph_nodes = 2;
    small.max_expert_nodes = 1;
    let mut workspace = BuildWorkspace::new(2);
    let result = FunctionBuilder::build_in_workspace(SignBatch::from_columns(&columns, &signs), small, &mut workspace);
    assert!(matches!(result, Err(FunctionBuildError::GraphCapacity)));
}

#[test]
fn fit_score_counts_matching_predictions() {
    let first = [false, true, false, true, true, false];
    let second = [false, false, true, true, false, true];
    let columns = [&first[..], &second[..]];
    let signs = [false, true, false, true, false, false];
    let (predictions, score) =
        FunctionBuilder::fit_predict(SignBatch::from_columns(&columns, &signs), config(6, 2, 2)).unwrap();
    let matching = predictions.iter().zip(signs.iter()).filter(|(p, s)| p == s).count();
    assert_eq!(score as usize, matching);
    assert!(2 * matching >= signs.len());
}

#[test]
fn evaluates_source_node() {
    let function = compact(vec![1], vec![CompactNode::Source(0)], 0);
    assert!(evaluate(&function, &[false, true]));
    assert!(!evaluate(&function, &[true, false]));
}

const AND: u8 = 0b1000;
const OR: u8 = 0b1110;
const XOR: u8 = 0b0110;

fn evaluate(function: &FunctionGraph, features: &[bool]) -> bool {
    function.evaluate_with_scratch(features, &mut vec![false; function.eval_scratch_len()])
}

fn compact(source_indices: Vec<usize>, nodes: Vec<CompactNode>, output: usize) -> FunctionGraph {
    let mut function = FunctionGraph::empty(source_indices.len().max(1), nodes.len().max(1));
    function.reset_from_parts(&source_indices, &nodes, output, false);
    function
}

fn two_input(truth_table: u8) -> FunctionGraph {
    compact(
        vec![0, 1],
        vec![CompactNode::Source(0), CompactNode::Source(1), CompactNode::Composed { first: 0, second: 1, truth_table }],
        2,
    )
}

#[test]
fn evaluates_constant_nodes() {
    let function = compact(vec![], vec![CompactNode::Constant(true), CompactNode::Constant(false)], 0);
    assert!(evaluate(&function, &[]));
    assert!(!evaluate(&compact(vec![], vec![CompactNode::Constant(false)], 0), &[]));
}

#[test]
fn evaluates_composed_gates() {
    let function = two_input(AND);
    assert!(evaluate(&function, &[true, true]));
    assert!(!evaluate(&function, &[true, false]));
    assert!(!evaluate(&function, &[false, true]));
    assert!(!evaluate(&function, &[false, false]));

    let or_gate = two_input(OR);
    assert!(evaluate(&or_gate, &[false, true]));
    assert!(evaluate(&or_gate, &[true, false]));
    assert!(evaluate(&or_gate, &[true, true]));
    assert!(!evaluate(&or_gate, &[false, false]));

    let xor_gate = two_input(XOR);
    assert!(evaluate(&xor_gate, &[false, true]));
    assert!(evaluate(&xor_gate, &[true, false]));
    assert!(!evaluate(&xor_gate, &[true, true]));
    assert!(!evaluate(&xor_gate, &[false, false]));
}

#[test]
fn missing_feature_defaults_to_false() {
    let function = compact(vec![3], vec![CompactNode::Source(0)], 0);
    assert!(!evaluate(&function, &[true, false]));
}

#[test]
fn output_selects_requested_node() {
    let function = compact(vec![], vec![CompactNode::Constant(true), CompactNode::Constant(false)], 1);
    assert!(!evaluate(&function, &[]));
}

#[test]
fn counts_nodes_and_sources() {
    let function = compact(
        vec![0, 2],
        vec![CompactNode::Source(0), CompactNode::Source(1), CompactNode::Composed { first: 0, second: 1, truth_table: AND }],
        2,
    );
    assert_eq!(function.node_count(), 3);
    assert_eq!(function.source_count(), 2);
}

#[test]
fn score_pairs_reports_the_majority_table_of_each_varying_pair() {
    let first = [false, false, true, true];
    let second = [false, true, false, true];
    let constant = [true, true, true, true];
    let columns = [&first[..], &second[..], &constant[..]];
    let signs = [false, true, true, false];
    let batch = SignBatch::from_columns(&columns, &signs);
    let graph = EphemeralGraph {
        nodes: vec![
            EphemeralNode::Source { input_index: 0 },
            EphemeralNode::Source { input_index: 1 },
            EphemeralNode::Source { input_index: 2 },
        ],
        layers: vec![vec![BuildNodeId(1), BuildNodeId(0), BuildNodeId(2)]],
    };
    let mut cache = ColumnCache::new();
    for id in 0..3 {
        cache.ensure(&graph, batch, BuildNodeId(id)).unwrap();
    }
    let mut scratch = PairCounterScratch::with_top_k(3);
    let candidates = scratch.score_pairs(&graph.layers[0], &cache, batch, 4, 2).unwrap();
    assert_eq!(candidates.len(), 1);
    let candidate: PairCandidate = candidates[0];
    assert_eq!(candidate.first, BuildNodeId(0));
    assert_eq!(candidate.second, BuildNodeId(1));
    assert_eq!(candidate.truth_table, 0b0110);
    assert_eq!(candidate.abs_assoc, 4);
    assert_eq!(candidate.matched, 4);
}

#[test]
fn score_pairs_refuses_a_batch_too_large_for_a_counter() {
    let first: Vec<bool> = (0..256).map(|row| row % 2 == 0).collect();
    let second: Vec<bool> = (0..256).map(|row| row % 3 == 0).collect();
    let signs: Vec<bool> = (0..256).map(|row| row % 5 == 0).collect();
    let columns = [&first[..], &second[..]];
    let batch = SignBatch::from_columns(&columns, &signs);
    let graph = EphemeralGraph {
        nodes: vec![EphemeralNode::Source { input_index: 0 }, EphemeralNode::Source { input_index: 1 }],
        layers: vec![vec![BuildNodeId(0), BuildNodeId(1)]],
    };
    let mut cache = ColumnCache::new();
    cache.ensure(&graph, batch, BuildNodeId(0)).unwrap();
    cache.ensure(&graph, batch, BuildNodeId(1)).unwrap();
    let mut scratch = PairCounterScratch::with_top_k(2);
    let result = scratch.score_pairs(&graph.layers[0], &cache, batch, 256, 52);
    assert_eq!(result.err(), Some(FunctionBuildError::BatchTooLarge));
}

#[test]
fn column_cache_refuses_a_source_past_the_batch() {
    let first = [false, true];
    let columns = [&first[..]];
    let signs = [false, true];
    let batch = SignBatch::from_columns(&columns, &signs);
    let graph = EphemeralGraph {
        nodes: vec![
            EphemeralNode::Source { input_index: 0 },
            EphemeralNode::Source { input_index: 3 },
            EphemeralNode::Composed { first: BuildNodeId(0), second: BuildNodeId(1), truth_table: 0b1000 },
        ],
        layers: vec![vec![BuildNodeId(0), BuildNodeId(1)], vec![BuildNodeId(2)]],
    };
    let mut cache = ColumnCache::new();
    assert_eq!(cache.ensure(&graph, batch, BuildNodeId(2)), Err(FunctionBuildError::InvalidBatch));
    cache.ensure(&graph, batch, BuildNodeId(0)).unwrap();
    assert_eq!(cache.column(BuildNodeId(0)), &first[..]);
}

#[test]
fn cross_layer_pairs_are_sorted_and_unique() {
    let frontier = [BuildNodeId(2), BuildNodeId(0)];
    let global = [BuildNodeId(0), BuildNodeId(1), BuildNodeId(2)];
    let pairs = cross_layer_pairs(&frontier, &global);
    assert_eq!(
        pairs,
        vec![
            (BuildNodeId(0), BuildNodeId(1)),
            (BuildNodeId(0), BuildNodeId(2)),
            (BuildNodeId(1), BuildNodeId(2)),
        ]
    );
    assert!(cross_layer_pairs(&[BuildNodeId(4)], &[BuildNodeId(4)]).is_empty());
}

#[test]
fn nodes_at_depth_lists_ids_in_order() {
    let mut depths = HashMap::new();
    depths.insert(3usize, 1usize);
    depths.insert(1, 1);
    depths.insert(2, 0);
    assert_eq!(nodes_at_depth(&depths, 1), vec![BuildNodeId(1), BuildNodeId(3)]);
    assert_eq!(nodes_at_depth(&depths, 0), vec![BuildNodeId(2)]);
    assert!(nodes_at_depth(&depths, 5).is_empty());
}

#[test]
fn best_effective_matches_takes_the_larger_side() {
    assert_eq!(best_effective_matches_slice(&[3, 6, 1], 8), 7);
    assert_eq!(best_effective_matches_slice(&[4], 8), 4);
    assert_eq!(best_effective_matches_slice(&[], 8), 0);
}

#[test]
fn variant_selection_breaks_ties_by_association_then_id() {
    assert_eq!(select_output_and_variant_slices(&[5, 9, 1], &[6, 2, 7], 8), (BuildNodeId(2), false));
    assert_eq!(select_output_and_variant_slices(&[5, 9], &[6, 2], 8), (BuildNodeId(1), true));
    assert_eq!(select_output_and_variant_slices(&[3, 3], &[6, 6], 8), (BuildNodeId(0), false));
}

#[test]
fn truth_table_selection_prefers_later_layers_on_ties() {
    let graph = EphemeralGraph {
        nodes: vec![
            EphemeralNode::Source { input_index: 0 },
            EphemeralNode::Source { input_index: 1 },
            EphemeralNode::Composed { first: BuildNodeId(0), second: BuildNodeId(1), truth_table: 0b1000 },
        ],
        layers: vec![vec![BuildNodeId(0), BuildNodeId(1)], vec![BuildNodeId(2)]],
    };
    assert_eq!(node_layer(&graph, BuildNodeId(2)), 1);
    assert_eq!(node_layer(&graph, BuildNodeId(1)), 0);
    assert_eq!(node_layer(&graph, BuildNodeId(7)), 0);
    assert_eq!(select_output_truth_table_slices(&graph, &[5, 5, 3], 8), (BuildNodeId(0), false));
    assert_eq!(select_output_truth_table_slices(&graph, &[3, 5, 5], 8), (BuildNodeId(2), false));
    assert_eq!(select_output_truth_table_slices(&graph, &[1, 2, 0], 8), (BuildNodeId(1), true));
}

#[test]
fn pair_gates_score_each_single_row_table() {
    let first = [false, false, true, true];
    let second = [false, true, false, true];
    let signs = [true, false, false, true];
    let scores = score_all_pair_gates(&first, &second, &signs, 2);
    // AND: active on the last row only.
    assert_eq!(scores[0], (2, 3));
    // first and not second: active on row 2.
    assert_eq!(scores[1], (2, 1));
    // second and not first: active on row 1.
    assert_eq!(scores[2], (2, 1));
    // neither: active on row 0.
    assert_eq!(scores[3], (2, 3));
}

#[test]
fn ensemble_errors_map_onto_model_errors() {
    assert_eq!(EnsembleError::from(FunctionBuildError::InvalidBatch), EnsembleError::Build);
    assert_eq!(EnsembleError::from(CompactError::ExpertTooLarge), EnsembleError::Compact);
    assert_eq!(EnsembleError::from(CompactError::InvalidOutput), EnsembleError::Build);
    assert_eq!(BRegressorError::from(EnsembleError::PendingPrediction), BRegressorError::PendingPrediction);
    assert_eq!(BRegressorError::from(EnsembleError::Compact), BRegressorError::Compact);
    assert_eq!(BClassifierError::from(EnsembleError::NoPendingPrediction), BClassifierError::NoPendingPrediction);
    assert_eq!(BClassifierError::from(EnsembleError::InvalidInput), BClassifierError::InvalidInput);
}

fn core_shape(batch_size: usize, max_functions: usize) -> EnsembleShape {
    EnsembleShape { sgd_steps: 1, batch_size, parent_top_k: 2, max_functions, max_expert_nodes: DEFAULT_MAX_EXPERT_NODES }
}

#[test]
fn update_requires_preceding_predict() {
    let mut model = BooleanEnsemble::new(2, core_shape(2, 8)).unwrap();
    assert_eq!(
        model.take_pending().map_err(BRegressorError::from),
        Err(BRegressorError::NoPendingPrediction)
    );
    model.begin_predict(&[false, false]).unwrap();
    assert_eq!(
        model.begin_predict(&[true, false]).map_err(BRegressorError::from),
        Err(BRegressorError::PendingPrediction)
    );
    model.take_pending().unwrap();
    assert_eq!(model.n_observed(), 1);
}

#[test]
fn ensemble_core_refuses_invalid_settings_and_inputs() {
    assert_eq!(BooleanEnsemble::new(0, core_shape(2, 8)).err(), Some(EnsembleError::InvalidConfig));
    assert_eq!(BooleanEnsemble::new(2, core_shape(0, 8)).err(), Some(EnsembleError::InvalidConfig));
    assert_eq!(BooleanEnsemble::new(2, core_shape(2, 0)).err(), Some(EnsembleError::InvalidConfig));
    let mut model = BooleanEnsemble::new(2, core_shape(2, 8)).unwrap();
    assert_eq!(model.begin_predict(&[true]), Err(EnsembleError::InvalidInput));
    assert!(!model.is_pending_prediction());
}

#[test]
fn ensemble_core_builds_a_function_per_full_batch_and_prunes() {
    let mut model = BooleanEnsemble::new(2, core_shape(1, 2)).unwrap();
    let rows = [([false, true], true), ([true, false], false), ([false, false], true)];
    for (step, (features, sign)) in rows.iter().enumerate() {
        model.begin_predict(features).unwrap();
        assert_eq!(model.function_values().len(), model.function_count());
        model.take_pending().unwrap();
        let full = model.record_sign(*sign);
        assert!(full);
        let graph = model.finish_batch().unwrap().expect("a varying batch gives a function");
        assert_eq!(model.batch_len(), 0);
        model.push_function(graph, 0);
        assert_eq!(model.function_count(), (step + 1).min(2));
    }
    assert_eq!(model.n_observed(), 3);
}

#[test]
fn ensemble_core_skips_a_batch_of_constant_columns() {
    let mut model = BooleanEnsemble::new(2, core_shape(2, 4)).unwrap();
    for sign in [true, false] {
        model.begin_predict(&[true, false]).unwrap();
        model.take_pending().unwrap();
        model.record_sign(sign);
    }
    assert_eq!(model.finish_batch().unwrap().is_none(), true);
    assert_eq!(model.batch_len(), 0);
    assert_eq!(model.function_count(), 0);
}

fn compact_one_gate(first_input: usize, second_input: usize, truth_table: u8) -> FunctionGraph {
    let mut workspace = BuildWorkspace::new(4);
    workspace.nodes[0] = EphemeralNode::Source { input_index: first_input };
    workspace.nodes[1] = EphemeralNode::Source { input_index: second_input };
    workspace.nodes[2] = EphemeralNode::Composed { first: BuildNodeId(0), second: BuildNodeId(1), truth_table };
    workspace.node_len = 3;
    let mut graph = FunctionGraph::empty(2, 4);
    compact_build_workspace_into(&mut workspace, BuildNodeId(2), false, 4, &mut graph).unwrap();
    graph
}

#[test]
fn compaction_keeps_the_value_of_copy_and_negation_tables() {
    for truth_table in [0b1010u8, 0b1100, 0b0011, 0b0101, 0b0000, 0b1111, 0b0110, 0b1000] {
        let graph = compact_one_gate(0, 1, truth_table);
        for row in 0..4u8 {
            let features = [row & 2 != 0, row & 1 != 0];
            assert_eq!(evaluate(&graph, &features), (truth_table >> row) & 1 == 1, "table {truth_table:#06b} row {row}");
        }
    }
    let copy_second = compact_one_gate(0, 1, 0b1010);
    assert_eq!(copy_second.nodes(), &[CompactNode::Source(0)]);
    assert!(evaluate(&copy_second, &[false, true]));
}

#[test]
fn compaction_negates_a_gate_reading_one_node_twice() {
    let mut workspace = BuildWorkspace::new(4);
    workspace.nodes[0] = EphemeralNode::Source { input_index: 0 };
    workspace.nodes[1] = EphemeralNode::Composed { first: BuildNodeId(0), second: BuildNodeId(0), truth_table: 0b0101 };
    workspace.node_len = 2;
    let mut graph = FunctionGraph::empty(1, 4);
    compact_build_workspace_into(&mut workspace, BuildNodeId(1), false, 4, &mut graph).unwrap();
    assert!(evaluate(&graph, &[false]));
    assert!(!evaluate(&graph, &[true]));
}
