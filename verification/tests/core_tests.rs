use std::cmp::Ordering;
use binaml::association::association_score;
use binaml::batch::SignBatch;
use binaml::binary_truth_table::{FeatureCounter, FeatureCounterError, MAX_COUNTER_BATCH_SIZE};
use binaml::boolean_circuit::evaluate_truth_table;
use binaml::conjunction_build_common::{
    correct_count, dedup_extensions, derive_conjunction_capacity, pick_winner, score_column, BeamEntry,
    ConjunctionBuildConfig, ConjunctionKey, ExtensionCandidate, DEFAULT_MAX_EXPERTS, DEFAULT_STALE_LAYERS,
};
use binaml::conjunction_builder::ConjunctionBuilder;
use binaml::conjunction_expert::ConjunctionExpert;

#[test]
fn association_score_is_zero_for_independent_pattern() {
    let values = [true, true, false, false];
    let signs = [true, false, true, false];
    assert_eq!(association_score(&values, &signs), 0);
}

#[test]
fn from_columns_matches_from_batch() {
    let first = [false, false, true, true];
    let second = [false, true, false, true];
    let signs = [false, true, true, false];
    let batch: Vec<_> = first
        .iter()
        .zip(second.iter())
        .zip(signs.iter())
        .map(|((&x0, &x1), &output)| (x0, x1, output))
        .collect();
    let from_batch = FeatureCounter::from_batch(&batch).unwrap();
    let from_columns = FeatureCounter::from_columns(&first, &second, &signs).unwrap();
    assert_eq!(from_batch.counts(), from_columns.counts());
    assert_eq!(from_batch.truth_table_and_scores(4, 2), from_columns.truth_table_and_scores(4, 2));
}

#[test]
fn truth_table_and_scores_match_column_metrics() {
    let first = [false, false, true, true, false, true];
    let second = [false, true, false, true, true, false];
    let signs = [false, true, true, false, true, false];
    let counter = FeatureCounter::from_columns(&first, &second, &signs).unwrap();
    let ny = signs.iter().filter(|&&sign| sign).count() as i64;
    let (table, abs_assoc, matches) = counter.truth_table_and_scores(6, ny);
    let column: Vec<bool> = first
        .iter()
        .zip(second.iter())
        .map(|(&x0, &x1)| evaluate_truth_table(table, x0, x1))
        .collect();
    assert_eq!(table, counter.truth_table());
    assert_eq!(abs_assoc, association_score(&column, &signs).abs());
    assert_eq!(
        matches,
        u8::try_from(column.iter().zip(signs.iter()).filter(|(value, sign)| **value == **sign).count()).unwrap()
    );
}

#[test]
fn learner_selects_majorities() {
    let learner = FeatureCounter::from_batch(&[
        (false, false, false),
        (false, false, true),
        (false, true, true),
        (true, false, false),
        (true, true, true),
        (true, true, true),
    ])
    .unwrap();
    assert_eq!(learner.truth_table(), 0b1010);
}

#[test]
fn slots_are_independent() {
    let learner = FeatureCounter::from_batch(&[
        (false, false, true),
        (false, true, false),
        (true, false, true),
        (true, true, false),
    ])
    .unwrap();
    assert_eq!(learner.counts(), [0, 1, 1, 0, 0, 1, 1, 0]);
}

#[test]
fn accepts_its_maximum_batch() {
    let batch = vec![(false, false, true); MAX_COUNTER_BATCH_SIZE];
    assert_eq!(FeatureCounter::from_batch(&batch).unwrap().counts()[1], 255);
}

#[test]
fn rejects_an_oversized_batch_without_learning() {
    assert_eq!(FeatureCounter::from_batch(&[(false, false, false); 256]), Err(FeatureCounterError::BatchTooLarge));
}

#[test]
fn all_truth_tables_are_reconstructed() {
    for table in 0..16u8 {
        let batch: Vec<_> = (0..4u8)
            .map(|partition| {
                let x0 = partition & 0b10 != 0;
                let x1 = partition & 0b01 != 0;
                let output = table & (1 << partition) != 0;
                (x0, x1, output)
            })
            .collect();
        assert_eq!(FeatureCounter::from_batch(&batch).unwrap().truth_table(), table);
    }
}

#[test]
fn empty_batch_has_zero_truth_table() {
    assert_eq!(FeatureCounter::from_batch(&[]).unwrap().truth_table(), 0);
}

#[test]
fn conjunction_key_tracks_literals() {
    let word_count = 1;
    let key = ConjunctionKey::empty()
        .with_literal(1, false, word_count)
        .unwrap()
        .with_literal(3, true, word_count)
        .unwrap();
    assert_eq!(key.len(word_count), 2);
    assert!(key.contains(1, word_count));
    assert!(key.contains(3, word_count));
    assert!(!key.contains(2, word_count));
    assert!(key.with_literal(1, false, word_count).is_none());
}

#[test]
fn dedup_keeps_better_association_then_accuracy() {
    let key = ConjunctionKey::empty().with_literal(0, false, 1).unwrap();
    let extensions = [
        ExtensionCandidate { key, abs_assoc: 1, accuracy: 2, parent_slot: 0, literal_index: 0 },
        ExtensionCandidate { key, abs_assoc: 3, accuracy: 1, parent_slot: 0, literal_index: 1 },
        ExtensionCandidate { key, abs_assoc: 3, accuracy: 4, parent_slot: 0, literal_index: 2 },
    ];
    let order = [0, 1, 2];
    let mut dedup = extensions;
    let kept = dedup_extensions(&extensions, &order, 3, &mut dedup, 1);
    assert_eq!(kept, 1);
    assert_eq!(dedup[0].abs_assoc, 3);
    assert_eq!(dedup[0].accuracy, 4);
}

#[test]
fn score_column_matches_association_and_accuracy() {
    let values = [true, true, false, false];
    let signs = [true, false, true, false];
    let ny = signs.iter().filter(|sign| **sign).count() as i64;
    let (abs_assoc, accuracy) = score_column(&values, &signs, ny);
    assert_eq!(abs_assoc, association_score(&values, &signs).abs());
    assert_eq!(accuracy, correct_count(&values, &signs));
}

#[test]
fn derive_capacity_scales_with_beam_and_features() {
    let config = ConjunctionBuildConfig::new(8, 4, 7, 64, 2);
    let capacity = derive_conjunction_capacity(32, config);
    assert_eq!(capacity.max_extensions, 4 * 2 * 32);
    assert_eq!(capacity.key_words, 1);
}

#[test]
fn pick_winner_uses_accuracy_then_association() {
    let high_accuracy = BeamEntry {
        key: ConjunctionKey::empty().with_literal(0, false, 1).unwrap(),
        abs_assoc: 1,
        accuracy: 4,
        column_slot: 0,
    };
    let high_assoc = BeamEntry {
        key: ConjunctionKey::empty().with_literal(1, false, 1).unwrap(),
        abs_assoc: 5,
        accuracy: 2,
        column_slot: 1,
    };
    let beam = [high_accuracy, high_assoc];
    assert_eq!(pick_winner(&beam, 2).column_slot, 0);
    assert_eq!(pick_winner(&beam, 2).accuracy, 4);
}

fn conjunction_config(batch_size: usize, max_conjunctions: usize) -> ConjunctionBuildConfig {
    ConjunctionBuildConfig::new(batch_size, max_conjunctions, 7, DEFAULT_MAX_EXPERTS, DEFAULT_STALE_LAYERS)
}

#[test]
fn builds_conjunction_from_synthetic_batch() {
    let first = [false, true, false, true];
    let second = [false, false, true, true];
    let columns = [&first[..], &second[..]];
    let signs = [false, true, true, true];
    let expert = ConjunctionBuilder::build(SignBatch::from_columns(&columns, &signs), conjunction_config(4, 2)).unwrap();
    assert!(expert.literal_count() >= 1);
}

#[test]
fn conjunction_builder_skips_constant_source_columns() {
    let constant = [false; 4];
    let varying = [false, true, false, true];
    let columns = [&constant[..], &varying[..]];
    let signs = [false, true, false, true];
    let expert = ConjunctionBuilder::build(SignBatch::from_columns(&columns, &signs), conjunction_config(4, 2)).unwrap();
    assert_eq!(expert.literal_count(), 1);
}

#[test]
fn conjunction_builder_learns_negated_literal_target() {
    let feature = [false, true, false, true, false, true, false, true];
    let columns = [&feature[..]];
    let signs = [true, false, true, false, true, false, true, false];
    let (predictions, score) =
        ConjunctionBuilder::fit_predict(SignBatch::from_columns(&columns, &signs), conjunction_config(8, 2)).unwrap();
    assert_eq!(predictions, signs);
    assert_eq!(score, 8);
}

#[test]
fn learns_two_literal_conjunction() {
    let first = [false, true, false, true];
    let second = [false, false, true, true];
    let columns = [&first[..], &second[..]];
    let signs = [false, false, false, true];
    let (predictions, score) =
        ConjunctionBuilder::fit_predict(SignBatch::from_columns(&columns, &signs), conjunction_config(4, 4)).unwrap();
    assert_eq!(predictions, signs);
    assert_eq!(score, 4);
}

#[test]
fn learns_single_literal_best_match() {
    let first = [false, true, false, true];
    let second = [false, false, true, true];
    let columns = [&first[..], &second[..]];
    let signs = [false, true, true, true];
    let (predictions, score) =
        ConjunctionBuilder::fit_predict(SignBatch::from_columns(&columns, &signs), conjunction_config(4, 4)).unwrap();
    assert_eq!(score, 3);
    assert_eq!(predictions, [false, true, false, true]);
}

#[test]
fn conjunction_builder_predicts_on_a_holdout_batch() {
    let first = [false, true, false, true];
    let second = [false, false, true, true];
    let columns = [&first[..], &second[..]];
    let signs = [false, false, false, true];
    let expert = ConjunctionBuilder::build(SignBatch::from_columns(&columns, &signs), conjunction_config(4, 4)).unwrap();
    let holdout_first = [false, true];
    let holdout_second = [true, true];
    let holdout_columns = [&holdout_first[..], &holdout_second[..]];
    let holdout_signs = [true, true];
    let predictions =
        ConjunctionBuilder::predict(&expert, SignBatch::from_columns(&holdout_columns, &holdout_signs)).unwrap();
    assert_eq!(predictions, [false, true]);
}

#[test]
fn from_key_decodes_negated_literals_sorted() {
    let key = ConjunctionKey::empty().with_literal(2, true, 1).unwrap().with_literal(0, false, 1).unwrap();
    let expert = ConjunctionExpert::from_key(&key, 1, 4, 7).unwrap();
    assert_eq!(expert.literals(), &[(0, false), (2, true)]);
}

#[test]
fn evaluate_ands_literals() {
    let key = ConjunctionKey::empty().with_literal(0, false, 1).unwrap().with_literal(1, true, 1).unwrap();
    let expert = ConjunctionExpert::from_key(&key, 1, 2, 7).unwrap();
    assert!(expert.evaluate(&[true, false]));
    assert!(!expert.evaluate(&[false, false]));
    assert!(!expert.evaluate(&[true, true]));
}

#[test]
fn key_order_is_antisymmetric_and_transitive() {
    let a = ConjunctionKey::empty().with_literal(0, false, 2).unwrap();
    let b = ConjunctionKey::empty().with_literal(1, false, 2).unwrap();
    let c = ConjunctionKey::empty().with_literal(70, true, 2).unwrap();
    let keys = [a, b, c];
    for x in keys.iter() {
        assert_eq!(ConjunctionKey::cmp_keys(*x, *x, 2), Ordering::Equal);
        for y in keys.iter() {
            assert_eq!(ConjunctionKey::cmp_keys(*x, *y, 2), ConjunctionKey::cmp_keys(*y, *x, 2).reverse());
            for z in keys.iter() {
                if ConjunctionKey::cmp_keys(*x, *y, 2) == Ordering::Less && ConjunctionKey::cmp_keys(*y, *z, 2) == Ordering::Less {
                    assert_eq!(ConjunctionKey::cmp_keys(*x, *z, 2), Ordering::Less);
                }
            }
        }
    }
    assert_eq!(ConjunctionKey::cmp_keys(a, b, 2), Ordering::Less);
}

#[test]
fn majority_table_reproduces_at_least_as_many_labels_as_any_table() {
    let first = [false, false, true, true, false, true, true, false];
    let second = [false, true, false, true, true, true, false, false];
    let signs = [true, false, false, true, false, true, true, true];
    let counter = FeatureCounter::from_columns(&first, &second, &signs).unwrap();
    let (majority, _, matches) = counter.truth_table_and_scores(8, 5);
    let hits = |table: u8| -> usize {
        (0..8).filter(|&r| evaluate_truth_table(table, first[r], second[r]) == signs[r]).count()
    };
    assert_eq!(hits(majority), matches as usize);
    for table in 0..16u8 {
        assert!(hits(table) <= matches as usize, "table {table}");
    }
}
