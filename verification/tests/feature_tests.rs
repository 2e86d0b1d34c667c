use binaml::feature_learning::{FeatureLearner, FeatureLearningConfig, FeatureLearningError, SignBatch};
use binaml::feature_store::{FeatureId, FeatureStore, InsertFeatureError};

fn learning_config() -> FeatureLearningConfig {
    FeatureLearningConfig { batch_size: 2, parent_top_k: 2, features_per_layer: 1, candidate_capacity: 4, max_layers: 2 }
}

#[test]
fn trains_on_one_batch_and_scores_on_the_next() {
    let mut learner = FeatureLearner::new(2, learning_config()).unwrap();
    let first = [false, true];
    let second = [false, false];
    let columns = [&first[..], &second[..]];
    let signs = [false, true];

    learner.observe_batch(SignBatch { feature_columns: &columns, signs: &signs }).unwrap();
    assert_eq!(learner.store().candidate_len(1), Some(1));
    assert_eq!(learner.store().layer_len(1), Some(0));

    learner.observe_batch(SignBatch { feature_columns: &columns, signs: &signs }).unwrap();

    let layer_one = learner.store().live_refs_in_layer(1);
    assert_eq!(layer_one.len(), 1);
    assert_eq!(learner.store().score(layer_one[0]), Some(2));
    assert_eq!(learner.store().score(FeatureId { layer: 0, index: 0 }), Some(2));
    assert_eq!(learner.store().candidate_len(2), None);
}

#[test]
fn candidate_score_is_taken_from_the_following_batch() {
    let mut learner = FeatureLearner::new(2, learning_config()).unwrap();
    let first = [false, true];
    let second = [false, false];
    let columns = [&first[..], &second[..]];

    learner.observe_batch(SignBatch { feature_columns: &columns, signs: &[false, true] }).unwrap();
    learner.observe_batch(SignBatch { feature_columns: &columns, signs: &[true, false] }).unwrap();

    let feature = learner.store().live_refs_in_layer(1)[0];
    assert_eq!(learner.store().score(feature), Some(0));
}

#[test]
fn pruning_cascades_to_dependents() {
    let mut learner = FeatureLearner::new(2, learning_config()).unwrap();
    let first = learner
        .store
        .insert([FeatureId { layer: 0, index: 0 }, FeatureId { layer: 0, index: 1 }], 0, 0)
        .unwrap();
    let retained = learner
        .store
        .insert([FeatureId { layer: 0, index: 1 }, FeatureId { layer: 0, index: 0 }], 0, 5)
        .unwrap();
    let dependent = learner.store.insert([first, FeatureId { layer: 0, index: 0 }], 0, 3).unwrap();

    learner.promote_and_prune();

    assert!(learner.store().get(first).is_none());
    assert!(learner.store().get(dependent).is_none());
    assert!(learner.store().get(retained).is_some());
}

#[test]
fn stores_source_feature_function_at_first_learned_layer() {
    let mut store = FeatureStore::new(2);
    let feature = store
        .insert([FeatureId { layer: 0, index: 0 }, FeatureId { layer: 0, index: 1 }], 0b0110, 3)
        .unwrap();

    assert_eq!(feature, FeatureId { layer: 1, index: 0 });
    assert_eq!(store.source_feature_count(), 2);
    assert_eq!(store.learned_layer_count(), 1);
    assert_eq!(store.layer_len(0), Some(2));
    assert_eq!(store.layer_len(1), Some(1));
    assert_eq!(store.get(feature).unwrap().truth_table, 0b0110);
    assert_eq!(store.get(feature).unwrap().score, 3);
}

#[test]
fn derives_depth_and_preserves_stable_indexes() {
    let mut store = FeatureStore::new(2);
    let layer_one = store
        .insert([FeatureId { layer: 0, index: 0 }, FeatureId { layer: 0, index: 1 }], 0, 4)
        .unwrap();
    let same_layer = store
        .insert([FeatureId { layer: 0, index: 1 }, FeatureId { layer: 0, index: 0 }], 1, 2)
        .unwrap();
    let layer_two = store.insert([layer_one, FeatureId { layer: 0, index: 0 }], 0b1001, 1).unwrap();

    assert_eq!(same_layer, FeatureId { layer: 1, index: 1 });
    assert_eq!(layer_two, FeatureId { layer: 2, index: 0 });
    assert_eq!(store.get(layer_two).unwrap().inputs, [layer_one, FeatureId { layer: 0, index: 0 }]);
    assert_eq!(store.get(layer_one).unwrap().score, 4);
}

#[test]
fn rejects_invalid_references_without_mutation() {
    let mut store = FeatureStore::new(1);
    let invalid_source = FeatureId { layer: 0, index: 1 };
    let missing_layer = FeatureId { layer: 1, index: 0 };

    assert_eq!(
        store.insert([invalid_source, invalid_source], 0, 1),
        Err(InsertFeatureError::InvalidInputRef(invalid_source))
    );
    assert_eq!(
        store.insert([missing_layer, missing_layer], 0, 1),
        Err(InsertFeatureError::InvalidInputRef(missing_layer))
    );
    assert_eq!(store.learned_layer_count(), 0);
}

#[test]
fn feature_learner_rejects_invalid_config() {
    let mut config = learning_config();
    config.parent_top_k = 0;
    assert!(matches!(FeatureLearner::new(2, config), Err(FeatureLearningError::InvalidConfig)));
    let mut config = learning_config();
    config.batch_size = 256;
    assert!(matches!(FeatureLearner::new(2, config), Err(FeatureLearningError::InvalidConfig)));
}

#[test]
fn feature_learner_rejects_misshaped_batch() {
    let mut learner = FeatureLearner::new(2, learning_config()).unwrap();
    let first = [false, true, true];
    let second = [false, false, true];
    let columns = [&first[..], &second[..]];
    let result = learner.observe_batch(SignBatch { feature_columns: &columns, signs: &[false, true] });
    assert_eq!(result, Err(FeatureLearningError::InvalidBatch));
    assert_eq!(learner.store().candidate_len(1), None);
}

#[test]
fn pruning_keeps_at_most_features_per_layer() {
    let mut config = learning_config();
    config.features_per_layer = 2;
    let mut learner = FeatureLearner::new(3, config).unwrap();
    for (first, second, score) in [(0, 1, 4), (1, 2, 1), (0, 2, 7), (1, 0, 2)] {
        learner
            .store
            .insert([FeatureId { layer: 0, index: first }, FeatureId { layer: 0, index: second }], 0b0110, score)
            .unwrap();
    }
    learner.promote_and_prune();
    let live = learner.store().live_refs_in_layer(1);
    assert_eq!(live, vec![FeatureId { layer: 1, index: 0 }, FeatureId { layer: 1, index: 2 }]);
    assert_eq!(learner.store().layer_len(1), Some(2));
}

#[test]
fn every_well_shaped_batch_is_accepted_across_layers() {
    let config = FeatureLearningConfig { batch_size: 4, parent_top_k: 3, features_per_layer: 2, candidate_capacity: 3, max_layers: 3 };
    let mut learner = FeatureLearner::new(3, config).unwrap();
    let batches: [([bool; 4], [bool; 4], [bool; 4], [bool; 4]); 4] = [
        ([false, true, false, true], [false, false, true, true], [true, true, false, false], [false, true, true, false]),
        ([true, false, true, false], [false, true, true, false], [true, false, false, true], [true, true, false, false]),
        ([false, false, true, true], [true, false, true, false], [false, true, false, true], [false, false, true, true]),
        ([true, true, true, false], [false, true, false, false], [true, false, true, true], [true, false, false, true]),
    ];
    for (first, second, third, signs) in batches.iter() {
        let columns = [&first[..], &second[..], &third[..]];
        assert_eq!(learner.observe_batch(SignBatch { feature_columns: &columns, signs: &signs[..] }), Ok(()));
        for layer in 1..=3usize {
            if let Some(live) = learner.store().layer_len(layer) {
                assert!(live <= 2);
            }
            for reference in learner.store().live_refs_in_layer(layer) {
                assert!(learner.store().score(reference).is_some());
            }
        }
    }
    assert!(learner.store().candidate_len(1).is_some());
}
