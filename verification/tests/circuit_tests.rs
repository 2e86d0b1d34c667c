use binaml::circuit_exp::circuit::{build_random_dag, matched_learner};
use binaml::circuit_exp::dgp::{build_dgp, labeled_sample};
use binaml::circuit_exp::gate::{get_weight, nudge_weight, set_weight, sign};
use binaml::circuit_exp::gate_wire::{
    backprop_sign, bool_target_pole, forward_sum, nudge_weight as wire_nudge_weight, pack_signs, want_sign,
};
use binaml::circuit_exp::learner::StreamLearner;
use binaml::circuit_exp::learner_wire::StreamLearnerWire;
use binaml::circuit_exp::metrics::MetricsTracker;
use binaml::circuit_exp::diag_wire::{gate_error_counts, WireLearnerDiag};
use binaml::circuit_exp::gate_wire::BackpropOutcome;
use binaml::circuit_exp::learner_wire::WireEvent;
use rand::SeedableRng;
use rand_chacha::ChaCha8Rng;

#[test]
fn dgp_eval_matches_sink() {
    let mut rng = ChaCha8Rng::seed_from_u64(42);
    let (dgp, _) = build_random_dag(&mut rng, 4, 2, 2);
    let x = [true, false, true, false];
    let vals = dgp.eval_dgp(&x);
    assert_eq!(dgp.eval_sink(&x), vals[dgp.sink as usize]);
}

#[test]
fn matched_learner_same_parents() {
    let mut rng = ChaCha8Rng::seed_from_u64(7);
    let (dgp, _) = build_random_dag(&mut rng, 8, 2, 4);
    let matched = matched_learner(&dgp);
    assert_eq!(matched.left, dgp.left);
    assert_eq!(matched.right, dgp.right);
}

#[test]
fn stream_labels_consistent() {
    let mut rng = ChaCha8Rng::seed_from_u64(99);
    let dgp = build_dgp(&mut rng, 4, 2, 2);
    let x = vec![true, false, true, false];
    let sample = labeled_sample(&dgp, &x);
    assert_eq!(sample.y, dgp.eval_sink(&x));
}

#[test]
fn sign_threshold() {
    assert_eq!(sign(-1), 0);
    assert_eq!(sign(0), 1);
    assert_eq!(sign(127), 1);
}

#[test]
fn weight_pack_roundtrip() {
    let mut packed = 0u32;
    set_weight(&mut packed, 0, 10);
    set_weight(&mut packed, 3, -128);
    assert_eq!(get_weight(packed, 0), 10);
    assert_eq!(get_weight(packed, 3), -128);
}

#[test]
fn nudge_toward_target() {
    assert_eq!(nudge_weight(0, -1), -1);
    assert_eq!(nudge_weight(-5, 1), -4);
}

#[test]
fn bool_target_pole_values() {
    assert_eq!(bool_target_pole(true), 127);
    assert_eq!(bool_target_pole(false), -128);
}

#[test]
fn forward_sum_selects_per_parent_sign() {
    let mut packed = 0u32;
    set_weight(&mut packed, 0, 10);
    set_weight(&mut packed, 1, 20);
    set_weight(&mut packed, 2, -5);
    set_weight(&mut packed, 3, 30);
    let (sum, signs) = forward_sum(packed, -1, 1);
    assert_eq!(sum, 10 + 30);
    assert_eq!(signs, pack_signs(0, 1));
    let (sum2, _) = forward_sum(packed, 1, -1);
    assert_eq!(sum2, 20 + (-5));
}

#[test]
fn nudge_respects_bounds() {
    assert_eq!(wire_nudge_weight(127, 127), 127);
    assert_eq!(wire_nudge_weight(126, 127), 127);
    assert_eq!(wire_nudge_weight(-128, -128), -128);
    assert_eq!(wire_nudge_weight(-127, -128), -128);
}

#[test]
fn want_sign_tie_keeps_none() {
    assert_eq!(want_sign(127, 5, 5, -1), None);
    assert_eq!(want_sign(127, 5, 5, 1), None);
}

#[test]
fn want_sign_max_for_target_one() {
    assert_eq!(want_sign(127, 3, 7, 0), Some(1));
    assert_eq!(want_sign(127, 7, 3, 1), Some(0));
}

#[test]
fn want_sign_min_for_target_zero() {
    assert_eq!(want_sign(-128, 3, 7, 1), Some(0));
    assert_eq!(want_sign(-128, 7, 3, 0), Some(1));
}

#[test]
fn backprop_fires_when_misaligned() {
    assert_eq!(backprop_sign(127, 3, 7, -1), Some(1));
    assert_eq!(backprop_sign(-128, 3, 7, 1), Some(0));
}

#[test]
fn backprop_skips_when_aligned() {
    assert_eq!(backprop_sign(127, 3, 7, 1), None);
    assert_eq!(backprop_sign(-128, 3, 7, -1), None);
}

#[test]
fn learner_predict_observe_runs() {
    let mut rng = ChaCha8Rng::seed_from_u64(1);
    let (dgp, _) = build_random_dag(&mut rng, 4, 2, 2);
    let topo = matched_learner(&dgp);
    let mut learner = StreamLearner::new(topo);
    let x = [true, false, true, false];
    let y = dgp.eval_sink(&x);
    learner.predict(&x);
    learner.observe(y);
    assert_eq!(learner.step_count(), 1);
}

#[test]
fn learner_wire_predict_observe_runs() {
    let mut rng = ChaCha8Rng::seed_from_u64(1);
    let (dgp, _) = build_random_dag(&mut rng, 4, 2, 2);
    let topo = matched_learner(&dgp);
    let mut learner = StreamLearnerWire::new(topo);
    let x = [true, false, true, false];
    let y = dgp.eval_sink(&x);
    learner.predict(&x);
    learner.observe(y);
    assert_eq!(learner.step_count(), 1);
}

#[test]
fn single_gate_and_learns() {
    let mut rng = ChaCha8Rng::seed_from_u64(42);
    let (mut dgp, _) = build_random_dag(&mut rng, 2, 1, 1);
    dgp.truth_table[0] = 0b0001;
    dgp.left[0] = 0;
    dgp.right[0] = 1;
    dgp.sink = 2;
    let topo = matched_learner(&dgp);
    let mut learner = StreamLearnerWire::new(topo);

    let mut rng = ChaCha8Rng::seed_from_u64(99);
    for _ in 0..8192 {
        let x: [bool; 2] = [rand::Rng::gen_bool(&mut rng, 0.5), rand::Rng::gen_bool(&mut rng, 0.5)];
        let y = dgp.eval_sink(&x);
        learner.predict(&x);
        learner.observe(y);
    }
    for a in [false, true] {
        for b in [false, true] {
            let x = [a, b];
            let y = dgp.eval_sink(&x);
            assert_eq!(learner.predict(&x), y);
        }
    }
}

#[test]
fn accuracy_after_warmup_excludes_prefix() {
    let mut tr = MetricsTracker::new(2);
    tr.record(false, true, 0, 0);
    tr.record(false, true, 0, 0);
    tr.record(true, true, 0, 0);
    tr.record(false, true, 0, 0);
    let m = tr.finish();
    let accuracy_after_warmup = m.post_warmup_correct as f64 / m.post_warmup_steps as f64;
    assert!((accuracy_after_warmup - 0.5).abs() < 1e-9);
}

#[test]
fn accuracy_last_n_tracks_tail() {
    let mut tr = MetricsTracker::new(0);
    for _ in 0..99 {
        tr.record(false, true, 0, 0);
    }
    tr.record(true, true, 0, 0);
    let m = tr.finish();
    let accuracy_last_n = m.last_n_correct as f64 / m.last_n_len as f64;
    assert!((accuracy_last_n - 0.01).abs() < 1e-9);
}

#[test]
fn metrics_count_steps_to_ninety_five_percent() {
    let mut tr = MetricsTracker::new(0);
    for _ in 0..20 {
        tr.record(true, true, 10, 30);
    }
    let m = tr.finish();
    assert_eq!(m.steps_to_95pct, Some(1));
    assert_eq!(m.total_steps, 20);
    assert_eq!(m.timings.predict_ns, 10);
    assert_eq!(m.timings.observe_ns, 30);
}

#[test]
fn wire_diag_counts_events_and_target_conflicts() {
    let mut diag = WireLearnerDiag::new(2, 5);
    let events = [
        WireEvent::FixGate { gate: 0 },
        WireEvent::Backprop { gate: 0, parent: 3, outcome: BackpropOutcome::Fired { want: 1 } },
        WireEvent::Backprop { gate: 1, parent: 3, outcome: BackpropOutcome::Fired { want: 0 } },
        WireEvent::Backprop { gate: 1, parent: 4, outcome: BackpropOutcome::AlreadyAligned },
        WireEvent::Backprop { gate: 0, parent: 2, outcome: BackpropOutcome::WeightTie },
    ];
    diag.record_events(&events);
    let first = diag.gates[0];
    assert_eq!(first.fix_gate_visits, 1);
    assert_eq!(first.backprop_checks, 2);
    assert_eq!(first.backprop_fired, 1);
    assert_eq!(first.skip_other_not_better, 1);
    assert_eq!(first.target_conflicts, 0);
    let second = diag.gates[1];
    assert_eq!(second.backprop_checks, 2);
    assert_eq!(second.backprop_fired, 1);
    assert_eq!(second.skip_cur_agrees, 1);
    assert_eq!(second.target_conflicts, 1);
    assert_eq!(diag.wave_targets, vec![0, 0, 0, -128, 0]);
    // A new observation forgets the targets of the previous one.
    diag.record_events(&[WireEvent::Backprop { gate: 1, parent: 3, outcome: BackpropOutcome::Fired { want: 1 } }]);
    assert_eq!(diag.gates[1].backprop_fired, 2);
    assert_eq!(diag.gates[1].target_conflicts, 1);
    assert_eq!(diag.wave_targets, vec![0, 0, 0, 127, 0]);
}

#[test]
fn gate_error_counts_stay_within_the_sample_count() {
    let mut rng = ChaCha8Rng::seed_from_u64(3);
    let dgp = build_dgp(&mut rng, 4, 2, 2);
    let mut learner = StreamLearnerWire::new(matched_learner(&dgp));
    let errors = gate_error_counts(&mut learner, &dgp, 50, 11);
    assert_eq!(errors.len(), dgp.num_gates);
    assert!(errors.iter().all(|&e| e <= 50));
    assert_eq!(learner.step_count(), 0);
}
