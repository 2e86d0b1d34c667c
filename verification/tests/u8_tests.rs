use binaml::circuit_exp::u8_linear::bits::{score_byte_mem, score_byte_mem_packed, update_byte_mem, score_byte_sym, count_ones_u8};
use binaml::circuit_exp::u8_linear::dataset::U8Dataset;
use binaml::circuit_exp::u8_linear::dgp::{sample_pool_size, score, LinearU8Dgp, WeightMode};
use binaml::circuit_exp::u8_linear::learner::U8LinearLearner;
use binaml::circuit_exp::u8_linear::learner_mem::U8MemLearner;
use binaml::circuit_exp::u8_linear::learner_sym::U8SymLearner;
use rand::SeedableRng;
use rand_chacha::ChaCha8Rng;

const BITS_PER_U8: usize = 8;

fn unpack(w: u8) -> [u8; BITS_PER_U8] {
    std::array::from_fn(|i| (w >> i) & 1)
}

/// The dataset split by a training fraction of the sample pool.
fn split(seed: u64, dgp: &LinearU8Dgp, train_frac: f64) -> U8Dataset {
    let pool = sample_pool_size(dgp.n_inputs);
    let train_count = (pool as f64 * train_frac).round() as usize;
    U8Dataset::split_counted(seed, dgp, train_count)
}

fn accuracy(errors: usize, len: usize) -> f64 {
    1.0 - errors as f64 / len as f64
}

#[test]
fn packed_mem_score_matches_unpacked() {
    for byte in 0u8..=255 {
        for w0 in 0u8..=255 {
            for w1 in 0u8..=255 {
                let unpacked_w0 = unpack(w0);
                let unpacked_w1 = unpack(w1);
                assert_eq!(score_byte_mem_packed(byte, w0, w1), score_byte_mem(byte, &unpacked_w0, &unpacked_w1));
            }
        }
    }
}

#[test]
fn packed_mem_update_matches_scalar() {
    for byte in 0u8..=255 {
        for target in [0u8, 1] {
            let mut w0 = 0xA5u8;
            let mut w1 = 0x3Cu8;
            let w0_before = w0;
            let w1_before = w1;

            update_byte_mem(&mut w0, &mut w1, byte, target);

            let mut uw0 = unpack(w0_before);
            let mut uw1 = unpack(w1_before);
            for i in 0..BITS_PER_U8 {
                if byte & (1 << i) != 0 {
                    uw1[i] = target;
                } else {
                    uw0[i] = target;
                }
            }
            assert_eq!(w0, uw0.iter().enumerate().fold(0u8, |acc, (i, &b)| acc | (b << i)));
            assert_eq!(w1, uw1.iter().enumerate().fold(0u8, |acc, (i, &b)| acc | (b << i)));
        }
    }
}

#[test]
fn eval_matches_score_sign() {
    let mut rng = ChaCha8Rng::seed_from_u64(1);
    let dgp = LinearU8Dgp::random(&mut rng, 1);
    for x in 0..=255u8 {
        assert_eq!(dgp.eval(&[x]), score(&[x], &dgp.w0, &dgp.w1) >= 0);
    }
}

#[test]
fn two_input_score() {
    let mut rng = ChaCha8Rng::seed_from_u64(2);
    let dgp = LinearU8Dgp::random(&mut rng, 2);
    let xs = [10u8, 20];
    assert_eq!(dgp.eval(&xs), score(&xs, &dgp.w0, &dgp.w1) >= 0);
}

#[test]
fn trivial_lsb() {
    let mut w0 = vec![0i8; 8];
    let mut w1 = vec![0i8; 8];
    w0[0] = -1;
    w1[0] = 127;
    let dgp = LinearU8Dgp { n_inputs: 1, w0, w1 };
    for x in 0..=255u8 {
        assert_eq!(dgp.eval(&[x]), x & 1 != 0);
    }
}

#[test]
fn binary_weights_are_zero_or_one() {
    let mut rng = ChaCha8Rng::seed_from_u64(5);
    let dgp = LinearU8Dgp::random_with_mode(&mut rng, 2, WeightMode::Binary);
    for &w in dgp.w0.iter().chain(dgp.w1.iter()) {
        assert!(w == 0 || w == 1);
    }
}

#[test]
fn recovers_full_train() {
    let mut rng = ChaCha8Rng::seed_from_u64(42);
    let dgp = LinearU8Dgp::random(&mut rng, 1);
    let xs: Vec<u8> = (0..=255).collect();
    let ys: Vec<bool> = xs.iter().map(|&x| dgp.eval(&[x])).collect();
    let mut learner = U8LinearLearner::new(1);
    learner.fit(&xs, &ys, 50);
    assert!(accuracy(learner.error_count(&xs, &ys), ys.len()) >= 0.99);
}

#[test]
fn generalizes_on_holdout() {
    let mut rng = ChaCha8Rng::seed_from_u64(7);
    let dgp = LinearU8Dgp::random(&mut rng, 1);
    let data = split(99, &dgp, 0.8);
    let mut learner = U8LinearLearner::new(1);
    learner.fit(&data.train_x, &data.train_y, 200);
    assert!(accuracy(learner.error_count(&data.test_x, &data.test_y), data.test_y.len()) > 0.85);
}

#[test]
fn no_update_on_correct() {
    let mut learner = U8LinearLearner::new(1);
    let (w0, w1) = learner.weights();
    let w0_before = w0.to_vec();
    let w1_before = w1.to_vec();
    learner.update_one(&[0], true);
    let (w0, w1) = learner.weights();
    assert_eq!(w0, &w0_before[..]);
    assert_eq!(w1, &w1_before[..]);
}

#[test]
fn stores_latest_per_bit_value() {
    let mut learner = U8MemLearner::new(1);
    learner.update_one(&[0b0000_0000], false);
    learner.update_one(&[0b0000_0001], true);
    let (w0, w1) = learner.weights();
    assert_eq!(w0[0] & 1, 0);
    assert_eq!(w1[0] & 1, 1);
}

#[test]
fn overwrite_replaces_cell() {
    let mut learner = U8MemLearner::new(1);
    learner.update_one(&[0], false);
    assert_eq!(learner.weights().0[0], 0);
    learner.update_one(&[0], true);
    assert_eq!(learner.weights().0[0], 0xFF);
}

#[test]
fn learner_mem_runs_on_random_dgp() {
    let mut rng = ChaCha8Rng::seed_from_u64(3);
    let dgp = LinearU8Dgp::random(&mut rng, 2);
    let data = split(11, &dgp, 0.8);
    let mut learner = U8MemLearner::new(2);
    learner.fit(&data.train_x, &data.train_y, 10);
    let acc = accuracy(learner.error_count(&data.test_x, &data.test_y), data.test_y.len());
    assert!(acc.is_finite());
}

#[test]
fn stores_target_on_one_not_on_zero() {
    let mut learner = U8SymLearner::new(1);
    learner.update_one(&[0b0000_0000], false);
    assert_eq!(learner.weights()[0], 0b1111_1111);
    learner.update_one(&[0b0000_0001], true);
    assert_eq!(learner.weights()[0], 0b0000_0001);
}

#[test]
fn overwrite_replaces_byte() {
    let mut learner = U8SymLearner::new(1);
    learner.update_one(&[0], false);
    assert_eq!(learner.weights()[0], 0xFF);
    learner.update_one(&[0], true);
    assert_eq!(learner.weights()[0], 0);
}

#[test]
fn predict_uses_symmetric_readout() {
    let mut learner = U8SymLearner::new(1);
    learner.update_one(&[0b0000_0001], true);
    assert!(learner.predict(&[0b0000_0001]));
}

#[test]
fn learner_sym_runs_on_random_dgp() {
    let mut rng = ChaCha8Rng::seed_from_u64(3);
    let dgp = LinearU8Dgp::random(&mut rng, 2);
    let data = split(11, &dgp, 0.8);
    let mut learner = U8SymLearner::new(2);
    learner.fit(&data.train_x, &data.train_y, 10);
    let acc = accuracy(learner.error_count(&data.test_x, &data.test_y), data.test_y.len());
    assert!(acc.is_finite());
}

#[test]
fn symmetric_byte_score_counts_matching_bits() {
    assert_eq!(score_byte_sym(0b1010_1010, 0b1010_1010), 8);
    assert_eq!(score_byte_sym(0b1111_0000, 0b0000_1111), 0);
    assert_eq!(count_ones_u8(0b1011_0001), 4);
}

#[test]
fn split_keeps_every_sample_once() {
    let mut rng = ChaCha8Rng::seed_from_u64(4);
    let dgp = LinearU8Dgp::random(&mut rng, 1);
    let data = U8Dataset::split_counted(5, &dgp, 200);
    assert_eq!(data.train_y.len(), 200);
    assert_eq!(data.train_y.len() + data.test_y.len(), 256);
    let mut seen: Vec<u8> = data.train_x.iter().chain(data.test_x.iter()).copied().collect();
    seen.sort_unstable();
    assert_eq!(seen, (0..=255).collect::<Vec<u8>>());
    for (x, y) in data.train_x.iter().zip(data.train_y.iter()) {
        assert_eq!(dgp.eval(&[*x]), *y);
    }
}

#[test]
fn split_by_order_takes_training_samples_first_in_the_given_order() {
    let w0 = vec![-1i8; 8];
    let w1 = vec![1i8; 8];
    let dgp = LinearU8Dgp { n_inputs: 1, w0, w1 };
    let pool = [10u8, 0xff, 0, 7];
    let order = [2usize, 0, 3, 1];
    let data = U8Dataset::split_by_order(&pool, 1, &dgp, &order, 1);
    assert_eq!(data.train_x, vec![0]);
    assert_eq!(data.test_x, vec![10, 7, 0xff]);
    assert_eq!(data.train_n, 1);
    for (k, x) in data.test_x.iter().enumerate() {
        assert_eq!(data.test_y[k], dgp.eval(&[*x]));
    }
    assert_eq!(data.train_y[0], dgp.eval(&[0]));
}
