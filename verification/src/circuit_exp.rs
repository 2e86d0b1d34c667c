//! Streaming boolean circuit learning: gates, circuits, learners and the
//! linear byte-scoring experiments.

pub mod rng;
pub mod gate;
pub mod gate_wire;
pub mod circuit;
pub mod dgp;
pub mod learner;
pub mod learner_wire;
pub mod metrics;
pub mod diag_wire;
pub mod u8_linear;
