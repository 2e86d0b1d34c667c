//! Batch learning of byte-input linear threshold functions.

pub mod bits;
pub mod dgp;
pub mod learner;
pub mod learner_mem;
pub mod learner_sym;
pub mod dataset;
pub mod metrics;
