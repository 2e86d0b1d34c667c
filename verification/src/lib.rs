//! Online learning over streams of binary features: verified building blocks.

pub mod association;
pub mod boolean_circuit;
pub mod binary_truth_table;
pub mod batch;
pub mod bits64;
pub mod conjunction_build_common;
pub mod seq_perm;
pub mod conjunction_expert;
pub mod workspace;
pub mod conjunction_spec;
pub mod conjunction_builder;
pub mod function_graph;
pub mod feature_store;
pub mod feature_learning;
pub mod function_build_common;
pub mod function_workspace;
pub mod function_compact;
pub mod function_builder;
pub mod ensemble;
pub mod classifier;
pub mod regressor;
pub mod circuit_exp;

pub use association::association_score;
pub use batch::SignBatch;
pub use classifier::BClassifierError;
pub use conjunction_build_common::{
    derive_conjunction_capacity, ConjunctionBuildConfig, ConjunctionBuildError, ConjunctionKey,
    DEFAULT_MAX_CONJUNCTION_LENGTH, DEFAULT_MAX_EXPERTS, DEFAULT_STALE_LAYERS, MAX_BATCH_SIZE,
};
pub use conjunction_builder::{ConjunctionBuildSession, ConjunctionBuilder};
pub use conjunction_expert::ConjunctionExpert;
pub use regressor::BRegressorError;
