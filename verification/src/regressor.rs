//! Errors of the online regressor built on the ensemble.

use vstd::prelude::*;
use crate::ensemble::EnsembleError;

verus! {

#[derive(Debug, Clone, Copy, PartialEq, Eq, Structural)]
pub enum BRegressorError {
    InvalidConfig,
    InvalidInput,
    NonFiniteTarget,
    PendingPrediction,
    NoPendingPrediction,
    Build,
    Compact,
}

impl From<EnsembleError> for BRegressorError {
    fn from(error: EnsembleError) -> (r: Self) {
        match error {
            EnsembleError::InvalidConfig => BRegressorError::InvalidConfig,
            EnsembleError::InvalidInput => BRegressorError::InvalidInput,
            EnsembleError::PendingPrediction => BRegressorError::PendingPrediction,
            EnsembleError::NoPendingPrediction => BRegressorError::NoPendingPrediction,
            EnsembleError::Build => BRegressorError::Build,
            EnsembleError::Compact => BRegressorError::Compact,
        }
    }
}

impl vstd::std_specs::convert::FromSpecImpl<EnsembleError> for BRegressorError {
    open spec fn obeys_from_spec() -> bool {
        true
    }

    open spec fn from_spec(error: EnsembleError) -> Self {
        match error {
            EnsembleError::InvalidConfig => BRegressorError::InvalidConfig,
            EnsembleError::InvalidInput => BRegressorError::InvalidInput,
            EnsembleError::PendingPrediction => BRegressorError::PendingPrediction,
            EnsembleError::NoPendingPrediction => BRegressorError::NoPendingPrediction,
            EnsembleError::Build => BRegressorError::Build,
            EnsembleError::Compact => BRegressorError::Compact,
        }
    }
}

} // verus!
