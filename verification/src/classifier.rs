//! Errors of the online multiclass classifier built on the ensemble.

use vstd::prelude::*;
use crate::ensemble::EnsembleError;

verus! {

#[derive(Debug, Clone, Copy, PartialEq, Eq, Structural)]
pub enum BClassifierError {
    InvalidConfig,
    InvalidInput,
    InvalidTarget,
    PendingPrediction,
    NoPendingPrediction,
    Build,
    Compact,
}

impl From<EnsembleError> for BClassifierError {
    fn from(error: EnsembleError) -> (r: Self) {
        match error {
            EnsembleError::InvalidConfig => BClassifierError::InvalidConfig,
            EnsembleError::InvalidInput => BClassifierError::InvalidInput,
            EnsembleError::PendingPrediction => BClassifierError::PendingPrediction,
            EnsembleError::NoPendingPrediction => BClassifierError::NoPendingPrediction,
            EnsembleError::Build => BClassifierError::Build,
            EnsembleError::Compact => BClassifierError::Compact,
        }
    }
}

impl vstd::std_specs::convert::FromSpecImpl<EnsembleError> for BClassifierError {
    open spec fn obeys_from_spec() -> bool {
        true
    }

    open spec fn from_spec(error: EnsembleError) -> Self {
        match error {
            EnsembleError::InvalidConfig => BClassifierError::InvalidConfig,
            EnsembleError::InvalidInput => BClassifierError::InvalidInput,
            EnsembleError::PendingPrediction => BClassifierError::PendingPrediction,
            EnsembleError::NoPendingPrediction => BClassifierError::NoPendingPrediction,
            EnsembleError::Build => BClassifierError::Build,
            EnsembleError::Compact => BClassifierError::Compact,
        }
    }
}

} // verus!
