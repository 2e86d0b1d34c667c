//! Names and sizes shared by the byte-input experiments.

use vstd::prelude::*;
use crate::circuit_exp::u8_linear::dgp::{pool_size, sample_pool_size};

verus! {

#[derive(Debug, Clone, Copy, PartialEq, Eq, Structural)]
pub enum U8Variant {
    Perceptron,
    Mem,
    Sym,
}

impl U8Variant {
    pub fn as_str(self) -> (r: &'static str)
        ensures
            r@ == match self {
                U8Variant::Perceptron => "perceptron"@,
                U8Variant::Mem => "mem"@,
                U8Variant::Sym => "sym"@,
            },
    {
        match self {
            U8Variant::Perceptron => "perceptron",
            U8Variant::Mem => "mem",
            U8Variant::Sym => "sym",
        }
    }
}

/// Fit and predict durations of one run, in nanoseconds.
#[derive(Debug, Clone, Copy, Default)]
pub struct U8Timings {
    pub fit_ns: u64,
    pub predict_ns: u64,
}

pub fn pool_size_for(n_inputs: usize) -> (r: usize)
    requires
        n_inputs < 16,
    ensures
        r == pool_size(n_inputs as nat),
{
    sample_pool_size(n_inputs)
}

} // verus!
