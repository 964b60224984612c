//! A dense numeric array library with interchangeable execution strategies.
//!
//! The engine offers two array families: a rank-aware [`Tensor`] and a
//! two-dimensional [`Matrix`], both storing their elements in a flat,
//! row-major buffer.  Every arithmetic entry point takes an execution
//! strategy and all strategies are proved to compute the same result.

use vstd::prelude::*;

pub mod activations;
pub mod det;
pub mod errors;
pub mod matrix;
pub mod model;
pub mod parallel;
pub mod partition;
pub mod simd;
pub mod tensor;

verus! {

/// The execution strategy threaded through every arithmetic entry point.
///
/// All four strategies are observationally equivalent: each operation's
/// contract pins the result down independently of the chosen mode.
#[derive(Debug, Clone, Copy, PartialEq, Eq, Structural)]
pub enum ExecutionMode {
    Sequential,
    Parallel,
    SIMD,
    ParallelSIMD,
}

impl ExecutionMode {
    /// The strategy's name, as it is shown to a user.
    pub fn name(&self) -> (r: &'static str)
        ensures
            self is Sequential ==> r@ == "Sequential"@,
            self is Parallel ==> r@ == "Parallel"@,
            self is SIMD ==> r@ == "SIMD"@,
            self is ParallelSIMD ==> r@ == "ParallelSIMD"@,
    {
        match self {
            ExecutionMode::Sequential => "Sequential",
            ExecutionMode::Parallel => "Parallel",
            ExecutionMode::SIMD => "SIMD",
            ExecutionMode::ParallelSIMD => "ParallelSIMD",
        }
    }
}

} // verus!

pub use activations::{Linear, ReLU};
pub use errors::{Dims, MatrixError, MatrixResult, NeuralNetworkError, NeuralNetworkResult,
    TensorError, TensorResult};
pub use matrix::Matrix;
pub use tensor::Tensor;
