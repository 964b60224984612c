//! The error taxonomy of the engine.
//!
//! Every public operation validates its preconditions synchronously and
//! returns one of these error values before any output buffer is allocated;
//! there is no partial-success state.  Each error can render itself as a
//! human-readable `String` through its `message` method.

use vstd::prelude::*;
use vstd::string::StringExecFns;

verus! {

/// A `rows x cols` dimension pair carried inside error values.
#[derive(Clone, Copy, Debug, PartialEq, Eq, Structural)]
pub struct Dims {
    pub rows: usize,
    pub cols: usize,
}

/// Errors raised by the two-dimensional `Matrix` family.
#[derive(Clone, Debug, PartialEq)]
pub enum MatrixError {
    InvalidMatrixDimension,
    InvalidRowDimension,
    InvalidColumnDimension,
    InvalidDimensions,
    IndexOutOfBounds { row: usize, col: usize, max_row: usize, max_col: usize },
    DimensionMismatch { expected: Dims, actual: Dims },
    IncompatibleDimensions { op: String, dim1: Dims, dim2: Dims },
    SingularMatrix,
    NotSquareMatrix { rows: usize, cols: usize },
    EmptyMatrix,
    DivisionByZero,
    InvalidOperation(String),
}

/// Errors raised by the rank-aware `Tensor` family.
#[derive(Clone, Debug, PartialEq)]
pub enum TensorError {
    ShapeMismatch(String),
    DimensionError(String),
    IndexOutOfBounds(String),
    InvalidOperation(String),
    MatrixMultiplicationError(String),
}

/// Errors raised by a network layered on top of the engine.  Only the
/// taxonomy lives here; the layered network itself is an outside collaborator
/// of the engine.
#[derive(Clone, Debug)]
pub enum NeuralNetworkError {
    InvalidArchitecture(String),
    InvalidInputSize { expected: usize, actual: usize },
    InvalidOutputSize { expected: usize, actual: usize },
    MatrixError(MatrixError),
    InitializationError(String),
    ForwardPropagationError(String),
    InvalidActivationFunction,
    EmptyNetwork,
    LayerIndexOutOfBounds { index: usize, max: usize },
}

impl From<MatrixError> for NeuralNetworkError {
    fn from(error: MatrixError) -> (r: NeuralNetworkError) {
        NeuralNetworkError::MatrixError(error)
    }
}

impl vstd::std_specs::convert::FromSpecImpl<MatrixError> for NeuralNetworkError {
    open spec fn obeys_from_spec() -> bool {
        true
    }

    open spec fn from_spec(error: MatrixError) -> NeuralNetworkError {
        NeuralNetworkError::MatrixError(error)
    }
}

/// The decimal digits of `n`, least significant first.
fn decimal_digits(n: usize) -> (r: Vec<usize>)
    ensures
        r@.len() >= 1,
        forall|i: int| 0 <= i < r@.len() ==> #[trigger] r@[i] < 10,
{
    let mut digits: Vec<usize> = Vec::new();
    let mut rest: usize = n;
    digits.push(rest % 10);
    rest = rest / 10;
    while rest > 0
        invariant
            digits@.len() >= 1,
            forall|i: int| 0 <= i < digits@.len() ==> #[trigger] digits@[i] < 10,
        decreases rest,
    {
        digits.push(rest % 10);
        rest = rest / 10;
    }
    digits
}

/// One decimal digit as text.
fn digit_str(d: usize) -> &'static str
    requires
        d < 10,
{
    match d {
        0 => "0",
        1 => "1",
        2 => "2",
        3 => "3",
        4 => "4",
        5 => "5",
        6 => "6",
        7 => "7",
        8 => "8",
        _ => "9",
    }
}

/// Renders `n` in decimal.
pub fn decimal_string(n: usize) -> String {
    let digits = decimal_digits(n);
    let mut out = String::new();
    let mut i: usize = digits.len();
    while i > 0
        invariant
            i <= digits@.len(),
            forall|k: int| 0 <= k < digits@.len() ==> #[trigger] digits@[k] < 10,
        decreases i,
    {
        i = i - 1;
        out.append(digit_str(digits[i]));
    }
    out
}

/// Renders a `rows x cols` dimension pair.
fn dims_string(rows: usize, cols: usize) -> String {
    let mut out = decimal_string(rows);
    out.append("x");
    let c = decimal_string(cols);
    out.append(c.as_str());
    out
}

impl MatrixError {
    /// A human-readable description of the error.
    pub fn message(&self) -> String {
        match self {
            MatrixError::InvalidMatrixDimension => String::from_str("Invalid matrix dimensions"),
            MatrixError::InvalidRowDimension => String::from_str("Invalid row dimension"),
            MatrixError::InvalidColumnDimension => String::from_str("Invalid column dimension"),
            MatrixError::InvalidDimensions => String::from_str("Invalid dimensions provided"),
            MatrixError::IndexOutOfBounds { row, col, max_row, max_col } => {
                let mut out = String::from_str("Index (");
                let r = decimal_string(*row);
                out.append(r.as_str());
                out.append(", ");
                let c = decimal_string(*col);
                out.append(c.as_str());
                out.append(") out of bounds for matrix of size ");
                let d = dims_string(*max_row, *max_col);
                out.append(d.as_str());
                out
            }
            MatrixError::DimensionMismatch { expected, actual } => {
                let mut out = String::from_str("Dimension mismatch: expected ");
                let e = dims_string(expected.rows, expected.cols);
                out.append(e.as_str());
                out.append(", got ");
                let a = dims_string(actual.rows, actual.cols);
                out.append(a.as_str());
                out
            }
            MatrixError::IncompatibleDimensions { op, dim1, dim2 } => {
                let mut out = String::from_str("Incompatible dimensions for ");
                out.append(op.as_str());
                out.append(": ");
                let d1 = dims_string(dim1.rows, dim1.cols);
                out.append(d1.as_str());
                out.append(" and ");
                let d2 = dims_string(dim2.rows, dim2.cols);
                out.append(d2.as_str());
                out
            }
            MatrixError::SingularMatrix => {
                String::from_str("Matrix is singular (determinant is zero)")
            }
            MatrixError::NotSquareMatrix { rows, cols } => {
                let mut out = String::from_str("Operation requires square matrix, got ");
                let d = dims_string(*rows, *cols);
                out.append(d.as_str());
                out
            }
            MatrixError::EmptyMatrix => String::from_str("Matrix is empty"),
            MatrixError::DivisionByZero => String::from_str("Division by zero"),
            MatrixError::InvalidOperation(msg) => {
                let mut out = String::from_str("Invalid operation: ");
                out.append(msg.as_str());
                out
            }
        }
    }
}

impl TensorError {
    /// A human-readable description of the error.
    pub fn message(&self) -> String {
        match self {
            TensorError::ShapeMismatch(msg) => {
                let mut out = String::from_str("Shape mismatch: ");
                out.append(msg.as_str());
                out
            }
            TensorError::DimensionError(msg) => {
                let mut out = String::from_str("Dimension error: ");
                out.append(msg.as_str());
                out
            }
            TensorError::IndexOutOfBounds(msg) => {
                let mut out = String::from_str("Index out of bounds: ");
                out.append(msg.as_str());
                out
            }
            TensorError::InvalidOperation(msg) => {
                let mut out = String::from_str("Invalid operation: ");
                out.append(msg.as_str());
                out
            }
            TensorError::MatrixMultiplicationError(msg) => {
                let mut out = String::from_str("Matrix multiplication error: ");
                out.append(msg.as_str());
                out
            }
        }
    }
}

impl NeuralNetworkError {
    /// A human-readable description of the error.
    pub fn message(&self) -> String {
        match self {
            NeuralNetworkError::InvalidArchitecture(msg) => {
                let mut out = String::from_str("Invalid neural network architecture: ");
                out.append(msg.as_str());
                out
            }
            NeuralNetworkError::InvalidInputSize { expected, actual } => {
                let mut out = String::from_str("Invalid input size: expected ");
                let e = decimal_string(*expected);
                out.append(e.as_str());
                out.append(", got ");
                let a = decimal_string(*actual);
                out.append(a.as_str());
                out
            }
            NeuralNetworkError::InvalidOutputSize { expected, actual } => {
                let mut out = String::from_str("Invalid output size: expected ");
                let e = decimal_string(*expected);
                out.append(e.as_str());
                out.append(", got ");
                let a = decimal_string(*actual);
                out.append(a.as_str());
                out
            }
            NeuralNetworkError::MatrixError(err) => {
                let mut out = String::from_str("Matrix operation error: ");
                let m = err.message();
                out.append(m.as_str());
                out
            }
            NeuralNetworkError::InitializationError(msg) => {
                let mut out = String::from_str("Network initialization error: ");
                out.append(msg.as_str());
                out
            }
            NeuralNetworkError::ForwardPropagationError(msg) => {
                let mut out = String::from_str("Forward propagation error: ");
                out.append(msg.as_str());
                out
            }
            NeuralNetworkError::InvalidActivationFunction => {
                String::from_str("Invalid activation function")
            }
            NeuralNetworkError::EmptyNetwork => String::from_str("Neural network is empty"),
            NeuralNetworkError::LayerIndexOutOfBounds { index, max } => {
                let mut out = String::from_str("Layer index ");
                let i = decimal_string(*index);
                out.append(i.as_str());
                out.append(" out of bounds (max: ");
                let m = decimal_string(*max);
                out.append(m.as_str());
                out.append(")");
                out
            }
        }
    }
}

pub type MatrixResult<T> = Result<T, MatrixError>;

pub type TensorResult<T> = Result<T, TensorError>;

pub type NeuralNetworkResult<T> = Result<T, NeuralNetworkError>;

} // verus!
