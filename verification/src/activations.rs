//! Activation functions that are exact over integer matrices.
//!
//! A layered network applies these cell by cell to a matrix of
//! pre-activations.  Only the activations whose values are themselves exact
//! integers live here: the rectifier and the identity.

use vstd::prelude::*;
use crate::errors::MatrixResult;
use crate::matrix::Matrix;

verus! {

/// The rectified linear unit: `max(0, x)` cell by cell.
pub struct ReLU;

impl ReLU {
    /// Applies the rectifier to every cell.
    pub fn activate(&self, input: &Matrix) -> (r: MatrixResult<Matrix>)
        requires
            input.wf(),
        ensures
            r matches Ok(m) && m.wf() && m.nrows() == input.nrows() && m.ncols() == input.ncols()
                && m.spec_concurrent() == input.spec_concurrent() && forall|i: int, j: int|
                0 <= i < input.nrows() && 0 <= j < input.ncols() ==> m.at(i, j) == (if input.at(i,
                j) > 0 {
                input.at(i, j)
            } else {
                0int
            }),
    {
        map_cells(input, true, 0)
    }

    /// The rectifier's derivative: one where the input is positive, zero
    /// elsewhere.
    pub fn derivative(&self, input: &Matrix) -> (r: MatrixResult<Matrix>)
        requires
            input.wf(),
        ensures
            r matches Ok(m) && m.wf() && m.nrows() == input.nrows() && m.ncols() == input.ncols()
                && m.spec_concurrent() == input.spec_concurrent() && forall|i: int, j: int|
                0 <= i < input.nrows() && 0 <= j < input.ncols() ==> m.at(i, j) == (if input.at(i,
                j) > 0 {
                1int
            } else {
                0int
            }),
    {
        map_cells(input, false, 0)
    }

    /// The activation's name.
    pub fn name(&self) -> (r: &'static str)
        ensures
            r@ == "relu"@,
    {
        "relu"
    }
}

/// The identity activation.
pub struct Linear;

impl Linear {
    /// Returns the input unchanged (as a fresh value).
    pub fn activate(&self, input: &Matrix) -> (r: MatrixResult<Matrix>)
        requires
            input.wf(),
        ensures
            r matches Ok(m) && m.wf() && m.nrows() == input.nrows() && m.ncols() == input.ncols()
                && m.spec_concurrent() == input.spec_concurrent() && forall|i: int, j: int|
                0 <= i < input.nrows() && 0 <= j < input.ncols() ==> m.at(i, j) == input.at(i, j),
    {
        map_cells(input, true, 1)
    }

    /// The identity's derivative: one everywhere.
    pub fn derivative(&self, input: &Matrix) -> (r: MatrixResult<Matrix>)
        requires
            input.wf(),
        ensures
            r matches Ok(m) && m.wf() && m.nrows() == input.nrows() && m.ncols() == input.ncols()
                && m.spec_concurrent() == input.spec_concurrent() && forall|i: int, j: int|
                0 <= i < input.nrows() && 0 <= j < input.ncols() ==> m.at(i, j) == 1,
    {
        map_cells(input, false, 1)
    }

    /// The activation's name.
    pub fn name(&self) -> (r: &'static str)
        ensures
            r@ == "linear"@,
    {
        "linear"
    }
}

/// The value an activation assigns to one cell.
pub open spec fn cell_value(x: int, forward: bool, kind: u8) -> int {
    if kind == 0 {
        if forward {
            if x > 0 {
                x
            } else {
                0
            }
        } else {
            if x > 0 {
                1
            } else {
                0
            }
        }
    } else {
        if forward {
            x
        } else {
            1
        }
    }
}

/// Applies an activation (`kind` 0: rectifier, otherwise identity) or its
/// derivative (`forward` false) to every cell of `input`.
fn map_cells(input: &Matrix, forward: bool, kind: u8) -> (r: MatrixResult<Matrix>)
    requires
        input.wf(),
    ensures
        r matches Ok(m) && m.wf() && m.nrows() == input.nrows() && m.ncols() == input.ncols()
            && m.spec_concurrent() == input.spec_concurrent() && forall|i: int, j: int|
            0 <= i < input.nrows() && 0 <= j < input.ncols() ==> m.at(i, j) == cell_value(
                input.at(i, j), forward, kind),
{
    let (rows, cols) = input.dimensions();
    proof {
        input.lemma_size_bound();
    }
    let mut m = match Matrix::new(rows, cols) {
        Ok(v) => v,
        Err(e) => {
            proof {
                assert(false);
            }
            return Err(e);
        }
    };
    let ghost m0 = m;
    m.set_concurrent(input.is_concurrent());
    proof {
        assert forall|a: int, b: int|
            0 <= a < rows && 0 <= b < cols implies m.at(a, b) == 0 by {
            assert(m0.at(a, b) == 0);
        }
    }
    let mut i: usize = 0;
    while i < rows
        invariant
            0 <= i <= rows,
            rows == input.nrows(),
            cols == input.ncols(),
            input.wf(),
            m.wf(),
            m.nrows() == rows,
            m.ncols() == cols,
            m.spec_concurrent() == input.spec_concurrent(),
            forall|a: int, b: int|
                0 <= a < rows && 0 <= b < cols && a < i ==> m.at(a, b) == cell_value(input.at(a,
                    b), forward, kind),
            forall|a: int, b: int|
                0 <= a < rows && 0 <= b < cols && a >= i ==> m.at(a, b) == 0,
        decreases rows - i,
    {
        let mut j: usize = 0;
        while j < cols
            invariant
                0 <= j <= cols,
                0 <= i < rows,
                rows == input.nrows(),
                cols == input.ncols(),
                input.wf(),
                m.wf(),
                m.nrows() == rows,
                m.ncols() == cols,
                m.spec_concurrent() == input.spec_concurrent(),
                forall|a: int, b: int|
                    0 <= a < rows && 0 <= b < cols && (a < i || (a == i && b < j)) ==> m.at(a, b)
                        == cell_value(input.at(a, b), forward, kind),
                forall|a: int, b: int|
                    0 <= a < rows && 0 <= b < cols && (a > i || (a == i && b >= j)) ==> m.at(a, b)
                        == 0,
            decreases cols - j,
        {
            let x = match input.get(i, j) {
                Ok(v) => v,
                Err(e) => {
                    proof {
                        assert(false);
                    }
                    return Err(e);
                }
            };
            let v: i64 = if kind == 0 {
                if forward {
                    if x > 0 {
                        x
                    } else {
                        0
                    }
                } else {
                    if x > 0 {
                        1
                    } else {
                        0
                    }
                }
            } else {
                if forward {
                    x
                } else {
                    1
                }
            };
            match m.set(i, j, v) {
                Ok(_) => (),
                Err(e) => {
                    proof {
                        assert(false);
                    }
                    return Err(e);
                }
            };
            j = j + 1;
        }
        i = i + 1;
    }
    Ok(m)
}

} // verus!
