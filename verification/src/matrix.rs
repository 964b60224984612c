//! The two-dimensional matrix family of the engine.
//!
//! A `Matrix` owns a flat, row-major buffer of `i64` elements together with
//! its `(rows, cols)` shape and a "prefer-parallel" default flag.  Every
//! operation validates its operands first, allocates a brand-new result and
//! fully populates it before returning; partially written buffers are never
//! observable.  Parallel strategies run the same verified per-block code as
//! the sequential path, so both compute the same result.

use vstd::prelude::*;
use vstd::pervasive::VecAdditionalExecFns;
use vstd::string::StringExecFns;
use crate::det;
use crate::errors::{Dims, MatrixError, MatrixResult};
use crate::model;
use crate::parallel;
use crate::partition;

verus! {

broadcast use vstd::std_specs::vec::axiom_spec_len;

/// Row-major flat position of cell `(i, j)` in a `rows x cols` buffer.
pub proof fn lemma_flat_index(rows: int, cols: int, i: int, j: int)
    by (nonlinear_arith)
    requires
        0 <= i < rows,
        0 <= j < cols,
    ensures
        0 <= i * cols + j < rows * cols,
{
}

/// Distinct cells have distinct flat positions.
pub proof fn lemma_flat_index_injective(cols: int, i1: int, j1: int, i2: int, j2: int)
    by (nonlinear_arith)
    requires
        0 <= j1 < cols,
        0 <= j2 < cols,
        0 <= i1,
        0 <= i2,
        (i1, j1) != (i2, j2),
    ensures
        i1 * cols + j1 != i2 * cols + j2,
{
}

/// A dense two-dimensional array of `i64` elements.
#[derive(Debug, Clone)]
pub struct Matrix {
    rows: usize,
    cols: usize,
    mat: Vec<i64>,
    concurrent: bool,
}

impl Matrix {
    /// The number of rows, as a mathematical integer.
    pub closed spec fn nrows(&self) -> int {
        self.rows as int
    }

    /// The number of columns, as a mathematical integer.
    pub closed spec fn ncols(&self) -> int {
        self.cols as int
    }

    /// The flat row-major buffer, as a sequence of mathematical integers.
    pub closed spec fn flat(&self) -> Seq<int> {
        self.mat@.map_values(|x: i64| x as int)
    }

    /// The stored "prefer-parallel" default.
    pub closed spec fn spec_concurrent(&self) -> bool {
        self.concurrent
    }

    /// The invariant of every live matrix: at least one row and one column,
    /// and a buffer of exactly `rows * cols` elements.
    pub open spec fn wf(&self) -> bool {
        &&& self.nrows() >= 1
        &&& self.ncols() >= 1
        &&& self.flat().len() == self.nrows() * self.ncols()
    }

    /// The element at row `i`, column `j`.
    pub open spec fn at(&self, i: int, j: int) -> int {
        self.flat()[i * self.ncols() + j]
    }

    /// Row `i` as a sequence.
    pub open spec fn row_seq(&self, i: int) -> Seq<int> {
        Seq::new(self.ncols() as nat, |j: int| self.at(i, j))
    }

    /// Column `j` as a sequence.
    pub open spec fn col_seq(&self, j: int) -> Seq<int> {
        Seq::new(self.nrows() as nat, |i: int| self.at(i, j))
    }

    /// The matrix as a grid of rows.
    pub open spec fn grid(&self) -> Seq<Seq<int>> {
        Seq::new(self.nrows() as nat, |i: int| self.row_seq(i))
    }

    /// The main diagonal as a sequence.
    pub open spec fn diag_seq(&self) -> Seq<int> {
        Seq::new(self.nrows() as nat, |i: int| self.at(i, i))
    }

    /// Both operands have the same shape.
    pub open spec fn same_shape(&self, other: &Matrix) -> bool {
        self.nrows() == other.nrows() && self.ncols() == other.ncols()
    }

    /// A live matrix's cell count fits in the machine's address space.
    pub proof fn lemma_size_bound(&self)
        requires
            self.wf(),
        ensures
            self.nrows() * self.ncols() <= usize::MAX,
    {
        assert(self.mat.len() <= usize::MAX);
    }

    /// Creates a zero-filled `rows x cols` matrix with the parallel default.
    pub fn new(rows: usize, cols: usize) -> (r: MatrixResult<Matrix>)
        requires
            rows * cols <= usize::MAX,
        ensures
            rows == 0 || cols == 0 ==> r == MatrixResult::<Matrix>::Err(MatrixError::InvalidDimensions),
            rows > 0 && cols > 0 ==> (r matches Ok(m) && m.wf() && m.nrows() == rows && m.ncols() == cols
                && m.spec_concurrent() && forall|i: int, j: int|
                0 <= i < rows && 0 <= j < cols ==> m.at(i, j) == 0),
    {
        if rows == 0 || cols == 0 {
            return Err(MatrixError::InvalidDimensions);
        }
        let m = Matrix { rows, cols, mat: alloc_zeroed(rows, cols), concurrent: true };
        proof {
            assert forall|i: int, j: int| 0 <= i < rows && 0 <= j < cols implies m.at(i, j) == 0 by {
                lemma_flat_index(rows as int, cols as int, i, j);
            }
        }
        Ok(m)
    }

    /// Creates a zero-filled `rows x cols` matrix with the sequential default.
    pub fn new_sequential(rows: usize, cols: usize) -> (r: MatrixResult<Matrix>)
        requires
            rows * cols <= usize::MAX,
        ensures
            rows == 0 || cols == 0 ==> r == MatrixResult::<Matrix>::Err(MatrixError::InvalidDimensions),
            rows > 0 && cols > 0 ==> (r matches Ok(m) && m.wf() && m.nrows() == rows && m.ncols() == cols
                && !m.spec_concurrent() && forall|i: int, j: int|
                0 <= i < rows && 0 <= j < cols ==> m.at(i, j) == 0),
    {
        if rows == 0 || cols == 0 {
            return Err(MatrixError::InvalidDimensions);
        }
        let m = Matrix { rows, cols, mat: alloc_zeroed(rows, cols), concurrent: false };
        proof {
            assert forall|i: int, j: int| 0 <= i < rows && 0 <= j < cols implies m.at(i, j) == 0 by {
                lemma_flat_index(rows as int, cols as int, i, j);
            }
        }
        Ok(m)
    }

    /// Wraps a flat row-major buffer as a `rows x cols` matrix with the
    /// parallel default.
    pub fn from_vec(rows: usize, cols: usize, data: Vec<i64>) -> (r: MatrixResult<Matrix>)
        ensures
            rows == 0 || cols == 0 ==> r == MatrixResult::<Matrix>::Err(MatrixError::InvalidDimensions),
            rows > 0 && cols > 0 && data@.len() != rows * cols ==> (r matches Err(e)
                && e matches MatrixError::DimensionMismatch { expected, actual }
                && expected == (Dims { rows, cols }) && actual.rows == data@.len() as int / (cols as int)
                && actual.cols == data@.len() as int % (cols as int)),
            rows > 0 && cols > 0 && data@.len() == rows * cols ==> (r matches Ok(m) && m.wf()
                && m.nrows() == rows && m.ncols() == cols && m.spec_concurrent()
                && forall|i: int, j: int| 0 <= i < rows && 0 <= j < cols
                ==> m.at(i, j) == data@[i * cols + j] as int),
    {
        Self::from_vec_with_default(rows, cols, data, true)
    }

    /// Wraps a flat row-major buffer as a `rows x cols` matrix with the
    /// sequential default.
    pub fn from_vec_sequential(rows: usize, cols: usize, data: Vec<i64>) -> (r: MatrixResult<Matrix>)
        ensures
            rows == 0 || cols == 0 ==> r == MatrixResult::<Matrix>::Err(MatrixError::InvalidDimensions),
            rows > 0 && cols > 0 && data@.len() != rows * cols ==> (r matches Err(e)
                && e matches MatrixError::DimensionMismatch { expected, actual }
                && expected == (Dims { rows, cols }) && actual.rows == data@.len() as int / (cols as int)
                && actual.cols == data@.len() as int % (cols as int)),
            rows > 0 && cols > 0 && data@.len() == rows * cols ==> (r matches Ok(m) && m.wf()
                && m.nrows() == rows && m.ncols() == cols && !m.spec_concurrent()
                && forall|i: int, j: int| 0 <= i < rows && 0 <= j < cols
                ==> m.at(i, j) == data@[i * cols + j] as int),
    {
        Self::from_vec_with_default(rows, cols, data, false)
    }

    /// Shared body of the two `from_vec` constructors.
    fn from_vec_with_default(rows: usize, cols: usize, data: Vec<i64>, concurrent: bool) -> (r:
        MatrixResult<Matrix>)
        ensures
            rows == 0 || cols == 0 ==> r == MatrixResult::<Matrix>::Err(MatrixError::InvalidDimensions),
            rows > 0 && cols > 0 && data@.len() != rows * cols ==> (r matches Err(e)
                && e matches MatrixError::DimensionMismatch { expected, actual }
                && expected == (Dims { rows, cols }) && actual.rows == data@.len() as int / (cols as int)
                && actual.cols == data@.len() as int % (cols as int)),
            rows > 0 && cols > 0 && data@.len() == rows * cols ==> (r matches Ok(m) && m.wf()
                && m.nrows() == rows && m.ncols() == cols && m.spec_concurrent() == concurrent
                && forall|i: int, j: int| 0 <= i < rows && 0 <= j < cols
                ==> m.at(i, j) == data@[i * cols + j] as int),
    {
        if rows == 0 || cols == 0 {
            return Err(MatrixError::InvalidDimensions);
        }
        let fits = match rows.checked_mul(cols) {
            Some(p) => p == data.len(),
            None => false,
        };
        if !fits {
            return Err(MatrixError::DimensionMismatch {
                expected: Dims { rows, cols },
                actual: Dims { rows: data.len() / cols, cols: data.len() % cols },
            });
        }
        let m = Matrix { rows, cols, mat: data, concurrent };
        proof {
            assert forall|i: int, j: int| 0 <= i < rows && 0 <= j < cols implies m.at(i, j)
                == data@[i * cols + j] as int by {
                lemma_flat_index(rows as int, cols as int, i, j);
            }
        }
        Ok(m)
    }

    /// The `size x size` identity matrix.
    pub fn identity(size: usize) -> (r: MatrixResult<Matrix>)
        requires
            size * size <= usize::MAX,
        ensures
            size == 0 ==> r == MatrixResult::<Matrix>::Err(MatrixError::InvalidDimensions),
            size > 0 ==> (r matches Ok(m) && m.wf() && m.nrows() == size && m.ncols() == size
                && m.spec_concurrent() && forall|i: int, j: int| 0 <= i < size && 0 <= j < size
                ==> m.at(i, j) == (if i == j { 1int } else { 0int })),
    {
        let mut m = Self::new(size, size)?;
        let mut i: usize = 0;
        while i < size
            invariant
                i <= size,
                m.wf(),
                m.nrows() == size,
                m.ncols() == size,
                m.spec_concurrent(),
                forall|a: int, b: int| 0 <= a < size && 0 <= b < size
                    ==> m.at(a, b) == (if a == b && a < i { 1int } else { 0int }),
            decreases size - i,
        {
            m.set_cell(i, i, 1);
            i = i + 1;
        }
        Ok(m)
    }

    /// A zero-filled matrix; `new` under its conventional name.
    pub fn zeros(rows: usize, cols: usize) -> (r: MatrixResult<Matrix>)
        requires
            rows * cols <= usize::MAX,
        ensures
            rows == 0 || cols == 0 ==> r == MatrixResult::<Matrix>::Err(MatrixError::InvalidDimensions),
            rows > 0 && cols > 0 ==> (r matches Ok(m) && m.wf() && m.nrows() == rows && m.ncols() == cols
                && m.spec_concurrent() && forall|i: int, j: int|
                0 <= i < rows && 0 <= j < cols ==> m.at(i, j) == 0),
    {
        Self::new(rows, cols)
    }

    /// A matrix filled with ones.
    pub fn ones(rows: usize, cols: usize) -> (r: MatrixResult<Matrix>)
        requires
            rows * cols <= usize::MAX,
        ensures
            rows == 0 || cols == 0 ==> r == MatrixResult::<Matrix>::Err(MatrixError::InvalidDimensions),
            rows > 0 && cols > 0 ==> (r matches Ok(m) && m.wf() && m.nrows() == rows && m.ncols() == cols
                && m.spec_concurrent() && forall|i: int, j: int|
                0 <= i < rows && 0 <= j < cols ==> m.at(i, j) == 1),
    {
        if rows == 0 || cols == 0 {
            return Err(MatrixError::InvalidDimensions);
        }
        let buf: Vec<i64> = vec![1i64; rows * cols];
        let m = Matrix { rows, cols, mat: buf, concurrent: true };
        proof {
            assert forall|i: int, j: int| 0 <= i < rows && 0 <= j < cols implies m.at(i, j) == 1 by {
                lemma_flat_index(rows as int, cols as int, i, j);
            }
        }
        Ok(m)
    }

    /// Overrides the stored strategy default.
    pub fn set_concurrent(&mut self, concurrent: bool)
        ensures
            final(self).spec_concurrent() == concurrent,
            final(self).nrows() == old(self).nrows(),
            final(self).ncols() == old(self).ncols(),
            final(self).flat() == old(self).flat(),
            final(self).wf() == old(self).wf(),
    {
        self.concurrent = concurrent;
    }

    /// Reads the stored strategy default.
    pub fn is_concurrent(&self) -> (r: bool)
        ensures
            r == self.spec_concurrent(),
    {
        self.concurrent
    }

    /// The `(rows, cols)` shape.
    pub fn dimensions(&self) -> (r: (usize, usize))
        ensures
            r.0 == self.nrows(),
            r.1 == self.ncols(),
    {
        (self.rows, self.cols)
    }

    /// The number of rows.
    pub fn rows(&self) -> (r: usize)
        ensures
            r == self.nrows(),
    {
        self.rows
    }

    /// The number of columns.
    pub fn cols(&self) -> (r: usize)
        ensures
            r == self.ncols(),
    {
        self.cols
    }

    /// Whether the matrix is square.
    pub fn is_square(&self) -> (r: bool)
        ensures
            r == (self.nrows() == self.ncols()),
    {
        self.rows == self.cols
    }

    /// Whether either dimension is zero; false for every well-formed matrix.
    pub fn is_empty(&self) -> (r: bool)
        ensures
            r == (self.nrows() == 0 || self.ncols() == 0),
    {
        self.rows == 0 || self.cols == 0
    }

    /// Checks that `(row, col)` lies inside the matrix.
    fn check_bounds(&self, row: usize, col: usize) -> (r: MatrixResult<()>)
        ensures
            r is Ok <==> row < self.nrows() && col < self.ncols(),
            r is Err ==> r == MatrixResult::<()>::Err(MatrixError::IndexOutOfBounds {
                row,
                col,
                max_row: (self.nrows() as usize),
                max_col: (self.ncols() as usize),
            }),
    {
        if row >= self.rows || col >= self.cols {
            Err(MatrixError::IndexOutOfBounds { row, col, max_row: self.rows, max_col: self.cols })
        } else {
            Ok(())
        }
    }

    /// Bounds-checked element read.
    pub fn get(&self, row: usize, col: usize) -> (r: MatrixResult<i64>)
        requires
            self.wf(),
        ensures
            row < self.nrows() && col < self.ncols() ==> (r matches Ok(v) && v as int == self.at(
                row as int, col as int)),
            !(row < self.nrows() && col < self.ncols()) ==> r == MatrixResult::<i64>::Err(
                MatrixError::IndexOutOfBounds {
                    row,
                    col,
                    max_row: (self.nrows() as usize),
                    max_col: (self.ncols() as usize),
                }),
    {
        self.check_bounds(row, col)?;
        proof {
            assert(self.mat.len() <= usize::MAX);
            lemma_flat_index(self.nrows(), self.ncols(), row as int, col as int);
        }
        Ok(self.mat[row * self.cols + col])
    }

    /// Bounds-checked element write.  On an out-of-range index the matrix is
    /// left untouched and the error is returned; there is no aborting access
    /// path.
    pub fn set(&mut self, row: usize, col: usize, value: i64) -> (r: MatrixResult<()>)
        requires
            old(self).wf(),
        ensures
            final(self).wf(),
            final(self).nrows() == old(self).nrows(),
            final(self).ncols() == old(self).ncols(),
            final(self).spec_concurrent() == old(self).spec_concurrent(),
            row < old(self).nrows() && col < old(self).ncols() ==> (r is Ok && final(self).at(
                row as int, col as int) == value as int && forall|i: int, j: int|
                0 <= i < old(self).nrows() && 0 <= j < old(self).ncols() && (i, j) != (
                row as int, col as int) ==> final(self).at(i, j) == old(self).at(i, j)),
            !(row < old(self).nrows() && col < old(self).ncols()) ==> (*final(self) == *old(self)
                && r == MatrixResult::<()>::Err(MatrixError::IndexOutOfBounds {
                    row,
                    col,
                    max_row: (old(self).nrows() as usize),
                    max_col: (old(self).ncols() as usize),
                })),
    {
        self.check_bounds(row, col)?;
        self.set_cell(row, col, value);
        Ok(())
    }

    /// Unchecked-in-spec element write used by verified callers that have
    /// already established the bounds.
    fn set_cell(&mut self, row: usize, col: usize, value: i64)
        requires
            old(self).wf(),
            row < old(self).nrows(),
            col < old(self).ncols(),
        ensures
            final(self).wf(),
            final(self).nrows() == old(self).nrows(),
            final(self).ncols() == old(self).ncols(),
            final(self).spec_concurrent() == old(self).spec_concurrent(),
            final(self).at(row as int, col as int) == value as int,
            forall|i: int, j: int|
                0 <= i < old(self).nrows() && 0 <= j < old(self).ncols() && (i, j) != (
                row as int, col as int) ==> final(self).at(i, j) == old(self).at(i, j),
    {
        proof {
            assert(self.mat.len() <= usize::MAX);
            lemma_flat_index(self.nrows(), self.ncols(), row as int, col as int);
        }
        let idx = row * self.cols + col;
        self.mat.set(idx, value);
        proof {
            assert forall|i: int, j: int|
                0 <= i < old(self).nrows() && 0 <= j < old(self).ncols() && (i, j) != (
                row as int, col as int) implies final(self).at(i, j) == old(self).at(i, j) by {
                lemma_flat_index(old(self).nrows(), old(self).ncols(), i, j);
                lemma_flat_index_injective(old(self).ncols(), i, j, row as int, col as int);
            }
        }
    }

    /// Extracts row `row` as a fresh vector.
    pub fn row(&self, row: usize) -> (r: MatrixResult<Vec<i64>>)
        requires
            self.wf(),
        ensures
            row >= self.nrows() ==> r == MatrixResult::<Vec<i64>>::Err(MatrixError::InvalidRowDimension),
            row < self.nrows() ==> (r matches Ok(v) && v@.len() == self.ncols() && forall|j: int|
                0 <= j < self.ncols() ==> v@[j] as int == self.at(row as int, j)),
    {
        if row >= self.rows {
            return Err(MatrixError::InvalidRowDimension);
        }
        let mut v: Vec<i64> = Vec::new();
        let mut j: usize = 0;
        while j < self.cols
            invariant
                j <= self.ncols(),
                self.wf(),
                row < self.nrows(),
                v@.len() == j,
                forall|q: int| 0 <= q < j ==> v@[q] as int == self.at(row as int, q),
            decreases self.ncols() - j,
        {
            proof {
                assert(self.mat.len() <= usize::MAX);
                lemma_flat_index(self.nrows(), self.ncols(), row as int, j as int);
            }
            v.push(self.mat[row * self.cols + j]);
            j = j + 1;
        }
        Ok(v)
    }
}

/// Computes the block of `a + b` that the partition assigns to task `i`
/// of `t`: a single pass over its disjoint index range.
fn add_block(a: &Matrix, b: &Matrix, t: usize, i: usize) -> (out: Vec<i64>)
    requires
        1 <= t,
        i < t,
        a.wf(),
        b.wf(),
        a.same_shape(b),
        forall|k: int| 0 <= k < a.flat().len() ==> model::in_i64(a.flat()[k] + b.flat()[k]),
    ensures
        out@.len() == partition::task_hi(a.flat().len() as int, t as int, i as int)
            - partition::task_lo(a.flat().len() as int, t as int, i as int),
        forall|k: int|
            0 <= k < out@.len() ==> (#[trigger] out@[k]) as int == a.flat()[partition::task_lo(
                a.flat().len() as int, t as int, i as int) + k] + b.flat()[partition::task_lo(
                a.flat().len() as int, t as int, i as int) + k],
{
    let n = a.mat.len();
    let lo = partition::task_start(n, t, i);
    let hi = partition::task_end(n, t, i);
    let mut out: Vec<i64> = Vec::new();
    let mut k: usize = lo;
    while k < hi
        invariant
            lo <= k <= hi,
            hi <= n,
            n == a.flat().len(),
            n == b.flat().len(),
            a.wf(),
            b.wf(),
            lo == partition::task_lo(n as int, t as int, i as int),
            hi == partition::task_hi(n as int, t as int, i as int),
            forall|q: int| 0 <= q < a.flat().len() ==> model::in_i64(a.flat()[q] + b.flat()[q]),
            out@.len() == k - lo,
            forall|q: int|
                0 <= q < out@.len() ==> (#[trigger] out@[q]) as int == a.flat()[lo + q]
                    + b.flat()[lo + q],
        decreases hi - k,
    {
        proof {
            assert(a.flat()[k as int] == a.mat@[k as int] as int);
            assert(model::in_i64(a.flat()[k as int] + b.flat()[k as int]));
        }
        out.push(a.mat[k] + b.mat[k]);
        k = k + 1;
    }
    out
}

impl Matrix {
    /// Elementwise addition.  Operands must share a shape; the result takes
    /// the parallel default if either operand has it, and that choice never
    /// changes the computed values.
    pub fn add(&self, other: &Matrix) -> (r: MatrixResult<Matrix>)
        requires
            self.wf(),
            other.wf(),
            self.same_shape(other) ==> forall|k: int|
                0 <= k < self.flat().len() ==> model::in_i64(self.flat()[k] + other.flat()[k]),
        ensures
            !self.same_shape(other) ==> (r matches Err(e)
                && e matches MatrixError::IncompatibleDimensions { op, dim1, dim2 }
                && op@ == "addition"@ && dim1.rows == self.nrows() && dim1.cols == self.ncols()
                && dim2.rows == other.nrows() && dim2.cols == other.ncols()),
            self.same_shape(other) ==> (r matches Ok(m) && m.wf() && m.nrows() == self.nrows()
                && m.ncols() == self.ncols() && m.spec_concurrent() == (self.spec_concurrent()
                || other.spec_concurrent()) && forall|i: int, j: int|
                0 <= i < self.nrows() && 0 <= j < self.ncols() ==> m.at(i, j) == self.at(i, j)
                    + other.at(i, j)),
    {
        if self.rows != other.rows || self.cols != other.cols {
            return Err(MatrixError::IncompatibleDimensions {
                op: String::from_str("addition"),
                dim1: Dims { rows: self.rows, cols: self.cols },
                dim2: Dims { rows: other.rows, cols: other.cols },
            });
        }
        let conc = self.concurrent || other.concurrent;
        let n = self.mat.len();
        let ghost expected = Seq::new(n as nat, |k: int| self.flat()[k] + other.flat()[k]);
        let data = if conc {
            let t = parallel::cpu_count();
            let f = |i: usize| -> (out: Vec<i64>)
                requires
                    1 <= t,
                    i < t,
                    self.wf(),
                    other.wf(),
                    self.same_shape(other),
                    forall|k: int|
                        0 <= k < self.flat().len() ==> model::in_i64(self.flat()[k]
                            + other.flat()[k]),
                ensures
                    out@.len() == partition::task_hi(self.flat().len() as int, t as int, i as int)
                        - partition::task_lo(self.flat().len() as int, t as int, i as int),
                    forall|k: int|
                        0 <= k < out@.len() ==> (#[trigger] out@[k]) as int == self.flat()[
                            partition::task_lo(self.flat().len() as int, t as int, i as int) + k]
                            + other.flat()[partition::task_lo(self.flat().len() as int, t as int,
                            i as int) + k],
                { add_block(self, other, t, i) };
            let blocks = parallel::par_map(t, f);
            proof {
                assert forall|i: int, k: int|
                    0 <= i < t && 0 <= k < blocks@[i]@.len() implies (#[trigger] blocks@[i]@[k])
                    as int == expected[partition::task_lo(n as int, t as int, i) + k] by {
                    assert(call_ensures(f, (i as usize, ), blocks@[i]));
                    partition::lemma_task_range(n as int, t as int, i);
                }
            }
            parallel::concat_blocks(blocks, n, t, 1, Ghost(expected))
        } else {
            add_block(self, other, 1, 0)
        };
        let m = Matrix { rows: self.rows, cols: self.cols, mat: data, concurrent: conc };
        proof {
            assert forall|i: int, j: int|
                0 <= i < self.nrows() && 0 <= j < self.ncols() implies m.at(i, j) == self.at(i, j)
                + other.at(i, j) by {
                lemma_flat_index(self.nrows(), self.ncols(), i, j);
            }
        }
        Ok(m)
    }
}

/// Computes the block of `a - b` that the partition assigns to task `i`
/// of `t`: a single pass over its disjoint index range.
fn sub_block(a: &Matrix, b: &Matrix, t: usize, i: usize) -> (out: Vec<i64>)
    requires
        1 <= t,
        i < t,
        a.wf(),
        b.wf(),
        a.same_shape(b),
        forall|k: int| 0 <= k < a.flat().len() ==> model::in_i64(a.flat()[k] - b.flat()[k]),
    ensures
        out@.len() == partition::task_hi(a.flat().len() as int, t as int, i as int)
            - partition::task_lo(a.flat().len() as int, t as int, i as int),
        forall|k: int|
            0 <= k < out@.len() ==> (#[trigger] out@[k]) as int == a.flat()[partition::task_lo(a.flat().len() as int, t as int, i as int) + k] - b.flat()[partition::task_lo(a.flat().len() as int, t as int, i as int) + k],
{
    let n = a.mat.len();
    let lo = partition::task_start(n, t, i);
    let hi = partition::task_end(n, t, i);
    let mut out: Vec<i64> = Vec::new();
    let mut k: usize = lo;
    while k < hi
        invariant
            lo <= k <= hi,
            hi <= n,
            n == a.flat().len(),
            n == b.flat().len(),
            a.wf(),
            b.wf(),
            lo == partition::task_lo(n as int, t as int, i as int),
            hi == partition::task_hi(n as int, t as int, i as int),
            forall|q: int| 0 <= q < a.flat().len() ==> model::in_i64(a.flat()[q] - b.flat()[q]),
            out@.len() == k - lo,
            forall|q: int|
                0 <= q < out@.len() ==> (#[trigger] out@[q]) as int == a.flat()[lo + q] - b.flat()[lo + q],
        decreases hi - k,
    {
        proof {
            assert(a.flat()[k as int] == a.mat@[k as int] as int);
            assert(b.flat()[k as int] == b.mat@[k as int] as int);
            assert(model::in_i64(a.flat()[k as int] - b.flat()[k as int]));
        }
        out.push(a.mat[k] - b.mat[k]);
        k = k + 1;
    }
    out
}

/// Computes the block of the elementwise product of `a` and `b` that the
/// partition assigns to task `i` of `t`: a single pass over its disjoint
/// index range.
fn hadamard_block(a: &Matrix, b: &Matrix, t: usize, i: usize) -> (out: Vec<i64>)
    requires
        1 <= t,
        i < t,
        a.wf(),
        b.wf(),
        a.same_shape(b),
        forall|k: int| 0 <= k < a.flat().len() ==> model::in_i64(a.flat()[k] * b.flat()[k]),
    ensures
        out@.len() == partition::task_hi(a.flat().len() as int, t as int, i as int)
            - partition::task_lo(a.flat().len() as int, t as int, i as int),
        forall|k: int|
            0 <= k < out@.len() ==> (#[trigger] out@[k]) as int == a.flat()[partition::task_lo(a.flat().len() as int, t as int, i as int) + k] * b.flat()[partition::task_lo(a.flat().len() as int, t as int, i as int) + k],
{
    let n = a.mat.len();
    let lo = partition::task_start(n, t, i);
    let hi = partition::task_end(n, t, i);
    let mut out: Vec<i64> = Vec::new();
    let mut k: usize = lo;
    while k < hi
        invariant
            lo <= k <= hi,
            hi <= n,
            n == a.flat().len(),
            n == b.flat().len(),
            a.wf(),
            b.wf(),
            lo == partition::task_lo(n as int, t as int, i as int),
            hi == partition::task_hi(n as int, t as int, i as int),
            forall|q: int| 0 <= q < a.flat().len() ==> model::in_i64(a.flat()[q] * b.flat()[q]),
            out@.len() == k - lo,
            forall|q: int|
                0 <= q < out@.len() ==> (#[trigger] out@[q]) as int == a.flat()[lo + q] * b.flat()[lo + q],
        decreases hi - k,
    {
        proof {
            assert(a.flat()[k as int] == a.mat@[k as int] as int);
            assert(b.flat()[k as int] == b.mat@[k as int] as int);
            assert(model::in_i64(a.flat()[k as int] * b.flat()[k as int]));
        }
        out.push(a.mat[k] * b.mat[k]);
        k = k + 1;
    }
    out
}

impl Matrix {
    /// Elementwise subtraction.  Operands must share a shape.
    pub fn sub(&self, other: &Matrix) -> (r: MatrixResult<Matrix>)
        requires
            self.wf(),
            other.wf(),
            self.same_shape(other) ==> forall|k: int|
                0 <= k < self.flat().len() ==> model::in_i64(self.flat()[k] - other.flat()[k]),
        ensures
            !self.same_shape(other) ==> (r matches Err(e)
                && e matches MatrixError::IncompatibleDimensions { op, dim1, dim2 }
                && op@ == "subtraction"@ && dim1.rows == self.nrows() && dim1.cols == self.ncols()
                && dim2.rows == other.nrows() && dim2.cols == other.ncols()),
            self.same_shape(other) ==> (r matches Ok(m) && m.wf() && m.nrows() == self.nrows()
                && m.ncols() == self.ncols() && m.spec_concurrent() == (self.spec_concurrent()
                || other.spec_concurrent()) && forall|i: int, j: int|
                0 <= i < self.nrows() && 0 <= j < self.ncols() ==> m.at(i, j) == self.at(i, j) - other.at(i, j)),
    {
        if self.rows != other.rows || self.cols != other.cols {
            return Err(MatrixError::IncompatibleDimensions {
                op: String::from_str("subtraction"),
                dim1: Dims { rows: self.rows, cols: self.cols },
                dim2: Dims { rows: other.rows, cols: other.cols },
            });
        }
        let conc = self.concurrent || other.concurrent;
        let n = self.mat.len();
        let ghost expected = Seq::new(n as nat, |k: int| self.flat()[k] - other.flat()[k]);
        let data = if conc {
            let t = parallel::cpu_count();
            let f = |i: usize| -> (out: Vec<i64>)
                requires
                    1 <= t,
                    i < t,
                    self.wf(),
                    other.wf(),
                    self.same_shape(other),
                    forall|k: int|
                        0 <= k < self.flat().len() ==> model::in_i64(self.flat()[k] - other.flat()[k]),
                ensures
                    out@.len() == partition::task_hi(self.flat().len() as int, t as int, i as int)
                        - partition::task_lo(self.flat().len() as int, t as int, i as int),
                    forall|k: int|
                        0 <= k < out@.len() ==> (#[trigger] out@[k]) as int == self.flat()[partition::task_lo(self.flat().len() as int, t as int, i as int) + k] - other.flat()[partition::task_lo(self.flat().len() as int, t as int, i as int) + k],
                { sub_block(self, other, t, i) };
            let blocks = parallel::par_map(t, f);
            proof {
                assert forall|i: int, k: int|
                    0 <= i < t && 0 <= k < blocks@[i]@.len() implies (#[trigger] blocks@[i]@[k])
                    as int == expected[partition::task_lo(n as int, t as int, i) + k] by {
                    assert(call_ensures(f, (i as usize, ), blocks@[i]));
                    partition::lemma_task_range(n as int, t as int, i);
                }
            }
            parallel::concat_blocks(blocks, n, t, 1, Ghost(expected))
        } else {
            sub_block(self, other, 1, 0)
        };
        let m = Matrix { rows: self.rows, cols: self.cols, mat: data, concurrent: conc };
        proof {
            assert forall|i: int, j: int|
                0 <= i < self.nrows() && 0 <= j < self.ncols() implies m.at(i, j) == self.at(i, j) - other.at(i, j) by {
                lemma_flat_index(self.nrows(), self.ncols(), i, j);
            }
        }
        Ok(m)
    }


    /// Elementwise (Hadamard) product.  Operands must share a shape.
    pub fn dot_product(&self, other: &Matrix) -> (r: MatrixResult<Matrix>)
        requires
            self.wf(),
            other.wf(),
            self.same_shape(other) ==> forall|k: int|
                0 <= k < self.flat().len() ==> model::in_i64(self.flat()[k] * other.flat()[k]),
        ensures
            !self.same_shape(other) ==> (r matches Err(e)
                && e matches MatrixError::IncompatibleDimensions { op, dim1, dim2 }
                && op@ == "element-wise multiplication"@ && dim1.rows == self.nrows() && dim1.cols == self.ncols()
                && dim2.rows == other.nrows() && dim2.cols == other.ncols()),
            self.same_shape(other) ==> (r matches Ok(m) && m.wf() && m.nrows() == self.nrows()
                && m.ncols() == self.ncols() && m.spec_concurrent() == (self.spec_concurrent()
                || other.spec_concurrent()) && forall|i: int, j: int|
                0 <= i < self.nrows() && 0 <= j < self.ncols() ==> m.at(i, j) == self.at(i, j) * other.at(i, j)),
    {
        if self.rows != other.rows || self.cols != other.cols {
            return Err(MatrixError::IncompatibleDimensions {
                op: String::from_str("element-wise multiplication"),
                dim1: Dims { rows: self.rows, cols: self.cols },
                dim2: Dims { rows: other.rows, cols: other.cols },
            });
        }
        let conc = self.concurrent || other.concurrent;
        let n = self.mat.len();
        let ghost expected = Seq::new(n as nat, |k: int| self.flat()[k] * other.flat()[k]);
        let data = if conc {
            let t = parallel::cpu_count();
            let f = |i: usize| -> (out: Vec<i64>)
                requires
                    1 <= t,
                    i < t,
                    self.wf(),
                    other.wf(),
                    self.same_shape(other),
                    forall|k: int|
                        0 <= k < self.flat().len() ==> model::in_i64(self.flat()[k] * other.flat()[k]),
                ensures
                    out@.len() == partition::task_hi(self.flat().len() as int, t as int, i as int)
                        - partition::task_lo(self.flat().len() as int, t as int, i as int),
                    forall|k: int|
                        0 <= k < out@.len() ==> (#[trigger] out@[k]) as int == self.flat()[partition::task_lo(self.flat().len() as int, t as int, i as int) + k] * other.flat()[partition::task_lo(self.flat().len() as int, t as int, i as int) + k],
                { hadamard_block(self, other, t, i) };
            let blocks = parallel::par_map(t, f);
            proof {
                assert forall|i: int, k: int|
                    0 <= i < t && 0 <= k < blocks@[i]@.len() implies (#[trigger] blocks@[i]@[k])
                    as int == expected[partition::task_lo(n as int, t as int, i) + k] by {
                    assert(call_ensures(f, (i as usize, ), blocks@[i]));
                    partition::lemma_task_range(n as int, t as int, i);
                }
            }
            parallel::concat_blocks(blocks, n, t, 1, Ghost(expected))
        } else {
            hadamard_block(self, other, 1, 0)
        };
        let m = Matrix { rows: self.rows, cols: self.cols, mat: data, concurrent: conc };
        proof {
            assert forall|i: int, j: int|
                0 <= i < self.nrows() && 0 <= j < self.ncols() implies m.at(i, j) == self.at(i, j) * other.at(i, j) by {
                lemma_flat_index(self.nrows(), self.ncols(), i, j);
            }
        }
        Ok(m)
    }

}

/// Computes the block of `a` scaled by `scalar` that the partition
/// assigns to task `i` of `t`: a single pass over its disjoint index
/// range.
fn scale_block(a: &Matrix, scalar: i64, t: usize, i: usize) -> (out: Vec<i64>)
    requires
        1 <= t,
        i < t,
        a.wf(),
        forall|k: int| 0 <= k < a.flat().len() ==> model::in_i64(a.flat()[k] * scalar),
    ensures
        out@.len() == partition::task_hi(a.flat().len() as int, t as int, i as int)
            - partition::task_lo(a.flat().len() as int, t as int, i as int),
        forall|k: int|
            0 <= k < out@.len() ==> (#[trigger] out@[k]) as int == a.flat()[partition::task_lo(a.flat().len() as int, t as int, i as int) + k] * scalar,
{
    let n = a.mat.len();
    let lo = partition::task_start(n, t, i);
    let hi = partition::task_end(n, t, i);
    let mut out: Vec<i64> = Vec::new();
    let mut k: usize = lo;
    while k < hi
        invariant
            lo <= k <= hi,
            hi <= n,
            n == a.flat().len(),
            a.wf(),
            lo == partition::task_lo(n as int, t as int, i as int),
            hi == partition::task_hi(n as int, t as int, i as int),
            forall|q: int| 0 <= q < a.flat().len() ==> model::in_i64(a.flat()[q] * scalar),
            out@.len() == k - lo,
            forall|q: int|
                0 <= q < out@.len() ==> (#[trigger] out@[q]) as int == a.flat()[lo + q] * scalar,
        decreases hi - k,
    {
        proof {
            assert(a.flat()[k as int] == a.mat@[k as int] as int);
            assert(model::in_i64(a.flat()[k as int] * scalar));
        }
        out.push(a.mat[k] * scalar);
        k = k + 1;
    }
    out
}

/// Computes the block of the negation of `a` that the partition assigns
/// to task `i` of `t`: a single pass over its disjoint index range.
fn neg_block(a: &Matrix, t: usize, i: usize) -> (out: Vec<i64>)
    requires
        1 <= t,
        i < t,
        a.wf(),
        forall|k: int| 0 <= k < a.flat().len() ==> model::in_i64(-a.flat()[k]),
    ensures
        out@.len() == partition::task_hi(a.flat().len() as int, t as int, i as int)
            - partition::task_lo(a.flat().len() as int, t as int, i as int),
        forall|k: int|
            0 <= k < out@.len() ==> (#[trigger] out@[k]) as int == -a.flat()[partition::task_lo(a.flat().len() as int, t as int, i as int) + k],
{
    let n = a.mat.len();
    let lo = partition::task_start(n, t, i);
    let hi = partition::task_end(n, t, i);
    let mut out: Vec<i64> = Vec::new();
    let mut k: usize = lo;
    while k < hi
        invariant
            lo <= k <= hi,
            hi <= n,
            n == a.flat().len(),
            a.wf(),
            lo == partition::task_lo(n as int, t as int, i as int),
            hi == partition::task_hi(n as int, t as int, i as int),
            forall|q: int| 0 <= q < a.flat().len() ==> model::in_i64(-a.flat()[q]),
            out@.len() == k - lo,
            forall|q: int|
                0 <= q < out@.len() ==> (#[trigger] out@[q]) as int == -a.flat()[lo + q],
        decreases hi - k,
    {
        proof {
            assert(a.flat()[k as int] == a.mat@[k as int] as int);
            assert(model::in_i64(-a.flat()[k as int]));
        }
        out.push(-a.mat[k]);
        k = k + 1;
    }
    out
}

/// Computes the block of `a` divided elementwise by `scalar` that the
/// partition assigns to task `i` of `t`: a single pass over its disjoint
/// index range.
fn div_block(a: &Matrix, scalar: i64, t: usize, i: usize) -> (out: Vec<i64>)
    requires
        1 <= t,
        i < t,
        a.wf(),
        scalar != 0,
        forall|k: int| 0 <= k < a.flat().len() ==> model::in_i64(model::div_trunc(a.flat()[k], scalar as int)),
    ensures
        out@.len() == partition::task_hi(a.flat().len() as int, t as int, i as int)
            - partition::task_lo(a.flat().len() as int, t as int, i as int),
        forall|k: int|
            0 <= k < out@.len() ==> (#[trigger] out@[k]) as int == model::div_trunc(a.flat()[partition::task_lo(a.flat().len() as int, t as int, i as int) + k], scalar as int),
{
    let n = a.mat.len();
    let lo = partition::task_start(n, t, i);
    let hi = partition::task_end(n, t, i);
    let mut out: Vec<i64> = Vec::new();
    let mut k: usize = lo;
    while k < hi
        invariant
            lo <= k <= hi,
            hi <= n,
            n == a.flat().len(),
            a.wf(),
            scalar != 0,
            lo == partition::task_lo(n as int, t as int, i as int),
            hi == partition::task_hi(n as int, t as int, i as int),
            forall|q: int| 0 <= q < a.flat().len() ==> model::in_i64(model::div_trunc(a.flat()[q], scalar as int)),
            out@.len() == k - lo,
            forall|q: int|
                0 <= q < out@.len() ==> (#[trigger] out@[q]) as int == model::div_trunc(a.flat()[lo + q], scalar as int),
        decreases hi - k,
    {
        proof {
            assert(a.flat()[k as int] == a.mat@[k as int] as int);
            assert(model::in_i64(model::div_trunc(a.flat()[k as int], scalar as int)));
        }
        out.push(a.mat[k].checked_div(scalar).unwrap());
        k = k + 1;
    }
    out
}

impl Matrix {
    /// Multiplies every element by `scalar`.
    pub fn scalar_mul(&self, scalar: i64) -> (r: MatrixResult<Matrix>)
        requires
            self.wf(),
            forall|k: int| 0 <= k < self.flat().len() ==> model::in_i64(self.flat()[k] * scalar),
        ensures
            r matches Ok(m) && m.wf() && m.nrows() == self.nrows()
                && m.ncols() == self.ncols() && m.spec_concurrent() == self.spec_concurrent()
                && forall|i: int, j: int|
                0 <= i < self.nrows() && 0 <= j < self.ncols() ==> m.at(i, j) == self.at(i, j) * scalar,
    {
        let conc = self.concurrent;
        let n = self.mat.len();
        let ghost expected = Seq::new(n as nat, |k: int| self.flat()[k] * scalar);
        let data = if conc {
            let t = parallel::cpu_count();
            let f = |i: usize| -> (out: Vec<i64>)
                requires
                    1 <= t,
                    i < t,
                    self.wf(),
                    forall|k: int|
                        0 <= k < self.flat().len() ==> model::in_i64(self.flat()[k] * scalar),
                ensures
                    out@.len() == partition::task_hi(self.flat().len() as int, t as int, i as int)
                        - partition::task_lo(self.flat().len() as int, t as int, i as int),
                    forall|k: int|
                        0 <= k < out@.len() ==> (#[trigger] out@[k]) as int == self.flat()[partition::task_lo(self.flat().len() as int, t as int, i as int) + k] * scalar,
                { scale_block(self, scalar, t, i) };
            let blocks = parallel::par_map(t, f);
            proof {
                assert forall|i: int, k: int|
                    0 <= i < t && 0 <= k < blocks@[i]@.len() implies (#[trigger] blocks@[i]@[k])
                    as int == expected[partition::task_lo(n as int, t as int, i) + k] by {
                    assert(call_ensures(f, (i as usize, ), blocks@[i]));
                    partition::lemma_task_range(n as int, t as int, i);
                }
            }
            parallel::concat_blocks(blocks, n, t, 1, Ghost(expected))
        } else {
            scale_block(self, scalar, 1, 0)
        };
        let m = Matrix { rows: self.rows, cols: self.cols, mat: data, concurrent: conc };
        proof {
            assert forall|i: int, j: int|
                0 <= i < self.nrows() && 0 <= j < self.ncols() implies m.at(i, j) == self.at(i, j) * scalar by {
                lemma_flat_index(self.nrows(), self.ncols(), i, j);
            }
        }
        Ok(m)
    }


    /// Negates every element.
    pub fn neg(&self) -> (r: MatrixResult<Matrix>)
        requires
            self.wf(),
            forall|k: int| 0 <= k < self.flat().len() ==> model::in_i64(-self.flat()[k]),
        ensures
            r matches Ok(m) && m.wf() && m.nrows() == self.nrows()
                && m.ncols() == self.ncols() && m.spec_concurrent() == self.spec_concurrent()
                && forall|i: int, j: int|
                0 <= i < self.nrows() && 0 <= j < self.ncols() ==> m.at(i, j) == -self.at(i, j),
    {
        let conc = self.concurrent;
        let n = self.mat.len();
        let ghost expected = Seq::new(n as nat, |k: int| -self.flat()[k]);
        let data = if conc {
            let t = parallel::cpu_count();
            let f = |i: usize| -> (out: Vec<i64>)
                requires
                    1 <= t,
                    i < t,
                    self.wf(),
                    forall|k: int|
                        0 <= k < self.flat().len() ==> model::in_i64(-self.flat()[k]),
                ensures
                    out@.len() == partition::task_hi(self.flat().len() as int, t as int, i as int)
                        - partition::task_lo(self.flat().len() as int, t as int, i as int),
                    forall|k: int|
                        0 <= k < out@.len() ==> (#[trigger] out@[k]) as int == -self.flat()[partition::task_lo(self.flat().len() as int, t as int, i as int) + k],
                { neg_block(self, t, i) };
            let blocks = parallel::par_map(t, f);
            proof {
                assert forall|i: int, k: int|
                    0 <= i < t && 0 <= k < blocks@[i]@.len() implies (#[trigger] blocks@[i]@[k])
                    as int == expected[partition::task_lo(n as int, t as int, i) + k] by {
                    assert(call_ensures(f, (i as usize, ), blocks@[i]));
                    partition::lemma_task_range(n as int, t as int, i);
                }
            }
            parallel::concat_blocks(blocks, n, t, 1, Ghost(expected))
        } else {
            neg_block(self, 1, 0)
        };
        let m = Matrix { rows: self.rows, cols: self.cols, mat: data, concurrent: conc };
        proof {
            assert forall|i: int, j: int|
                0 <= i < self.nrows() && 0 <= j < self.ncols() implies m.at(i, j) == -self.at(i, j) by {
                lemma_flat_index(self.nrows(), self.ncols(), i, j);
            }
        }
        Ok(m)
    }


    /// Divides every element by `scalar`, truncating toward zero.
    /// Division by zero is rejected before any output is allocated.
    pub fn scalar_div(&self, scalar: i64) -> (r: MatrixResult<Matrix>)
        requires
            self.wf(),
            scalar != 0 ==> forall|k: int| 0 <= k < self.flat().len() ==> model::in_i64(model::div_trunc(self.flat()[k], scalar as int)),
        ensures
            scalar == 0 ==> r == MatrixResult::<Matrix>::Err(MatrixError::DivisionByZero),
            scalar != 0 ==> (r matches Ok(m) && m.wf() && m.nrows() == self.nrows()
                && m.ncols() == self.ncols() && m.spec_concurrent() == self.spec_concurrent()
                && forall|i: int, j: int|
                0 <= i < self.nrows() && 0 <= j < self.ncols() ==> m.at(i, j) == model::div_trunc(self.at(i, j), scalar as int)),
    {
        if scalar == 0 {
            return Err(MatrixError::DivisionByZero);
        }
        let conc = self.concurrent;
        let n = self.mat.len();
        let ghost expected = Seq::new(n as nat, |k: int| model::div_trunc(self.flat()[k], scalar as int));
        let data = if conc {
            let t = parallel::cpu_count();
            let f = |i: usize| -> (out: Vec<i64>)
                requires
                    1 <= t,
                    i < t,
                    self.wf(),
                    scalar != 0,
                    forall|k: int|
                        0 <= k < self.flat().len() ==> model::in_i64(model::div_trunc(self.flat()[k], scalar as int)),
                ensures
                    out@.len() == partition::task_hi(self.flat().len() as int, t as int, i as int)
                        - partition::task_lo(self.flat().len() as int, t as int, i as int),
                    forall|k: int|
                        0 <= k < out@.len() ==> (#[trigger] out@[k]) as int == model::div_trunc(self.flat()[partition::task_lo(self.flat().len() as int, t as int, i as int) + k], scalar as int),
                { div_block(self, scalar, t, i) };
            let blocks = parallel::par_map(t, f);
            proof {
                assert forall|i: int, k: int|
                    0 <= i < t && 0 <= k < blocks@[i]@.len() implies (#[trigger] blocks@[i]@[k])
                    as int == expected[partition::task_lo(n as int, t as int, i) + k] by {
                    assert(call_ensures(f, (i as usize, ), blocks@[i]));
                    partition::lemma_task_range(n as int, t as int, i);
                }
            }
            parallel::concat_blocks(blocks, n, t, 1, Ghost(expected))
        } else {
            div_block(self, scalar, 1, 0)
        };
        let m = Matrix { rows: self.rows, cols: self.cols, mat: data, concurrent: conc };
        proof {
            assert forall|i: int, j: int|
                0 <= i < self.nrows() && 0 <= j < self.ncols() implies m.at(i, j) == model::div_trunc(self.at(i, j), scalar as int) by {
                lemma_flat_index(self.nrows(), self.ncols(), i, j);
            }
        }
        Ok(m)
    }

}

/// Computes the block of column `col` that the partition assigns to task
/// `i` of `t`.
fn col_block(a: &Matrix, col: usize, t: usize, i: usize) -> (out: Vec<i64>)
    requires
        1 <= t,
        i < t,
        a.wf(),
        col < a.ncols(),
    ensures
        out@.len() == partition::task_hi(a.nrows(), t as int, i as int) - partition::task_lo(
            a.nrows(), t as int, i as int),
        forall|k: int|
            0 <= k < out@.len() ==> (#[trigger] out@[k]) as int == a.at(partition::task_lo(
                a.nrows(), t as int, i as int) + k, col as int),
{
    let nr = a.rows();
    let lo = partition::task_start(nr, t, i);
    let hi = partition::task_end(nr, t, i);
    let mut out: Vec<i64> = Vec::new();
    let mut r: usize = lo;
    while r < hi
        invariant
            lo <= r <= hi,
            hi <= nr,
            nr == a.nrows(),
            a.wf(),
            col < a.ncols(),
            lo == partition::task_lo(a.nrows(), t as int, i as int),
            hi == partition::task_hi(a.nrows(), t as int, i as int),
            out@.len() == r - lo,
            forall|q: int| 0 <= q < out@.len() ==> (#[trigger] out@[q]) as int == a.at(lo + q, col as int),
        decreases hi - r,
    {
        proof {
            assert(a.mat.len() <= usize::MAX);
            lemma_flat_index(a.nrows(), a.ncols(), r as int, col as int);
        }
        out.push(a.mat[r * a.cols + col]);
        r = r + 1;
    }
    out
}

/// Sums the block of the diagonal that the partition assigns to task `i`
/// of `t`.
fn trace_block(a: &Matrix, t: usize, i: usize) -> (out: i64)
    requires
        1 <= t,
        i < t,
        a.wf(),
        a.nrows() == a.ncols(),
        model::sum_fits(a.diag_seq()),
    ensures
        out as int == model::seg_sum(a.diag_seq(), partition::task_lo(a.nrows(), t as int, i as int),
            partition::task_hi(a.nrows(), t as int, i as int) - partition::task_lo(a.nrows(),
            t as int, i as int)),
{
    let nr = a.rows();
    let lo = partition::task_start(nr, t, i);
    let hi = partition::task_end(nr, t, i);
    let mut acc: i64 = 0;
    let mut r: usize = lo;
    while r < hi
        invariant
            lo <= r <= hi,
            hi <= nr,
            nr == a.nrows(),
            a.wf(),
            a.nrows() == a.ncols(),
            model::sum_fits(a.diag_seq()),
            lo == partition::task_lo(a.nrows(), t as int, i as int),
            hi == partition::task_hi(a.nrows(), t as int, i as int),
            acc as int == model::seg_sum(a.diag_seq(), lo as int, r - lo),
        decreases hi - r,
    {
        proof {
            assert(a.mat.len() <= usize::MAX);
            lemma_flat_index(a.nrows(), a.ncols(), r as int, r as int);
            model::lemma_seg_fits(a.diag_seq(), lo as int, r - lo);
            assert(a.diag_seq()[r as int] == a.at(r as int, r as int));
        }
        acc = acc + a.mat[r * a.cols + r];
        r = r + 1;
    }
    acc
}

impl Matrix {
    /// Extracts column `col` as a fresh vector; parallel when the stored
    /// default asks for it, with the same result either way.
    pub fn col(&self, col: usize) -> (r: MatrixResult<Vec<i64>>)
        requires
            self.wf(),
        ensures
            col >= self.ncols() ==> r == MatrixResult::<Vec<i64>>::Err(
                MatrixError::InvalidColumnDimension),
            col < self.ncols() ==> (r matches Ok(v) && v@.len() == self.nrows() && forall|i: int|
                0 <= i < self.nrows() ==> (#[trigger] v@[i]) as int == self.at(i, col as int)),
    {
        if col >= self.cols {
            return Err(MatrixError::InvalidColumnDimension);
        }
        let nr = self.rows;
        let ghost expected = Seq::new(self.nrows() as nat, |i: int| self.at(i, col as int));
        if self.concurrent {
            let t = parallel::cpu_count();
            let f = |i: usize| -> (out: Vec<i64>)
                requires
                    1 <= t,
                    i < t,
                    self.wf(),
                    col < self.ncols(),
                ensures
                    out@.len() == partition::task_hi(self.nrows(), t as int, i as int)
                        - partition::task_lo(self.nrows(), t as int, i as int),
                    forall|k: int|
                        0 <= k < out@.len() ==> (#[trigger] out@[k]) as int == self.at(
                            partition::task_lo(self.nrows(), t as int, i as int) + k, col as int),
                { col_block(self, col, t, i) };
            let blocks = parallel::par_map(t, f);
            proof {
                assert forall|i: int, k: int|
                    0 <= i < t && 0 <= k < blocks@[i]@.len() implies (#[trigger] blocks@[i]@[k])
                    as int == expected[partition::task_lo(nr as int, t as int, i) + k] by {
                    assert(call_ensures(f, (i as usize, ), blocks@[i]));
                    partition::lemma_task_range(nr as int, t as int, i);
                }
            }
            Ok(parallel::concat_blocks(blocks, nr, t, 1, Ghost(expected)))
        } else {
            Ok(col_block(self, col, 1, 0))
        }
    }

    /// The sum of the diagonal.  Requires a square matrix; sequential and
    /// parallel summation produce the identical exact result.
    pub fn trace(&self) -> (r: MatrixResult<i64>)
        requires
            self.wf(),
            self.nrows() == self.ncols() ==> model::sum_fits(self.diag_seq()),
        ensures
            self.nrows() != self.ncols() ==> (r matches Err(e)
                && e matches MatrixError::NotSquareMatrix { rows, cols } && rows == self.nrows()
                && cols == self.ncols()),
            self.nrows() == self.ncols() ==> (r matches Ok(v) && v as int == model::sum_prefix(
                self.diag_seq(), self.nrows())),
    {
        if self.rows != self.cols {
            return Err(MatrixError::NotSquareMatrix { rows: self.rows, cols: self.cols });
        }
        let nr = self.rows;
        if self.concurrent {
            let t = parallel::cpu_count();
            let f = |i: usize| -> (out: i64)
                requires
                    1 <= t,
                    i < t,
                    self.wf(),
                    self.nrows() == self.ncols(),
                    model::sum_fits(self.diag_seq()),
                ensures
                    out as int == model::seg_sum(self.diag_seq(), partition::task_lo(self.nrows(),
                        t as int, i as int), partition::task_hi(self.nrows(), t as int, i as int)
                        - partition::task_lo(self.nrows(), t as int, i as int)),
                { trace_block(self, t, i) };
            let parts = parallel::par_map(t, f);
            proof {
                assert forall|j: int| 0 <= j < t implies (#[trigger] parts@[j]) as int
                    == model::seg_sum(self.diag_seq(), partition::task_lo(nr as int, t as int, j),
                    partition::task_hi(nr as int, t as int, j) - partition::task_lo(nr as int,
                    t as int, j)) by {
                    assert(call_ensures(f, (j as usize, ), parts@[j]));
                }
            }
            let mut total: i64 = 0;
            let mut i: usize = 0;
            while i < t
                invariant
                    i <= t,
                    1 <= t,
                    nr == self.nrows(),
                    self.wf(),
                    self.nrows() == self.ncols(),
                    model::sum_fits(self.diag_seq()),
                    parts@.len() == t,
                    forall|j: int| 0 <= j < t ==> (#[trigger] parts@[j]) as int
                        == model::seg_sum(self.diag_seq(), partition::task_lo(nr as int, t as int, j),
                        partition::task_hi(nr as int, t as int, j) - partition::task_lo(nr as int,
                        t as int, j)),
                    total as int == model::sum_prefix(self.diag_seq(),
                        if i == 0 { 0int } else { partition::task_hi(nr as int, t as int, i - 1) }),
                decreases t - i,
            {
                proof {
                    if i > 0 {
                        partition::lemma_partition_contiguous(nr as int, t as int, i as int - 1);
                    }
                    partition::lemma_task_range(nr as int, t as int, i as int);
                    let lo = partition::task_lo(nr as int, t as int, i as int);
                    let hi = partition::task_hi(nr as int, t as int, i as int);
                    model::lemma_sum_split(self.diag_seq(), lo, hi - lo);
                    model::lemma_sum_abs_bound(self.diag_seq(), hi);
                    model::lemma_abs_seq_nonneg(self.diag_seq());
                    model::lemma_sum_prefix_mono(model::abs_seq(self.diag_seq()), hi, nr as int);
                    model::lemma_sum_prefix_mono(model::abs_seq(self.diag_seq()), 0, hi);
                    assert(lo == if i == 0 { 0int } else { partition::task_hi(nr as int, t as int, i as int - 1) });
                    assert(parts@[i as int] as int == model::seg_sum(self.diag_seq(), lo, hi - lo));
                    assert(total as int == model::sum_prefix(self.diag_seq(), lo));
                    assert(total as int + parts@[i as int] as int == model::sum_prefix(self.diag_seq(), hi));
                }
                total = total + parts[i];
                i = i + 1;
            }
            Ok(total)
        } else {
            let v = trace_block(self, 1, 0);
            proof {
                model::lemma_sum_split(self.diag_seq(), 0, nr as int);
            }
            Ok(v)
        }
    }
}

/// The value of the transpose's flat buffer at position `idx`: the
/// transpose has `a.ncols()` rows of length `a.nrows()` each.
pub open spec fn transpose_cell(a: &Matrix, idx: int) -> int {
    a.at(idx % a.nrows(), idx / a.nrows())
}

/// Computes the rows of the transpose that the partition assigns to task
/// `i` of `t` (the transpose has `a.ncols()` rows).
fn transpose_block(a: &Matrix, t: usize, i: usize) -> (out: Vec<i64>)
    requires
        1 <= t,
        i < t,
        a.wf(),
    ensures
        out@.len() == (partition::task_hi(a.ncols(), t as int, i as int) - partition::task_lo(
            a.ncols(), t as int, i as int)) * a.nrows(),
        forall|k: int|
            0 <= k < out@.len() ==> (#[trigger] out@[k]) as int == transpose_cell(a,
                partition::task_lo(a.ncols(), t as int, i as int) * a.nrows() + k),
{
    let nr = a.rows;
    let lo = partition::task_start(a.cols, t, i);
    let hi = partition::task_end(a.cols, t, i);
    let mut out: Vec<i64> = Vec::new();
    let mut j: usize = lo;
    while j < hi
        invariant
            lo <= j <= hi,
            hi <= a.ncols(),
            nr == a.nrows(),
            a.wf(),
            lo == partition::task_lo(a.ncols(), t as int, i as int),
            hi == partition::task_hi(a.ncols(), t as int, i as int),
            out@.len() == (j - lo) * nr,
            forall|k: int|
                0 <= k < out@.len() ==> (#[trigger] out@[k]) as int == transpose_cell(a,
                    lo * nr + k),
        decreases hi - j,
    {
        let mut ii: usize = 0;
        while ii < nr
            invariant
                0 <= ii <= nr,
                lo <= j < hi,
                hi <= a.ncols(),
                nr == a.nrows(),
                a.wf(),
                lo == partition::task_lo(a.ncols(), t as int, i as int),
                hi == partition::task_hi(a.ncols(), t as int, i as int),
                out@.len() == (j - lo) * nr + ii,
                forall|k: int|
                    0 <= k < out@.len() ==> (#[trigger] out@[k]) as int == transpose_cell(a,
                        lo * nr + k),
            decreases nr - ii,
        {
            proof {
                assert(a.mat.len() <= usize::MAX);
                lemma_flat_index(a.nrows(), a.ncols(), ii as int, j as int);
                assert(lo * nr + (j - lo) * nr + ii == j * nr + ii) by (nonlinear_arith);
                let g = lo * nr + (j - lo) * nr + ii;
                vstd::arithmetic::div_mod::lemma_fundamental_div_mod_converse(g, nr as int,
                    j as int, ii as int);
                assert(transpose_cell(a, g) == a.at(ii as int, j as int));
            }
            out.push(a.mat[ii * a.cols + j]);
            ii = ii + 1;
        }
        proof {
            assert((j - lo) * nr + nr == (j + 1 - lo) * nr) by (nonlinear_arith);
        }
        j = j + 1;
    }
    out
}

impl Matrix {
    /// The transpose: a fresh `cols x rows` matrix with the axes swapped.
    /// The parallel strategy partitions the transpose's rows across tasks;
    /// both strategies compute the same cells.
    pub fn transpose(&self) -> (r: MatrixResult<Matrix>)
        requires
            self.wf(),
        ensures
            r matches Ok(m) && m.wf() && m.nrows() == self.ncols() && m.ncols() == self.nrows()
                && m.spec_concurrent() == self.spec_concurrent() && forall|i: int, j: int|
                0 <= i < self.ncols() && 0 <= j < self.nrows() ==> m.at(i, j) == self.at(j, i),
    {
        let nr = self.rows;
        let nc = self.cols;
        let ghost expected = Seq::new((self.ncols() * self.nrows()) as nat,
            |idx: int| transpose_cell(self, idx));
        let data = if self.concurrent {
            let t = parallel::cpu_count();
            let f = |i: usize| -> (out: Vec<i64>)
                requires
                    1 <= t,
                    i < t,
                    self.wf(),
                ensures
                    out@.len() == (partition::task_hi(self.ncols(), t as int, i as int)
                        - partition::task_lo(self.ncols(), t as int, i as int)) * self.nrows(),
                    forall|k: int|
                        0 <= k < out@.len() ==> (#[trigger] out@[k]) as int == transpose_cell(self,
                            partition::task_lo(self.ncols(), t as int, i as int) * self.nrows()
                            + k),
                { transpose_block(self, t, i) };
            let blocks = parallel::par_map(t, f);
            proof {
                assert forall|i: int, k: int|
                    0 <= i < t && 0 <= k < blocks@[i]@.len() implies (#[trigger] blocks@[i]@[k])
                    as int == expected[partition::task_lo(nc as int, t as int, i) * nr + k] by {
                    assert(call_ensures(f, (i as usize, ), blocks@[i]));
                    partition::lemma_task_range(nc as int, t as int, i);
                    let lo = partition::task_lo(nc as int, t as int, i);
                    let hi = partition::task_hi(nc as int, t as int, i);
                    assert(0 <= lo * nr) by (nonlinear_arith)
                        requires 0 <= lo && 0 <= nr;
                    assert(lo * nr + (hi - lo) * nr == hi * nr) by (nonlinear_arith);
                    assert(hi * nr <= nc * nr) by (nonlinear_arith)
                        requires hi <= nc && 0 <= nr;
                }
            }
            parallel::concat_blocks(blocks, nc, t, nr, Ghost(expected))
        } else {
            let b = transpose_block(self, 1, 0);
            proof {
                assert(partition::task_lo(nc as int, 1int, 0int) * nr == 0) by (nonlinear_arith)
                    requires partition::task_lo(nc as int, 1int, 0int) == 0;
            }
            b
        };
        let m = Matrix { rows: nc, cols: nr, mat: data, concurrent: self.concurrent };
        proof {
            assert(nc * nr == self.ncols() * self.nrows());
            assert(m.flat().len() == nc as int * nr as int);
            assert forall|i: int, j: int|
                0 <= i < self.ncols() && 0 <= j < self.nrows() implies m.at(i, j) == self.at(j, i) by {
                lemma_flat_index(nc as int, nr as int, i, j);
                let g = i * nr + j;
                vstd::arithmetic::div_mod::lemma_fundamental_div_mod_converse(g, nr as int, i, j);
                assert(m.at(i, j) == m.flat()[g]);
                assert(m.flat()[g] == expected[g]);
                assert(expected[g] == transpose_cell(self, g));
            }
        }
        Ok(m)
    }
}

/// Cell `(i, j)` of the product `a * b`: the dot product of row `i` of `a`
/// with column `j` of `b`.
pub open spec fn product_cell(a: &Matrix, b: &Matrix, i: int, j: int) -> int {
    model::dot(a.row_seq(i), b.col_seq(j))
}

/// The product's flat buffer at position `idx` (the product has
/// `b.ncols()` columns).
pub open spec fn product_flat(a: &Matrix, b: &Matrix, idx: int) -> int {
    product_cell(a, b, idx / b.ncols(), idx % b.ncols())
}

/// Machine-limit condition for the product `a * b`: every partial sum of
/// every cell's dot product, in any grouping, fits in an `i64`.
pub open spec fn product_fits(a: &Matrix, b: &Matrix) -> bool {
    forall|i: int, j: int|
        0 <= i < a.nrows() && 0 <= j < b.ncols() ==> #[trigger] model::dot_fits(a.row_seq(i),
            b.col_seq(j))
}

/// Computes the rows of the product `a * b` that the partition assigns to
/// task `i` of `t`: the classic triple loop over its disjoint row range.
fn product_block(a: &Matrix, b: &Matrix, t: usize, i: usize) -> (out: Vec<i64>)
    requires
        1 <= t,
        i < t,
        a.wf(),
        b.wf(),
        a.ncols() == b.nrows(),
        product_fits(a, b),
    ensures
        out@.len() == (partition::task_hi(a.nrows(), t as int, i as int) - partition::task_lo(
            a.nrows(), t as int, i as int)) * b.ncols(),
        forall|k: int|
            0 <= k < out@.len() ==> (#[trigger] out@[k]) as int == product_flat(a, b,
                partition::task_lo(a.nrows(), t as int, i as int) * b.ncols() + k),
{
    let bc = b.cols;
    let ac = a.cols;
    let lo = partition::task_start(a.rows, t, i);
    let hi = partition::task_end(a.rows, t, i);
    let mut out: Vec<i64> = Vec::new();
    let mut r: usize = lo;
    while r < hi
        invariant
            lo <= r <= hi,
            hi <= a.nrows(),
            bc == b.ncols(),
            ac == a.ncols(),
            a.wf(),
            b.wf(),
            a.ncols() == b.nrows(),
            product_fits(a, b),
            lo == partition::task_lo(a.nrows(), t as int, i as int),
            hi == partition::task_hi(a.nrows(), t as int, i as int),
            out@.len() == (r - lo) * bc,
            forall|k: int|
                0 <= k < out@.len() ==> (#[trigger] out@[k]) as int == product_flat(a, b,
                    lo * bc + k),
        decreases hi - r,
    {
        let mut j: usize = 0;
        while j < bc
            invariant
                0 <= j <= bc,
                lo <= r < hi,
                hi <= a.nrows(),
                bc == b.ncols(),
                ac == a.ncols(),
                a.wf(),
                b.wf(),
                a.ncols() == b.nrows(),
                product_fits(a, b),
                lo == partition::task_lo(a.nrows(), t as int, i as int),
                hi == partition::task_hi(a.nrows(), t as int, i as int),
                out@.len() == (r - lo) * bc + j,
                forall|k: int|
                    0 <= k < out@.len() ==> (#[trigger] out@[k]) as int == product_flat(a, b,
                        lo * bc + k),
            decreases bc - j,
        {
            let ghost prods = model::prod_seq(a.row_seq(r as int), b.col_seq(j as int));
            proof {
                assert(model::dot_fits(a.row_seq(r as int), b.col_seq(j as int)));
            }
            let mut acc: i64 = 0;
            let mut k: usize = 0;
            while k < ac
                invariant
                    0 <= k <= ac,
                    r < a.nrows(),
                    j < b.ncols(),
                    bc == b.ncols(),
                    ac == a.ncols(),
                    a.wf(),
                    b.wf(),
                    a.ncols() == b.nrows(),
                    prods == model::prod_seq(a.row_seq(r as int), b.col_seq(j as int)),
                    model::sum_fits(prods),
                    prods.len() == ac,
                    acc as int == model::sum_prefix(prods, k as int),
                decreases ac - k,
            {
                proof {
                    assert(a.mat.len() <= usize::MAX);
                    assert(b.mat.len() <= usize::MAX);
                    lemma_flat_index(a.nrows(), a.ncols(), r as int, k as int);
                    lemma_flat_index(b.nrows(), b.ncols(), k as int, j as int);
                    model::lemma_sum_step_fits(prods, k as int);
                    assert(prods[k as int] == a.at(r as int, k as int) * b.at(k as int, j as int));
                    assert(a.at(r as int, k as int) == a.mat@[r as int * a.ncols() + k] as int);
                    assert(b.at(k as int, j as int) == b.mat@[k as int * b.ncols() + j] as int);
                }
                acc = acc + a.mat[r * ac + k] * b.mat[k * bc + j];
                k = k + 1;
            }
            proof {
                assert(acc as int == model::dot(a.row_seq(r as int), b.col_seq(j as int)));
                assert(lo * bc + (r - lo) * bc + j == r * bc + j) by (nonlinear_arith);
                let g = lo * bc + (r - lo) * bc + j;
                vstd::arithmetic::div_mod::lemma_fundamental_div_mod_converse(g, bc as int,
                    r as int, j as int);
                assert(product_flat(a, b, g) == product_cell(a, b, r as int, j as int));
            }
            out.push(acc);
            j = j + 1;
        }
        proof {
            assert((r - lo) * bc + bc == (r + 1 - lo) * bc) by (nonlinear_arith);
        }
        r = r + 1;
    }
    out
}

impl Matrix {
    /// Matrix multiplication.  Requires the inner dimensions to agree; the
    /// parallel strategy partitions the product's rows across tasks and
    /// recomputes the same triple-loop formula per block.
    pub fn matrix_multiply(&self, other: &Matrix) -> (r: MatrixResult<Matrix>)
        requires
            self.wf(),
            other.wf(),
            self.ncols() == other.nrows() ==> product_fits(self, other),
        ensures
            self.ncols() != other.nrows() ==> (r matches Err(e)
                && e matches MatrixError::IncompatibleDimensions { op, dim1, dim2 }
                && op@ == "matrix multiplication"@ && dim1.rows == self.nrows()
                && dim1.cols == self.ncols() && dim2.rows == other.nrows()
                && dim2.cols == other.ncols()),
            self.ncols() == other.nrows() ==> (r matches Ok(m) && m.wf() && m.nrows()
                == self.nrows() && m.ncols() == other.ncols() && m.spec_concurrent() == (
            self.spec_concurrent() || other.spec_concurrent()) && forall|i: int, j: int|
                0 <= i < self.nrows() && 0 <= j < other.ncols() ==> m.at(i, j) == product_cell(
                    self, other, i, j)),
    {
        if self.cols != other.rows {
            return Err(MatrixError::IncompatibleDimensions {
                op: String::from_str("matrix multiplication"),
                dim1: Dims { rows: self.rows, cols: self.cols },
                dim2: Dims { rows: other.rows, cols: other.cols },
            });
        }
        let conc = self.concurrent || other.concurrent;
        let nr = self.rows;
        let bc = other.cols;
        let ghost expected = Seq::new((self.nrows() * other.ncols()) as nat,
            |idx: int| product_flat(self, other, idx));
        let data = if conc {
            let t = parallel::cpu_count();
            let f = |i: usize| -> (out: Vec<i64>)
                requires
                    1 <= t,
                    i < t,
                    self.wf(),
                    other.wf(),
                    self.ncols() == other.nrows(),
                    product_fits(self, other),
                ensures
                    out@.len() == (partition::task_hi(self.nrows(), t as int, i as int)
                        - partition::task_lo(self.nrows(), t as int, i as int)) * other.ncols(),
                    forall|k: int|
                        0 <= k < out@.len() ==> (#[trigger] out@[k]) as int == product_flat(self,
                            other, partition::task_lo(self.nrows(), t as int, i as int)
                            * other.ncols() + k),
                { product_block(self, other, t, i) };
            let blocks = parallel::par_map(t, f);
            proof {
                assert forall|i: int, k: int|
                    0 <= i < t && 0 <= k < blocks@[i]@.len() implies (#[trigger] blocks@[i]@[k])
                    as int == expected[partition::task_lo(nr as int, t as int, i) * bc + k] by {
                    assert(call_ensures(f, (i as usize, ), blocks@[i]));
                    partition::lemma_task_range(nr as int, t as int, i);
                    let lo = partition::task_lo(nr as int, t as int, i);
                    let hi = partition::task_hi(nr as int, t as int, i);
                    assert(0 <= lo * bc) by (nonlinear_arith)
                        requires 0 <= lo && 0 <= bc;
                    assert(lo * bc + (hi - lo) * bc == hi * bc) by (nonlinear_arith);
                    assert(hi * bc <= nr * bc) by (nonlinear_arith)
                        requires hi <= nr && 0 <= bc;
                }
            }
            parallel::concat_blocks(blocks, nr, t, bc, Ghost(expected))
        } else {
            let b = product_block(self, other, 1, 0);
            proof {
                assert(partition::task_lo(nr as int, 1int, 0int) * bc == 0) by (nonlinear_arith)
                    requires partition::task_lo(nr as int, 1int, 0int) == 0;
            }
            b
        };
        let m = Matrix { rows: nr, cols: bc, mat: data, concurrent: conc };
        proof {
            assert forall|i: int, j: int|
                0 <= i < self.nrows() && 0 <= j < other.ncols() implies m.at(i, j) == product_cell(
                self, other, i, j) by {
                lemma_flat_index(nr as int, bc as int, i, j);
                let g = i * bc + j;
                vstd::arithmetic::div_mod::lemma_fundamental_div_mod_converse(g, bc as int, i, j);
                assert(m.at(i, j) == m.flat()[g]);
                assert(m.flat()[g] == expected[g]);
            }
        }
        Ok(m)
    }
}

/// Skips past a deleted index: position `i` of a minor reads position
/// `i` or `i + 1` of the source, depending on the deleted row or column.
pub open spec fn skip_idx(i: int, e: int) -> int {
    if i < e {
        i
    } else {
        i + 1
    }
}

/// The cofactor matrix's flat buffer at position `idx` for an `n x n`
/// source.
pub open spec fn cof_flat(a: &Matrix, idx: int) -> int {
    det::cof_cell(a.grid(), a.nrows(), idx / a.nrows(), idx % a.nrows())
}

impl Matrix {
    /// Builds the minor with row `er` and column `ec` deleted.
    fn minor_inner(&self, er: usize, ec: usize) -> (m: Matrix)
        requires
            self.wf(),
            self.nrows() >= 2,
            self.ncols() >= 2,
            er < self.nrows(),
            ec < self.ncols(),
        ensures
            m.wf(),
            m.nrows() == self.nrows() - 1,
            m.ncols() == self.ncols() - 1,
            m.spec_concurrent() == self.spec_concurrent(),
            forall|i: int, j: int|
                0 <= i < m.nrows() && 0 <= j < m.ncols() ==> m.at(i, j) == self.at(skip_idx(i,
                    er as int), skip_idx(j, ec as int)),
            m.grid() == det::grid_minor(self.grid(), er as int, ec as int),
    {
        let nr = self.rows;
        let nc = self.cols;
        let mr = nr - 1;
        let mc = nc - 1;
        let mut buf: Vec<i64> = Vec::new();
        let mut ii: usize = 0;
        while ii < mr
            invariant
                0 <= ii <= mr,
                mr == self.nrows() - 1,
                mc == self.ncols() - 1,
                nc == self.ncols(),
                1 <= mc,
                er < self.nrows(),
                ec < self.ncols(),
                self.wf(),
                buf@.len() == ii * mc,
                forall|k: int|
                    0 <= k < buf@.len() ==> (#[trigger] buf@[k]) as int == self.at(skip_idx(k / (
                    mc as int), er as int), skip_idx(k % (mc as int), ec as int)),
            decreases mr - ii,
        {
            let mut jj: usize = 0;
            while jj < mc
                invariant
                    0 <= jj <= mc,
                    0 <= ii < mr,
                    mr == self.nrows() - 1,
                    mc == self.ncols() - 1,
                    nc == self.ncols(),
                    1 <= mc,
                    er < self.nrows(),
                    ec < self.ncols(),
                    self.wf(),
                    buf@.len() == ii * mc + jj,
                    forall|k: int|
                        0 <= k < buf@.len() ==> (#[trigger] buf@[k]) as int == self.at(skip_idx(k
                        / (mc as int), er as int), skip_idx(k % (mc as int), ec as int)),
                decreases mc - jj,
            {
                let si = if ii < er { ii } else { ii + 1 };
                let sj = if jj < ec { jj } else { jj + 1 };
                proof {
                    assert(self.mat.len() <= usize::MAX);
                    lemma_flat_index(self.nrows(), self.ncols(), si as int, sj as int);
                    vstd::arithmetic::div_mod::lemma_fundamental_div_mod_converse(ii as int * (
                    mc as int) + jj, mc as int, ii as int, jj as int);
                }
                buf.push(self.mat[si * nc + sj]);
                jj = jj + 1;
            }
            proof {
                assert(ii as int * mc + mc == (ii + 1) as int * mc) by (nonlinear_arith);
            }
            ii = ii + 1;
        }
        let m = Matrix { rows: mr, cols: mc, mat: buf, concurrent: self.concurrent };
        proof {
            assert forall|i: int, j: int|
                0 <= i < m.nrows() && 0 <= j < m.ncols() implies m.at(i, j) == self.at(skip_idx(i,
                er as int), skip_idx(j, ec as int)) by {
                lemma_flat_index(mr as int, mc as int, i, j);
                vstd::arithmetic::div_mod::lemma_fundamental_div_mod_converse(i * (mc as int) + j,
                    mc as int, i, j);
            }
            let gm = det::grid_minor(self.grid(), er as int, ec as int);
            assert forall|i: int| 0 <= i < m.nrows() implies m.grid()[i] == gm[i] by {
                assert(m.grid()[i] =~= gm[i]);
            }
            assert(m.grid() =~= gm);
        }
        m
    }

    /// The determinant by direct expansion along the first column.
    fn det_rec(&self) -> (r: i64)
        requires
            self.wf(),
            self.nrows() == self.ncols(),
            det::det_fits(self.grid(), self.nrows()),
        ensures
            r as int == det::det(self.grid(), self.nrows()),
        decreases self.nrows(),
    {
        let n = self.rows;
        if n == 1 {
            proof {
                assert(self.flat().len() == 1) by {
                    assert(self.nrows() * self.ncols() == 1) by (nonlinear_arith)
                        requires self.nrows() == 1 && self.ncols() == 1;
                }
                assert(self.mat@.len() == 1);
                assert(self.at(0, 0) == self.flat()[0]);
            }
            return self.mat[0];
        }
        let ghost g = self.grid();
        let mut acc: i64 = 0;
        let mut i: usize = 0;
        while i < n
            invariant
                0 <= i <= n,
                n == self.nrows(),
                2 <= n,
                self.wf(),
                self.nrows() == self.ncols(),
                g == self.grid(),
                det::det_fits(g, n as int),
                acc as int == det::det_expand(g, n as int, i as int),
            decreases n - i,
        {
            let minor = self.minor_inner(i, 0);
            proof {
                assert(det::det_fits(det::grid_minor(g, i as int, 0), n - 1));
            }
            let sub = minor.det_rec();
            proof {
                assert(self.mat.len() <= usize::MAX);
                lemma_flat_index(self.nrows(), self.ncols(), i as int, 0);
                det::lemma_det_step_fits(g, n as int, i as int);
                assert(g[i as int][0] == self.at(i as int, 0));
                assert(self.at(i as int, 0) == self.mat@[i as int * self.ncols()] as int);
            }
            let a_i0 = self.mat[i * self.cols];
            let prod = a_i0 * sub;
            let term = if i % 2 == 0 {
                proof {
                    assert(det::alt_sign(i as int) * (prod as int) == prod as int)
                        by (nonlinear_arith)
                        requires det::alt_sign(i as int) == 1;
                }
                prod
            } else {
                proof {
                    assert(det::alt_sign(i as int) * (prod as int) == -(prod as int))
                        by (nonlinear_arith)
                        requires det::alt_sign(i as int) == -1;
                }
                -prod
            };
            acc = acc + term;
            i = i + 1;
        }
        proof {
            assert(det::det(g, n as int) == det::det_expand(g, n as int, n as int));
        }
        acc
    }

    /// The determinant.  Requires a square matrix; a `1 x 1` matrix is its
    /// single element, and larger sizes expand exactly along the first
    /// column, so a singular matrix yields exactly zero.
    pub fn determinant(&self) -> (r: MatrixResult<i64>)
        requires
            self.wf(),
            self.nrows() == self.ncols() ==> det::det_fits(self.grid(), self.nrows()),
        ensures
            self.nrows() != self.ncols() ==> (r matches Err(e)
                && e matches MatrixError::NotSquareMatrix { rows, cols } && rows == self.nrows()
                && cols == self.ncols()),
            self.nrows() == self.ncols() ==> (r matches Ok(v) && v as int == det::det(self.grid(),
                self.nrows())),
    {
        if self.rows != self.cols {
            return Err(MatrixError::NotSquareMatrix { rows: self.rows, cols: self.cols });
        }
        Ok(self.det_rec())
    }

    /// Computes the block of the cofactor matrix that the partition assigns
    /// to task `i` of `t` (partitioned by rows).
    fn cof_block(&self, t: usize, i: usize) -> (out: Vec<i64>)
        requires
            1 <= t,
            i < t,
            self.wf(),
            self.nrows() == self.ncols(),
            self.nrows() >= 2,
            det::cof_fits(self.grid(), self.nrows()),
        ensures
            out@.len() == (partition::task_hi(self.nrows(), t as int, i as int)
                - partition::task_lo(self.nrows(), t as int, i as int)) * self.nrows(),
            forall|k: int|
                0 <= k < out@.len() ==> (#[trigger] out@[k]) as int == cof_flat(self,
                    partition::task_lo(self.nrows(), t as int, i as int) * self.nrows() + k),
    {
        let n = self.rows;
        let lo = partition::task_start(n, t, i);
        let hi = partition::task_end(n, t, i);
        let ghost g = self.grid();
        let mut out: Vec<i64> = Vec::new();
        let mut r: usize = lo;
        while r < hi
            invariant
                lo <= r <= hi,
                hi <= n,
                n == self.nrows(),
                2 <= n,
                self.wf(),
                self.nrows() == self.ncols(),
                g == self.grid(),
                det::cof_fits(g, n as int),
                lo == partition::task_lo(self.nrows(), t as int, i as int),
                hi == partition::task_hi(self.nrows(), t as int, i as int),
                out@.len() == (r - lo) * n,
                forall|k: int|
                    0 <= k < out@.len() ==> (#[trigger] out@[k]) as int == cof_flat(self,
                        lo * n + k),
            decreases hi - r,
        {
            let mut j: usize = 0;
            while j < n
                invariant
                    0 <= j <= n,
                    lo <= r < hi,
                    hi <= n,
                    n == self.nrows(),
                    2 <= n,
                    self.wf(),
                    self.nrows() == self.ncols(),
                    g == self.grid(),
                    det::cof_fits(g, n as int),
                    lo == partition::task_lo(self.nrows(), t as int, i as int),
                    hi == partition::task_hi(self.nrows(), t as int, i as int),
                    out@.len() == (r - lo) * n + j,
                    forall|k: int|
                        0 <= k < out@.len() ==> (#[trigger] out@[k]) as int == cof_flat(self,
                            lo * n + k),
                decreases n - j,
            {
                let minor = self.minor_inner(r, j);
                proof {
                    assert(det::det_fits(det::grid_minor(g, r as int, j as int), n - 1));
                    assert(r + j <= 2 * n - 2);
                    assert(2 * n - 2 <= n * n) by (nonlinear_arith)
                        requires n >= 2;
                    assert(self.mat.len() <= usize::MAX);
                }
                let sub = minor.det_rec();
                let term = if (r + j) % 2 == 0 {
                    proof {
                        assert(det::alt_sign(r as int + j as int) * (sub as int) == sub as int)
                            by (nonlinear_arith)
                            requires det::alt_sign(r as int + j as int) == 1;
                    }
                    sub
                } else {
                    proof {
                        assert(det::alt_sign(r as int + j as int) * (sub as int) == -(sub as int))
                            by (nonlinear_arith)
                            requires det::alt_sign(r as int + j as int) == -1;
                    }
                    -sub
                };
                proof {
                    assert(lo * n + (r - lo) * n + j == r * n + j) by (nonlinear_arith);
                    vstd::arithmetic::div_mod::lemma_fundamental_div_mod_converse(r as int * (
                    n as int) + j, n as int, r as int, j as int);
                }
                out.push(term);
                j = j + 1;
            }
            proof {
                assert((r - lo) * n + n == (r + 1 - lo) * n) by (nonlinear_arith);
            }
            r = r + 1;
        }
        out
    }

    /// The cofactor matrix: cell `(i, j)` holds the determinant of the
    /// minor with row `i` and column `j` deleted, with sign `(-1)^(i+j)`.
    /// Requires a square matrix of size at least two; the parallel strategy
    /// partitions the output's rows across tasks.
    pub fn cofactor_matrix(&self) -> (r: MatrixResult<Matrix>)
        requires
            self.wf(),
            self.nrows() == self.ncols() && self.nrows() >= 2 ==> det::cof_fits(self.grid(),
                self.nrows()),
        ensures
            self.nrows() != self.ncols() ==> (r matches Err(e)
                && e matches MatrixError::NotSquareMatrix { rows, cols } && rows == self.nrows()
                && cols == self.ncols()),
            self.nrows() == self.ncols() && self.nrows() == 1 ==> r == MatrixResult::<Matrix>::Err(
                MatrixError::InvalidDimensions),
            self.nrows() == self.ncols() && self.nrows() >= 2 ==> (r matches Ok(m) && m.wf()
                && m.nrows() == self.nrows() && m.ncols() == self.ncols() && m.spec_concurrent()
                == self.spec_concurrent() && forall|i: int, j: int|
                0 <= i < self.nrows() && 0 <= j < self.ncols() ==> m.at(i, j) == det::cof_cell(
                    self.grid(), self.nrows(), i, j)),
    {
        if self.rows != self.cols {
            return Err(MatrixError::NotSquareMatrix { rows: self.rows, cols: self.cols });
        }
        if self.rows == 1 {
            return Err(MatrixError::InvalidDimensions);
        }
        let n = self.rows;
        let ghost expected = Seq::new((self.nrows() * self.nrows()) as nat,
            |idx: int| cof_flat(self, idx));
        let data = if self.concurrent {
            let t = parallel::cpu_count();
            let f = |i: usize| -> (out: Vec<i64>)
                requires
                    1 <= t,
                    i < t,
                    self.wf(),
                    self.nrows() == self.ncols(),
                    self.nrows() >= 2,
                    det::cof_fits(self.grid(), self.nrows()),
                ensures
                    out@.len() == (partition::task_hi(self.nrows(), t as int, i as int)
                        - partition::task_lo(self.nrows(), t as int, i as int)) * self.nrows(),
                    forall|k: int|
                        0 <= k < out@.len() ==> (#[trigger] out@[k]) as int == cof_flat(self,
                            partition::task_lo(self.nrows(), t as int, i as int) * self.nrows()
                            + k),
                { self.cof_block(t, i) };
            let blocks = parallel::par_map(t, f);
            proof {
                assert forall|i: int, k: int|
                    0 <= i < t && 0 <= k < blocks@[i]@.len() implies (#[trigger] blocks@[i]@[k])
                    as int == expected[partition::task_lo(n as int, t as int, i) * n + k] by {
                    assert(call_ensures(f, (i as usize, ), blocks@[i]));
                    partition::lemma_task_range(n as int, t as int, i);
                    let lo = partition::task_lo(n as int, t as int, i);
                    let hi = partition::task_hi(n as int, t as int, i);
                    assert(0 <= lo * n) by (nonlinear_arith)
                        requires 0 <= lo && 0 <= n;
                    assert(lo * n + (hi - lo) * n == hi * n) by (nonlinear_arith);
                    assert(hi * n <= n * n) by (nonlinear_arith)
                        requires hi <= n && 0 <= n;
                }
            }
            parallel::concat_blocks(blocks, n, t, n, Ghost(expected))
        } else {
            let b = self.cof_block(1, 0);
            proof {
                assert(partition::task_lo(n as int, 1int, 0int) * n == 0) by (nonlinear_arith)
                    requires partition::task_lo(n as int, 1int, 0int) == 0;
            }
            b
        };
        let m = Matrix { rows: n, cols: n, mat: data, concurrent: self.concurrent };
        proof {
            assert forall|i: int, j: int|
                0 <= i < self.nrows() && 0 <= j < self.ncols() implies m.at(i, j)
                == det::cof_cell(self.grid(), self.nrows(), i, j) by {
                lemma_flat_index(n as int, n as int, i, j);
                let g2 = i * (n as int) + j;
                vstd::arithmetic::div_mod::lemma_fundamental_div_mod_converse(g2, n as int, i, j);
                assert(m.at(i, j) == m.flat()[g2]);
                assert(m.flat()[g2] == expected[g2]);
            }
        }
        Ok(m)
    }
}

// ---------------------------------------------------------------------------
// Laws of the engine.
// ---------------------------------------------------------------------------

/// Transposing is an involution: if `t1` is the transpose of `a` and `t2`
/// the transpose of `t1` — each as `transpose`'s contract states it — then
/// `t2` has `a`'s shape and `a`'s cells.
pub proof fn lemma_transpose_involution(a: &Matrix, t1: &Matrix, t2: &Matrix)
    requires
        a.wf(),
        t1.wf(),
        t2.wf(),
        t1.nrows() == a.ncols(),
        t1.ncols() == a.nrows(),
        forall|i: int, j: int|
            0 <= i < a.ncols() && 0 <= j < a.nrows() ==> #[trigger] t1.at(i, j) == a.at(j, i),
        t2.nrows() == t1.ncols(),
        t2.ncols() == t1.nrows(),
        forall|i: int, j: int|
            0 <= i < t1.ncols() && 0 <= j < t1.nrows() ==> #[trigger] t2.at(i, j) == t1.at(j, i),
    ensures
        t2.nrows() == a.nrows(),
        t2.ncols() == a.ncols(),
        forall|i: int, j: int|
            0 <= i < a.nrows() && 0 <= j < a.ncols() ==> #[trigger] t2.at(i, j) == a.at(i, j),
{
    assert forall|i: int, j: int|
        0 <= i < a.nrows() && 0 <= j < a.ncols() implies #[trigger] t2.at(i, j) == a.at(i, j) by {
        assert(t2.at(i, j) == t1.at(j, i));
        assert(t1.at(j, i) == a.at(i, j));
    }
}

/// Multiplying by the identity on the right gives the matrix back: if `id`
/// holds the identity cells of size `a.ncols()`, every product cell equals
/// the corresponding cell of `a`.
pub proof fn lemma_multiply_identity(a: &Matrix, id: &Matrix)
    requires
        a.wf(),
        id.wf(),
        id.nrows() == a.ncols(),
        id.ncols() == a.ncols(),
        forall|i: int, j: int|
            0 <= i < id.nrows() && 0 <= j < id.ncols() ==> #[trigger] id.at(i, j) == (if i == j {
                1int
            } else {
                0int
            }),
    ensures
        forall|i: int, j: int|
            0 <= i < a.nrows() && 0 <= j < a.ncols() ==> #[trigger] product_cell(a, id, i, j)
                == a.at(i, j),
{
    let c = a.ncols();
    assert forall|i: int, j: int|
        0 <= i < a.nrows() && 0 <= j < a.ncols() implies #[trigger] product_cell(a, id, i, j)
        == a.at(i, j) by {
        let g = a.grid();
        model::lemma_identity_cell(g, a.nrows(), c, i, j);
        assert(g[i] == a.row_seq(i));
        assert forall|k: int| 0 <= k < c implies model::grid_col(model::identity_grid(c), j)[k]
            == id.col_seq(j)[k] by {
            assert(model::identity_grid(c)[k][j] == (if k == j { 1int } else { 0int }));
        }
        assert(model::grid_col(model::identity_grid(c), j) =~= id.col_seq(j));
        assert(g[i][j] == a.at(i, j));
    }
}

/// Swapping two rows of a square matrix negates its determinant: if `b`
/// holds `a`'s cells with rows `r` and `s` exchanged, the two determinant
/// values are negatives of each other.
pub proof fn lemma_determinant_swap(a: &Matrix, b: &Matrix, r: int, s: int)
    requires
        a.wf(),
        b.wf(),
        a.nrows() == a.ncols(),
        b.nrows() == a.nrows(),
        b.ncols() == a.ncols(),
        2 <= a.nrows(),
        0 <= r < s < a.nrows(),
        forall|j: int| 0 <= j < a.ncols() ==> #[trigger] b.at(r, j) == a.at(s, j),
        forall|j: int| 0 <= j < a.ncols() ==> #[trigger] b.at(s, j) == a.at(r, j),
        forall|i: int, j: int|
            0 <= i < a.nrows() && 0 <= j < a.ncols() && i != r && i != s ==> #[trigger] b.at(i, j)
                == a.at(i, j),
    ensures
        det::det(b.grid(), a.nrows()) == -det::det(a.grid(), a.nrows()),
{
    let n = a.nrows();
    assert forall|i: int| 0 <= i < n implies b.grid()[i] == #[trigger] det::swap_rows(a.grid(), r,
        s)[i] by {
        if i == r {
            assert(b.grid()[i] =~= a.grid()[s]);
        } else if i == s {
            assert(b.grid()[i] =~= a.grid()[r]);
        } else {
            assert(b.grid()[i] =~= a.grid()[i]);
        }
    }
    assert(b.grid() =~= det::swap_rows(a.grid(), r, s));
    assert(model::is_grid(a.grid(), n, n));
    det::lemma_det_swap(a.grid(), n, r, s);
}

/// A square matrix with two identical rows has determinant exactly zero.
pub proof fn lemma_determinant_equal_rows(a: &Matrix, r: int, s: int)
    requires
        a.wf(),
        a.nrows() == a.ncols(),
        2 <= a.nrows(),
        0 <= r < s < a.nrows(),
        forall|j: int| 0 <= j < a.ncols() ==> #[trigger] a.at(r, j) == a.at(s, j),
    ensures
        det::det(a.grid(), a.nrows()) == 0,
{
    let n = a.nrows();
    assert(model::is_grid(a.grid(), n, n));
    assert(a.grid()[r] =~= a.grid()[s]);
    det::lemma_det_equal_rows_zero(a.grid(), n, r, s);
}

/// Allocates a zero-filled buffer for a `rows x cols` matrix.
fn alloc_zeroed(rows: usize, cols: usize) -> (r: Vec<i64>)
    requires
        rows * cols <= usize::MAX,
    ensures
        r@.len() == rows * cols,
        forall|k: int| 0 <= k < r@.len() ==> r@[k] == 0i64,
{
    vec![0i64; rows * cols]
}

} // verus!
