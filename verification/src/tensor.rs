//! The rank-aware tensor family of the engine.
//!
//! A `Tensor` owns a flat, row-major buffer of `i64` elements and an
//! explicit shape; its rank is the shape's length.  Elementwise arithmetic
//! works on any rank, matrix multiplication on ranks one and two.  Every
//! arithmetic entry point takes an [`crate::ExecutionMode`] and all four
//! strategies are proved to compute the identical result.

use vstd::prelude::*;
use vstd::string::StringExecFns;
use crate::errors::{TensorError, TensorResult};
use crate::model;
use crate::parallel;
use crate::partition;
use crate::simd;
use crate::ExecutionMode;

verus! {

broadcast use vstd::std_specs::vec::axiom_spec_len;

/// Product of the first `k` dimensions.
pub open spec fn prod_prefix(s: Seq<int>, k: int) -> int
    decreases k,
{
    if k <= 0 {
        1
    } else {
        prod_prefix(s, k - 1) * s[k - 1]
    }
}

/// A product of dimensions that are all at least one is at least one.
pub proof fn lemma_prod_prefix_pos(s: Seq<int>, k: int)
    requires
        0 <= k <= s.len(),
        forall|i: int| 0 <= i < s.len() ==> s[i] >= 1,
    ensures
        prod_prefix(s, k) >= 1,
    decreases k,
{
    if k > 0 {
        lemma_prod_prefix_pos(s, k - 1);
        assert(prod_prefix(s, k - 1) * s[k - 1] >= 1) by (nonlinear_arith)
            requires prod_prefix(s, k - 1) >= 1 && s[k - 1] >= 1;
    }
}

/// With dimensions at least one, the partial products grow.
pub proof fn lemma_prod_prefix_mono(s: Seq<int>, j: int, k: int)
    requires
        0 <= j <= k <= s.len(),
        forall|i: int| 0 <= i < s.len() ==> s[i] >= 1,
    ensures
        prod_prefix(s, j) <= prod_prefix(s, k),
    decreases k,
{
    if k > j {
        lemma_prod_prefix_mono(s, j, k - 1);
        lemma_prod_prefix_pos(s, k - 1);
        assert(prod_prefix(s, k - 1) <= prod_prefix(s, k - 1) * s[k - 1]) by (nonlinear_arith)
            requires prod_prefix(s, k - 1) >= 1 && s[k - 1] >= 1;
    }
}

/// A dense array of `i64` elements with an explicit shape.
#[derive(Debug, Clone)]
pub struct Tensor {
    data: Vec<i64>,
    rank: usize,
    shape: Vec<usize>,
}

impl Tensor {
    /// The flat row-major buffer, as mathematical integers.
    pub closed spec fn sdata(&self) -> Seq<int> {
        self.data@.map_values(|x: i64| x as int)
    }

    /// The shape, as mathematical integers.
    pub closed spec fn sshape(&self) -> Seq<int> {
        self.shape@.map_values(|x: usize| x as int)
    }

    /// The cached rank.
    pub closed spec fn srank(&self) -> int {
        self.rank as int
    }

    /// The invariant of every live tensor: the rank caches the shape's
    /// length, no dimension is zero, and the buffer holds exactly the
    /// product of the dimensions.
    pub open spec fn wf(&self) -> bool {
        &&& self.srank() == self.sshape().len()
        &&& forall|i: int| 0 <= i < self.sshape().len() ==> #[trigger] self.sshape()[i] >= 1
        &&& self.sdata().len() == prod_prefix(self.sshape(), self.sshape().len() as int)
    }

    /// The row count of a rank-two tensor.
    pub open spec fn trows(&self) -> int {
        self.sshape()[0]
    }

    /// The column count of a rank-two tensor.
    pub open spec fn tcols(&self) -> int {
        self.sshape()[1]
    }

    /// The element at row `i`, column `j` of a rank-two tensor.
    pub open spec fn tat(&self, i: int, j: int) -> int {
        self.sdata()[i * self.tcols() + j]
    }

    /// Row `i` of a rank-two tensor.
    pub open spec fn trow_seq(&self, i: int) -> Seq<int> {
        Seq::new(self.tcols() as nat, |j: int| self.tat(i, j))
    }

    /// Column `j` of a rank-two tensor.
    pub open spec fn tcol_seq(&self, j: int) -> Seq<int> {
        Seq::new(self.trows() as nat, |i: int| self.tat(i, j))
    }

    /// A rank-two tensor's buffer holds `trows * tcols` elements.
    pub proof fn lemma_matrix_len(&self)
        requires
            self.wf(),
            self.srank() == 2,
        ensures
            self.sdata().len() == self.trows() * self.tcols(),
            self.trows() >= 1,
            self.tcols() >= 1,
    {
        let ss = self.sshape();
        assert(prod_prefix(ss, 0) == 1);
        assert(prod_prefix(ss, 1) == prod_prefix(ss, 0) * ss[0]);
        assert(prod_prefix(ss, 2) == prod_prefix(ss, 1) * ss[1]);
        assert((1 * ss[0]) * ss[1] == ss[0] * ss[1]) by (nonlinear_arith);
    }

    /// Wraps a flat buffer with the given shape.  A zero dimension is
    /// rejected first; then the buffer length must equal the product of the
    /// dimensions.
    pub fn new(data: Vec<i64>, shape: &Vec<usize>) -> (r: TensorResult<Tensor>)
        ensures
            (exists|i: int| 0 <= i < shape@.len() && shape@[i] == 0) ==> (r matches Err(e)
                && e matches TensorError::DimensionError(_)),
            (forall|i: int| 0 <= i < shape@.len() ==> shape@[i] >= 1) && data@.len()
                != prod_prefix(shape@.map_values(|x: usize| x as int), shape@.len() as int) ==> (
            r matches Err(e) && e matches TensorError::ShapeMismatch(_)),
            (forall|i: int| 0 <= i < shape@.len() ==> shape@[i] >= 1) && data@.len()
                == prod_prefix(shape@.map_values(|x: usize| x as int), shape@.len() as int) ==> (
            r matches Ok(tn) && tn.wf() && tn.sshape() == shape@.map_values(|x: usize| x as int)
                && tn.srank() == shape@.len() && forall|k: int|
                0 <= k < data@.len() ==> tn.sdata()[k] == data@[k] as int),
    {
        if has_zero_dim(shape) {
            return Err(TensorError::DimensionError(String::from_str(
                "shape contains a zero dimension",
            )));
        }
        let prod = checked_shape_product(shape);
        let ok = match prod {
            Some(p) => p == data.len(),
            None => false,
        };
        if !ok {
            proof {
                assert(data.len() == data@.len());
                let ss = shape@.map_values(|x: usize| x as int);
                if prod is None {
                    lemma_prod_prefix_mono(ss, 0, ss.len() as int);
                }
            }
            return Err(TensorError::ShapeMismatch(String::from_str(
                "data length does not match the shape",
            )));
        }
        let rank = shape.len();
        let tn = Tensor { data, rank, shape: clone_shape(shape) };
        proof {
            assert(tn.shape@ == shape@);
            assert(tn.sshape() == shape@.map_values(|x: usize| x as int));
            assert(tn.sdata().len() == prod_prefix(tn.sshape(), tn.sshape().len() as int));
        }
        Ok(tn)
    }

    /// A zero-filled tensor of the given shape.
    pub fn zeros(shape: &Vec<usize>) -> (r: TensorResult<Tensor>)
        requires
            (forall|i: int| 0 <= i < shape@.len() ==> shape@[i] >= 1) ==> prod_prefix(
                shape@.map_values(|x: usize| x as int), shape@.len() as int) <= usize::MAX,
        ensures
            (exists|i: int| 0 <= i < shape@.len() && shape@[i] == 0) ==> (r matches Err(e)
                && e matches TensorError::DimensionError(_)),
            (forall|i: int| 0 <= i < shape@.len() ==> shape@[i] >= 1) ==> (r matches Ok(tn)
                && tn.wf() && tn.sshape() == shape@.map_values(|x: usize| x as int)
                && tn.srank() == shape@.len() && forall|k: int|
                0 <= k < tn.sdata().len() ==> tn.sdata()[k] == 0),
    {
        Self::filled(shape, 0)
    }

    /// A tensor of ones of the given shape.
    pub fn ones(shape: &Vec<usize>) -> (r: TensorResult<Tensor>)
        requires
            (forall|i: int| 0 <= i < shape@.len() ==> shape@[i] >= 1) ==> prod_prefix(
                shape@.map_values(|x: usize| x as int), shape@.len() as int) <= usize::MAX,
        ensures
            (exists|i: int| 0 <= i < shape@.len() && shape@[i] == 0) ==> (r matches Err(e)
                && e matches TensorError::DimensionError(_)),
            (forall|i: int| 0 <= i < shape@.len() ==> shape@[i] >= 1) ==> (r matches Ok(tn)
                && tn.wf() && tn.sshape() == shape@.map_values(|x: usize| x as int)
                && tn.srank() == shape@.len() && forall|k: int|
                0 <= k < tn.sdata().len() ==> tn.sdata()[k] == 1),
    {
        Self::filled(shape, 1)
    }

    /// A tensor of the given shape with every element set to `value`.
    pub fn fill(shape: &Vec<usize>, value: i64) -> (r: TensorResult<Tensor>)
        requires
            (forall|i: int| 0 <= i < shape@.len() ==> shape@[i] >= 1) ==> prod_prefix(
                shape@.map_values(|x: usize| x as int), shape@.len() as int) <= usize::MAX,
        ensures
            (exists|i: int| 0 <= i < shape@.len() && shape@[i] == 0) ==> (r matches Err(e)
                && e matches TensorError::DimensionError(_)),
            (forall|i: int| 0 <= i < shape@.len() ==> shape@[i] >= 1) ==> (r matches Ok(tn)
                && tn.wf() && tn.sshape() == shape@.map_values(|x: usize| x as int)
                && tn.srank() == shape@.len() && forall|k: int|
                0 <= k < tn.sdata().len() ==> tn.sdata()[k] == value as int),
    {
        Self::filled(shape, value)
    }

    /// Shared body of the filled constructors.
    fn filled(shape: &Vec<usize>, value: i64) -> (r: TensorResult<Tensor>)
        requires
            (forall|i: int| 0 <= i < shape@.len() ==> shape@[i] >= 1) ==> prod_prefix(
                shape@.map_values(|x: usize| x as int), shape@.len() as int) <= usize::MAX,
        ensures
            (exists|i: int| 0 <= i < shape@.len() && shape@[i] == 0) ==> (r matches Err(e)
                && e matches TensorError::DimensionError(_)),
            (forall|i: int| 0 <= i < shape@.len() ==> shape@[i] >= 1) ==> (r matches Ok(tn)
                && tn.wf() && tn.sshape() == shape@.map_values(|x: usize| x as int)
                && tn.srank() == shape@.len() && forall|k: int|
                0 <= k < tn.sdata().len() ==> tn.sdata()[k] == value as int),
    {
        if has_zero_dim(shape) {
            return Err(TensorError::DimensionError(String::from_str(
                "shape contains a zero dimension",
            )));
        }
        let prod = checked_shape_product(shape);
        let p = match prod {
            Some(p) => p,
            None => {
                proof {
                    let ss = shape@.map_values(|x: usize| x as int);
                    lemma_prod_prefix_mono(ss, 0, ss.len() as int);
                }
                // Unreachable: the precondition bounds the product.
                proof {
                    assert(false);
                }
                0
            }
        };
        let rank = shape.len();
        let tn = Tensor { data: vec![value; p], rank, shape: clone_shape(shape) };
        Ok(tn)
    }

    /// A rank-one tensor holding a single value.
    pub fn scalar(value: i64) -> (tn: Tensor)
        ensures
            tn.wf(),
            tn.srank() == 1,
            tn.sshape() == seq![1int],
            tn.sdata() == seq![value as int],
    {
        let tn = Tensor { data: vec![value], rank: 1, shape: vec![1] };
        proof {
            assert(tn.sshape() =~= seq![1int]);
            assert(tn.sdata() =~= seq![value as int]);
            assert(prod_prefix(tn.sshape(), 0) == 1);
            assert(prod_prefix(tn.sshape(), 1) == prod_prefix(tn.sshape(), 0) * tn.sshape()[0]);
        }
        tn
    }

    /// The shape.
    pub fn shape(&self) -> (r: &Vec<usize>)
        ensures
            r@.map_values(|x: usize| x as int) == self.sshape(),
    {
        &self.shape
    }

    /// The rank: the number of dimensions.
    pub fn rank(&self) -> (r: usize)
        ensures
            r == self.srank(),
    {
        self.rank
    }

    /// The total number of elements.
    pub fn size(&self) -> (r: usize)
        ensures
            r == self.sdata().len(),
    {
        self.data.len()
    }

    /// The flat row-major buffer.
    pub fn data(&self) -> (r: &Vec<i64>)
        ensures
            r@.map_values(|x: i64| x as int) == self.sdata(),
            r@.len() == self.sdata().len(),
    {
        &self.data
    }

    /// The first dimension, or `1` for a rank-zero tensor.
    pub fn rows(&self) -> (r: usize)
        requires
            self.wf(),
        ensures
            self.srank() >= 1 ==> r == self.sshape()[0],
            self.srank() == 0 ==> r == 1,
    {
        if self.rank >= 1 {
            self.shape[0]
        } else {
            1
        }
    }

    /// The second dimension, or `1` below rank two.
    pub fn cols(&self) -> (r: usize)
        requires
            self.wf(),
        ensures
            self.srank() >= 2 ==> r == self.sshape()[1],
            self.srank() < 2 ==> r == 1,
    {
        if self.rank >= 2 {
            self.shape[1]
        } else {
            1
        }
    }

    /// The `(rows, cols)` pair.
    pub fn dims(&self) -> (r: (usize, usize))
        requires
            self.wf(),
        ensures
            self.srank() >= 1 ==> r.0 == self.sshape()[0],
            self.srank() == 0 ==> r.0 == 1,
            self.srank() >= 2 ==> r.1 == self.sshape()[1],
            self.srank() < 2 ==> r.1 == 1,
    {
        (self.rows(), self.cols())
    }

    /// Shape equality of two tensors.
    fn check_same_shape(&self, other: &Tensor) -> (r: TensorResult<()>)
        requires
            self.wf(),
            other.wf(),
        ensures
            r is Ok <==> self.sshape() == other.sshape(),
            r is Err ==> (r matches Err(e) && e matches TensorError::ShapeMismatch(_)),
    {
        if self.rank != other.rank {
            proof {
                assert(self.sshape().len() != other.sshape().len());
            }
            return Err(TensorError::ShapeMismatch(String::from_str(
                "tensors have different shapes",
            )));
        }
        let mut i: usize = 0;
        while i < self.rank
            invariant
                0 <= i <= self.srank(),
                self.wf(),
                other.wf(),
                self.srank() == other.srank(),
                forall|q: int| 0 <= q < i ==> self.sshape()[q] == other.sshape()[q],
            decreases self.srank() - i,
        {
            if self.shape[i] != other.shape[i] {
                proof {
                    assert(self.sshape()[i as int] != other.sshape()[i as int]);
                }
                return Err(TensorError::ShapeMismatch(String::from_str(
                    "tensors have different shapes",
                )));
            }
            i = i + 1;
        }
        proof {
            assert(self.sshape() =~= other.sshape());
        }
        Ok(())
    }
}

/// Whether any element of `v` is zero.
fn has_zero_element(v: &Vec<i64>) -> (r: bool)
    ensures
        r <==> exists|i: int| 0 <= i < v@.len() && v@[i] == 0i64,
{
    let mut i: usize = 0;
    while i < v.len()
        invariant
            0 <= i <= v@.len(),
            forall|q: int| 0 <= q < i ==> v@[q] != 0i64,
        decreases v@.len() - i,
    {
        if v[i] == 0 {
            return true;
        }
        i = i + 1;
    }
    false
}

/// Computes `a + b` over the index range `[lo, hi)`, in full lanes when
/// `lanes` asks for it.
fn add_range(a: &Vec<i64>, b: &Vec<i64>, lo: usize, hi: usize, lanes: bool) -> (out: Vec<i64>)
    requires
        a@.len() == b@.len(),
        lo <= hi <= a@.len(),
        forall|k: int| 0 <= k < a@.len() ==> model::in_i64(a@[k] as int + b@[k] as int),
    ensures
        out@.len() == hi - lo,
        forall|k: int|
            0 <= k < out@.len() ==> (#[trigger] out@[k]) as int == a@[lo + k] as int + b@[lo + k] as int,
{
    if lanes {
        return simd::add_slice(a, b, lo, hi);
    }
    let mut out: Vec<i64> = Vec::new();
    let mut g: usize = lo;
    while g < hi
        invariant
            lo <= g <= hi,
            hi <= a@.len(),
            a@.len() == b@.len(),
            forall|k: int| 0 <= k < a@.len() ==> model::in_i64(a@[k] as int + b@[k] as int),
            out@.len() == g - lo,
            forall|k: int|
                0 <= k < out@.len() ==> (#[trigger] out@[k]) as int == a@[lo + k] as int + b@[lo + k] as int,
        decreases hi - g,
    {
        out.push(a[g] + b[g]);
        g = g + 1;
    }
    out
}

/// Computes the elementwise product of `a` and `b` over the index range
/// `[lo, hi)`, in full lanes when `lanes` asks for it.
fn mul_range(a: &Vec<i64>, b: &Vec<i64>, lo: usize, hi: usize, lanes: bool) -> (out: Vec<i64>)
    requires
        a@.len() == b@.len(),
        lo <= hi <= a@.len(),
        forall|k: int| 0 <= k < a@.len() ==> model::in_i64(a@[k] as int * b@[k] as int),
    ensures
        out@.len() == hi - lo,
        forall|k: int|
            0 <= k < out@.len() ==> (#[trigger] out@[k]) as int == a@[lo + k] as int * b@[lo + k] as int,
{
    if lanes {
        return simd::mul_slice(a, b, lo, hi);
    }
    let mut out: Vec<i64> = Vec::new();
    let mut g: usize = lo;
    while g < hi
        invariant
            lo <= g <= hi,
            hi <= a@.len(),
            a@.len() == b@.len(),
            forall|k: int| 0 <= k < a@.len() ==> model::in_i64(a@[k] as int * b@[k] as int),
            out@.len() == g - lo,
            forall|k: int|
                0 <= k < out@.len() ==> (#[trigger] out@[k]) as int == a@[lo + k] as int * b@[lo + k] as int,
        decreases hi - g,
    {
        out.push(a[g] * b[g]);
        g = g + 1;
    }
    out
}

/// Computes `a - b` over the index range `[lo, hi)` with the scalar loop
/// every strategy shares.
fn sub_range(a: &Vec<i64>, b: &Vec<i64>, lo: usize, hi: usize) -> (out: Vec<i64>)
    requires
        a@.len() == b@.len(),
        lo <= hi <= a@.len(),
        forall|k: int| 0 <= k < a@.len() ==> model::in_i64(a@[k] as int - b@[k] as int),
    ensures
        out@.len() == hi - lo,
        forall|k: int|
            0 <= k < out@.len() ==> (#[trigger] out@[k]) as int == a@[lo + k] as int - b@[lo + k] as int,
{
    let mut out: Vec<i64> = Vec::new();
    let mut g: usize = lo;
    while g < hi
        invariant
            lo <= g <= hi,
            hi <= a@.len(),
            a@.len() == b@.len(),
            forall|k: int| 0 <= k < a@.len() ==> model::in_i64(a@[k] as int - b@[k] as int),
            out@.len() == g - lo,
            forall|k: int|
                0 <= k < out@.len() ==> (#[trigger] out@[k]) as int == a@[lo + k] as int - b@[lo + k] as int,
        decreases hi - g,
    {
        out.push(a[g] - b[g]);
        g = g + 1;
    }
    out
}

/// Computes `a / b` elementwise, truncating toward zero, over the index
/// range `[lo, hi)`.
fn div_range(a: &Vec<i64>, b: &Vec<i64>, lo: usize, hi: usize) -> (out: Vec<i64>)
    requires
        a@.len() == b@.len(),
        lo <= hi <= a@.len(),
        forall|k: int| 0 <= k < b@.len() ==> b@[k] != 0i64,
        forall|k: int| 0 <= k < a@.len() ==> model::in_i64(model::div_trunc(a@[k] as int, b@[k] as int)),
    ensures
        out@.len() == hi - lo,
        forall|k: int|
            0 <= k < out@.len() ==> (#[trigger] out@[k]) as int == model::div_trunc(a@[lo + k] as int, b@[lo + k] as int),
{
    let mut out: Vec<i64> = Vec::new();
    let mut g: usize = lo;
    while g < hi
        invariant
            lo <= g <= hi,
            hi <= a@.len(),
            a@.len() == b@.len(),
            forall|k: int| 0 <= k < b@.len() ==> b@[k] != 0i64,
            forall|k: int| 0 <= k < a@.len() ==> model::in_i64(model::div_trunc(a@[k] as int, b@[k] as int)),
            out@.len() == g - lo,
            forall|k: int|
                0 <= k < out@.len() ==> (#[trigger] out@[k]) as int == model::div_trunc(a@[lo + k] as int, b@[lo + k] as int),
        decreases hi - g,
    {
        out.push(a[g].checked_div(b[g]).unwrap());
        g = g + 1;
    }
    out
}

impl Tensor {
    /// Elementwise addition.  Operands must share a shape; all four strategies compute
    /// the identical result.
    pub fn add(&self, other: &Tensor, mode: ExecutionMode) -> (r: TensorResult<Tensor>)
        requires
            self.wf(),
            other.wf(),
            self.sshape() == other.sshape() ==> forall|k: int|
                0 <= k < self.sdata().len() ==> model::in_i64(self.sdata()[k] + other.sdata()[k]),
        ensures
            self.sshape() != other.sshape() ==> (r matches Err(e)
                && e matches TensorError::ShapeMismatch(_)),
            self.sshape() == other.sshape() ==> (r matches Ok(tn) && tn.wf()
                && tn.sshape() == self.sshape() && tn.srank() == self.srank()
                && tn.sdata().len() == self.sdata().len() && forall|k: int|
                0 <= k < self.sdata().len() ==> tn.sdata()[k] == self.sdata()[k] + other.sdata()[k]),
    {
        self.check_same_shape(other)?;
        proof {
            assert(self.sdata().len() == other.sdata().len());
            assert(self.data@.len() == other.data@.len());
            assert(self.sdata().len() == self.data@.len());
            assert forall|k: int|
                0 <= k < self.data@.len() implies self.sdata()[k] == self.data@[k] as int
                && other.sdata()[k] == other.data@[k] as int by {}
            assert forall|k: int|
                0 <= k < self.data@.len() implies model::in_i64(self.data@[k] as int + other.data@[k] as int) by {
                assert(model::in_i64(self.sdata()[k] + other.sdata()[k]));
            }
        }
        let n = self.data.len();
        let lanes = match mode {
            ExecutionMode::SIMD => true,
            ExecutionMode::ParallelSIMD => true,
            _ => false,
        };
        let par = match mode {
            ExecutionMode::Parallel => true,
            ExecutionMode::ParallelSIMD => true,
            _ => false,
        };
        let ghost expected = Seq::new(n as nat, |k: int| self.data@[k] as int + other.data@[k] as int);
        let data = if par {
            let t = parallel::cpu_count();
            let f = |i: usize| -> (out: Vec<i64>)
                requires
                    1 <= t,
                    i < t,
                    self.data@.len() == other.data@.len(),
                    forall|k: int|
                        0 <= k < self.data@.len() ==> model::in_i64(self.data@[k] as int + other.data@[k] as int),
                ensures
                    out@.len() == partition::task_hi(self.data@.len() as int, t as int, i as int)
                        - partition::task_lo(self.data@.len() as int, t as int, i as int),
                    forall|k: int|
                        0 <= k < out@.len() ==> (#[trigger] out@[k]) as int == self.data@[partition::task_lo(self.data@.len() as int, t as int, i as int) + k] as int + other.data@[partition::task_lo(self.data@.len() as int, t as int, i as int) + k] as int,
                {
                    let lo = partition::task_start(self.data.len(), t, i);
                    let hi = partition::task_end(self.data.len(), t, i);
                    add_range(&self.data, &other.data, lo, hi, lanes)
                };
            let blocks = parallel::par_map(t, f);
            proof {
                assert forall|i: int, k: int|
                    0 <= i < t && 0 <= k < blocks@[i]@.len() implies (#[trigger] blocks@[i]@[k])
                    as int == expected[partition::task_lo(n as int, t as int, i) + k] by {
                    assert(call_ensures(f, (i as usize, ), blocks@[i]));
                    partition::lemma_task_range(n as int, t as int, i);
                }
            }
            parallel::concat_blocks(blocks, n, t, 1, Ghost(expected))
        } else {
            add_range(&self.data, &other.data, 0, n, lanes)
        };
        let tn = Tensor { data, rank: self.rank, shape: clone_shape(&self.shape) };
        proof {
            assert forall|k: int|
                0 <= k < self.sdata().len() implies tn.sdata()[k] == expected[k] by {
                assert(tn.sdata()[k] == tn.data@[k] as int);
            }
        }
        Ok(tn)
    }


    /// Elementwise subtraction.  Operands must share a shape; all four strategies compute
    /// the identical result.
    pub fn sub(&self, other: &Tensor, mode: ExecutionMode) -> (r: TensorResult<Tensor>)
        requires
            self.wf(),
            other.wf(),
            self.sshape() == other.sshape() ==> forall|k: int|
                0 <= k < self.sdata().len() ==> model::in_i64(self.sdata()[k] - other.sdata()[k]),
        ensures
            self.sshape() != other.sshape() ==> (r matches Err(e)
                && e matches TensorError::ShapeMismatch(_)),
            self.sshape() == other.sshape() ==> (r matches Ok(tn) && tn.wf()
                && tn.sshape() == self.sshape() && tn.srank() == self.srank()
                && tn.sdata().len() == self.sdata().len() && forall|k: int|
                0 <= k < self.sdata().len() ==> tn.sdata()[k] == self.sdata()[k] - other.sdata()[k]),
    {
        self.check_same_shape(other)?;
        proof {
            assert(self.sdata().len() == other.sdata().len());
            assert(self.data@.len() == other.data@.len());
            assert(self.sdata().len() == self.data@.len());
            assert forall|k: int|
                0 <= k < self.data@.len() implies self.sdata()[k] == self.data@[k] as int
                && other.sdata()[k] == other.data@[k] as int by {}
            assert forall|k: int|
                0 <= k < self.data@.len() implies model::in_i64(self.data@[k] as int - other.data@[k] as int) by {
                assert(model::in_i64(self.sdata()[k] - other.sdata()[k]));
            }
        }
        let n = self.data.len();
        let lanes = match mode {
            ExecutionMode::SIMD => true,
            ExecutionMode::ParallelSIMD => true,
            _ => false,
        };
        let par = match mode {
            ExecutionMode::Parallel => true,
            ExecutionMode::ParallelSIMD => true,
            _ => false,
        };
        let ghost expected = Seq::new(n as nat, |k: int| self.data@[k] as int - other.data@[k] as int);
        let data = if par {
            let t = parallel::cpu_count();
            let f = |i: usize| -> (out: Vec<i64>)
                requires
                    1 <= t,
                    i < t,
                    self.data@.len() == other.data@.len(),
                    forall|k: int|
                        0 <= k < self.data@.len() ==> model::in_i64(self.data@[k] as int - other.data@[k] as int),
                ensures
                    out@.len() == partition::task_hi(self.data@.len() as int, t as int, i as int)
                        - partition::task_lo(self.data@.len() as int, t as int, i as int),
                    forall|k: int|
                        0 <= k < out@.len() ==> (#[trigger] out@[k]) as int == self.data@[partition::task_lo(self.data@.len() as int, t as int, i as int) + k] as int - other.data@[partition::task_lo(self.data@.len() as int, t as int, i as int) + k] as int,
                {
                    let lo = partition::task_start(self.data.len(), t, i);
                    let hi = partition::task_end(self.data.len(), t, i);
                    sub_range(&self.data, &other.data, lo, hi)
                };
            let blocks = parallel::par_map(t, f);
            proof {
                assert forall|i: int, k: int|
                    0 <= i < t && 0 <= k < blocks@[i]@.len() implies (#[trigger] blocks@[i]@[k])
                    as int == expected[partition::task_lo(n as int, t as int, i) + k] by {
                    assert(call_ensures(f, (i as usize, ), blocks@[i]));
                    partition::lemma_task_range(n as int, t as int, i);
                }
            }
            parallel::concat_blocks(blocks, n, t, 1, Ghost(expected))
        } else {
            sub_range(&self.data, &other.data, 0, n)
        };
        let tn = Tensor { data, rank: self.rank, shape: clone_shape(&self.shape) };
        proof {
            assert forall|k: int|
                0 <= k < self.sdata().len() implies tn.sdata()[k] == expected[k] by {
                assert(tn.sdata()[k] == tn.data@[k] as int);
            }
        }
        Ok(tn)
    }


    /// Elementwise (Hadamard) multiplication.  Operands must share a shape; all four strategies compute
    /// the identical result.
    pub fn hadamard(&self, other: &Tensor, mode: ExecutionMode) -> (r: TensorResult<Tensor>)
        requires
            self.wf(),
            other.wf(),
            self.sshape() == other.sshape() ==> forall|k: int|
                0 <= k < self.sdata().len() ==> model::in_i64(self.sdata()[k] * other.sdata()[k]),
        ensures
            self.sshape() != other.sshape() ==> (r matches Err(e)
                && e matches TensorError::ShapeMismatch(_)),
            self.sshape() == other.sshape() ==> (r matches Ok(tn) && tn.wf()
                && tn.sshape() == self.sshape() && tn.srank() == self.srank()
                && tn.sdata().len() == self.sdata().len() && forall|k: int|
                0 <= k < self.sdata().len() ==> tn.sdata()[k] == self.sdata()[k] * other.sdata()[k]),
    {
        self.check_same_shape(other)?;
        proof {
            assert(self.sdata().len() == other.sdata().len());
            assert(self.data@.len() == other.data@.len());
            assert(self.sdata().len() == self.data@.len());
            assert forall|k: int|
                0 <= k < self.data@.len() implies self.sdata()[k] == self.data@[k] as int
                && other.sdata()[k] == other.data@[k] as int by {}
            assert forall|k: int|
                0 <= k < self.data@.len() implies model::in_i64(self.data@[k] as int * other.data@[k] as int) by {
                assert(model::in_i64(self.sdata()[k] * other.sdata()[k]));
            }
        }
        let n = self.data.len();
        let lanes = match mode {
            ExecutionMode::SIMD => true,
            ExecutionMode::ParallelSIMD => true,
            _ => false,
        };
        let par = match mode {
            ExecutionMode::Parallel => true,
            ExecutionMode::ParallelSIMD => true,
            _ => false,
        };
        let ghost expected = Seq::new(n as nat, |k: int| self.data@[k] as int * other.data@[k] as int);
        let data = if par {
            let t = parallel::cpu_count();
            let f = |i: usize| -> (out: Vec<i64>)
                requires
                    1 <= t,
                    i < t,
                    self.data@.len() == other.data@.len(),
                    forall|k: int|
                        0 <= k < self.data@.len() ==> model::in_i64(self.data@[k] as int * other.data@[k] as int),
                ensures
                    out@.len() == partition::task_hi(self.data@.len() as int, t as int, i as int)
                        - partition::task_lo(self.data@.len() as int, t as int, i as int),
                    forall|k: int|
                        0 <= k < out@.len() ==> (#[trigger] out@[k]) as int == self.data@[partition::task_lo(self.data@.len() as int, t as int, i as int) + k] as int * other.data@[partition::task_lo(self.data@.len() as int, t as int, i as int) + k] as int,
                {
                    let lo = partition::task_start(self.data.len(), t, i);
                    let hi = partition::task_end(self.data.len(), t, i);
                    mul_range(&self.data, &other.data, lo, hi, lanes)
                };
            let blocks = parallel::par_map(t, f);
            proof {
                assert forall|i: int, k: int|
                    0 <= i < t && 0 <= k < blocks@[i]@.len() implies (#[trigger] blocks@[i]@[k])
                    as int == expected[partition::task_lo(n as int, t as int, i) + k] by {
                    assert(call_ensures(f, (i as usize, ), blocks@[i]));
                    partition::lemma_task_range(n as int, t as int, i);
                }
            }
            parallel::concat_blocks(blocks, n, t, 1, Ghost(expected))
        } else {
            mul_range(&self.data, &other.data, 0, n, lanes)
        };
        let tn = Tensor { data, rank: self.rank, shape: clone_shape(&self.shape) };
        proof {
            assert forall|k: int|
                0 <= k < self.sdata().len() implies tn.sdata()[k] == expected[k] by {
                assert(tn.sdata()[k] == tn.data@[k] as int);
            }
        }
        Ok(tn)
    }


    /// Elementwise division, truncating toward zero.  Every divisor is
    /// checked against zero before any output is allocated.  Operands must share a shape; all four strategies compute
    /// the identical result.
    pub fn divide(&self, other: &Tensor, mode: ExecutionMode) -> (r: TensorResult<Tensor>)
        requires
            self.wf(),
            other.wf(),
            self.sshape() == other.sshape() && (forall|k: int|
                0 <= k < other.sdata().len() ==> other.sdata()[k] != 0) ==> forall|k: int|
                0 <= k < self.sdata().len() ==> model::in_i64(model::div_trunc(self.sdata()[k],
                other.sdata()[k])),
        ensures
            self.sshape() != other.sshape() ==> (r matches Err(e)
                && e matches TensorError::ShapeMismatch(_)),
            self.sshape() == other.sshape() && (exists|k: int|
                0 <= k < other.sdata().len() && other.sdata()[k] == 0) ==> (r matches Err(e)
                && e matches TensorError::InvalidOperation(_)),
            self.sshape() == other.sshape() && (forall|k: int|
                0 <= k < other.sdata().len() ==> other.sdata()[k] != 0) ==> (r matches Ok(tn) && tn.wf()
                && tn.sshape() == self.sshape() && tn.srank() == self.srank()
                && tn.sdata().len() == self.sdata().len() && forall|k: int|
                0 <= k < self.sdata().len() ==> tn.sdata()[k] == model::div_trunc(self.sdata()[k], other.sdata()[k])),
    {
        self.check_same_shape(other)?;
        proof {
            assert(self.sdata().len() == other.sdata().len());
            assert(self.data@.len() == other.data@.len());
            assert(self.sdata().len() == self.data@.len());
            assert forall|k: int|
                0 <= k < self.data@.len() implies self.sdata()[k] == self.data@[k] as int
                && other.sdata()[k] == other.data@[k] as int by {}
        }
        if has_zero_element(&other.data) {
            proof {
                let w = choose|i: int| 0 <= i < other.data@.len() && other.data@[i] == 0i64;
                assert(other.sdata()[w] == 0);
            }
            return Err(TensorError::InvalidOperation(String::from_str("Division by zero")));
        }
        proof {
            assert forall|k: int| 0 <= k < other.data@.len() implies other.sdata()[k] != 0 by {}
            assert forall|k: int|
                0 <= k < self.data@.len() implies model::in_i64(model::div_trunc(self.data@[
                k] as int, other.data@[k] as int)) by {
                assert(model::in_i64(model::div_trunc(self.sdata()[k], other.sdata()[k])));
            }
        }
        let n = self.data.len();
        let lanes = match mode {
            ExecutionMode::SIMD => true,
            ExecutionMode::ParallelSIMD => true,
            _ => false,
        };
        let par = match mode {
            ExecutionMode::Parallel => true,
            ExecutionMode::ParallelSIMD => true,
            _ => false,
        };
        let ghost expected = Seq::new(n as nat, |k: int| model::div_trunc(self.data@[k] as int, other.data@[k] as int));
        let data = if par {
            let t = parallel::cpu_count();
            let f = |i: usize| -> (out: Vec<i64>)
                requires
                    1 <= t,
                    i < t,
                    self.data@.len() == other.data@.len(),
                    forall|k: int| 0 <= k < other.data@.len() ==> other.data@[k] != 0i64,
                    forall|k: int|
                        0 <= k < self.data@.len() ==> model::in_i64(model::div_trunc(self.data@[k] as int, other.data@[k] as int)),
                ensures
                    out@.len() == partition::task_hi(self.data@.len() as int, t as int, i as int)
                        - partition::task_lo(self.data@.len() as int, t as int, i as int),
                    forall|k: int|
                        0 <= k < out@.len() ==> (#[trigger] out@[k]) as int == model::div_trunc(self.data@[partition::task_lo(self.data@.len() as int, t as int, i as int) + k] as int, other.data@[partition::task_lo(self.data@.len() as int, t as int, i as int) + k] as int),
                {
                    let lo = partition::task_start(self.data.len(), t, i);
                    let hi = partition::task_end(self.data.len(), t, i);
                    div_range(&self.data, &other.data, lo, hi)
                };
            let blocks = parallel::par_map(t, f);
            proof {
                assert forall|i: int, k: int|
                    0 <= i < t && 0 <= k < blocks@[i]@.len() implies (#[trigger] blocks@[i]@[k])
                    as int == expected[partition::task_lo(n as int, t as int, i) + k] by {
                    assert(call_ensures(f, (i as usize, ), blocks@[i]));
                    partition::lemma_task_range(n as int, t as int, i);
                }
            }
            parallel::concat_blocks(blocks, n, t, 1, Ghost(expected))
        } else {
            div_range(&self.data, &other.data, 0, n)
        };
        let tn = Tensor { data, rank: self.rank, shape: clone_shape(&self.shape) };
        proof {
            assert forall|k: int|
                0 <= k < self.sdata().len() implies tn.sdata()[k] == expected[k] by {
                assert(tn.sdata()[k] == tn.data@[k] as int);
            }
        }
        Ok(tn)
    }

}

/// Computes `a * scalar` over the index range `[lo, hi)`, through the
/// lane kernel against a broadcast buffer when `lanes` asks for it.
fn scale_range(a: &Vec<i64>, scalar: i64, lo: usize, hi: usize, lanes: bool) -> (out: Vec<i64>)
    requires
        lo <= hi <= a@.len(),
        forall|k: int| 0 <= k < a@.len() ==> model::in_i64(a@[k] as int * scalar as int),
    ensures
        out@.len() == hi - lo,
        forall|k: int|
            0 <= k < out@.len() ==> (#[trigger] out@[k]) as int == a@[lo + k] as int * scalar
                as int,
{
    if lanes {
        let sv: Vec<i64> = vec![scalar; a.len()];
        return simd::mul_slice(a, &sv, lo, hi);
    }
    let mut out: Vec<i64> = Vec::new();
    let mut g: usize = lo;
    while g < hi
        invariant
            lo <= g <= hi,
            hi <= a@.len(),
            forall|k: int| 0 <= k < a@.len() ==> model::in_i64(a@[k] as int * scalar as int),
            out@.len() == g - lo,
            forall|k: int|
                0 <= k < out@.len() ==> (#[trigger] out@[k]) as int == a@[lo + k] as int * scalar
                    as int,
        decreases hi - g,
    {
        out.push(a[g] * scalar);
        g = g + 1;
    }
    out
}

/// Sums `a[lo .. hi]` left to right.
fn sum_range(a: &Vec<i64>, lo: usize, hi: usize) -> (r: i64)
    requires
        lo <= hi <= a@.len(),
        model::sum_fits(simd::ints_of(a@)),
    ensures
        r as int == model::seg_sum(simd::ints_of(a@), lo as int, hi - lo),
{
    let ghost s = simd::ints_of(a@);
    let mut acc: i64 = 0;
    let mut g: usize = lo;
    while g < hi
        invariant
            lo <= g <= hi,
            hi <= a@.len(),
            s == simd::ints_of(a@),
            model::sum_fits(s),
            acc as int == model::seg_sum(s, lo as int, g - lo),
        decreases hi - g,
    {
        proof {
            model::lemma_seg_fits(s, lo as int, g - lo);
            assert(s[g as int] == a@[g as int] as int);
        }
        acc = acc + a[g];
        g = g + 1;
    }
    acc
}

impl Tensor {
    /// Multiplies every element by `scalar`; all four strategies compute
    /// the identical result.
    pub fn scalar_multiply(&self, scalar: i64, mode: ExecutionMode) -> (r: Tensor)
        requires
            self.wf(),
            forall|k: int|
                0 <= k < self.sdata().len() ==> model::in_i64(self.sdata()[k] * scalar as int),
        ensures
            r.wf(),
            r.sshape() == self.sshape(),
            r.srank() == self.srank(),
            r.sdata().len() == self.sdata().len(),
            forall|k: int|
                0 <= k < self.sdata().len() ==> r.sdata()[k] == self.sdata()[k] * scalar as int,
    {
        proof {
            assert(self.sdata().len() == self.data@.len());
            assert forall|k: int|
                0 <= k < self.data@.len() implies self.sdata()[k] == self.data@[k] as int by {}
            assert forall|k: int|
                0 <= k < self.data@.len() implies model::in_i64(self.data@[k] as int * scalar
                as int) by {
                assert(model::in_i64(self.sdata()[k] * scalar as int));
            }
        }
        let n = self.data.len();
        let lanes = match mode {
            ExecutionMode::SIMD => true,
            ExecutionMode::ParallelSIMD => true,
            _ => false,
        };
        let par = match mode {
            ExecutionMode::Parallel => true,
            ExecutionMode::ParallelSIMD => true,
            _ => false,
        };
        let ghost expected = Seq::new(n as nat, |k: int| self.data@[k] as int * scalar as int);
        let data = if par {
            let t = parallel::cpu_count();
            let f = |i: usize| -> (out: Vec<i64>)
                requires
                    1 <= t,
                    i < t,
                    forall|k: int|
                        0 <= k < self.data@.len() ==> model::in_i64(self.data@[k] as int * scalar
                            as int),
                ensures
                    out@.len() == partition::task_hi(self.data@.len() as int, t as int, i as int)
                        - partition::task_lo(self.data@.len() as int, t as int, i as int),
                    forall|k: int|
                        0 <= k < out@.len() ==> (#[trigger] out@[k]) as int == self.data@[
                            partition::task_lo(self.data@.len() as int, t as int, i as int) + k]
                            as int * scalar as int,
                {
                    let lo = partition::task_start(self.data.len(), t, i);
                    let hi = partition::task_end(self.data.len(), t, i);
                    scale_range(&self.data, scalar, lo, hi, lanes)
                };
            let blocks = parallel::par_map(t, f);
            proof {
                assert forall|i: int, k: int|
                    0 <= i < t && 0 <= k < blocks@[i]@.len() implies (#[trigger] blocks@[i]@[k])
                    as int == expected[partition::task_lo(n as int, t as int, i) + k] by {
                    assert(call_ensures(f, (i as usize, ), blocks@[i]));
                    partition::lemma_task_range(n as int, t as int, i);
                }
            }
            parallel::concat_blocks(blocks, n, t, 1, Ghost(expected))
        } else {
            scale_range(&self.data, scalar, 0, n, lanes)
        };
        let tn = Tensor { data, rank: self.rank, shape: clone_shape(&self.shape) };
        proof {
            assert forall|k: int|
                0 <= k < self.sdata().len() implies tn.sdata()[k] == expected[k] by {
                assert(tn.sdata()[k] == tn.data@[k] as int);
            }
        }
        tn
    }

    /// Multiplies every element by `scalar` on the sequential path.
    pub fn scale(&self, scalar: i64) -> (r: Tensor)
        requires
            self.wf(),
            forall|k: int|
                0 <= k < self.sdata().len() ==> model::in_i64(self.sdata()[k] * scalar as int),
        ensures
            r.wf(),
            r.sshape() == self.sshape(),
            r.srank() == self.srank(),
            r.sdata().len() == self.sdata().len(),
            forall|k: int|
                0 <= k < self.sdata().len() ==> r.sdata()[k] == self.sdata()[k] * scalar as int,
    {
        self.scalar_multiply(scalar, ExecutionMode::Sequential)
    }

    /// Squares every element.
    pub fn square(&self) -> (r: Tensor)
        requires
            self.wf(),
            forall|k: int|
                0 <= k < self.sdata().len() ==> model::in_i64(self.sdata()[k] * self.sdata()[k]),
        ensures
            r.wf(),
            r.sshape() == self.sshape(),
            r.srank() == self.srank(),
            r.sdata().len() == self.sdata().len(),
            forall|k: int|
                0 <= k < self.sdata().len() ==> r.sdata()[k] == self.sdata()[k] * self.sdata()[k],
    {
        proof {
            assert(self.sdata().len() == self.data@.len());
            assert forall|k: int|
                0 <= k < self.data@.len() implies model::in_i64(self.data@[k] as int * self.data@[
                k] as int) by {
                assert(self.sdata()[k] == self.data@[k] as int);
                assert(model::in_i64(self.sdata()[k] * self.sdata()[k]));
            }
        }
        let n = self.data.len();
        let data = mul_range(&self.data, &self.data, 0, n, false);
        let tn = Tensor { data, rank: self.rank, shape: clone_shape(&self.shape) };
        proof {
            assert forall|k: int|
                0 <= k < self.sdata().len() implies tn.sdata()[k] == self.sdata()[k]
                * self.sdata()[k] by {
                assert(tn.sdata()[k] == tn.data@[k] as int);
                assert(self.sdata()[k] == self.data@[k] as int);
            }
        }
        tn
    }

    /// The sum of all elements.  Sequential and parallel folds produce the
    /// identical exact result.
    pub fn sum(&self, mode: ExecutionMode) -> (r: i64)
        requires
            self.wf(),
            model::sum_fits(self.sdata()),
        ensures
            r as int == model::sum_prefix(self.sdata(), self.sdata().len() as int),
    {
        let n = self.data.len();
        proof {
            assert(simd::ints_of(self.data@) =~= self.sdata());
            assert(model::sum_fits(simd::ints_of(self.data@)));
        }
        let par = match mode {
            ExecutionMode::Parallel => true,
            ExecutionMode::ParallelSIMD => true,
            _ => false,
        };
        if par {
            let t = parallel::cpu_count();
            let f = |i: usize| -> (out: i64)
                requires
                    1 <= t,
                    i < t,
                    model::sum_fits(simd::ints_of(self.data@)),
                ensures
                    out as int == model::seg_sum(simd::ints_of(self.data@), partition::task_lo(
                        self.data@.len() as int, t as int, i as int), partition::task_hi(
                        self.data@.len() as int, t as int, i as int) - partition::task_lo(
                        self.data@.len() as int, t as int, i as int)),
                {
                    let lo = partition::task_start(self.data.len(), t, i);
                    let hi = partition::task_end(self.data.len(), t, i);
                    sum_range(&self.data, lo, hi)
                };
            let parts = parallel::par_map(t, f);
            let ghost s = simd::ints_of(self.data@);
            proof {
                assert forall|j: int| 0 <= j < t implies (#[trigger] parts@[j]) as int
                    == model::seg_sum(s, partition::task_lo(n as int, t as int, j),
                    partition::task_hi(n as int, t as int, j) - partition::task_lo(n as int,
                    t as int, j)) by {
                    assert(call_ensures(f, (j as usize, ), parts@[j]));
                }
            }
            let mut total: i64 = 0;
            let mut i: usize = 0;
            while i < t
                invariant
                    i <= t,
                    1 <= t,
                    n == s.len(),
                    s == simd::ints_of(self.data@),
                    model::sum_fits(s),
                    parts@.len() == t,
                    forall|j: int| 0 <= j < t ==> (#[trigger] parts@[j]) as int
                        == model::seg_sum(s, partition::task_lo(n as int, t as int, j),
                        partition::task_hi(n as int, t as int, j) - partition::task_lo(n as int,
                        t as int, j)),
                    total as int == model::sum_prefix(s,
                        if i == 0 { 0int } else { partition::task_hi(n as int, t as int, i - 1) }),
                decreases t - i,
            {
                proof {
                    if i > 0 {
                        partition::lemma_partition_contiguous(n as int, t as int, i as int - 1);
                    }
                    partition::lemma_task_range(n as int, t as int, i as int);
                    let lo = partition::task_lo(n as int, t as int, i as int);
                    let hi = partition::task_hi(n as int, t as int, i as int);
                    model::lemma_sum_split(s, lo, hi - lo);
                    model::lemma_sum_abs_bound(s, hi);
                    model::lemma_abs_seq_nonneg(s);
                    model::lemma_sum_prefix_mono(model::abs_seq(s), hi, n as int);
                    model::lemma_sum_prefix_mono(model::abs_seq(s), 0, hi);
                    assert(partition::task_lo(n as int, t as int, 0int) == 0) by (nonlinear_arith);
                    assert(lo == if i == 0 { 0int } else {
                        partition::task_hi(n as int, t as int, i as int - 1)
                    });
                    assert(parts@[i as int] as int == model::seg_sum(s, lo, hi - lo));
                    assert(total as int == model::sum_prefix(s, lo));
                    assert(total as int + parts@[i as int] as int == model::sum_prefix(s, hi));
                }
                total = total + parts[i];
                i = i + 1;
            }
            proof {
                assert(model::sum_prefix(s, n as int) == model::sum_prefix(self.sdata(),
                    self.sdata().len() as int));
            }
            total
        } else {
            let v = sum_range(&self.data, 0, n);
            proof {
                model::lemma_sum_split(simd::ints_of(self.data@), 0, n as int);
            }
            v
        }
    }

    /// The index of the first maximum of a column vector.
    pub fn argmax(&self) -> (r: TensorResult<usize>)
        requires
            self.wf(),
        ensures
            !(self.srank() == 2 && self.tcols() == 1) ==> (r matches Err(e)
                && e matches TensorError::DimensionError(_)),
            self.srank() == 2 && self.tcols() == 1 ==> (r matches Ok(ix)
                && 0 <= ix < self.sdata().len() && (forall|k: int|
                0 <= k < self.sdata().len() ==> self.sdata()[k] <= self.sdata()[ix as int])
                && (forall|k: int| 0 <= k < ix ==> self.sdata()[k] < self.sdata()[ix as int])),
    {
        if self.rank != 2 || self.shape[1] != 1 {
            return Err(TensorError::DimensionError(String::from_str(
                "argmax only works on column vectors",
            )));
        }
        proof {
            self.lemma_matrix_len();
            assert(self.trows() * 1 == self.trows()) by (nonlinear_arith);
        }
        let n = self.data.len();
        let mut max_idx: usize = 0;
        let mut max_val: i64 = self.data[0];
        let mut i: usize = 1;
        while i < n
            invariant
                1 <= i <= n,
                n == self.sdata().len(),
                max_idx < i,
                self.wf(),
                max_val as int == self.sdata()[max_idx as int],
                forall|k: int| 0 <= k < i ==> self.sdata()[k] <= max_val as int,
                forall|k: int| 0 <= k < max_idx ==> self.sdata()[k] < max_val as int,
            decreases n - i,
        {
            if self.data[i] > max_val {
                max_val = self.data[i];
                max_idx = i;
            }
            i = i + 1;
        }
        Ok(max_idx)
    }
}

/// Cell `(i, j)` of the rank-two product `a * b`.
pub open spec fn tproduct_cell(a: &Tensor, b: &Tensor, i: int, j: int) -> int {
    model::dot(a.trow_seq(i), b.tcol_seq(j))
}

/// The product's flat buffer at position `idx` (the product has
/// `b.tcols()` columns).
pub open spec fn tproduct_flat(a: &Tensor, b: &Tensor, idx: int) -> int {
    tproduct_cell(a, b, idx / b.tcols(), idx % b.tcols())
}

/// Machine-limit condition for the rank-two product `a * b`.
pub open spec fn tproduct_fits(a: &Tensor, b: &Tensor) -> bool {
    forall|i: int, j: int|
        0 <= i < a.trows() && 0 <= j < b.tcols() ==> #[trigger] model::dot_fits(a.trow_seq(i),
            b.tcol_seq(j))
}

/// Computes the rows of the product that the partition assigns to task `i`
/// of `t` with the classic triple loop.
fn tmm_plain_block(a: &Tensor, b: &Tensor, t: usize, i: usize) -> (out: Vec<i64>)
    requires
        1 <= t,
        i < t,
        a.wf(),
        b.wf(),
        a.srank() == 2,
        b.srank() == 2,
        a.tcols() == b.trows(),
        tproduct_fits(a, b),
    ensures
        out@.len() == (partition::task_hi(a.trows(), t as int, i as int) - partition::task_lo(
            a.trows(), t as int, i as int)) * b.tcols(),
        forall|k: int|
            0 <= k < out@.len() ==> (#[trigger] out@[k]) as int == tproduct_flat(a, b,
                partition::task_lo(a.trows(), t as int, i as int) * b.tcols() + k),
{
    proof {
        a.lemma_matrix_len();
        b.lemma_matrix_len();
    }
    let m = a.shape[0];
    let ac = a.shape[1];
    let bc = b.shape[1];
    let lo = partition::task_start(m, t, i);
    let hi = partition::task_end(m, t, i);
    let mut out: Vec<i64> = Vec::new();
    let mut r: usize = lo;
    while r < hi
        invariant
            lo <= r <= hi,
            hi <= a.trows(),
            m == a.trows(),
            ac == a.tcols(),
            bc == b.tcols(),
            a.wf(),
            b.wf(),
            a.srank() == 2,
            b.srank() == 2,
            a.tcols() == b.trows(),
            a.sdata().len() == a.trows() * a.tcols(),
            b.sdata().len() == b.trows() * b.tcols(),
            tproduct_fits(a, b),
            lo == partition::task_lo(a.trows(), t as int, i as int),
            hi == partition::task_hi(a.trows(), t as int, i as int),
            out@.len() == (r - lo) * bc,
            forall|k: int|
                0 <= k < out@.len() ==> (#[trigger] out@[k]) as int == tproduct_flat(a, b,
                    lo * bc + k),
        decreases hi - r,
    {
        let mut j: usize = 0;
        while j < bc
            invariant
                0 <= j <= bc,
                lo <= r < hi,
                hi <= a.trows(),
                m == a.trows(),
                ac == a.tcols(),
                bc == b.tcols(),
                a.wf(),
                b.wf(),
                a.srank() == 2,
                b.srank() == 2,
                a.tcols() == b.trows(),
                a.sdata().len() == a.trows() * a.tcols(),
                b.sdata().len() == b.trows() * b.tcols(),
                tproduct_fits(a, b),
                lo == partition::task_lo(a.trows(), t as int, i as int),
                hi == partition::task_hi(a.trows(), t as int, i as int),
                out@.len() == (r - lo) * bc + j,
                forall|k: int|
                    0 <= k < out@.len() ==> (#[trigger] out@[k]) as int == tproduct_flat(a, b,
                        lo * bc + k),
            decreases bc - j,
        {
            let ghost prods = model::prod_seq(a.trow_seq(r as int), b.tcol_seq(j as int));
            proof {
                assert(model::dot_fits(a.trow_seq(r as int), b.tcol_seq(j as int)));
            }
            let mut acc: i64 = 0;
            let mut k: usize = 0;
            while k < ac
                invariant
                    0 <= k <= ac,
                    r < a.trows(),
                    j < b.tcols(),
                    ac == a.tcols(),
                    bc == b.tcols(),
                    a.wf(),
                    b.wf(),
                    a.srank() == 2,
                    b.srank() == 2,
                    a.tcols() == b.trows(),
                    a.sdata().len() == a.trows() * a.tcols(),
                    b.sdata().len() == b.trows() * b.tcols(),
                    prods == model::prod_seq(a.trow_seq(r as int), b.tcol_seq(j as int)),
                    model::sum_fits(prods),
                    prods.len() == ac,
                    acc as int == model::sum_prefix(prods, k as int),
                decreases ac - k,
            {
                proof {
                    assert(a.data.len() == a.data@.len());
                    assert(b.data.len() == b.data@.len());
                    assert(a.sdata().len() == a.data@.len());
                    assert(b.sdata().len() == b.data@.len());
                    crate::matrix::lemma_flat_index(a.trows(), a.tcols(), r as int, k as int);
                    crate::matrix::lemma_flat_index(b.trows(), b.tcols(), k as int, j as int);
                    model::lemma_sum_step_fits(prods, k as int);
                    assert(prods[k as int] == a.tat(r as int, k as int) * b.tat(k as int,
                        j as int));
                    assert(a.tat(r as int, k as int) == a.data@[r as int * a.tcols() + k] as int);
                    assert(b.tat(k as int, j as int) == b.data@[k as int * b.tcols() + j] as int);
                }
                acc = acc + a.data[r * ac + k] * b.data[k * bc + j];
                k = k + 1;
            }
            proof {
                assert(acc as int == model::dot(a.trow_seq(r as int), b.tcol_seq(j as int)));
                assert(lo * bc + (r - lo) * bc + j == r * bc + j) by (nonlinear_arith);
                vstd::arithmetic::div_mod::lemma_fundamental_div_mod_converse(r as int * (
                bc as int) + j, bc as int, r as int, j as int);
            }
            out.push(acc);
            j = j + 1;
        }
        proof {
            assert((r - lo) * bc + bc == (r + 1 - lo) * bc) by (nonlinear_arith);
        }
        r = r + 1;
    }
    out
}

/// Computes the rows of the product that the partition assigns to task `i`
/// of `t` through the lane dot-product kernel over `a`'s rows and the
/// transposed `bt`'s rows, both accessed contiguously.
fn tmm_simd_block(a: &Tensor, b: &Tensor, bt: &Tensor, t: usize, i: usize) -> (out: Vec<i64>)
    requires
        1 <= t,
        i < t,
        a.wf(),
        b.wf(),
        bt.wf(),
        a.srank() == 2,
        b.srank() == 2,
        bt.srank() == 2,
        a.tcols() == b.trows(),
        bt.trows() == b.tcols(),
        bt.tcols() == b.trows(),
        forall|x: int, y: int|
            0 <= x < bt.trows() && 0 <= y < bt.tcols() ==> #[trigger] bt.tat(x, y) == b.tat(y, x),
        tproduct_fits(a, b),
    ensures
        out@.len() == (partition::task_hi(a.trows(), t as int, i as int) - partition::task_lo(
            a.trows(), t as int, i as int)) * b.tcols(),
        forall|k: int|
            0 <= k < out@.len() ==> (#[trigger] out@[k]) as int == tproduct_flat(a, b,
                partition::task_lo(a.trows(), t as int, i as int) * b.tcols() + k),
{
    proof {
        a.lemma_matrix_len();
        b.lemma_matrix_len();
        bt.lemma_matrix_len();
    }
    let m = a.shape[0];
    let ac = a.shape[1];
    let bc = b.shape[1];
    let lo = partition::task_start(m, t, i);
    let hi = partition::task_end(m, t, i);
    let mut out: Vec<i64> = Vec::new();
    let mut r: usize = lo;
    while r < hi
        invariant
            lo <= r <= hi,
            hi <= a.trows(),
            m == a.trows(),
            ac == a.tcols(),
            bc == b.tcols(),
            a.wf(),
            b.wf(),
            bt.wf(),
            a.srank() == 2,
            b.srank() == 2,
            bt.srank() == 2,
            a.tcols() == b.trows(),
            bt.trows() == b.tcols(),
            bt.tcols() == b.trows(),
            forall|x: int, y: int|
                0 <= x < bt.trows() && 0 <= y < bt.tcols() ==> #[trigger] bt.tat(x, y) == b.tat(
                    y, x),
            a.sdata().len() == a.trows() * a.tcols(),
            b.sdata().len() == b.trows() * b.tcols(),
            bt.sdata().len() == bt.trows() * bt.tcols(),
            tproduct_fits(a, b),
            lo == partition::task_lo(a.trows(), t as int, i as int),
            hi == partition::task_hi(a.trows(), t as int, i as int),
            out@.len() == (r - lo) * bc,
            forall|k: int|
                0 <= k < out@.len() ==> (#[trigger] out@[k]) as int == tproduct_flat(a, b,
                    lo * bc + k),
        decreases hi - r,
    {
        let mut j: usize = 0;
        while j < bc
            invariant
                0 <= j <= bc,
                lo <= r < hi,
                hi <= a.trows(),
                m == a.trows(),
                ac == a.tcols(),
                bc == b.tcols(),
                a.wf(),
                b.wf(),
                bt.wf(),
                a.srank() == 2,
                b.srank() == 2,
                bt.srank() == 2,
                a.tcols() == b.trows(),
                bt.trows() == b.tcols(),
                bt.tcols() == b.trows(),
                forall|x: int, y: int|
                    0 <= x < bt.trows() && 0 <= y < bt.tcols() ==> #[trigger] bt.tat(x, y)
                        == b.tat(y, x),
                a.sdata().len() == a.trows() * a.tcols(),
                b.sdata().len() == b.trows() * b.tcols(),
                bt.sdata().len() == bt.trows() * bt.tcols(),
                tproduct_fits(a, b),
                lo == partition::task_lo(a.trows(), t as int, i as int),
                hi == partition::task_hi(a.trows(), t as int, i as int),
                out@.len() == (r - lo) * bc + j,
                forall|k: int|
                    0 <= k < out@.len() ==> (#[trigger] out@[k]) as int == tproduct_flat(a, b,
                        lo * bc + k),
            decreases bc - j,
        {
            proof {
                assert(a.data.len() == a.data@.len());
                assert(bt.data.len() == bt.data@.len());
                assert(a.sdata().len() == a.data@.len());
                assert(bt.sdata().len() == bt.data@.len());
                assert(r * ac + ac <= a.data@.len()) by (nonlinear_arith)
                    requires 0 <= r < m && a.data@.len() == m * ac && 0 <= ac;
                assert(j * ac + ac <= bt.data@.len()) by (nonlinear_arith)
                    requires 0 <= j < bc && bt.data@.len() == bc * ac && 0 <= ac;
                assert(simd::seg_of(a.data@, r as int * ac, ac as int) =~= a.trow_seq(r as int));
                assert forall|l: int| 0 <= l < ac implies simd::seg_of(bt.data@, j as int * ac,
                    ac as int)[l] == b.tcol_seq(j as int)[l] by {
                    crate::matrix::lemma_flat_index(bt.trows(), bt.tcols(), j as int, l);
                    assert(bt.tat(j as int, l) == bt.data@[j as int * ac + l] as int);
                }
                assert(simd::seg_of(bt.data@, j as int * ac, ac as int) =~= b.tcol_seq(j as int));
                assert(model::dot_fits(a.trow_seq(r as int), b.tcol_seq(j as int)));
            }
            let acc = simd::dot_kernel(&a.data, r * ac, &bt.data, j * ac, ac);
            proof {
                assert(acc as int == model::dot(a.trow_seq(r as int), b.tcol_seq(j as int)));
                assert(lo * bc + (r - lo) * bc + j == r * bc + j) by (nonlinear_arith);
                vstd::arithmetic::div_mod::lemma_fundamental_div_mod_converse(r as int * (
                bc as int) + j, bc as int, r as int, j as int);
            }
            out.push(acc);
            j = j + 1;
        }
        proof {
            assert((r - lo) * bc + bc == (r + 1 - lo) * bc) by (nonlinear_arith);
        }
        r = r + 1;
    }
    out
}

impl Tensor {
    /// The transpose of a rank-two tensor: a fresh tensor with the axes
    /// swapped.
    pub fn transpose(&self) -> (r: TensorResult<Tensor>)
        requires
            self.wf(),
        ensures
            self.srank() != 2 ==> (r matches Err(e) && e matches TensorError::DimensionError(_)),
            self.srank() == 2 ==> (r matches Ok(tn) && tn.wf() && tn.srank() == 2 && tn.trows()
                == self.tcols() && tn.tcols() == self.trows() && forall|i: int, j: int|
                0 <= i < self.tcols() && 0 <= j < self.trows() ==> tn.tat(i, j) == self.tat(j, i)),
    {
        if self.rank != 2 {
            return Err(TensorError::DimensionError(String::from_str(
                "transpose is only supported for rank-two tensors",
            )));
        }
        proof {
            self.lemma_matrix_len();
        }
        let nr = self.shape[0];
        let nc = self.shape[1];
        let mut buf: Vec<i64> = Vec::new();
        let mut j: usize = 0;
        while j < nc
            invariant
                0 <= j <= nc,
                nr == self.trows(),
                nc == self.tcols(),
                self.wf(),
                self.srank() == 2,
                self.sdata().len() == self.trows() * self.tcols(),
                buf@.len() == j * nr,
                forall|k: int|
                    0 <= k < buf@.len() ==> (#[trigger] buf@[k]) as int == self.tat(k % (
                    nr as int), k / (nr as int)),
            decreases nc - j,
        {
            let mut i: usize = 0;
            while i < nr
                invariant
                    0 <= i <= nr,
                    0 <= j < nc,
                    nr == self.trows(),
                    nc == self.tcols(),
                    self.wf(),
                    self.srank() == 2,
                    self.sdata().len() == self.trows() * self.tcols(),
                    buf@.len() == j * nr + i,
                    forall|k: int|
                        0 <= k < buf@.len() ==> (#[trigger] buf@[k]) as int == self.tat(k % (
                        nr as int), k / (nr as int)),
                decreases nr - i,
            {
                proof {
                    assert(self.data.len() == self.data@.len());
                    assert(self.sdata().len() == self.data@.len());
                    crate::matrix::lemma_flat_index(self.trows(), self.tcols(), i as int,
                        j as int);
                    assert(self.tat(i as int, j as int) == self.data@[i as int * self.tcols()
                        + j] as int);
                    vstd::arithmetic::div_mod::lemma_fundamental_div_mod_converse(j as int * (
                    nr as int) + i, nr as int, j as int, i as int);
                }
                buf.push(self.data[i * nc + j]);
                i = i + 1;
            }
            proof {
                assert(j * nr + nr == (j + 1) * nr) by (nonlinear_arith);
            }
            j = j + 1;
        }
        let shape: Vec<usize> = vec![nc, nr];
        let tn = Tensor { data: buf, rank: 2, shape };
        proof {
            assert(tn.sshape() =~= seq![nc as int, nr as int]);
            assert(prod_prefix(tn.sshape(), 0) == 1);
            assert(prod_prefix(tn.sshape(), 1) == prod_prefix(tn.sshape(), 0) * tn.sshape()[0]);
            assert(prod_prefix(tn.sshape(), 2) == prod_prefix(tn.sshape(), 1) * tn.sshape()[1]);
            assert((1 * (nc as int)) * (nr as int) == (nc as int) * (nr as int))
                by (nonlinear_arith);
            assert(nc as int * nr as int == tn.sdata().len());
            assert forall|i: int, j2: int|
                0 <= i < self.tcols() && 0 <= j2 < self.trows() implies tn.tat(i, j2)
                == self.tat(j2, i) by {
                crate::matrix::lemma_flat_index(nc as int, nr as int, i, j2);
                let g = i * (nr as int) + j2;
                vstd::arithmetic::div_mod::lemma_fundamental_div_mod_converse(g, nr as int, i,
                    j2);
                assert(tn.tat(i, j2) == tn.sdata()[g]);
                assert(tn.sdata()[g] == tn.data@[g] as int);
            }
        }
        Ok(tn)
    }

    /// Rank-two multiplication under the chosen strategy.  All four
    /// strategies compute the identical product.
    pub fn multiply(&self, other: &Tensor, mode: ExecutionMode) -> (r: TensorResult<Tensor>)
        requires
            self.wf(),
            other.wf(),
            self.srank() == 2 && other.srank() == 2 && self.tcols() == other.trows()
                ==> tproduct_fits(self, other),
        ensures
            !(self.srank() == 2 && other.srank() == 2) ==> (r matches Err(e)
                && e matches TensorError::DimensionError(_)),
            self.srank() == 2 && other.srank() == 2 && self.tcols() != other.trows() ==> (
            r matches Err(e) && e matches TensorError::ShapeMismatch(_)),
            self.srank() == 2 && other.srank() == 2 && self.tcols() == other.trows() ==> (
            r matches Ok(tn) && tn.wf() && tn.srank() == 2 && tn.trows() == self.trows()
                && tn.tcols() == other.tcols() && forall|i: int, j: int|
                0 <= i < self.trows() && 0 <= j < other.tcols() ==> tn.tat(i, j)
                    == tproduct_cell(self, other, i, j)),
    {
        if self.rank != 2 || other.rank != 2 {
            return Err(TensorError::DimensionError(String::from_str(
                "multiplication requires rank-two tensors",
            )));
        }
        if self.shape[1] != other.shape[0] {
            return Err(TensorError::ShapeMismatch(String::from_str(
                "inner dimensions do not match",
            )));
        }
        proof {
            self.lemma_matrix_len();
            other.lemma_matrix_len();
        }
        let m = self.shape[0];
        let bc = other.shape[1];
        let lanes = match mode {
            ExecutionMode::SIMD => true,
            ExecutionMode::ParallelSIMD => true,
            _ => false,
        };
        let par = match mode {
            ExecutionMode::Parallel => true,
            ExecutionMode::ParallelSIMD => true,
            _ => false,
        };
        let ghost expected = Seq::new((self.trows() * other.tcols()) as nat,
            |idx: int| tproduct_flat(self, other, idx));
        let data = if lanes {
            let bt = match other.transpose() {
                Ok(v) => v,
                Err(_) => {
                    proof {
                        assert(false);
                    }
                    return Err(TensorError::DimensionError(String::from_str(
                        "multiplication requires rank-two tensors",
                    )));
                }
            };
            if par {
                let t = parallel::cpu_count();
                let f = |i: usize| -> (out: Vec<i64>)
                    requires
                        1 <= t,
                        i < t,
                        self.wf(),
                        other.wf(),
                        bt.wf(),
                        self.srank() == 2,
                        other.srank() == 2,
                        bt.srank() == 2,
                        self.tcols() == other.trows(),
                        bt.trows() == other.tcols(),
                        bt.tcols() == other.trows(),
                        forall|x: int, y: int|
                            0 <= x < bt.trows() && 0 <= y < bt.tcols() ==> #[trigger] bt.tat(x, y)
                                == other.tat(y, x),
                        tproduct_fits(self, other),
                    ensures
                        out@.len() == (partition::task_hi(self.trows(), t as int, i as int)
                            - partition::task_lo(self.trows(), t as int, i as int))
                            * other.tcols(),
                        forall|k: int|
                            0 <= k < out@.len() ==> (#[trigger] out@[k]) as int == tproduct_flat(
                                self, other, partition::task_lo(self.trows(), t as int, i as int)
                                * other.tcols() + k),
                    { tmm_simd_block(self, other, &bt, t, i) };
                let blocks = parallel::par_map(t, f);
                proof {
                    assert forall|i: int, k: int|
                        0 <= i < t && 0 <= k < blocks@[i]@.len() implies (#[trigger] blocks@[i]@[
                        k]) as int == expected[partition::task_lo(m as int, t as int, i) * bc
                        + k] by {
                        assert(call_ensures(f, (i as usize, ), blocks@[i]));
                        mm_bridge_one(self, other, blocks@[i]@, expected, m as int, t as int,
                            bc as int, i, k);
                    }
                }
                parallel::concat_blocks(blocks, m, t, bc, Ghost(expected))
            } else {
                let b = tmm_simd_block(self, other, &bt, 1, 0);
                proof {
                    assert(partition::task_lo(m as int, 1int, 0int) * bc == 0)
                        by (nonlinear_arith)
                        requires partition::task_lo(m as int, 1int, 0int) == 0;
                }
                b
            }
        } else {
            if par {
                let t = parallel::cpu_count();
                let f = |i: usize| -> (out: Vec<i64>)
                    requires
                        1 <= t,
                        i < t,
                        self.wf(),
                        other.wf(),
                        self.srank() == 2,
                        other.srank() == 2,
                        self.tcols() == other.trows(),
                        tproduct_fits(self, other),
                    ensures
                        out@.len() == (partition::task_hi(self.trows(), t as int, i as int)
                            - partition::task_lo(self.trows(), t as int, i as int))
                            * other.tcols(),
                        forall|k: int|
                            0 <= k < out@.len() ==> (#[trigger] out@[k]) as int == tproduct_flat(
                                self, other, partition::task_lo(self.trows(), t as int, i as int)
                                * other.tcols() + k),
                    { tmm_plain_block(self, other, t, i) };
                let blocks = parallel::par_map(t, f);
                proof {
                    assert forall|i: int, k: int|
                        0 <= i < t && 0 <= k < blocks@[i]@.len() implies (#[trigger] blocks@[i]@[
                        k]) as int == expected[partition::task_lo(m as int, t as int, i) * bc
                        + k] by {
                        assert(call_ensures(f, (i as usize, ), blocks@[i]));
                        mm_bridge_one(self, other, blocks@[i]@, expected, m as int, t as int,
                            bc as int, i, k);
                    }
                }
                parallel::concat_blocks(blocks, m, t, bc, Ghost(expected))
            } else {
                let b = tmm_plain_block(self, other, 1, 0);
                proof {
                    assert(partition::task_lo(m as int, 1int, 0int) * bc == 0)
                        by (nonlinear_arith)
                        requires partition::task_lo(m as int, 1int, 0int) == 0;
                }
                b
            }
        };
        let shape: Vec<usize> = vec![m, bc];
        let tn = Tensor { data, rank: 2, shape };
        proof {
            assert(tn.sshape() =~= seq![m as int, bc as int]);
            assert(prod_prefix(tn.sshape(), 0) == 1);
            assert(prod_prefix(tn.sshape(), 1) == prod_prefix(tn.sshape(), 0) * tn.sshape()[0]);
            assert(prod_prefix(tn.sshape(), 2) == prod_prefix(tn.sshape(), 1) * tn.sshape()[1]);
            assert((1 * (m as int)) * (bc as int) == (m as int) * (bc as int))
                by (nonlinear_arith);
            assert forall|i: int, j: int|
                0 <= i < self.trows() && 0 <= j < other.tcols() implies tn.tat(i, j)
                == tproduct_cell(self, other, i, j) by {
                crate::matrix::lemma_flat_index(m as int, bc as int, i, j);
                let g = i * (bc as int) + j;
                vstd::arithmetic::div_mod::lemma_fundamental_div_mod_converse(g, bc as int, i, j);
                assert(tn.tat(i, j) == tn.sdata()[g]);
                assert(tn.sdata()[g] == tn.data@[g] as int);
            }
        }
        Ok(tn)
    }
}

/// Range fact used when assembling product blocks: a block index stays
/// inside the whole product buffer.
proof fn mm_bridge_one(a: &Tensor, b: &Tensor, block: Seq<i64>, expected: Seq<int>, m: int, t: int,
    bc: int, i: int, k: int)
    requires
        1 <= t,
        0 <= i < t,
        0 <= m,
        0 <= bc,
        m == a.trows(),
        bc == b.tcols(),
        expected.len() == m * bc,
        expected == Seq::new((a.trows() * b.tcols()) as nat, |idx: int| tproduct_flat(a, b, idx)),
        block.len() == (partition::task_hi(m, t, i) - partition::task_lo(m, t, i)) * bc,
        0 <= k < block.len(),
        block[k] as int == tproduct_flat(a, b, partition::task_lo(m, t, i) * bc + k),
    ensures
        block[k] as int == expected[partition::task_lo(m, t, i) * bc + k],
{
    partition::lemma_task_range(m, t, i);
    let lo = partition::task_lo(m, t, i);
    let hi = partition::task_hi(m, t, i);
    assert(0 <= lo * bc) by (nonlinear_arith)
        requires 0 <= lo && 0 <= bc;
    assert(lo * bc + (hi - lo) * bc == hi * bc) by (nonlinear_arith);
    assert(hi * bc <= m * bc) by (nonlinear_arith)
        requires hi <= m && 0 <= bc;
}

/// Machine-limit condition for a matrix--vector product.
pub open spec fn mv_fits(a: &Tensor, v: &Tensor) -> bool {
    forall|i: int| 0 <= i < a.trows() ==> #[trigger] model::dot_fits(a.trow_seq(i), v.sdata())
}

/// Machine-limit condition for a vector--matrix product.
pub open spec fn vm_fits(v: &Tensor, a: &Tensor) -> bool {
    forall|j: int| 0 <= j < a.tcols() ==> #[trigger] model::dot_fits(v.sdata(), a.tcol_seq(j))
}

/// Computes the rows of the matrix--vector product that the partition
/// assigns to task `i` of `t`, one lane dot product per row.
fn mv_block(a: &Tensor, v: &Tensor, t: usize, i: usize) -> (out: Vec<i64>)
    requires
        1 <= t,
        i < t,
        a.wf(),
        v.wf(),
        a.srank() == 2,
        v.srank() == 1,
        a.tcols() == v.sdata().len(),
        mv_fits(a, v),
    ensures
        out@.len() == partition::task_hi(a.trows(), t as int, i as int) - partition::task_lo(
            a.trows(), t as int, i as int),
        forall|k: int|
            0 <= k < out@.len() ==> (#[trigger] out@[k]) as int == model::dot(a.trow_seq(
                partition::task_lo(a.trows(), t as int, i as int) + k), v.sdata()),
{
    proof {
        a.lemma_matrix_len();
    }
    let m = a.shape[0];
    let n = a.shape[1];
    let lo = partition::task_start(m, t, i);
    let hi = partition::task_end(m, t, i);
    let mut out: Vec<i64> = Vec::new();
    let mut r: usize = lo;
    while r < hi
        invariant
            lo <= r <= hi,
            hi <= a.trows(),
            m == a.trows(),
            n == a.tcols(),
            a.wf(),
            v.wf(),
            a.srank() == 2,
            v.srank() == 1,
            a.tcols() == v.sdata().len(),
            a.sdata().len() == a.trows() * a.tcols(),
            mv_fits(a, v),
            lo == partition::task_lo(a.trows(), t as int, i as int),
            hi == partition::task_hi(a.trows(), t as int, i as int),
            out@.len() == r - lo,
            forall|k: int|
                0 <= k < out@.len() ==> (#[trigger] out@[k]) as int == model::dot(a.trow_seq(
                    lo + k), v.sdata()),
        decreases hi - r,
    {
        proof {
            assert(a.data.len() == a.data@.len());
            assert(v.data.len() == v.data@.len());
            assert(a.sdata().len() == a.data@.len());
            assert(v.sdata().len() == v.data@.len());
            assert(r * n + n <= a.data@.len()) by (nonlinear_arith)
                requires 0 <= r < m && a.data@.len() == m * n && 0 <= n;
            assert(simd::seg_of(a.data@, r as int * n, n as int) =~= a.trow_seq(r as int));
            assert(simd::seg_of(v.data@, 0, n as int) =~= v.sdata());
        }
        let cell = simd::dot_kernel(&a.data, r * n, &v.data, 0, n);
        out.push(cell);
        r = r + 1;
    }
    out
}

/// Computes the columns of the vector--matrix product that the partition
/// assigns to task `i` of `t`.
fn vm_block(v: &Tensor, a: &Tensor, t: usize, i: usize) -> (out: Vec<i64>)
    requires
        1 <= t,
        i < t,
        a.wf(),
        v.wf(),
        a.srank() == 2,
        v.srank() == 1,
        a.trows() == v.sdata().len(),
        vm_fits(v, a),
    ensures
        out@.len() == partition::task_hi(a.tcols(), t as int, i as int) - partition::task_lo(
            a.tcols(), t as int, i as int),
        forall|k: int|
            0 <= k < out@.len() ==> (#[trigger] out@[k]) as int == model::dot(v.sdata(),
                a.tcol_seq(partition::task_lo(a.tcols(), t as int, i as int) + k)),
{
    proof {
        a.lemma_matrix_len();
    }
    let m = a.shape[0];
    let n = a.shape[1];
    let lo = partition::task_start(n, t, i);
    let hi = partition::task_end(n, t, i);
    let mut out: Vec<i64> = Vec::new();
    let mut j: usize = lo;
    while j < hi
        invariant
            lo <= j <= hi,
            hi <= a.tcols(),
            m == a.trows(),
            n == a.tcols(),
            a.wf(),
            v.wf(),
            a.srank() == 2,
            v.srank() == 1,
            a.trows() == v.sdata().len(),
            a.sdata().len() == a.trows() * a.tcols(),
            vm_fits(v, a),
            lo == partition::task_lo(a.tcols(), t as int, i as int),
            hi == partition::task_hi(a.tcols(), t as int, i as int),
            out@.len() == j - lo,
            forall|k: int|
                0 <= k < out@.len() ==> (#[trigger] out@[k]) as int == model::dot(v.sdata(),
                    a.tcol_seq(lo + k)),
        decreases hi - j,
    {
        let ghost prods = model::prod_seq(v.sdata(), a.tcol_seq(j as int));
        proof {
            assert(model::dot_fits(v.sdata(), a.tcol_seq(j as int)));
        }
        let mut acc: i64 = 0;
        let mut k: usize = 0;
        while k < m
            invariant
                0 <= k <= m,
                lo <= j < hi,
                hi <= a.tcols(),
                m == a.trows(),
                n == a.tcols(),
                a.wf(),
                v.wf(),
                a.srank() == 2,
                v.srank() == 1,
                a.trows() == v.sdata().len(),
                a.sdata().len() == a.trows() * a.tcols(),
                prods == model::prod_seq(v.sdata(), a.tcol_seq(j as int)),
                model::sum_fits(prods),
                prods.len() == m,
                acc as int == model::sum_prefix(prods, k as int),
            decreases m - k,
        {
            proof {
                assert(a.data.len() == a.data@.len());
                assert(v.data.len() == v.data@.len());
                assert(a.sdata().len() == a.data@.len());
                assert(v.sdata().len() == v.data@.len());
                crate::matrix::lemma_flat_index(a.trows(), a.tcols(), k as int, j as int);
                model::lemma_sum_step_fits(prods, k as int);
                assert(prods[k as int] == v.sdata()[k as int] * a.tat(k as int, j as int));
                assert(v.sdata()[k as int] == v.data@[k as int] as int);
                assert(a.tat(k as int, j as int) == a.data@[k as int * a.tcols() + j] as int);
            }
            acc = acc + v.data[k] * a.data[k * n + j];
            k = k + 1;
        }
        proof {
            assert(acc as int == model::dot(v.sdata(), a.tcol_seq(j as int)));
        }
        out.push(acc);
        j = j + 1;
    }
    out
}

impl Tensor {
    /// The dot product of two rank-one tensors, as a one-element tensor.
    fn vector_dot(&self, other: &Tensor) -> (r: TensorResult<Tensor>)
        requires
            self.wf(),
            other.wf(),
            self.srank() == 1,
            other.srank() == 1,
            self.sdata().len() == other.sdata().len() ==> model::dot_fits(self.sdata(),
                other.sdata()),
        ensures
            self.sdata().len() != other.sdata().len() ==> (r matches Err(e)
                && e matches TensorError::ShapeMismatch(_)),
            self.sdata().len() == other.sdata().len() ==> (r matches Ok(tn) && tn.wf()
                && tn.srank() == 1 && tn.sdata().len() == 1 && tn.sdata()[0] == model::dot(
                self.sdata(), other.sdata())),
    {
        if self.shape[0] != other.shape[0] {
            proof {
                assert(prod_prefix(self.sshape(), 1) == prod_prefix(self.sshape(), 0)
                    * self.sshape()[0]);
                assert(prod_prefix(other.sshape(), 1) == prod_prefix(other.sshape(), 0)
                    * other.sshape()[0]);
            }
            return Err(TensorError::ShapeMismatch(String::from_str(
                "vector lengths do not match",
            )));
        }
        let n = self.data.len();
        proof {
            assert(prod_prefix(self.sshape(), 1) == prod_prefix(self.sshape(), 0)
                * self.sshape()[0]);
            assert(prod_prefix(other.sshape(), 1) == prod_prefix(other.sshape(), 0)
                * other.sshape()[0]);
            assert(self.sdata().len() == other.sdata().len());
            assert(self.data@.len() == other.data@.len());
            assert(simd::seg_of(self.data@, 0, n as int) =~= self.sdata());
            assert(simd::seg_of(other.data@, 0, n as int) =~= other.sdata());
        }
        let d = simd::dot_kernel(&self.data, 0, &other.data, 0, n);
        let tn = Tensor { data: vec![d], rank: 1, shape: vec![1] };
        proof {
            assert(tn.sshape() =~= seq![1int]);
            assert(tn.sdata() =~= seq![d as int]);
            assert(prod_prefix(tn.sshape(), 0) == 1);
            assert(prod_prefix(tn.sshape(), 1) == prod_prefix(tn.sshape(), 0) * tn.sshape()[0]);
        }
        Ok(tn)
    }

    /// The matrix--vector product, one dot product per output row, the
    /// rows partitioned across tasks.
    fn matrix_vector_multiply(&self, v: &Tensor) -> (r: TensorResult<Tensor>)
        requires
            self.wf(),
            v.wf(),
            self.srank() == 2,
            v.srank() == 1,
            self.tcols() == v.sdata().len() ==> mv_fits(self, v),
        ensures
            self.tcols() != v.sdata().len() ==> (r matches Err(e)
                && e matches TensorError::ShapeMismatch(_)),
            self.tcols() == v.sdata().len() ==> (r matches Ok(tn) && tn.wf() && tn.srank() == 1
                && tn.sdata().len() == self.trows() && forall|i: int|
                0 <= i < self.trows() ==> tn.sdata()[i] == model::dot(self.trow_seq(i),
                    v.sdata())),
    {
        proof {
            assert(prod_prefix(v.sshape(), 1) == prod_prefix(v.sshape(), 0) * v.sshape()[0]);
        }
        if self.shape[1] != v.shape[0] {
            return Err(TensorError::ShapeMismatch(String::from_str(
                "matrix columns must match the vector length",
            )));
        }
        proof {
            self.lemma_matrix_len();
        }
        let m = self.shape[0];
        let ghost expected = Seq::new(self.trows() as nat,
            |i: int| model::dot(self.trow_seq(i), v.sdata()));
        let t = parallel::cpu_count();
        let f = |i: usize| -> (out: Vec<i64>)
            requires
                1 <= t,
                i < t,
                self.wf(),
                v.wf(),
                self.srank() == 2,
                v.srank() == 1,
                self.tcols() == v.sdata().len(),
                mv_fits(self, v),
            ensures
                out@.len() == partition::task_hi(self.trows(), t as int, i as int)
                    - partition::task_lo(self.trows(), t as int, i as int),
                forall|k: int|
                    0 <= k < out@.len() ==> (#[trigger] out@[k]) as int == model::dot(
                        self.trow_seq(partition::task_lo(self.trows(), t as int, i as int) + k),
                        v.sdata()),
            { mv_block(self, v, t, i) };
        let blocks = parallel::par_map(t, f);
        proof {
            assert forall|i: int, k: int|
                0 <= i < t && 0 <= k < blocks@[i]@.len() implies (#[trigger] blocks@[i]@[k])
                as int == expected[partition::task_lo(m as int, t as int, i) + k] by {
                assert(call_ensures(f, (i as usize, ), blocks@[i]));
                partition::lemma_task_range(m as int, t as int, i);
            }
        }
        let data = parallel::concat_blocks(blocks, m, t, 1, Ghost(expected));
        let tn = Tensor { data, rank: 1, shape: vec![m] };
        proof {
            assert(tn.sshape() =~= seq![m as int]);
            assert(prod_prefix(tn.sshape(), 0) == 1);
            assert(prod_prefix(tn.sshape(), 1) == prod_prefix(tn.sshape(), 0) * tn.sshape()[0]);
            assert forall|i: int| 0 <= i < self.trows() implies tn.sdata()[i] == expected[i] by {
                assert(tn.sdata()[i] == tn.data@[i] as int);
            }
        }
        Ok(tn)
    }

    /// The vector--matrix product, one dot product per output column, the
    /// columns partitioned across tasks.
    fn vector_matrix_multiply(&self, v: &Tensor) -> (r: TensorResult<Tensor>)
        requires
            self.wf(),
            v.wf(),
            self.srank() == 2,
            v.srank() == 1,
            self.trows() == v.sdata().len() ==> vm_fits(v, self),
        ensures
            self.trows() != v.sdata().len() ==> (r matches Err(e)
                && e matches TensorError::ShapeMismatch(_)),
            self.trows() == v.sdata().len() ==> (r matches Ok(tn) && tn.wf() && tn.srank() == 1
                && tn.sdata().len() == self.tcols() && forall|j: int|
                0 <= j < self.tcols() ==> tn.sdata()[j] == model::dot(v.sdata(), self.tcol_seq(
                    j))),
    {
        proof {
            assert(prod_prefix(v.sshape(), 1) == prod_prefix(v.sshape(), 0) * v.sshape()[0]);
        }
        if v.shape[0] != self.shape[0] {
            return Err(TensorError::ShapeMismatch(String::from_str(
                "vector length must match the matrix rows",
            )));
        }
        proof {
            self.lemma_matrix_len();
        }
        let n = self.shape[1];
        let ghost expected = Seq::new(self.tcols() as nat,
            |j: int| model::dot(v.sdata(), self.tcol_seq(j)));
        let t = parallel::cpu_count();
        let f = |i: usize| -> (out: Vec<i64>)
            requires
                1 <= t,
                i < t,
                self.wf(),
                v.wf(),
                self.srank() == 2,
                v.srank() == 1,
                self.trows() == v.sdata().len(),
                vm_fits(v, self),
            ensures
                out@.len() == partition::task_hi(self.tcols(), t as int, i as int)
                    - partition::task_lo(self.tcols(), t as int, i as int),
                forall|k: int|
                    0 <= k < out@.len() ==> (#[trigger] out@[k]) as int == model::dot(v.sdata(),
                        self.tcol_seq(partition::task_lo(self.tcols(), t as int, i as int) + k)),
            { vm_block(v, self, t, i) };
        let blocks = parallel::par_map(t, f);
        proof {
            assert forall|i: int, k: int|
                0 <= i < t && 0 <= k < blocks@[i]@.len() implies (#[trigger] blocks@[i]@[k])
                as int == expected[partition::task_lo(n as int, t as int, i) + k] by {
                assert(call_ensures(f, (i as usize, ), blocks@[i]));
                partition::lemma_task_range(n as int, t as int, i);
            }
        }
        let data = parallel::concat_blocks(blocks, n, t, 1, Ghost(expected));
        let tn = Tensor { data, rank: 1, shape: vec![n] };
        proof {
            assert(tn.sshape() =~= seq![n as int]);
            assert(prod_prefix(tn.sshape(), 0) == 1);
            assert(prod_prefix(tn.sshape(), 1) == prod_prefix(tn.sshape(), 0) * tn.sshape()[0]);
            assert forall|j: int| 0 <= j < self.tcols() implies tn.sdata()[j] == expected[j] by {
                assert(tn.sdata()[j] == tn.data@[j] as int);
            }
        }
        Ok(tn)
    }

    /// Generalized multiplication, dispatched on the operands' ranks:
    /// matrix times matrix, vector dot vector, matrix times vector, and
    /// vector times matrix; any other combination is rejected.
    pub fn matmul(&self, other: &Tensor) -> (r: TensorResult<Tensor>)
        requires
            self.wf(),
            other.wf(),
            self.srank() == 2 && other.srank() == 2 && self.tcols() == other.trows()
                ==> tproduct_fits(self, other),
            self.srank() == 1 && other.srank() == 1 && self.sdata().len()
                == other.sdata().len() ==> model::dot_fits(self.sdata(), other.sdata()),
            self.srank() == 2 && other.srank() == 1 && self.tcols() == other.sdata().len()
                ==> mv_fits(self, other),
            self.srank() == 1 && other.srank() == 2 && other.trows() == self.sdata().len()
                ==> vm_fits(self, other),
        ensures
            self.srank() == 2 && other.srank() == 2 && self.tcols() == other.trows() ==> (
            r matches Ok(tn) && tn.wf() && tn.srank() == 2 && tn.trows() == self.trows()
                && tn.tcols() == other.tcols() && forall|i: int, j: int|
                0 <= i < self.trows() && 0 <= j < other.tcols() ==> tn.tat(i, j)
                    == tproduct_cell(self, other, i, j)),
            self.srank() == 1 && other.srank() == 1 && self.sdata().len()
                == other.sdata().len() ==> (r matches Ok(tn) && tn.wf() && tn.srank() == 1
                && tn.sdata().len() == 1 && tn.sdata()[0] == model::dot(self.sdata(),
                other.sdata())),
            self.srank() == 2 && other.srank() == 1 && self.tcols() == other.sdata().len() ==> (
            r matches Ok(tn) && tn.wf() && tn.srank() == 1 && tn.sdata().len() == self.trows()
                && forall|i: int|
                0 <= i < self.trows() ==> tn.sdata()[i] == model::dot(self.trow_seq(i),
                    other.sdata())),
            self.srank() == 1 && other.srank() == 2 && other.trows() == self.sdata().len() ==> (
            r matches Ok(tn) && tn.wf() && tn.srank() == 1 && tn.sdata().len() == other.tcols()
                && forall|j: int|
                0 <= j < other.tcols() ==> tn.sdata()[j] == model::dot(self.sdata(),
                    other.tcol_seq(j))),
            !(self.srank() == 1 || self.srank() == 2) || !(other.srank() == 1 || other.srank()
                == 2) ==> (r matches Err(e) && e matches TensorError::InvalidOperation(_)),
    {
        if self.rank == 2 && other.rank == 2 {
            self.multiply(other, ExecutionMode::Parallel)
        } else if self.rank == 1 && other.rank == 1 {
            self.vector_dot(other)
        } else if self.rank == 2 && other.rank == 1 {
            self.matrix_vector_multiply(other)
        } else if self.rank == 1 && other.rank == 2 {
            other.vector_matrix_multiply(self)
        } else {
            Err(TensorError::InvalidOperation(String::from_str(
                "tensor multiplication is not supported for these ranks",
            )))
        }
    }
}

/// Strategy equivalence for the elementwise engine: two results that both
/// meet an elementwise operation's strategy-independent contract — here
/// stated for addition; the other operations' contracts have the same
/// shape — hold identical data, so the chosen execution strategy can never
/// be observed in the output.
pub proof fn lemma_strategy_equivalence_add(a: &Tensor, b: &Tensor, r1: &Tensor, r2: &Tensor)
    requires
        r1.sdata().len() == a.sdata().len(),
        r2.sdata().len() == a.sdata().len(),
        forall|k: int|
            0 <= k < a.sdata().len() ==> r1.sdata()[k] == a.sdata()[k] + b.sdata()[k],
        forall|k: int|
            0 <= k < a.sdata().len() ==> r2.sdata()[k] == a.sdata()[k] + b.sdata()[k],
    ensures
        r1.sdata() == r2.sdata(),
{
    assert(r1.sdata() =~= r2.sdata());
}

/// Strategy equivalence for the multiplication engine: two results that
/// both meet `multiply`'s strategy-independent contract agree on every
/// cell, so the naive, partitioned, lane-kernel and combined strategies
/// are observationally equivalent.
pub proof fn lemma_strategy_equivalence_multiply(a: &Tensor, b: &Tensor, r1: &Tensor, r2: &Tensor)
    requires
        forall|i: int, j: int|
            0 <= i < a.trows() && 0 <= j < b.tcols() ==> #[trigger] r1.tat(i, j)
                == tproduct_cell(a, b, i, j),
        forall|i: int, j: int|
            0 <= i < a.trows() && 0 <= j < b.tcols() ==> #[trigger] r2.tat(i, j)
                == tproduct_cell(a, b, i, j),
    ensures
        forall|i: int, j: int|
            0 <= i < a.trows() && 0 <= j < b.tcols() ==> #[trigger] r1.tat(i, j) == r2.tat(i, j),
{
}

impl PartialEq for Tensor {
    /// Tensor equality: the same shape and, elementwise, the same exact
    /// values.
    fn eq(&self, other: &Tensor) -> (r: bool) {
        proof {
            lemma_shape_views_agree(self, other);
            lemma_data_views_agree(self, other);
        }
        let shapes = vec_usize_eq(&self.shape, &other.shape);
        let datas = vec_i64_eq(&self.data, &other.data);
        shapes && datas
    }
}

impl vstd::std_specs::cmp::PartialEqSpecImpl for Tensor {
    open spec fn obeys_eq_spec() -> bool {
        true
    }

    open spec fn eq_spec(&self, other: &Tensor) -> bool {
        self.sshape() == other.sshape() && self.sdata() == other.sdata()
    }
}

/// Two shape buffers agree exactly when their integer views agree.
proof fn lemma_shape_views_agree(a: &Tensor, b: &Tensor)
    ensures
        (a.shape@ == b.shape@) <==> (a.sshape() == b.sshape()),
{
    if a.sshape() == b.sshape() {
        assert(a.sshape().len() == a.shape@.len());
        assert(b.sshape().len() == b.shape@.len());
        assert(a.shape@.len() == b.shape@.len());
        assert forall|i: int| 0 <= i < a.shape@.len() implies a.shape@[i] == b.shape@[i] by {
            assert(a.sshape()[i] == b.sshape()[i]);
        }
        assert(a.shape@ =~= b.shape@);
    }
}

/// Two data buffers agree exactly when their integer views agree.
proof fn lemma_data_views_agree(a: &Tensor, b: &Tensor)
    ensures
        (a.data@ == b.data@) <==> (a.sdata() == b.sdata()),
{
    if a.sdata() == b.sdata() {
        assert(a.sdata().len() == a.data@.len());
        assert(b.sdata().len() == b.data@.len());
        assert(a.data@.len() == b.data@.len());
        assert forall|i: int| 0 <= i < a.data@.len() implies a.data@[i] == b.data@[i] by {
            assert(a.sdata()[i] == b.sdata()[i]);
        }
        assert(a.data@ =~= b.data@);
    }
}

/// Elementwise comparison of two shape vectors.
fn vec_usize_eq(a: &Vec<usize>, b: &Vec<usize>) -> (r: bool)
    ensures
        r <==> a@ == b@,
{
    if a.len() != b.len() {
        proof {
            assert(a@.len() != b@.len());
        }
        return false;
    }
    let mut i: usize = 0;
    while i < a.len()
        invariant
            0 <= i <= a@.len(),
            a@.len() == b@.len(),
            forall|q: int| 0 <= q < i ==> a@[q] == b@[q],
        decreases a@.len() - i,
    {
        if a[i] != b[i] {
            return false;
        }
        i = i + 1;
    }
    proof {
        assert(a@ =~= b@);
    }
    true
}

/// Elementwise comparison of two data buffers.
fn vec_i64_eq(a: &Vec<i64>, b: &Vec<i64>) -> (r: bool)
    ensures
        r <==> a@ == b@,
{
    if a.len() != b.len() {
        proof {
            assert(a@.len() != b@.len());
        }
        return false;
    }
    let mut i: usize = 0;
    while i < a.len()
        invariant
            0 <= i <= a@.len(),
            a@.len() == b@.len(),
            forall|q: int| 0 <= q < i ==> a@[q] == b@[q],
        decreases a@.len() - i,
    {
        if a[i] != b[i] {
            return false;
        }
        i = i + 1;
    }
    proof {
        assert(a@ =~= b@);
    }
    true
}

/// Whether any dimension of `shape` is zero.
fn has_zero_dim(shape: &Vec<usize>) -> (r: bool)
    ensures
        r <==> exists|i: int| 0 <= i < shape@.len() && shape@[i] == 0,
{
    let mut i: usize = 0;
    while i < shape.len()
        invariant
            0 <= i <= shape@.len(),
            forall|q: int| 0 <= q < i ==> shape@[q] != 0,
        decreases shape@.len() - i,
    {
        if shape[i] == 0 {
            return true;
        }
        i = i + 1;
    }
    false
}

/// The product of the dimensions, or `None` when it exceeds `usize::MAX`.
fn checked_shape_product(shape: &Vec<usize>) -> (r: Option<usize>)
    requires
        forall|i: int| 0 <= i < shape@.len() ==> shape@[i] >= 1,
    ensures
        r matches Some(p) ==> p == prod_prefix(shape@.map_values(|x: usize| x as int),
            shape@.len() as int),
        r is None ==> prod_prefix(shape@.map_values(|x: usize| x as int), shape@.len() as int)
            > usize::MAX,
{
    let ghost ss = shape@.map_values(|x: usize| x as int);
    let mut acc: usize = 1;
    let mut i: usize = 0;
    while i < shape.len()
        invariant
            0 <= i <= shape@.len(),
            ss == shape@.map_values(|x: usize| x as int),
            forall|q: int| 0 <= q < shape@.len() ==> shape@[q] >= 1,
            acc == prod_prefix(ss, i as int),
        decreases shape@.len() - i,
    {
        acc = match acc.checked_mul(shape[i]) {
            Some(v) => v,
            None => {
                proof {
                    assert(prod_prefix(ss, i as int + 1) == prod_prefix(ss, i as int) * ss[
                        i as int]);
                    lemma_prod_prefix_mono(ss, i as int + 1, ss.len() as int);
                }
                return None;
            }
        };
        i = i + 1;
    }
    Some(acc)
}

/// Copies a shape vector.
fn clone_shape(shape: &Vec<usize>) -> (r: Vec<usize>)
    ensures
        r@ == shape@,
{
    let mut out: Vec<usize> = Vec::new();
    let mut i: usize = 0;
    while i < shape.len()
        invariant
            0 <= i <= shape@.len(),
            out@ == shape@.subrange(0, i as int),
        decreases shape@.len() - i,
    {
        out.push(shape[i]);
        i = i + 1;
    }
    proof {
        assert(out@ =~= shape@);
    }
    out
}

} // verus!
