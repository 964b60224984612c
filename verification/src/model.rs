//! The mathematical model of the engine: sums, dot products, grids.
//!
//! Every executable operation is specified against the functions in this
//! module.  Sums are modelled as left-to-right prefix sums; the lane-split
//! summation used by the vector kernels is modelled separately and proved
//! equal to the prefix sum, which is what makes all execution strategies
//! observationally equivalent on exact arithmetic.

use vstd::prelude::*;
use vstd::math::abs;

verus! {

/// True when the mathematical integer `x` fits in an `i64`.
pub open spec fn in_i64(x: int) -> bool {
    i64::MIN <= x <= i64::MAX
}

/// Sum of the first `k` elements of `s`.
pub open spec fn sum_prefix(s: Seq<int>, k: int) -> int
    decreases k,
{
    if k <= 0 {
        0
    } else {
        sum_prefix(s, k - 1) + s[k - 1]
    }
}

/// Sum of the `l` elements of `s` starting at position `m`.
pub open spec fn seg_sum(s: Seq<int>, m: int, l: int) -> int
    decreases l,
{
    if l <= 0 {
        0
    } else {
        seg_sum(s, m, l - 1) + s[m + l - 1]
    }
}

/// Sum of the elements of lane `l`: positions `l`, `w + l`, ..., `(c-1)*w + l`.
pub open spec fn lane_sum(s: Seq<int>, l: int, c: int, w: int) -> int
    decreases c,
{
    if c <= 0 {
        0
    } else {
        lane_sum(s, l, c - 1, w) + s[(c - 1) * w + l]
    }
}

/// Sum of the first `k` lane sums, each lane running over `c` chunks of width `w`.
pub open spec fn lanes_sum(s: Seq<int>, c: int, w: int, k: int) -> int
    decreases k,
{
    if k <= 0 {
        0
    } else {
        lanes_sum(s, c, w, k - 1) + lane_sum(s, k - 1, c, w)
    }
}

/// The sequence of absolute values of `s`.
pub open spec fn abs_seq(s: Seq<int>) -> Seq<int> {
    Seq::new(s.len(), |i: int| abs(s[i]) as int)
}

/// The elementwise products of `a` and `b` (over the length of `a`).
pub open spec fn prod_seq(a: Seq<int>, b: Seq<int>) -> Seq<int> {
    Seq::new(a.len(), |i: int| a[i] * b[i])
}

/// The dot product of `a` and `b`.
pub open spec fn dot(a: Seq<int>, b: Seq<int>) -> int {
    sum_prefix(prod_seq(a, b), a.len() as int)
}

/// Every grouping of a sum is bounded by the sum of absolute values, so this
/// single condition makes every summation order of `s` fit in an `i64`.
pub open spec fn sum_fits(s: Seq<int>) -> bool {
    in_i64(sum_prefix(abs_seq(s), s.len() as int))
}

/// Machine-limit condition for a dot product: every partial sum of the
/// products, in any grouping, fits in an `i64`.
pub open spec fn dot_fits(a: Seq<int>, b: Seq<int>) -> bool {
    sum_fits(prod_seq(a, b))
}

/// Truncated (round-toward-zero) integer division, as the machine's signed
/// division computes it.
pub open spec fn div_trunc(x: int, d: int) -> int {
    if x == 0 {
        0
    } else if x > 0 && d > 0 {
        x / d
    } else if x < 0 && d < 0 {
        (x * -1) / (d * -1)
    } else if x < 0 {
        ((x * -1) / d) * -1
    } else {
        (x / (d * -1)) * -1
    }
}

/// A rectangular grid with `r` rows and `c` columns.
pub open spec fn is_grid(g: Seq<Seq<int>>, r: int, c: int) -> bool {
    g.len() == r && forall|i: int| 0 <= i < r ==> (#[trigger] g[i]).len() == c
}

/// Column `j` of the grid `g`.
pub open spec fn grid_col(g: Seq<Seq<int>>, j: int) -> Seq<int> {
    Seq::new(g.len(), |k: int| g[k][j])
}

/// The transpose of an `r x c` grid.
pub open spec fn grid_transpose(g: Seq<Seq<int>>, r: int, c: int) -> Seq<Seq<int>> {
    Seq::new(c as nat, |j: int| Seq::new(r as nat, |i: int| g[i][j]))
}

/// The `n x n` identity grid.
pub open spec fn identity_grid(n: int) -> Seq<Seq<int>> {
    Seq::new(n as nat, |i: int| Seq::new(n as nat, |j: int| if i == j { 1int } else { 0int }))
}

/// Cell `(i, j)` of the matrix product of grids `a` and `b`.
pub open spec fn mm_cell(a: Seq<Seq<int>>, b: Seq<Seq<int>>, i: int, j: int) -> int {
    dot(a[i], grid_col(b, j))
}

// ---------------------------------------------------------------------------
// Splitting a prefix sum at a segment boundary.
// ---------------------------------------------------------------------------

/// A prefix sum splits into a shorter prefix plus the following segment.
pub proof fn lemma_sum_split(s: Seq<int>, m: int, l: int)
    requires
        0 <= m,
        0 <= l,
    ensures
        sum_prefix(s, m + l) == sum_prefix(s, m) + seg_sum(s, m, l),
    decreases l,
{
    if l > 0 {
        lemma_sum_split(s, m, l - 1);
    }
}

/// Monotonicity of the prefix sum of a pointwise non-negative sequence.
pub proof fn lemma_sum_prefix_mono(s: Seq<int>, j: int, k: int)
    requires
        0 <= j <= k,
        forall|i: int| 0 <= i < k ==> s[i] >= 0,
    ensures
        sum_prefix(s, j) <= sum_prefix(s, k),
    decreases k,
{
    if k > j {
        lemma_sum_prefix_mono(s, j, k - 1);
    }
}

/// A sum is bounded both ways by the sum of absolute values.
pub proof fn lemma_sum_abs_bound(s: Seq<int>, k: int)
    requires
        0 <= k <= s.len(),
    ensures
        -sum_prefix(abs_seq(s), k) <= sum_prefix(s, k) <= sum_prefix(abs_seq(s), k),
    decreases k,
{
    if k > 0 {
        lemma_sum_abs_bound(s, k - 1);
    }
}

/// Absolute-value sequences are pointwise non-negative.
pub proof fn lemma_abs_seq_nonneg(s: Seq<int>)
    ensures
        forall|i: int| 0 <= i < s.len() ==> abs_seq(s)[i] >= 0,
{
}

/// Extending a prefix sum by one element stays within the `i64` range
/// whenever the whole absolute-value sum does.
pub proof fn lemma_sum_step_fits(s: Seq<int>, k: int)
    requires
        0 <= k < s.len(),
        sum_fits(s),
    ensures
        in_i64(sum_prefix(s, k)),
        in_i64(s[k]),
        in_i64(sum_prefix(s, k) + s[k]),
{
    lemma_abs_seq_nonneg(s);
    lemma_sum_abs_bound(s, k);
    lemma_sum_abs_bound(s, k + 1);
    lemma_sum_prefix_mono(abs_seq(s), k, s.len() as int);
    lemma_sum_prefix_mono(abs_seq(s), k + 1, s.len() as int);
    lemma_sum_prefix_mono(abs_seq(s), 0, k);
}

/// A segment sum is bounded both ways by the same segment of absolute values.
proof fn lemma_seg_le_abs(s: Seq<int>, m: int, l: int)
    requires
        0 <= m,
        0 <= l,
        m + l <= s.len(),
    ensures
        -seg_sum(abs_seq(s), m, l) <= seg_sum(s, m, l) <= seg_sum(abs_seq(s), m, l),
    decreases l,
{
    if l > 0 {
        lemma_seg_le_abs(s, m, l - 1);
    }
}

/// Any segment sum of `s` fits in an `i64` whenever the whole
/// absolute-value sum does, and extending a segment by one element stays in
/// range as well.
pub proof fn lemma_seg_fits(s: Seq<int>, m: int, l: int)
    requires
        0 <= m,
        0 <= l,
        m + l <= s.len(),
        sum_fits(s),
    ensures
        in_i64(seg_sum(s, m, l)),
        l < s.len() - m ==> in_i64(seg_sum(s, m, l) + s[m + l]),
{
    lemma_abs_seq_nonneg(s);
    lemma_seg_le_abs(s, m, l);
    lemma_sum_split(s, m, l);
    lemma_sum_split(abs_seq(s), m, l);
    lemma_sum_prefix_mono(abs_seq(s), m + l, s.len() as int);
    lemma_sum_prefix_mono(abs_seq(s), 0, m);
    if l < s.len() - m {
        lemma_seg_le_abs(s, m, l + 1);
        lemma_sum_split(abs_seq(s), m, l + 1);
        lemma_sum_prefix_mono(abs_seq(s), m + l + 1, s.len() as int);
    }
}

// ---------------------------------------------------------------------------
// Lane-split summation equals the prefix sum.
// ---------------------------------------------------------------------------

/// With no chunks processed, every lane sum is zero.
proof fn lemma_lanes_zero(s: Seq<int>, w: int, k: int)
    requires
        0 <= k,
    ensures
        lanes_sum(s, 0, w, k) == 0,
    decreases k,
{
    if k > 0 {
        lemma_lanes_zero(s, w, k - 1);
    }
}

/// Processing one more chunk adds that chunk's segment to the first `k` lanes.
proof fn lemma_lanes_step(s: Seq<int>, c: int, w: int, k: int)
    requires
        0 <= c,
        0 <= k <= w,
    ensures
        lanes_sum(s, c + 1, w, k) == lanes_sum(s, c, w, k) + seg_sum(s, c * w, k),
    decreases k,
{
    if k > 0 {
        lemma_lanes_step(s, c, w, k - 1);
    }
}

/// The total over all `w` lanes after `c` chunks is the prefix sum of the
/// first `c * w` elements: splitting a sum into lanes does not change it.
pub proof fn lemma_lanes_total(s: Seq<int>, c: int, w: int)
    requires
        0 <= c,
        1 <= w,
    ensures
        lanes_sum(s, c, w, w) == sum_prefix(s, c * w),
    decreases c,
{
    if c == 0 {
        lemma_lanes_zero(s, w, w);
    } else {
        lemma_lanes_total(s, c - 1, w);
        lemma_lanes_step(s, c - 1, w, w);
        lemma_sum_split(s, (c - 1) * w, w);
        assert((c - 1) * w + w == c * w) by (nonlinear_arith);
    }
}

/// Index bound for lane accesses: lane `l` of chunk `c` lies inside chunk `c`.
proof fn lemma_lane_index(c: int, w: int, l: int)
    by (nonlinear_arith)
    requires
        0 <= c,
        1 <= w,
        0 <= l < w,
    ensures
        0 <= c * w + l < (c + 1) * w,
{
}

/// Multiplying both sides of `c1 <= c2` by a non-negative width.
proof fn lemma_chunks_le(c1: int, c2: int, w: int)
    by (nonlinear_arith)
    requires
        c1 <= c2,
        0 <= w,
    ensures
        c1 * w <= c2 * w,
{
}

/// A lane sum is bounded both ways by the same lane sum of absolute values.
pub proof fn lemma_lane_abs_bound(s: Seq<int>, l: int, c: int, w: int)
    requires
        0 <= l < w,
        0 <= c,
        1 <= w,
        c * w <= s.len(),
    ensures
        -lane_sum(abs_seq(s), l, c, w) <= lane_sum(s, l, c, w) <= lane_sum(abs_seq(s), l, c, w),
    decreases c,
{
    if c > 0 {
        lemma_chunks_le(c - 1, c, w);
        lemma_lane_abs_bound(s, l, c - 1, w);
        lemma_lane_index(c - 1, w, l);
    }
}

/// A lane sum over non-negative elements is non-negative.
pub proof fn lemma_lane_nonneg(s: Seq<int>, l: int, c: int, w: int)
    requires
        0 <= l < w,
        0 <= c,
        1 <= w,
        c * w <= s.len(),
        forall|i: int| 0 <= i < s.len() ==> s[i] >= 0,
    ensures
        lane_sum(s, l, c, w) >= 0,
    decreases c,
{
    if c > 0 {
        lemma_chunks_le(c - 1, c, w);
        lemma_lane_nonneg(s, l, c - 1, w);
        lemma_lane_index(c - 1, w, l);
    }
}

/// For a pointwise non-negative sequence, each lane sum is at most the sum
/// over all lanes.
pub proof fn lemma_lane_le_lanes(s: Seq<int>, l: int, c: int, w: int, k: int)
    requires
        0 <= l < k <= w,
        0 <= c,
        1 <= w,
        c * w <= s.len(),
        forall|i: int| 0 <= i < s.len() ==> s[i] >= 0,
    ensures
        lane_sum(s, l, c, w) <= lanes_sum(s, c, w, k),
    decreases k,
{
    lemma_lane_nonneg(s, l, c, w);
    if l == k - 1 {
        lemma_lanes_nonneg(s, c, w, k - 1);
    } else {
        lemma_lane_le_lanes(s, l, c, w, k - 1);
        lemma_lane_nonneg(s, k - 1, c, w);
    }
}

/// A sum of lane sums over non-negative elements is non-negative.
pub proof fn lemma_lanes_nonneg(s: Seq<int>, c: int, w: int, k: int)
    requires
        0 <= c,
        1 <= w,
        0 <= k <= w,
        c * w <= s.len(),
        forall|i: int| 0 <= i < s.len() ==> s[i] >= 0,
    ensures
        lanes_sum(s, c, w, k) >= 0,
    decreases k,
{
    if k > 0 {
        lemma_lanes_nonneg(s, c, w, k - 1);
        lemma_lane_nonneg(s, k - 1, c, w);
    }
}

/// A partial sum of lanes is bounded both ways by a prefix of the
/// absolute-value sum.
pub proof fn lemma_lanes_abs_bound(s: Seq<int>, c: int, w: int, k: int)
    requires
        0 <= c,
        1 <= w,
        0 <= k <= w,
        c * w <= s.len(),
    ensures
        -sum_prefix(abs_seq(s), c * w) <= lanes_sum(s, c, w, k) <= sum_prefix(abs_seq(s), c * w),
{
    lemma_abs_seq_nonneg(s);
    lemma_lanes_total(abs_seq(s), c, w);
    lemma_lanes_abs_le(s, c, w, k);
    lemma_lanes_nonneg_partial_le(abs_seq(s), c, w, k);
}

/// Pointwise: a partial lane total is bounded by the same partial total of
/// absolute values.
proof fn lemma_lanes_abs_le(s: Seq<int>, c: int, w: int, k: int)
    requires
        0 <= c,
        1 <= w,
        0 <= k <= w,
        c * w <= s.len(),
    ensures
        -lanes_sum(abs_seq(s), c, w, k) <= lanes_sum(s, c, w, k) <= lanes_sum(abs_seq(s), c, w, k),
    decreases k,
{
    if k > 0 {
        lemma_lanes_abs_le(s, c, w, k - 1);
        lemma_lane_abs_bound(s, k - 1, c, w);
    }
}

/// For non-negative elements, a partial lane total is at most the full one.
proof fn lemma_lanes_nonneg_partial_le(s: Seq<int>, c: int, w: int, k: int)
    requires
        0 <= c,
        1 <= w,
        0 <= k <= w,
        c * w <= s.len(),
        forall|i: int| 0 <= i < s.len() ==> s[i] >= 0,
    ensures
        lanes_sum(s, c, w, k) <= lanes_sum(s, c, w, w),
    decreases w - k,
{
    if k < w {
        lemma_lanes_nonneg_partial_le(s, c, w, k + 1);
        lemma_lane_nonneg(s, k, c, w);
    }
}

// ---------------------------------------------------------------------------
// Transpose and identity.
// ---------------------------------------------------------------------------

/// Transposing is an involution: transposing twice gives the grid back.
pub proof fn lemma_transpose_involution(g: Seq<Seq<int>>, r: int, c: int)
    requires
        is_grid(g, r, c),
    ensures
        grid_transpose(grid_transpose(g, r, c), c, r) == g,
{
    let t = grid_transpose(g, r, c);
    let tt = grid_transpose(t, c, r);
    assert forall|i: int| 0 <= i < r implies tt[i] == g[i] by {
        assert(tt[i] =~= g[i]);
    }
    assert(tt =~= g);
}

/// Multiplying by the identity on the right leaves every cell unchanged.
pub proof fn lemma_identity_cell(a: Seq<Seq<int>>, r: int, c: int, i: int, j: int)
    requires
        is_grid(a, r, c),
        0 <= i < r,
        0 <= j < c,
    ensures
        mm_cell(a, identity_grid(c), i, j) == a[i][j],
{
    let col = grid_col(identity_grid(c), j);
    lemma_dot_unit(a[i], col, j, c);
}

/// Dot product with a unit column selects one coordinate.
proof fn lemma_dot_unit(row: Seq<int>, col: Seq<int>, j: int, k: int)
    requires
        0 <= j < row.len(),
        col.len() >= k,
        k <= row.len(),
        forall|i: int| 0 <= i < col.len() ==> col[i] == (if i == j { 1int } else { 0int }),
    ensures
        sum_prefix(prod_seq(row, col), k) == if j < k { row[j] } else { 0 },
    decreases k,
{
    if k > 0 {
        lemma_dot_unit(row, col, j, k - 1);
    }
}

} // verus!
