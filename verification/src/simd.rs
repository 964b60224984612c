//! Vector-lane kernels.
//!
//! Each kernel processes `LANES` elements per step and finishes the
//! remainder with a scalar loop, mirroring a fixed-width vector unit.  The
//! dot-product kernel keeps one partial sum per lane and reduces the lanes
//! horizontally at the end; the lemmas of [`crate::model`] show that this
//! reordered summation equals the plain left-to-right sum, so correctness
//! never depends on which path ran.

use vstd::prelude::*;
use crate::model;

verus! {

broadcast use vstd::std_specs::vec::axiom_spec_len;

/// The number of elements processed per vector step.
pub const LANES: usize = 8;

/// The view of a buffer as mathematical integers.
pub open spec fn ints_of(v: Seq<i64>) -> Seq<int> {
    v.map_values(|x: i64| x as int)
}

/// The segment `[off, off + len)` of a buffer.
pub open spec fn seg_of(v: Seq<i64>, off: int, len: int) -> Seq<int> {
    ints_of(v).subrange(off, off + len)
}

/// Elementwise sum of `a[lo..hi]` and `b[lo..hi]`, full lanes first, then a
/// scalar remainder loop.
pub fn add_slice(a: &Vec<i64>, b: &Vec<i64>, lo: usize, hi: usize) -> (out: Vec<i64>)
    requires
        a@.len() == b@.len(),
        lo <= hi <= a@.len(),
        forall|k: int| lo <= k < hi ==> model::in_i64(a@[k] as int + b@[k] as int),
    ensures
        out@.len() == hi - lo,
        forall|k: int|
            0 <= k < out@.len() ==> (#[trigger] out@[k]) as int == a@[lo + k] as int + b@[lo + k]
                as int,
{
    let len = hi - lo;
    let full = len - len % LANES;
    let mut out: Vec<i64> = Vec::new();
    let mut g: usize = 0;
    while g < full
        invariant
            0 <= g <= full <= len,
            len == hi - lo,
            lo <= hi <= a@.len(),
            a@.len() == b@.len(),
            forall|k: int| lo <= k < hi ==> model::in_i64(a@[k] as int + b@[k] as int),
            out@.len() == g,
            forall|k: int|
                0 <= k < out@.len() ==> (#[trigger] out@[k]) as int == a@[lo + k] as int + b@[lo
                    + k] as int,
        decreases full - g,
    {
        let mut l: usize = 0;
        while l < LANES && g + l < full
            invariant
                0 <= l <= LANES,
                0 <= g,
                g + l <= full <= len,
                len == hi - lo,
                lo <= hi <= a@.len(),
                a@.len() == b@.len(),
                forall|k: int| lo <= k < hi ==> model::in_i64(a@[k] as int + b@[k] as int),
                out@.len() == g + l,
                forall|k: int|
                    0 <= k < out@.len() ==> (#[trigger] out@[k]) as int == a@[lo + k] as int + b@[
                        lo + k] as int,
            decreases LANES - l,
        {
            out.push(a[lo + g + l] + b[lo + g + l]);
            l = l + 1;
        }
        g = g + l;
    }
    while g < len
        invariant
            0 <= g <= len,
            len == hi - lo,
            lo <= hi <= a@.len(),
            a@.len() == b@.len(),
            forall|k: int| lo <= k < hi ==> model::in_i64(a@[k] as int + b@[k] as int),
            out@.len() == g,
            forall|k: int|
                0 <= k < out@.len() ==> (#[trigger] out@[k]) as int == a@[lo + k] as int + b@[lo
                    + k] as int,
        decreases len - g,
    {
        out.push(a[lo + g] + b[lo + g]);
        g = g + 1;
    }
    out
}

/// Elementwise product of `a[lo..hi]` and `b[lo..hi]`, full lanes first,
/// then a scalar remainder loop.
pub fn mul_slice(a: &Vec<i64>, b: &Vec<i64>, lo: usize, hi: usize) -> (out: Vec<i64>)
    requires
        a@.len() == b@.len(),
        lo <= hi <= a@.len(),
        forall|k: int| lo <= k < hi ==> model::in_i64(a@[k] as int * b@[k] as int),
    ensures
        out@.len() == hi - lo,
        forall|k: int|
            0 <= k < out@.len() ==> (#[trigger] out@[k]) as int == a@[lo + k] as int * b@[lo + k]
                as int,
{
    let len = hi - lo;
    let full = len - len % LANES;
    let mut out: Vec<i64> = Vec::new();
    let mut g: usize = 0;
    while g < full
        invariant
            0 <= g <= full <= len,
            len == hi - lo,
            lo <= hi <= a@.len(),
            a@.len() == b@.len(),
            forall|k: int| lo <= k < hi ==> model::in_i64(a@[k] as int * b@[k] as int),
            out@.len() == g,
            forall|k: int|
                0 <= k < out@.len() ==> (#[trigger] out@[k]) as int == a@[lo + k] as int * b@[lo
                    + k] as int,
        decreases full - g,
    {
        let mut l: usize = 0;
        while l < LANES && g + l < full
            invariant
                0 <= l <= LANES,
                0 <= g,
                g + l <= full <= len,
                len == hi - lo,
                lo <= hi <= a@.len(),
                a@.len() == b@.len(),
                forall|k: int| lo <= k < hi ==> model::in_i64(a@[k] as int * b@[k] as int),
                out@.len() == g + l,
                forall|k: int|
                    0 <= k < out@.len() ==> (#[trigger] out@[k]) as int == a@[lo + k] as int * b@[
                        lo + k] as int,
            decreases LANES - l,
        {
            out.push(a[lo + g + l] * b[lo + g + l]);
            l = l + 1;
        }
        g = g + l;
    }
    while g < len
        invariant
            0 <= g <= len,
            len == hi - lo,
            lo <= hi <= a@.len(),
            a@.len() == b@.len(),
            forall|k: int| lo <= k < hi ==> model::in_i64(a@[k] as int * b@[k] as int),
            out@.len() == g,
            forall|k: int|
                0 <= k < out@.len() ==> (#[trigger] out@[k]) as int == a@[lo + k] as int * b@[lo
                    + k] as int,
        decreases len - g,
    {
        out.push(a[lo + g] * b[lo + g]);
        g = g + 1;
    }
    out
}

/// Dot product of `x[xo .. xo + len]` with `y[yo .. yo + len]` using one
/// accumulator per lane, a horizontal reduction, and a scalar remainder
/// loop.  The result equals the plain left-to-right dot product exactly.
pub fn dot_kernel(x: &Vec<i64>, xo: usize, y: &Vec<i64>, yo: usize, len: usize) -> (r: i64)
    requires
        xo + len <= x@.len(),
        yo + len <= y@.len(),
        model::dot_fits(seg_of(x@, xo as int, len as int), seg_of(y@, yo as int, len as int)),
    ensures
        r as int == model::dot(seg_of(x@, xo as int, len as int), seg_of(y@, yo as int,
            len as int)),
{
    let ghost sx = seg_of(x@, xo as int, len as int);
    let ghost sy = seg_of(y@, yo as int, len as int);
    let ghost prods = model::prod_seq(sx, sy);
    proof {
        assert(prods.len() == len);
        model::lemma_abs_seq_nonneg(prods);
    }
    let chunks = len / LANES;
    let mut acc: Vec<i64> = vec![0i64; LANES];
    let mut c: usize = 0;
    while c < chunks
        invariant
            0 <= c <= chunks,
            chunks == len as int / (LANES as int),
            xo + len <= x@.len(),
            yo + len <= y@.len(),
            sx == seg_of(x@, xo as int, len as int),
            sy == seg_of(y@, yo as int, len as int),
            prods == model::prod_seq(sx, sy),
            prods.len() == len,
            model::sum_fits(prods),
            acc@.len() == LANES,
            forall|l: int|
                0 <= l < LANES ==> (#[trigger] acc@[l]) as int == model::lane_sum(prods, l,
                    c as int, LANES as int),
        decreases chunks - c,
    {
        proof {
            lemma_chunk_bound(len as int, c as int + 1, LANES as int);
        }
        let mut l: usize = 0;
        while l < LANES
            invariant
                0 <= l <= LANES,
                0 <= c < chunks,
                chunks == len as int / (LANES as int),
                (c + 1) * LANES <= len,
                xo + len <= x@.len(),
                yo + len <= y@.len(),
                sx == seg_of(x@, xo as int, len as int),
                sy == seg_of(y@, yo as int, len as int),
                prods == model::prod_seq(sx, sy),
                prods.len() == len,
                model::sum_fits(prods),
                acc@.len() == LANES,
                forall|q: int|
                    l <= q < LANES ==> (#[trigger] acc@[q]) as int == model::lane_sum(prods, q,
                        c as int, LANES as int),
                forall|q: int|
                    0 <= q < l ==> (#[trigger] acc@[q]) as int == model::lane_sum(prods, q, c
                        as int + 1, LANES as int),
            decreases LANES - l,
        {
            let g = c * LANES + l;
            proof {
                assert(x.len() == x@.len());
                assert(y.len() == y@.len());
                assert(c * LANES + l < len) by (nonlinear_arith)
                    requires (c + 1) * (LANES as int) <= len && 0 <= l < LANES && 0 <= c;
                assert(0 <= c * LANES) by (nonlinear_arith)
                    requires 0 <= c && 0 <= LANES;
                model::lemma_sum_step_fits(prods, g as int);
                assert(prods[g as int] == sx[g as int] * sy[g as int]);
                assert(sx[g as int] == x@[xo + g] as int);
                assert(sy[g as int] == y@[yo + g] as int);
                model::lemma_lane_abs_bound(prods, l as int, c as int + 1, LANES as int);
                model::lemma_abs_seq_nonneg(prods);
                model::lemma_lane_le_lanes(model::abs_seq(prods), l as int, c as int + 1,
                    LANES as int, LANES as int);
                model::lemma_lanes_total(model::abs_seq(prods), c as int + 1, LANES as int);
                model::lemma_sum_prefix_mono(model::abs_seq(prods), (c as int + 1) * (
                LANES as int), len as int);
                model::lemma_sum_prefix_mono(model::abs_seq(prods), 0, (c as int + 1) * (
                LANES as int));
            }
            let p = x[xo + g] * y[yo + g];
            let prev = acc[l];
            acc.set(l, prev + p);
            l = l + 1;
        }
        c = c + 1;
    }
    proof {
        lemma_chunk_bound(len as int, chunks as int, LANES as int);
    }
    let mut total: i64 = 0;
    let mut l: usize = 0;
    while l < LANES
        invariant
            0 <= l <= LANES,
            0 <= chunks,
            chunks == len as int / (LANES as int),
            chunks * LANES <= len,
            prods.len() == len,
            model::sum_fits(prods),
            acc@.len() == LANES,
            forall|q: int|
                0 <= q < LANES ==> (#[trigger] acc@[q]) as int == model::lane_sum(prods, q,
                    chunks as int, LANES as int),
            total as int == model::lanes_sum(prods, chunks as int, LANES as int, l as int),
        decreases LANES - l,
    {
        proof {
            model::lemma_lanes_abs_bound(prods, chunks as int, LANES as int, l as int + 1);
            model::lemma_abs_seq_nonneg(prods);
            model::lemma_sum_prefix_mono(model::abs_seq(prods), chunks as int * (LANES as int),
                len as int);
            model::lemma_sum_prefix_mono(model::abs_seq(prods), 0, chunks as int * (LANES as int));
        }
        total = total + acc[l];
        l = l + 1;
    }
    proof {
        model::lemma_lanes_total(prods, chunks as int, LANES as int);
    }
    let mut g: usize = chunks * LANES;
    while g < len
        invariant
            chunks * LANES <= g <= len,
            xo + len <= x@.len(),
            yo + len <= y@.len(),
            sx == seg_of(x@, xo as int, len as int),
            sy == seg_of(y@, yo as int, len as int),
            prods == model::prod_seq(sx, sy),
            prods.len() == len,
            model::sum_fits(prods),
            total as int == model::sum_prefix(prods, g as int),
        decreases len - g,
    {
        proof {
            assert(x.len() == x@.len());
            assert(y.len() == y@.len());
            model::lemma_sum_step_fits(prods, g as int);
            assert(prods[g as int] == sx[g as int] * sy[g as int]);
            assert(sx[g as int] == x@[xo + g] as int);
            assert(sy[g as int] == y@[yo + g] as int);
        }
        total = total + x[xo + g] * y[yo + g];
        g = g + 1;
    }
    total
}

/// `c` full chunks of width `w` fit inside `len` whenever `c <= len / w`.
proof fn lemma_chunk_bound(len: int, c: int, w: int)
    requires
        1 <= w,
        0 <= c <= len / w,
        0 <= len,
    ensures
        c * w <= len,
{
    vstd::arithmetic::div_mod::lemma_fundamental_div_mod(len, w);
    vstd::arithmetic::div_mod::lemma_mod_bound(len, w);
    vstd::arithmetic::mul::lemma_mul_inequality(c, len / w, w);
    assert(w * (len / w) == (len / w) * w) by (nonlinear_arith);
}

} // verus!
