//! The bridge to OS-level concurrency.
//!
//! A parallel strategy runs one task per block of the partition
//! (see [`crate::partition`]).  Each task body is a verified function;
//! only the fact that rayon runs every task once and gathers the
//! results in index order is taken on trust.

use vstd::prelude::*;
use rayon::iter::{IntoParallelIterator, ParallelIterator};

verus! {

/// Relies on `num_cpus::get`: the number of logical cores, always at least 1.
#[verifier::external_body]
pub fn cpu_count() -> (n: usize)
    ensures
        n >= 1,
{
    num_cpus::get()
}

/// Relies on rayon's indexed parallel iterator over `0..t`: `map` calls `f`
/// exactly once per index, possibly concurrently, and `collect` into a `Vec`
/// gathers the `t` results in index order.  A panic inside any task
/// propagates to the caller once all tasks have been joined.
#[verifier::external_body]
pub fn par_map<R: Send, F: Fn(usize) -> R + Send + Sync>(t: usize, f: F) -> (r: Vec<R>)
    requires
        forall|i: usize| i < t ==> call_requires(f, (i,)),
    ensures
        r@.len() == t,
        forall|i: int| 0 <= i < t ==> call_ensures(f, (i as usize,), #[trigger] r@[i]),
{
    (0..t).into_par_iter().map(f).collect()
}

/// Assembles per-task blocks into the final output buffer.
///
/// The partition splits `items` work items across `t` tasks and every work
/// item produces `scale` consecutive output elements, so block `i` must hold
/// exactly the `scale`-scaled slice of `expected` that the partition assigns
/// to task `i`; the result is then the whole of `expected`.  The contiguity
/// of the partition does the work here: each block starts where the previous
/// one ended.
pub fn concat_blocks(blocks: Vec<Vec<i64>>, items: usize, t: usize, scale: usize, expected: Ghost<
    Seq<int>>) -> (out: Vec<i64>)
    requires
        1 <= t,
        blocks@.len() == t,
        expected@.len() == items * scale,
        forall|i: int| 0 <= i < t ==> (#[trigger] blocks@[i])@.len() == (crate::partition::task_hi(
            items as int, t as int, i) - crate::partition::task_lo(items as int, t as int, i))
            * scale,
        forall|i: int, k: int|
            0 <= i < t && 0 <= k < blocks@[i]@.len() ==> (#[trigger] blocks@[i]@[k]) as int
                == expected@[crate::partition::task_lo(items as int, t as int, i) * scale + k],
    ensures
        out@.len() == items * scale,
        forall|k: int| 0 <= k < out@.len() ==> (#[trigger] out@[k]) as int == expected@[k],
{
    let mut rest = blocks;
    let mut out: Vec<i64> = Vec::new();
    let mut i: usize = 0;
    while i < t
        invariant
            i <= t,
            1 <= t,
            expected@.len() == items * scale,
            rest@.len() == t - i,
            forall|j: int| 0 <= j < rest@.len() ==> (#[trigger] rest@[j])@.len()
                == (crate::partition::task_hi(items as int, t as int, i + j)
                    - crate::partition::task_lo(items as int, t as int, i + j)) * scale,
            forall|j: int, k: int|
                0 <= j < rest@.len() && 0 <= k < rest@[j]@.len() ==> (#[trigger] rest@[j]@[k]) as int
                    == expected@[crate::partition::task_lo(items as int, t as int, i + j) * scale
                    + k],
            out@.len() == if i == 0 { 0int } else {
                crate::partition::task_hi(items as int, t as int, i - 1) * scale
            },
            forall|k: int| 0 <= k < out@.len() ==> (#[trigger] out@[k]) as int == expected@[k],
        decreases t - i,
    {
        proof {
            if i > 0 {
                crate::partition::lemma_partition_contiguous(items as int, t as int, i as int - 1);
            }
            crate::partition::lemma_task_range(items as int, t as int, i as int);
            let lo = crate::partition::task_lo(items as int, t as int, i as int);
            let hi = crate::partition::task_hi(items as int, t as int, i as int);
            assert(lo * scale + (hi - lo) * scale == hi * scale) by (nonlinear_arith);
            assert(hi * scale <= items * scale) by (nonlinear_arith)
                requires hi <= items && 0 <= scale;
            assert(0 <= lo * scale) by (nonlinear_arith)
                requires 0 <= lo && 0 <= scale;
        }
        let mut b = rest.remove(0);
        out.append(&mut b);
        i = i + 1;
    }
    proof {
        crate::partition::lemma_task_range(items as int, t as int, t as int - 1);
    }
    out
}

} // verus!
