//! The partitioner that splits `n` output indices across `t` concurrent
//! tasks.
//!
//! Task `i` owns the half-open range `[i * (n / t), (i + 1) * (n / t))`,
//! except the last task, whose range runs to `n` and so absorbs the
//! `n % t` remainder.  The lemmas below establish the safety argument:
//! the ranges are ordered, pairwise disjoint, and together cover exactly
//! `[0, n)`.

use vstd::prelude::*;
use vstd::arithmetic::div_mod::lemma_fundamental_div_mod;
use vstd::arithmetic::mul::lemma_mul_inequality;

verus! {

/// The common block length `n / t`.
pub open spec fn block_len(n: int, t: int) -> int {
    n / t
}

/// The first index owned by task `i`.
pub open spec fn task_lo(n: int, t: int, i: int) -> int {
    i * block_len(n, t)
}

/// One past the last index owned by task `i`; the last task runs to `n`.
pub open spec fn task_hi(n: int, t: int, i: int) -> int {
    if i == t - 1 {
        n
    } else {
        (i + 1) * block_len(n, t)
    }
}

/// The task whose range contains index `idx`.
pub open spec fn owner_task(n: int, t: int, idx: int) -> int {
    if block_len(n, t) == 0 || idx / block_len(n, t) >= t - 1 {
        t - 1
    } else {
        idx / block_len(n, t)
    }
}

/// `t` times the block length never exceeds `n`.
proof fn lemma_blocks_fit(n: int, t: int)
    requires
        1 <= t,
        0 <= n,
    ensures
        t * block_len(n, t) <= n,
        n - (t - 1) * block_len(n, t) == block_len(n, t) + n % t,
{
    lemma_fundamental_div_mod(n, t);
    assert(t * (n / t) + n % t - (t - 1) * (n / t) == n / t + n % t) by (nonlinear_arith);
}

/// Every task's range lies inside `[0, n)` and is well-formed.
pub proof fn lemma_task_range(n: int, t: int, i: int)
    requires
        1 <= t,
        0 <= n,
        0 <= i < t,
    ensures
        0 <= task_lo(n, t, i) <= task_hi(n, t, i) <= n,
{
    lemma_blocks_fit(n, t);
    let b = block_len(n, t);
    vstd::arithmetic::div_mod::lemma_div_pos_is_pos(n, t);
    assert(0 <= i * b) by (nonlinear_arith)
        requires 0 <= i && 0 <= b;
    assert(i * b <= (i + 1) * b) by (nonlinear_arith)
        requires 0 <= b;
    lemma_mul_inequality(i + 1, t, b);
    if i < t - 1 {
        lemma_mul_inequality(i + 2, t, b);
    }
}

/// The ranges are contiguous: each task ends where the next begins, the
/// first starts at `0`, and the last ends at `n`.  Together with
/// `lemma_task_range` this shows the union of all ranges is exactly `[0, n)`.
pub proof fn lemma_partition_contiguous(n: int, t: int, i: int)
    requires
        1 <= t,
        0 <= n,
        0 <= i < t - 1,
    ensures
        task_hi(n, t, i) == task_lo(n, t, i + 1),
        task_lo(n, t, 0) == 0,
        task_hi(n, t, t - 1) == n,
{
}

/// The ranges are pairwise disjoint: an earlier task's range ends no later
/// than a later task's range begins.
pub proof fn lemma_partition_disjoint(n: int, t: int, i: int, j: int)
    requires
        1 <= t,
        0 <= n,
        0 <= i < j < t,
    ensures
        task_hi(n, t, i) <= task_lo(n, t, j),
{
    lemma_blocks_fit(n, t);
    let b = block_len(n, t);
    vstd::arithmetic::div_mod::lemma_div_pos_is_pos(n, t);
    lemma_mul_inequality(i + 1, j, b);
    if j == t - 1 {
        lemma_mul_inequality(j, t, b);
        lemma_task_range(n, t, j);
    }
}

/// Every index in `[0, n)` is owned by exactly one task, namely
/// `owner_task(n, t, idx)`.
pub proof fn lemma_partition_covers(n: int, t: int, idx: int)
    requires
        1 <= t,
        0 <= idx < n,
    ensures
        0 <= owner_task(n, t, idx) < t,
        task_lo(n, t, owner_task(n, t, idx)) <= idx < task_hi(n, t, owner_task(n, t, idx)),
{
    lemma_blocks_fit(n, t);
    let b = block_len(n, t);
    vstd::arithmetic::div_mod::lemma_div_pos_is_pos(n, t);
    if b == 0 {
        vstd::arithmetic::div_mod::lemma_div_is_ordered_by_denominator(n, 1, t);
    } else {
        let q = idx / b;
        lemma_fundamental_div_mod(idx, b);
        vstd::arithmetic::div_mod::lemma_div_pos_is_pos(idx, b);
        vstd::arithmetic::div_mod::lemma_mod_bound(idx, b);
        assert(b * q == q * b) by (nonlinear_arith);
        if q >= t - 1 {
            // idx falls in the last task's extended range.
            lemma_mul_inequality(t - 1, q, b);
            lemma_task_range(n, t, t - 1);
        } else {
            assert((q + 1) * b == q * b + b) by (nonlinear_arith);
        }
    }
}

/// The last task's range is the common block plus the `n % t` remainder.
pub proof fn lemma_last_task_absorbs_remainder(n: int, t: int)
    requires
        1 <= t,
        0 <= n,
    ensures
        task_hi(n, t, t - 1) - task_lo(n, t, t - 1) == block_len(n, t) + n % t,
{
    lemma_blocks_fit(n, t);
}

/// The first index owned by task `i` of `t` tasks over `n` items.
pub fn task_start(n: usize, t: usize, i: usize) -> (r: usize)
    requires
        1 <= t,
        i < t,
    ensures
        r == task_lo(n as int, t as int, i as int),
        r <= n,
{
    proof {
        lemma_task_range(n as int, t as int, i as int);
    }
    let b = n / t;
    proof {
        assert(i * b <= n) by {
            lemma_task_range(n as int, t as int, i as int);
            assert(i * b == task_lo(n as int, t as int, i as int));
        }
    }
    i * b
}

/// One past the last index owned by task `i` of `t` tasks over `n` items.
pub fn task_end(n: usize, t: usize, i: usize) -> (r: usize)
    requires
        1 <= t,
        i < t,
    ensures
        r == task_hi(n as int, t as int, i as int),
        r <= n,
        task_lo(n as int, t as int, i as int) <= r,
{
    proof {
        lemma_task_range(n as int, t as int, i as int);
    }
    if i == t - 1 {
        n
    } else {
        let b = n / t;
        proof {
            assert((i + 1) * b <= n) by {
                lemma_task_range(n as int, t as int, i as int);
            }
        }
        (i + 1) * b
    }
}

} // verus!
