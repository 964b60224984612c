//! The determinant, modelled by Laplace expansion along the first column.
//!
//! Over exact integer arithmetic every non-zero pivot strategy computes the
//! same value, so the determinant itself is modelled directly; the
//! characteristic behaviour of row pivoting — a row swap negates the
//! determinant, and a repeated row forces determinant zero — is proved as
//! the lemmas at the end of this module.

use vstd::prelude::*;
use vstd::math::abs;
use crate::model::{in_i64, is_grid};


verus! {

/// `(-1)^k`.
pub open spec fn alt_sign(k: int) -> int {
    if k % 2 == 0 {
        1int
    } else {
        -1int
    }
}

/// `row` with position `c` deleted.
pub open spec fn row_drop(row: Seq<int>, c: int) -> Seq<int> {
    Seq::new((row.len() - 1) as nat, |j: int| if j < c { row[j] } else { row[j + 1] })
}

/// The grid with row `r` and column `c` deleted.
pub open spec fn grid_minor(g: Seq<Seq<int>>, r: int, c: int) -> Seq<Seq<int>> {
    Seq::new((g.len() - 1) as nat, |i: int| if i < r { row_drop(g[i], c) } else { row_drop(g[i + 1], c) })
}

/// The determinant of the leading `n x n` grid `g`.
pub open spec fn det(g: Seq<Seq<int>>, n: int) -> int
    decreases n, 1int, 0int,
{
    if n <= 1 {
        g[0][0]
    } else {
        det_expand(g, n, n)
    }
}

/// Partial Laplace expansion along column 0: the signed contributions of
/// the first `k` rows.
pub open spec fn det_expand(g: Seq<Seq<int>>, n: int, k: int) -> int
    decreases n, 0int, k,
{
    if k <= 0 || n <= 1 {
        0
    } else {
        det_expand(g, n, k - 1) + alt_sign(k - 1) * g[k - 1][0] * det(grid_minor(g, k - 1, 0), n
            - 1)
    }
}

/// Partial sums of the absolute values of the expansion's terms.
pub open spec fn det_expand_abs(g: Seq<Seq<int>>, n: int, k: int) -> int
    decreases k,
{
    if k <= 0 || n <= 1 {
        0
    } else {
        det_expand_abs(g, n, k - 1) + abs(g[k - 1][0] * det(grid_minor(g, k - 1, 0), n - 1))
    }
}

/// Machine-limit condition for evaluating `det(g, n)`: the single entry
/// fits for a `1 x 1` grid, and otherwise every minor's evaluation fits and
/// every partial sum of term magnitudes fits in an `i64`.
pub open spec fn det_fits(g: Seq<Seq<int>>, n: int) -> bool
    decreases n,
{
    if n <= 1 {
        in_i64(g[0][0])
    } else {
        &&& forall|i: int| 0 <= i < n ==> det_fits(#[trigger] grid_minor(g, i, 0), n - 1)
        &&& in_i64(det_expand_abs(g, n, n))
    }
}

/// Machine-limit condition for the cofactor matrix of `g`: every minor's
/// determinant can be evaluated and negated.
pub open spec fn cof_fits(g: Seq<Seq<int>>, n: int) -> bool {
    forall|i: int, j: int|
        0 <= i < n && 0 <= j < n ==> {
            &&& det_fits(#[trigger] grid_minor(g, i, j), n - 1)
            &&& in_i64(det(grid_minor(g, i, j), n - 1))
            &&& in_i64(-det(grid_minor(g, i, j), n - 1))
        }
}

/// The signed cofactor of cell `(i, j)`.
pub open spec fn cof_cell(g: Seq<Seq<int>>, n: int, i: int, j: int) -> int {
    alt_sign(i + j) * det(grid_minor(g, i, j), n - 1)
}

/// Term magnitudes are non-negative, so the partial magnitude sums grow.
proof fn lemma_det_expand_abs_mono(g: Seq<Seq<int>>, n: int, j: int, k: int)
    requires
        0 <= j <= k,
    ensures
        det_expand_abs(g, n, j) <= det_expand_abs(g, n, k),
    decreases k,
{
    if k > j {
        lemma_det_expand_abs_mono(g, n, j, k - 1);
    }
}

/// A partial expansion is bounded by the matching partial magnitude sum.
proof fn lemma_det_expand_abs_bound(g: Seq<Seq<int>>, n: int, k: int)
    requires
        0 <= k,
    ensures
        -det_expand_abs(g, n, k) <= det_expand(g, n, k) <= det_expand_abs(g, n, k),
    decreases k,
{
    if k > 0 && n > 1 {
        lemma_det_expand_abs_bound(g, n, k - 1);
        let s0 = alt_sign(k - 1);
        let g0 = g[k - 1][0];
        let d = det(grid_minor(g, k - 1, 0), n - 1);
        assert(s0 * g0 * d == s0 * (g0 * d)) by (nonlinear_arith);
        assert(s0 * (g0 * d) == g0 * d || s0 * (g0 * d) == -(g0 * d)) by (nonlinear_arith)
            requires s0 == 1 || s0 == -1;
    }
}

/// One expansion step stays in range: the new term, its product, and the
/// extended partial sum.
pub proof fn lemma_det_step_fits(g: Seq<Seq<int>>, n: int, k: int)
    requires
        2 <= n,
        0 <= k < n,
        det_fits(g, n),
    ensures
        in_i64(g[k][0] * det(grid_minor(g, k, 0), n - 1)),
        in_i64(-(g[k][0] * det(grid_minor(g, k, 0), n - 1))),
        in_i64(det_expand(g, n, k) + alt_sign(k) * (g[k][0] * det(grid_minor(g, k, 0), n - 1))),
        det_expand(g, n, k + 1) == det_expand(g, n, k) + alt_sign(k) * (g[k][0] * det(
            grid_minor(g, k, 0), n - 1)),
    {
    let s0 = alt_sign(k);
    let g0 = g[k][0];
    let d = det(grid_minor(g, k, 0), n - 1);
    lemma_det_expand_abs_bound(g, n, k + 1);
    lemma_det_expand_abs_bound(g, n, k);
    lemma_det_expand_abs_mono(g, n, k + 1, n);
    lemma_det_expand_abs_mono(g, n, 0, k);
    assert(s0 * g0 * d == s0 * (g0 * d)) by (nonlinear_arith);
    assert(s0 * (g0 * d) == g0 * d || s0 * (g0 * d) == -(g0 * d)) by (nonlinear_arith)
        requires s0 == 1 || s0 == -1;
}

// ---------------------------------------------------------------------------
// The determinant under row pivoting.
// ---------------------------------------------------------------------------

/// The grid with rows `r` and `s` exchanged.
pub open spec fn swap_rows(g: Seq<Seq<int>>, r: int, s: int) -> Seq<Seq<int>> {
    g.update(r, g[s]).update(s, g[r])
}

/// Term `i` of the Laplace expansion along column 0.
pub open spec fn det_term(g: Seq<Seq<int>>, n: int, i: int) -> int {
    alt_sign(i) * g[i][0] * det(grid_minor(g, i, 0), n - 1)
}

/// A minor of a square grid is a square grid one size smaller.
pub proof fn lemma_minor_grid(g: Seq<Seq<int>>, n: int, r: int, c: int)
    requires
        is_grid(g, n, n),
        2 <= n,
        0 <= r < n,
        0 <= c < n,
    ensures
        is_grid(grid_minor(g, r, c), n - 1, n - 1),
{
    assert forall|i: int| 0 <= i < n - 1 implies (#[trigger] grid_minor(g, r, c)[i]).len() == n
        - 1 by {
        if i < r {
            assert(g[i].len() == n);
        } else {
            assert(g[i + 1].len() == n);
        }
    }
}

/// Swapping rows preserves the grid shape.
proof fn lemma_swap_grid(g: Seq<Seq<int>>, n: int, r: int, s: int)
    requires
        is_grid(g, n, n),
        0 <= r < n,
        0 <= s < n,
    ensures
        is_grid(swap_rows(g, r, s), n, n),
{
    assert forall|i: int| 0 <= i < n implies (#[trigger] swap_rows(g, r, s)[i]).len() == n by {
        assert(g[i].len() == n);
        assert(g[r].len() == n);
        assert(g[s].len() == n);
    }
}

/// Termwise negation propagates through the partial expansion.
proof fn lemma_expand_termwise(g1: Seq<Seq<int>>, g2: Seq<Seq<int>>, n: int, lo: int, hi: int)
    requires
        2 <= n,
        0 <= lo <= hi,
        det_expand(g2, n, lo) == -det_expand(g1, n, lo),
        forall|i: int| lo <= i < hi ==> #[trigger] det_term(g2, n, i) == -det_term(g1, n, i),
    ensures
        det_expand(g2, n, hi) == -det_expand(g1, n, hi),
    decreases hi - lo,
{
    if hi > lo {
        lemma_expand_termwise(g1, g2, n, lo, hi - 1);
        assert(det_expand(g2, n, hi) == det_expand(g2, n, hi - 1) + det_term(g2, n, hi - 1));
        assert(det_expand(g1, n, hi) == det_expand(g1, n, hi - 1) + det_term(g1, n, hi - 1));
        assert(det_term(g2, n, hi - 1) == -det_term(g1, n, hi - 1));
    }
}

/// Exchanging two adjacent rows negates the determinant.
pub proof fn lemma_det_swap_adjacent(g: Seq<Seq<int>>, n: int, r: int)
    requires
        is_grid(g, n, n),
        2 <= n,
        0 <= r < n - 1,
    ensures
        det(swap_rows(g, r, r + 1), n) == -det(g, n),
    decreases n,
{
    let g2 = swap_rows(g, r, r + 1);
    lemma_swap_grid(g, n, r, r + 1);

    // Terms strictly below the swapped pair: the pair appears, shifted by
    // one, inside the minor, so the inductive hypothesis negates the term.
    assert forall|i: int| 0 <= i < r implies #[trigger] det_term(g2, n, i) == -det_term(g, n,
        i) by {
        lemma_minor_grid(g, n, i, 0);
        let m1 = grid_minor(g, i, 0);
        let m2 = grid_minor(g2, i, 0);
        assert forall|ii: int| 0 <= ii < n - 1 implies m2[ii] == #[trigger] swap_rows(m1, r - 1,
            r)[ii] by {}
        assert(m2 =~= swap_rows(m1, r - 1, r));
        lemma_det_swap_adjacent(m1, n - 1, r - 1);
        assert(det(m2, n - 1) == -det(m1, n - 1));
        assert(g2[i][0] == g[i][0]);
        assert(alt_sign(i) * g[i][0] * (-det(m1, n - 1)) == -(alt_sign(i) * g[i][0] * det(m1, n
            - 1))) by (nonlinear_arith);
    }

    // Terms strictly above the swapped pair: the pair appears, unshifted,
    // inside the minor.
    assert forall|i: int| r + 2 <= i < n implies #[trigger] det_term(g2, n, i) == -det_term(g, n,
        i) by {
        lemma_minor_grid(g, n, i, 0);
        let m1 = grid_minor(g, i, 0);
        let m2 = grid_minor(g2, i, 0);
        assert forall|ii: int| 0 <= ii < n - 1 implies m2[ii] == #[trigger] swap_rows(m1, r, r
            + 1)[ii] by {}
        assert(m2 =~= swap_rows(m1, r, r + 1));
        lemma_det_swap_adjacent(m1, n - 1, r);
        assert(det(m2, n - 1) == -det(m1, n - 1));
        assert(g2[i][0] == g[i][0]);
        assert(alt_sign(i) * g[i][0] * (-det(m1, n - 1)) == -(alt_sign(i) * g[i][0] * det(m1, n
            - 1))) by (nonlinear_arith);
    }

    // The crossing terms exchange roles and flip sign through the
    // alternating factor.
    assert(grid_minor(g2, r, 0) =~= grid_minor(g, r + 1, 0));
    assert(grid_minor(g2, r + 1, 0) =~= grid_minor(g, r, 0));
    assert(alt_sign(r) == -alt_sign(r + 1));
    assert(g2[r][0] == g[r + 1][0]);
    assert(g2[r + 1][0] == g[r][0]);
    let dr = det(grid_minor(g, r, 0), n - 1);
    let dr1 = det(grid_minor(g, r + 1, 0), n - 1);
    assert(det_term(g2, n, r) == alt_sign(r) * g[r + 1][0] * dr1);
    assert(det_term(g, n, r + 1) == alt_sign(r + 1) * g[r + 1][0] * dr1);
    assert(alt_sign(r) * g[r + 1][0] * dr1 == -(alt_sign(r + 1) * g[r + 1][0] * dr1))
        by (nonlinear_arith)
        requires alt_sign(r) == -alt_sign(r + 1);
    assert(det_term(g2, n, r) == -det_term(g, n, r + 1));
    assert(det_term(g2, n, r + 1) == alt_sign(r + 1) * g[r][0] * dr);
    assert(det_term(g, n, r) == alt_sign(r) * g[r][0] * dr);
    assert(alt_sign(r + 1) * g[r][0] * dr == -(alt_sign(r) * g[r][0] * dr)) by (nonlinear_arith)
        requires alt_sign(r) == -alt_sign(r + 1);
    assert(det_term(g2, n, r + 1) == -det_term(g, n, r));

    // Assemble the sum: below the pair, across the pair, above the pair.
    lemma_expand_termwise(g, g2, n, 0, r);
    assert(det_expand(g2, n, r + 1) == det_expand(g2, n, r) + det_term(g2, n, r));
    assert(det_expand(g, n, r + 1) == det_expand(g, n, r) + det_term(g, n, r));
    assert(det_expand(g2, n, r + 2) == det_expand(g2, n, r + 1) + det_term(g2, n, r + 1));
    assert(det_expand(g, n, r + 2) == det_expand(g, n, r + 1) + det_term(g, n, r + 1));
    assert(det_expand(g2, n, r + 2) == -det_expand(g, n, r + 2));
    lemma_expand_termwise(g, g2, n, r + 2, n);
}

/// Exchanging any two distinct rows negates the determinant: this is the
/// sign change that each pivoting step of an elimination performs.
pub proof fn lemma_det_swap(g: Seq<Seq<int>>, n: int, r: int, s: int)
    requires
        is_grid(g, n, n),
        2 <= n,
        0 <= r < s < n,
    ensures
        det(swap_rows(g, r, s), n) == -det(g, n),
    decreases s - r,
{
    if s == r + 1 {
        lemma_det_swap_adjacent(g, n, r);
    } else {
        let h = swap_rows(g, s - 1, s);
        let h2 = swap_rows(h, r, s - 1);
        let h3 = swap_rows(h2, s - 1, s);
        lemma_det_swap_adjacent(g, n, s - 1);
        lemma_swap_grid(g, n, s - 1, s);
        lemma_det_swap(h, n, r, s - 1);
        lemma_swap_grid(h, n, r, s - 1);
        lemma_det_swap_adjacent(h2, n, s - 1);
        assert(h3 =~~= swap_rows(g, r, s));
    }
}

/// A square grid with two identical rows has determinant exactly zero.
pub proof fn lemma_det_equal_rows_zero(g: Seq<Seq<int>>, n: int, r: int, s: int)
    requires
        is_grid(g, n, n),
        2 <= n,
        0 <= r < s < n,
        g[r] == g[s],
    ensures
        det(g, n) == 0,
{
    lemma_det_swap(g, n, r, s);
    assert(swap_rows(g, r, s) =~~= g);
}

} // verus!
