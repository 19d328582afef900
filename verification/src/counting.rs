//! Counting and summing over the positions of a rectangular grid.
//!
//! The automata keep running totals (population, grains of sand) whose
//! contracts are phrased with these spec functions; the lemmas here are the
//! induction steps those proofs share.

use vstd::prelude::*;

verus! {

/// Number of columns `c < k` in row `i` with `f(i, c)`.
pub open spec fn count_in_row(f: spec_fn(int, int) -> bool, i: int, k: int) -> int
    decreases k,
{
    if k <= 0 {
        0
    } else {
        count_in_row(f, i, k - 1) + if f(i, k - 1) {
            1int
        } else {
            0int
        }
    }
}

/// Number of positions `(i, j)` with `i < k`, `j < w` and `f(i, j)`.
pub open spec fn count_upto(f: spec_fn(int, int) -> bool, k: int, w: int) -> int
    decreases k,
{
    if k <= 0 {
        0
    } else {
        count_upto(f, k - 1, w) + count_in_row(f, k - 1, w)
    }
}

/// Sum of `f(i, c)` over the columns `c < k` of row `i`.
pub open spec fn sum_in_row(f: spec_fn(int, int) -> int, i: int, k: int) -> int
    decreases k,
{
    if k <= 0 {
        0
    } else {
        sum_in_row(f, i, k - 1) + f(i, k - 1)
    }
}

/// Sum of `f(i, j)` over the positions `(i, j)` with `i < k`, `j < w`.
pub open spec fn sum_upto(f: spec_fn(int, int) -> int, k: int, w: int) -> int
    decreases k,
{
    if k <= 0 {
        0
    } else {
        sum_upto(f, k - 1, w) + sum_in_row(f, k - 1, w)
    }
}

/// A row count lies between `0` and the number of columns counted.
pub proof fn lemma_count_in_row_bounds(f: spec_fn(int, int) -> bool, i: int, k: int)
    requires
        0 <= k,
    ensures
        0 <= count_in_row(f, i, k) <= k,
    decreases k,
{
    if k > 0 {
        lemma_count_in_row_bounds(f, i, k - 1);
    }
}

/// A grid count lies between `0` and the number of positions counted.
pub proof fn lemma_count_upto_bounds(f: spec_fn(int, int) -> bool, k: int, w: int)
    requires
        0 <= k,
        0 <= w,
    ensures
        0 <= count_upto(f, k, w) <= k * w,
    decreases k,
{
    if k > 0 {
        lemma_count_upto_bounds(f, k - 1, w);
        lemma_count_in_row_bounds(f, k - 1, w);
        assert((k - 1) * w + w == k * w) by (nonlinear_arith);
    }
}

/// Predicates that agree on a row produce the same row count.
pub proof fn lemma_count_in_row_ext(
    f: spec_fn(int, int) -> bool,
    g: spec_fn(int, int) -> bool,
    i: int,
    k: int,
)
    requires
        forall|c: int| 0 <= c < k ==> #[trigger] f(i, c) == g(i, c),
    ensures
        count_in_row(f, i, k) == count_in_row(g, i, k),
    decreases k,
{
    if k > 0 {
        lemma_count_in_row_ext(f, g, i, k - 1);
    }
}

/// Predicates that agree on the whole grid produce the same count.
pub proof fn lemma_count_upto_ext(
    f: spec_fn(int, int) -> bool,
    g: spec_fn(int, int) -> bool,
    k: int,
    w: int,
)
    requires
        forall|i: int, c: int| 0 <= i < k && 0 <= c < w ==> #[trigger] f(i, c) == g(i, c),
    ensures
        count_upto(f, k, w) == count_upto(g, k, w),
    decreases k,
{
    if k > 0 {
        lemma_count_upto_ext(f, g, k - 1, w);
        lemma_count_in_row_ext(f, g, k - 1, w);
    }
}

/// A pointwise weaker predicate counts no more positions in a row.
pub proof fn lemma_count_in_row_le(
    f: spec_fn(int, int) -> bool,
    g: spec_fn(int, int) -> bool,
    i: int,
    k: int,
)
    requires
        forall|c: int| 0 <= c < k && #[trigger] f(i, c) ==> g(i, c),
    ensures
        count_in_row(f, i, k) <= count_in_row(g, i, k),
    decreases k,
{
    if k > 0 {
        lemma_count_in_row_le(f, g, i, k - 1);
    }
}

/// A pointwise weaker predicate counts no more positions in the grid.
pub proof fn lemma_count_upto_le(
    f: spec_fn(int, int) -> bool,
    g: spec_fn(int, int) -> bool,
    k: int,
    w: int,
)
    requires
        forall|i: int, c: int| 0 <= i < k && 0 <= c < w && #[trigger] f(i, c) ==> g(i, c),
    ensures
        count_upto(f, k, w) <= count_upto(g, k, w),
    decreases k,
{
    if k > 0 {
        lemma_count_upto_le(f, g, k - 1, w);
        lemma_count_in_row_le(f, g, k - 1, w);
    }
}

/// Counting a new predicate in a row is the old count, minus the positions
/// that dropped out, plus those that joined.
pub proof fn lemma_count_in_row_diff(
    p: spec_fn(int, int) -> bool,
    q: spec_fn(int, int) -> bool,
    i: int,
    k: int,
)
    ensures
        count_in_row(q, i, k) == count_in_row(p, i, k) - count_in_row(
            |r: int, c: int| p(r, c) && !q(r, c),
            i,
            k,
        ) + count_in_row(|r: int, c: int| q(r, c) && !p(r, c), i, k),
    decreases k,
{
    if k > 0 {
        lemma_count_in_row_diff(p, q, i, k - 1);
    }
}

/// Counting a new predicate in the grid is the old count, minus the
/// positions that dropped out, plus those that joined.
pub proof fn lemma_count_upto_diff(
    p: spec_fn(int, int) -> bool,
    q: spec_fn(int, int) -> bool,
    k: int,
    w: int,
)
    ensures
        count_upto(q, k, w) == count_upto(p, k, w) - count_upto(
            |r: int, c: int| p(r, c) && !q(r, c),
            k,
            w,
        ) + count_upto(|r: int, c: int| q(r, c) && !p(r, c), k, w),
    decreases k,
{
    if k > 0 {
        lemma_count_upto_diff(p, q, k - 1, w);
        lemma_count_in_row_diff(p, q, k - 1, w);
    }
}

/// A predicate that holds nowhere in a row counts zero positions.
pub proof fn lemma_count_in_row_zero(f: spec_fn(int, int) -> bool, i: int, k: int)
    requires
        forall|c: int| 0 <= c < k ==> !#[trigger] f(i, c),
    ensures
        count_in_row(f, i, k) == 0,
    decreases k,
{
    if k > 0 {
        lemma_count_in_row_zero(f, i, k - 1);
    }
}

/// A predicate that holds nowhere on the grid counts zero positions.
pub proof fn lemma_count_upto_zero(f: spec_fn(int, int) -> bool, k: int, w: int)
    requires
        forall|i: int, c: int| 0 <= i < k && 0 <= c < w ==> !#[trigger] f(i, c),
    ensures
        count_upto(f, k, w) == 0,
    decreases k,
{
    if k > 0 {
        lemma_count_upto_zero(f, k - 1, w);
        lemma_count_in_row_zero(f, k - 1, w);
    }
}

/// A row sum of non-negative terms is non-negative.
pub proof fn lemma_sum_in_row_nonneg(f: spec_fn(int, int) -> int, i: int, k: int)
    requires
        forall|c: int| 0 <= c < k ==> #[trigger] f(i, c) >= 0,
    ensures
        0 <= sum_in_row(f, i, k),
    decreases k,
{
    if k > 0 {
        lemma_sum_in_row_nonneg(f, i, k - 1);
    }
}

/// A grid sum of non-negative terms is non-negative.
pub proof fn lemma_sum_upto_nonneg(f: spec_fn(int, int) -> int, k: int, w: int)
    requires
        forall|i: int, c: int| 0 <= i < k && 0 <= c < w ==> #[trigger] f(i, c) >= 0,
    ensures
        0 <= sum_upto(f, k, w),
    decreases k,
{
    if k > 0 {
        lemma_sum_upto_nonneg(f, k - 1, w);
        lemma_sum_in_row_nonneg(f, k - 1, w);
    }
}

/// A row sum of all-zero terms is zero.
pub proof fn lemma_sum_in_row_zero(f: spec_fn(int, int) -> int, i: int, k: int)
    requires
        forall|c: int| 0 <= c < k ==> #[trigger] f(i, c) == 0,
    ensures
        sum_in_row(f, i, k) == 0,
    decreases k,
{
    if k > 0 {
        lemma_sum_in_row_zero(f, i, k - 1);
    }
}

/// A grid sum of all-zero terms is zero.
pub proof fn lemma_sum_upto_zero(f: spec_fn(int, int) -> int, k: int, w: int)
    requires
        forall|i: int, c: int| 0 <= i < k && 0 <= c < w ==> #[trigger] f(i, c) == 0,
    ensures
        sum_upto(f, k, w) == 0,
    decreases k,
{
    if k > 0 {
        lemma_sum_upto_zero(f, k - 1, w);
        lemma_sum_in_row_zero(f, k - 1, w);
    }
}

/// Functions that agree on a row have the same row sum.
pub proof fn lemma_sum_in_row_ext(
    f: spec_fn(int, int) -> int,
    g: spec_fn(int, int) -> int,
    i: int,
    k: int,
)
    requires
        forall|c: int| 0 <= c < k ==> #[trigger] f(i, c) == g(i, c),
    ensures
        sum_in_row(f, i, k) == sum_in_row(g, i, k),
    decreases k,
{
    if k > 0 {
        lemma_sum_in_row_ext(f, g, i, k - 1);
    }
}

/// Functions that agree on the whole grid have the same sum.
pub proof fn lemma_sum_upto_ext(
    f: spec_fn(int, int) -> int,
    g: spec_fn(int, int) -> int,
    k: int,
    w: int,
)
    requires
        forall|i: int, c: int| 0 <= i < k && 0 <= c < w ==> #[trigger] f(i, c) == g(i, c),
    ensures
        sum_upto(f, k, w) == sum_upto(g, k, w),
    decreases k,
{
    if k > 0 {
        lemma_sum_upto_ext(f, g, k - 1, w);
        lemma_sum_in_row_ext(f, g, k - 1, w);
    }
}

/// Changing a single position of a row changes its sum by the difference at
/// that position.
pub proof fn lemma_sum_in_row_change(
    f: spec_fn(int, int) -> int,
    g: spec_fn(int, int) -> int,
    i: int,
    k: int,
    c0: int,
)
    requires
        0 <= c0 < k,
        forall|c: int| 0 <= c < k && c != c0 ==> #[trigger] f(i, c) == g(i, c),
    ensures
        sum_in_row(g, i, k) == sum_in_row(f, i, k) - f(i, c0) + g(i, c0),
    decreases k,
{
    if k > 0 {
        if c0 == k - 1 {
            lemma_sum_in_row_ext(f, g, i, k - 1);
        } else {
            lemma_sum_in_row_change(f, g, i, k - 1, c0);
        }
    }
}

/// Changing a single position of the grid changes its sum by the difference
/// at that position.
pub proof fn lemma_sum_upto_change(
    f: spec_fn(int, int) -> int,
    g: spec_fn(int, int) -> int,
    k: int,
    w: int,
    r0: int,
    c0: int,
)
    requires
        0 <= r0 < k,
        0 <= c0 < w,
        forall|i: int, c: int|
            0 <= i < k && 0 <= c < w && !(i == r0 && c == c0) ==> #[trigger] f(i, c) == g(i, c),
    ensures
        sum_upto(g, k, w) == sum_upto(f, k, w) - f(r0, c0) + g(r0, c0),
    decreases k,
{
    if k > 0 {
        if r0 == k - 1 {
            lemma_sum_upto_ext(f, g, k - 1, w);
            lemma_sum_in_row_change(f, g, k - 1, w, c0);
        } else {
            lemma_sum_upto_change(f, g, k - 1, w, r0, c0);
            lemma_sum_in_row_ext(f, g, k - 1, w);
        }
    }
}

/// With non-negative terms, a single term of a row is at most the row sum.
pub proof fn lemma_sum_in_row_elem(f: spec_fn(int, int) -> int, i: int, k: int, c0: int)
    requires
        0 <= c0 < k,
        forall|c: int| 0 <= c < k ==> #[trigger] f(i, c) >= 0,
    ensures
        f(i, c0) <= sum_in_row(f, i, k),
    decreases k,
{
    if c0 == k - 1 {
        lemma_sum_in_row_nonneg(f, i, k - 1);
    } else {
        lemma_sum_in_row_elem(f, i, k - 1, c0);
    }
}

/// With non-negative terms, a single term of the grid is at most the grid
/// sum.
pub proof fn lemma_sum_upto_elem(f: spec_fn(int, int) -> int, k: int, w: int, r0: int, c0: int)
    requires
        0 <= r0 < k,
        0 <= c0 < w,
        forall|i: int, c: int| 0 <= i < k && 0 <= c < w ==> #[trigger] f(i, c) >= 0,
    ensures
        f(r0, c0) <= sum_upto(f, k, w),
    decreases k,
{
    if r0 == k - 1 {
        lemma_sum_upto_nonneg(f, k - 1, w);
        lemma_sum_in_row_elem(f, k - 1, w, c0);
    } else {
        lemma_sum_upto_elem(f, k - 1, w, r0, c0);
        lemma_sum_in_row_nonneg(f, k - 1, w);
    }
}

} // verus!
