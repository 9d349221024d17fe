//! Finite sums of integer-valued functions, with the algebraic facts the
//! regression proofs rest on: congruence, linearity, scaling, exchange of
//! summation order, and sums of a Kronecker delta.

use vstd::prelude::*;

verus! {

/// The sum `f(0) + f(1) + ... + f(n - 1)`.
pub open spec fn sum(n: int, f: spec_fn(int) -> int) -> int
    decreases n,
{
    if n <= 0 {
        0
    } else {
        sum(n - 1, f) + f(n - 1)
    }
}

/// Functions that agree below `n` have the same sum.
pub proof fn lemma_sum_ext(n: int, f: spec_fn(int) -> int, g: spec_fn(int) -> int)
    requires
        forall|j: int| 0 <= j < n ==> #[trigger] f(j) == g(j),
    ensures
        sum(n, f) == sum(n, g),
    decreases n,
{
    if n > 0 {
        lemma_sum_ext(n - 1, f, g);
    }
}

/// A sum of pointwise sums splits.
pub proof fn lemma_sum_linear(
    n: int,
    f: spec_fn(int) -> int,
    g: spec_fn(int) -> int,
    h: spec_fn(int) -> int,
)
    requires
        forall|j: int| 0 <= j < n ==> #[trigger] h(j) == f(j) + g(j),
    ensures
        sum(n, h) == sum(n, f) + sum(n, g),
    decreases n,
{
    if n > 0 {
        lemma_sum_linear(n - 1, f, g, h);
    }
}

/// A common factor moves out of a sum.
pub proof fn lemma_sum_scale(n: int, a: int, f: spec_fn(int) -> int, g: spec_fn(int) -> int)
    requires
        forall|j: int| 0 <= j < n ==> #[trigger] g(j) == a * f(j),
    ensures
        sum(n, g) == a * sum(n, f),
    decreases n,
{
    if n > 0 {
        lemma_sum_scale(n - 1, a, f, g);
        assert(a * (sum(n - 1, f) + f(n - 1)) == a * sum(n - 1, f) + a * f(n - 1))
            by (nonlinear_arith);
    }
}

/// A sum of zeros is zero.
pub proof fn lemma_sum_zero(n: int, f: spec_fn(int) -> int)
    requires
        forall|j: int| 0 <= j < n ==> #[trigger] f(j) == 0,
    ensures
        sum(n, f) == 0,
    decreases n,
{
    if n > 0 {
        lemma_sum_zero(n - 1, f);
    }
}

/// The order of a double sum can be exchanged.
pub proof fn lemma_sum_swap(m: int, n: int, f: spec_fn(int, int) -> int)
    ensures
        sum(m, |i: int| sum(n, |j: int| f(i, j))) == sum(n, |j: int| sum(m, |i: int| f(i, j))),
    decreases m,
{
    if m <= 0 {
        lemma_sum_zero(n, |j: int| sum(0, |i: int| f(i, j)));
        assert(sum(n, |j: int| sum(m, |i: int| f(i, j))) == sum(
            n,
            |j: int| sum(0, |i: int| f(i, j)),
        )) by {
            lemma_sum_ext(n, |j: int| sum(m, |i: int| f(i, j)), |j: int| sum(0, |i: int| f(i, j)));
        }
    } else {
        lemma_sum_swap(m - 1, n, f);
        assert(sum(m, |i: int| sum(n, |j: int| f(i, j))) == sum(
            m - 1,
            |i: int| sum(n, |j: int| f(i, j)),
        ) + sum(n, |j: int| f(m - 1, j)));
        lemma_sum_linear(
            n,
            |j: int| sum(m - 1, |i: int| f(i, j)),
            |j: int| f(m - 1, j),
            |j: int| sum(m, |i: int| f(i, j)),
        );
    }
}

/// A sum against a Kronecker delta at `l` picks out `w(l)`.
pub proof fn lemma_sum_delta(n: int, l: int, f: spec_fn(int) -> int, w: spec_fn(int) -> int)
    requires
        0 <= l < n,
        forall|j: int| 0 <= j < n ==> #[trigger] f(j) == if j == l {
            w(l)
        } else {
            0
        },
    ensures
        sum(n, f) == w(l),
    decreases n,
{
    if l == n - 1 {
        lemma_sum_zero(n - 1, f);
    } else {
        lemma_sum_delta(n - 1, l, f, w);
    }
}

} // verus!
