//! Finite sums of integer sequences and their Cauchy products.

use vstd::prelude::*;

verus! {

/// `f(lo) + f(lo + 1) + ... + f(hi - 1)`.
pub open spec fn sum(f: spec_fn(int) -> int, lo: int, hi: int) -> int
    decreases hi - lo,
{
    if hi <= lo {
        0
    } else {
        sum(f, lo, hi - 1) + f(hi - 1)
    }
}

/// The `n`-th coefficient of the product of the series `a` and `b`.
pub open spec fn conv(a: spec_fn(int) -> int, b: spec_fn(int) -> int, n: int) -> int {
    sum(|k: int| a(k) * b(n - k), 0, n + 1)
}

pub proof fn lemma_sum_ext(f: spec_fn(int) -> int, g: spec_fn(int) -> int, lo: int, hi: int)
    requires
        forall|i: int| lo <= i < hi ==> #[trigger] f(i) == g(i),
    ensures
        sum(f, lo, hi) == sum(g, lo, hi),
    decreases hi - lo,
{
    if hi > lo {
        lemma_sum_ext(f, g, lo, hi - 1);
    }
}

pub proof fn lemma_sum_zero(f: spec_fn(int) -> int, lo: int, hi: int)
    requires
        forall|i: int| lo <= i < hi ==> #[trigger] f(i) == 0,
    ensures
        sum(f, lo, hi) == 0,
    decreases hi - lo,
{
    if hi > lo {
        lemma_sum_zero(f, lo, hi - 1);
    }
}

pub proof fn lemma_sum_add(f: spec_fn(int) -> int, g: spec_fn(int) -> int, h: spec_fn(int) -> int, lo: int, hi: int)
    requires
        forall|i: int| lo <= i < hi ==> #[trigger] h(i) == f(i) + g(i),
    ensures
        sum(h, lo, hi) == sum(f, lo, hi) + sum(g, lo, hi),
    decreases hi - lo,
{
    if hi > lo {
        lemma_sum_add(f, g, h, lo, hi - 1);
    }
}

pub proof fn lemma_sum_scale(f: spec_fn(int) -> int, g: spec_fn(int) -> int, c: int, lo: int, hi: int)
    requires
        forall|i: int| lo <= i < hi ==> #[trigger] g(i) == c * f(i),
    ensures
        sum(g, lo, hi) == c * sum(f, lo, hi),
    decreases hi - lo,
{
    if hi > lo {
        lemma_sum_scale(f, g, c, lo, hi - 1);
        let s = sum(f, lo, hi - 1);
        let x = f(hi - 1);
        assert(c * s + c * x == c * (s + x)) by (nonlinear_arith);
    }
}

pub proof fn lemma_sum_split(f: spec_fn(int) -> int, lo: int, mid: int, hi: int)
    requires
        lo <= mid <= hi,
    ensures
        sum(f, lo, hi) == sum(f, lo, mid) + sum(f, mid, hi),
    decreases hi - mid,
{
    if hi > mid {
        lemma_sum_split(f, lo, mid, hi - 1);
    }
}

/// Splits off the first term.
pub proof fn lemma_sum_first(f: spec_fn(int) -> int, lo: int, hi: int)
    requires
        lo < hi,
    ensures
        sum(f, lo, hi) == f(lo) + sum(f, lo + 1, hi),
{
    lemma_sum_split(f, lo, lo + 1, hi);
    assert(sum(f, lo, lo + 1) == sum(f, lo, lo) + f(lo));
}

pub proof fn lemma_sum_shift(f: spec_fn(int) -> int, g: spec_fn(int) -> int, d: int, lo: int, hi: int)
    requires
        forall|i: int| lo <= i < hi ==> #[trigger] g(i) == f(i + d),
    ensures
        sum(g, lo, hi) == sum(f, lo + d, hi + d),
    decreases hi - lo,
{
    if hi > lo {
        lemma_sum_shift(f, g, d, lo, hi - 1);
        assert(g(hi - 1) == f(hi - 1 + d));
    }
}

/// Summing `f` backwards.
pub proof fn lemma_sum_reverse(f: spec_fn(int) -> int, g: spec_fn(int) -> int, n: int)
    requires
        n >= 0,
        forall|i: int| 0 <= i <= n ==> #[trigger] g(i) == f(n - i),
    ensures
        sum(g, 0, n + 1) == sum(f, 0, n + 1),
    decreases n,
{
    lemma_sum_first(f, 0, n + 1);
    if n > 0 {
        let f1 = |i: int| f(i + 1);
        assert forall|i: int| 0 <= i <= n - 1 implies #[trigger] g(i) == f1((n - 1) - i) by {
            assert(g(i) == f(n - i));
        }
        lemma_sum_reverse(f1, g, n - 1);
        lemma_sum_shift(f, f1, 1, 0, n);
    }
    assert(g(n) == f(0));
    assert(sum(g, 0, n + 1) == sum(g, 0, n) + g(n));
    assert(sum(g, 0, 0) == 0);
}

/// The rows and the columns of the triangle `{(i, m) | 0 <= i <= m <= big}` give the same total.
pub proof fn lemma_sum_triangle(f: spec_fn(int, int) -> int, big: int)
    requires
        big >= -1,
    ensures
        sum(|m: int| sum(|i: int| f(i, m), 0, m + 1), 0, big + 1) == sum(
            |i: int| sum(|m: int| f(i, m), i, big + 1),
            0,
            big + 1,
        ),
    decreases big + 1,
{
    let rows = |m: int| sum(|i: int| f(i, m), 0, m + 1);
    let cols = |i: int| sum(|m: int| f(i, m), i, big + 1);
    if big >= 0 {
        lemma_sum_triangle(f, big - 1);
        let cols0 = |i: int| sum(|m: int| f(i, m), i, big);
        let last = |i: int| f(i, big);
        assert forall|i: int| 0 <= i < big + 1 implies #[trigger] cols(i) == cols0(i) + last(i) by {
            let g = |m: int| f(i, m);
            assert(sum(g, i, big + 1) == sum(g, i, big) + g(big));
        }
        lemma_sum_add(cols0, last, cols, 0, big + 1);
        assert(cols0(big) == 0);
        assert(sum(cols0, 0, big + 1) == sum(cols0, 0, big) + cols0(big));
        assert(sum(rows, 0, big + 1) == sum(rows, 0, big) + rows(big));
        lemma_sum_ext(|i: int| f(i, big), last, 0, big + 1);
    }
}

proof fn lemma_mul3(x: int, y: int, z: int)
    ensures
        x * y * z == z * (x * y),
        x * y * z == x * (y * z),
{
    assert(x * y * z == z * (x * y)) by (nonlinear_arith);
    assert(x * y * z == x * (y * z)) by (nonlinear_arith);
}

/// The product of series is associative.
#[verifier::spinoff_prover]
pub proof fn lemma_conv_assoc(a: spec_fn(int) -> int, b: spec_fn(int) -> int, c: spec_fn(int) -> int, n: int)
    requires
        n >= 0,
    ensures
        conv(|m: int| conv(a, b, m), c, n) == conv(a, |m: int| conv(b, c, m), n),
{
    let ab = |m: int| conv(a, b, m);
    let bc = |m: int| conv(b, c, m);
    let f = |i: int, m: int| a(i) * b(m - i) * c(n - m);
    let rows = |m: int| sum(|i: int| f(i, m), 0, m + 1);
    let cols = |i: int| sum(|m: int| f(i, m), i, n + 1);
    let lt = |k: int| ab(k) * c(n - k);
    let rt = |k: int| a(k) * bc(n - k);
    assert(conv(ab, c, n) == sum(lt, 0, n + 1));
    assert(conv(a, bc, n) == sum(rt, 0, n + 1));
    assert forall|m: int| 0 <= m < n + 1 implies #[trigger] lt(m) == rows(m) by {
        let p = |i: int| a(i) * b(m - i);
        let q = |i: int| f(i, m);
        assert forall|i: int| 0 <= i < m + 1 implies #[trigger] q(i) == c(n - m) * p(i) by {
            lemma_mul3(a(i), b(m - i), c(n - m));
        }
        lemma_sum_scale(p, q, c(n - m), 0, m + 1);
        assert(ab(m) == sum(p, 0, m + 1));
        assert(sum(p, 0, m + 1) * c(n - m) == c(n - m) * sum(p, 0, m + 1)) by (nonlinear_arith);
    }
    lemma_sum_ext(lt, rows, 0, n + 1);
    lemma_sum_triangle(f, n);
    assert forall|i: int| 0 <= i < n + 1 implies #[trigger] rt(i) == cols(i) by {
        let p = |j: int| b(j) * c(n - i - j);
        let g = |j: int| f(i, j + i);
        let h = |m: int| f(i, m);
        assert forall|j: int| 0 <= j < n - i + 1 implies #[trigger] g(j) == a(i) * p(j) by {
            lemma_mul3(a(i), b(j), c(n - i - j));
            assert(j + i - i == j);
            assert(n - (j + i) == n - i - j);
        }
        lemma_sum_scale(p, g, a(i), 0, n - i + 1);
        assert forall|j: int| 0 <= j < n - i + 1 implies #[trigger] g(j) == h(j + i) by {}
        lemma_sum_shift(h, g, i, 0, n - i + 1);
        assert(bc(n - i) == sum(p, 0, n - i + 1));
    }
    lemma_sum_ext(rt, cols, 0, n + 1);
}

/// `2 * sum_k k a(k) a(n - k) == n * sum_k a(k) a(n - k)`.
pub proof fn lemma_conv_weighted(a: spec_fn(int) -> int, n: int)
    requires
        n >= 0,
    ensures
        2 * sum(|k: int| k * a(k) * a(n - k), 0, n + 1) == n * conv(a, a, n),
{
    let w = |k: int| k * a(k) * a(n - k);
    let v = |k: int| (n - k) * a(k) * a(n - k);
    let s = |k: int| n * (a(k) * a(n - k));
    let p = |k: int| a(k) * a(n - k);
    assert forall|i: int| 0 <= i <= n implies #[trigger] v(i) == w(n - i) by {
        assert(n - (n - i) == i);
        let x = a(i);
        let y = a(n - i);
        assert((n - i) * x * y == (n - i) * y * x) by (nonlinear_arith);
    }
    lemma_sum_reverse(w, v, n);
    assert forall|i: int| 0 <= i < n + 1 implies #[trigger] s(i) == w(i) + v(i) by {
        let x = a(i);
        let y = a(n - i);
        assert(n * (x * y) == i * x * y + (n - i) * x * y) by (nonlinear_arith);
    }
    lemma_sum_add(w, v, s, 0, n + 1);
    assert forall|i: int| 0 <= i < n + 1 implies #[trigger] s(i) == n * p(i) by {}
    lemma_sum_scale(p, s, n, 0, n + 1);
    assert(conv(a, a, n) == sum(p, 0, n + 1));
}

} // verus!
