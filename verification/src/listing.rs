//! What the enumeration of forests lists: every forest once.

use vstd::prelude::*;

use crate::hooks::{binom, lemma_binom_fact, lemma_fact_pos};

use crate::enumerate::{catalan_spec, fact, forests, forests_from, joins, lemma_joins_member, lemma_forests_size};
use crate::sums::{
    conv, lemma_conv_assoc, lemma_conv_weighted, lemma_sum_ext, lemma_sum_first, lemma_sum_shift, lemma_sum_zero, sum,
};
use crate::tree::{Shape, forest_size, lemma_forest_size_append, lemma_forest_size_single};

verus! {

proof fn lemma_joins_has(ls: Seq<Seq<Shape>>, rs: Seq<Seq<Shape>>, i: int, j: int)
    requires
        0 <= i < ls.len(),
        0 <= j < rs.len(),
    ensures
        joins(ls, rs).contains(seq![Shape { children: ls[i] }] + rs[j]),
    decreases ls.len(),
{
    let a = joins(ls.drop_last(), rs);
    let g = |r: Seq<Shape>| seq![Shape { children: ls.last() }] + r;
    let b = rs.map_values(g);
    assert(joins(ls, rs) == a + b);
    let f = seq![Shape { children: ls[i] }] + rs[j];
    if i == ls.len() - 1 {
        assert(b[j] == f);
        assert((a + b)[a.len() + j] == f);
    } else {
        lemma_joins_has(ls.drop_last(), rs, i, j);
        assert(ls.drop_last()[i] == ls[i]);
        let k = choose|k: int| 0 <= k < a.len() && a[k] == f;
        assert((a + b)[k] == f);
    }
}

proof fn lemma_from_has(p: nat, k: nat, m: nat, f: Seq<Shape>)
    requires
        k <= m < p,
        joins(forests(m), forests((p - 1 - m) as nat)).contains(f),
    ensures
        forests_from(p, k).contains(f),
    decreases m - k,
{
    let a = joins(forests(k), forests((p - 1 - k) as nat));
    let b = forests_from(p, k + 1);
    assert(forests_from(p, k) == a + b);
    if k == m {
        let i = choose|i: int| 0 <= i < a.len() && a[i] == f;
        assert((a + b)[i] == f);
    } else {
        lemma_from_has(p, k + 1, m, f);
        let i = choose|i: int| 0 <= i < b.len() && b[i] == f;
        assert((a + b)[a.len() + i] == f);
    }
}

/// Every forest is listed by `forests` of its number of nodes.
pub proof fn lemma_forests_complete(f: Seq<Shape>)
    ensures
        forests(forest_size(f)).contains(f),
    decreases forest_size(f),
{
    if f.len() == 0 {
        assert(forests(0)[0] == f);
    } else {
        let c = f[0];
        let rest = f.subrange(1, f.len() as int);
        assert(f =~= seq![c] + rest);
        lemma_forest_size_append(seq![c], rest);
        lemma_forest_size_single(c);
        let p = forest_size(f);
        let k = forest_size(c.children);
        let q = forest_size(rest);
        assert(p == 1 + k + q);
        lemma_forests_complete(c.children);
        lemma_forests_complete(rest);
        let i = choose|i: int| 0 <= i < forests(k).len() && forests(k)[i] == c.children;
        let j = choose|j: int| 0 <= j < forests(q).len() && forests(q)[j] == rest;
        assert(q == (p - 1 - k) as nat);
        lemma_joins_has(forests(k), forests(q), i, j);
        assert(Shape { children: forests(k)[i] } == c);
        lemma_from_has(p, 0, k, f);
        assert(forests(p) == forests_from(p, 0));
    }
}

proof fn lemma_from_first(p: nat, k: nat, f: Seq<Shape>)
    requires
        forests_from(p, k).contains(f),
    ensures
        f.len() > 0,
        forest_size(f[0].children) >= k,
    decreases p - k,
{
    if k < p {
        let a = joins(forests(k), forests((p - 1 - k) as nat));
        let b = forests_from(p, k + 1);
        assert(forests_from(p, k) == a + b);
        let i = choose|i: int| 0 <= i < (a + b).len() && (a + b)[i] == f;
        if i < a.len() {
            assert(a[i] == f);
            lemma_joins_member(forests(k), forests((p - 1 - k) as nat), f);
            let (l, r) = choose|l: Seq<Shape>, r: Seq<Shape>|
                forests(k).contains(l) && forests((p - 1 - k) as nat).contains(r) && f == seq![Shape { children: l }] + r;
            lemma_forests_size(k);
            assert(f[0] == Shape { children: l });
        } else {
            assert(b[i - a.len()] == f);
            lemma_from_first(p, k + 1, f);
        }
    }
}

#[verifier::spinoff_prover]
proof fn lemma_joins_distinct(ls: Seq<Seq<Shape>>, rs: Seq<Seq<Shape>>)
    requires
        ls.no_duplicates(),
        rs.no_duplicates(),
    ensures
        joins(ls, rs).no_duplicates(),
    decreases ls.len(),
{
    if ls.len() > 0 {
        let l0 = ls.drop_last();
        assert(l0.no_duplicates()) by {
            assert forall|i: int, j: int| 0 <= i < l0.len() && 0 <= j < l0.len() && i != j implies l0[i] != l0[j] by {
                assert(l0[i] == ls[i] && l0[j] == ls[j]);
            }
        }
        lemma_joins_distinct(l0, rs);
        let a = joins(l0, rs);
        let g = |r: Seq<Shape>| seq![Shape { children: ls.last() }] + r;
        let b = rs.map_values(g);
        assert(joins(ls, rs) == a + b);
        assert forall|i: int, j: int| 0 <= i < b.len() && 0 <= j < b.len() && i != j implies b[i] != b[j] by {
            if b[i] == b[j] {
                assert(b[i].subrange(1, b[i].len() as int) =~= rs[i]);
                assert(b[j].subrange(1, b[j].len() as int) =~= rs[j]);
            }
        }
        assert forall|i: int, j: int| 0 <= i < a.len() && 0 <= j < b.len() implies a[i] != b[j] by {
            assert(a.contains(a[i]));
            lemma_joins_member(l0, rs, a[i]);
            let (l, r) = choose|l: Seq<Shape>, r: Seq<Shape>|
                l0.contains(l) && rs.contains(r) && a[i] == seq![Shape { children: l }] + r;
            let k = choose|k: int| 0 <= k < l0.len() && l0[k] == l;
            assert(a[i][0] == Shape { children: l });
            assert(b[j][0] == Shape { children: ls.last() });
            assert(ls[k] == l && ls[ls.len() - 1] == ls.last());
        }
        let s = a + b;
        assert forall|i: int, j: int| 0 <= i < s.len() && 0 <= j < s.len() && i != j implies s[i] != s[j] by {
            if i < a.len() && j < a.len() {
            } else if i >= a.len() && j >= a.len() {
                assert(s[i] == b[i - a.len()] && s[j] == b[j - a.len()]);
            } else if i < a.len() {
                assert(s[j] == b[j - a.len()]);
            } else {
                assert(s[i] == b[i - a.len()]);
            }
        }
    }
}

/// No forest is listed twice by `forests(p)`.
pub proof fn lemma_forests_distinct(p: nat)
    ensures
        forests(p).no_duplicates(),
    decreases p, 2nat, 0nat,
{
    if p > 0 {
        lemma_from_distinct(p, 0);
    }
}

#[verifier::spinoff_prover]
proof fn lemma_from_distinct(p: nat, k: nat)
    ensures
        forests_from(p, k).no_duplicates(),
    decreases p, 1nat, p - k,
{
    if k < p {
        lemma_forests_distinct(k);
        lemma_forests_distinct((p - 1 - k) as nat);
        lemma_joins_distinct(forests(k), forests((p - 1 - k) as nat));
        lemma_from_distinct(p, k + 1);
        let a = joins(forests(k), forests((p - 1 - k) as nat));
        let b = forests_from(p, k + 1);
        assert(forests_from(p, k) == a + b);
        assert forall|i: int, j: int| 0 <= i < a.len() && 0 <= j < b.len() implies a[i] != b[j] by {
            assert(a.contains(a[i]));
            lemma_joins_member(forests(k), forests((p - 1 - k) as nat), a[i]);
            let (l, r) = choose|l: Seq<Shape>, r: Seq<Shape>|
                forests(k).contains(l) && forests((p - 1 - k) as nat).contains(r) && a[i] == seq![Shape { children: l }] + r;
            lemma_forests_size(k);
            assert(a[i][0] == Shape { children: l });
            assert(b.contains(b[j]));
            lemma_from_first(p, k + 1, b[j]);
        }
        let s = a + b;
        assert forall|i: int, j: int| 0 <= i < s.len() && 0 <= j < s.len() && i != j implies s[i] != s[j] by {
            if i < a.len() && j < a.len() {
            } else if i >= a.len() && j >= a.len() {
                assert(s[i] == b[i - a.len()] && s[j] == b[j - a.len()]);
            } else if i < a.len() {
                assert(s[j] == b[j - a.len()]);
            } else {
                assert(s[i] == b[i - a.len()]);
            }
        }
    }
}

/// Number of forests with `n` nodes (0 for negative `n`).
pub open spec fn tree_count(n: int) -> int {
    if n < 0 {
        0
    } else {
        forests(n as nat).len() as int
    }
}

/// The series of `tree_count`.
pub open spec fn counts() -> spec_fn(int) -> int {
    |j: int| tree_count(j)
}

/// The series of `(i + 1) * tree_count(i + 1)`: the derivative of `counts()`.
pub open spec fn count_slopes() -> spec_fn(int) -> int {
    |i: int|
        if i < 0 {
            0
        } else {
            (i + 1) * tree_count(i + 1)
        }
}

/// The series `1 - 2 x counts()`.
pub open spec fn unit_less_twice() -> spec_fn(int) -> int {
    |i: int|
        if i == 0 {
            1
        } else if i > 0 {
            -2 * tree_count(i - 1)
        } else {
            0
        }
}

proof fn lemma_joins_len(ls: Seq<Seq<Shape>>, rs: Seq<Seq<Shape>>)
    ensures
        joins(ls, rs).len() == ls.len() * rs.len(),
    decreases ls.len(),
{
    if ls.len() > 0 {
        lemma_joins_len(ls.drop_last(), rs);
        let a = ls.len() as int;
        let b = rs.len() as int;
        assert((a - 1) * b + b == a * b) by (nonlinear_arith);
    }
}

proof fn lemma_from_len(p: nat, k: nat)
    requires
        k <= p,
    ensures
        forests_from(p, k).len() == sum(|j: int| tree_count(j) * tree_count(p - 1 - j), k as int, p as int),
    decreases p - k,
{
    let t = |j: int| tree_count(j) * tree_count(p - 1 - j);
    if k < p {
        lemma_from_len(p, k + 1);
        lemma_joins_len(forests(k), forests((p - 1 - k) as nat));
        lemma_sum_first(t, k as int, p as int);
    }
}

/// Segner's recurrence: `tree_count(n + 1)` is the `n`-th coefficient of the square of `counts()`.
proof fn lemma_count_square(n: int)
    requires
        n >= 0,
    ensures
        tree_count(n + 1) == conv(counts(), counts(), n),
{
    let p = (n + 1) as nat;
    lemma_from_len(p, 0);
    let t = |j: int| tree_count(j) * tree_count(p - 1 - j);
    let c = counts();
    let q = |k: int| c(k) * c(n - k);
    assert forall|k: int| 0 <= k < n + 1 implies #[trigger] t(k) == q(k) by {}
    lemma_sum_ext(t, q, 0, n + 1);
    assert(forests(p) == forests_from(p, 0));
}

#[verifier::spinoff_prover]
proof fn lemma_slopes_times_unit(m: int)
    requires
        m >= 0,
    ensures
        conv(count_slopes(), unit_less_twice(), m) == tree_count(m + 1),
{
    let d = count_slopes();
    let u = unit_less_twice();
    let c = counts();
    let f = |k: int| d(k) * u(m - k);
    let w = |j: int| j * c(j) * c(m - j);
    let w1 = |k: int| w(k + 1);
    let g = |k: int| -2 * w1(k);
    assert(sum(f, 0, m + 1) == sum(f, 0, m) + f(m));
    assert forall|k: int| 0 <= k < m implies #[trigger] f(k) == g(k) by {
        assert(m - (k + 1) == m - 1 - k);
        let x = tree_count(k + 1);
        let y = tree_count(m - k - 1);
        assert((k + 1) * x * (-2 * y) == -2 * ((k + 1) * x * y)) by (nonlinear_arith);
    }
    lemma_sum_ext(f, g, 0, m);
    crate::sums::lemma_sum_scale(w1, g, -2, 0, m);
    lemma_sum_shift(w, w1, 1, 0, m);
    lemma_sum_first(w, 0, m + 1);
    lemma_conv_weighted(c, m);
    lemma_count_square(m);
    assert(f(m) == (m + 1) * tree_count(m + 1));
    assert(w(0) == 0) by (nonlinear_arith)
        requires
            w(0) == 0 * c(0) * c(m),
    ;
    assert(m * tree_count(m + 1) + tree_count(m + 1) == (m + 1) * tree_count(m + 1)) by (nonlinear_arith);
}

#[verifier::spinoff_prover]
proof fn lemma_unit_squared(m: int)
    requires
        m >= 0,
    ensures
        conv(unit_less_twice(), unit_less_twice(), m) == if m == 0 {
            1
        } else if m == 1 {
            -4
        } else {
            0
        },
{
    let u = unit_less_twice();
    let c = counts();
    let f = |k: int| u(k) * u(m - k);
    assert(tree_count(0) == 1) by {
        assert(forests(0).len() == 1);
    }
    if m == 0 {
        assert(sum(f, 0, 1) == sum(f, 0, 0) + f(0));
    } else if m == 1 {
        assert(sum(f, 0, 2) == sum(f, 0, 1) + f(1));
        assert(sum(f, 0, 1) == sum(f, 0, 0) + f(0));
    } else {
        lemma_sum_first(f, 0, m + 1);
        assert(sum(f, 1, m + 1) == sum(f, 1, m) + f(m));
        let q = |j: int| c(j) * c(m - 2 - j);
        let g = |k: int| 4 * q(k - 1);
        assert forall|k: int| 1 <= k < m implies #[trigger] f(k) == g(k) by {
            assert(m - k - 1 == m - 2 - (k - 1));
            let x = tree_count(k - 1);
            let y = tree_count(m - k - 1);
            assert((-2 * x) * (-2 * y) == 4 * (x * y)) by (nonlinear_arith);
        }
        lemma_sum_ext(f, g, 1, m);
        let g0 = |j: int| 4 * q(j);
        assert forall|j: int| 0 <= j < m - 1 implies #[trigger] g0(j) == g(j + 1) by {}
        lemma_sum_shift(g, g0, 1, 0, m - 1);
        crate::sums::lemma_sum_scale(q, g0, 4, 0, m - 1);
        lemma_count_square(m - 2);
        assert(conv(c, c, m - 2) == sum(q, 0, m - 1));
    }
}

/// `(n + 2) * tree_count(n + 1) == (4n + 2) * tree_count(n)`.
#[verifier::spinoff_prover]
proof fn lemma_count_ratio(n: int)
    requires
        n >= 0,
    ensures
        (n + 2) * tree_count(n + 1) == (4 * n + 2) * tree_count(n),
{
    let c = counts();
    let d = count_slopes();
    let u = unit_less_twice();
    assert(tree_count(0) == 1) by {
        assert(forests(0).len() == 1);
    }
    if n == 0 {
        lemma_count_square(0);
        let q = |k: int| c(k) * c(0 - k);
        assert(conv(c, c, 0) == sum(q, 0, 1));
        assert(sum(q, 0, 1) == sum(q, 0, 0) + q(0));
    } else {
        let du = |m: int| conv(d, u, m);
        let uu = |m: int| conv(u, u, m);
        lemma_conv_assoc(d, u, u, n);
        // the right-hand side: two terms survive
        let r = |k: int| d(k) * uu(n - k);
        assert(conv(d, uu, n) == sum(r, 0, n + 1));
        assert(sum(r, 0, n + 1) == sum(r, 0, n) + r(n));
        assert(sum(r, 0, n) == sum(r, 0, n - 1) + r(n - 1));
        assert forall|k: int| 0 <= k < n - 1 implies #[trigger] r(k) == 0 by {
            lemma_unit_squared(n - k);
        }
        lemma_sum_zero(r, 0, n - 1);
        lemma_unit_squared(0);
        lemma_unit_squared(1);
        assert(uu(0) == 1);
        assert(uu(1) == -4);
        assert(d(n) == (n + 1) * tree_count(n + 1));
        assert(d(n - 1) == n * tree_count(n));
        assert(r(n) == d(n) * uu(n - n));
        assert(r(n - 1) == d(n - 1) * uu(n - (n - 1)));
        assert(r(n) == (n + 1) * tree_count(n + 1)) by (nonlinear_arith)
            requires
                r(n) == d(n) * uu(0),
                uu(0) == 1,
                d(n) == (n + 1) * tree_count(n + 1),
        ;
        assert(r(n - 1) == n * tree_count(n) * -4) by (nonlinear_arith)
            requires
                r(n - 1) == d(n - 1) * uu(1),
                uu(1) == -4,
                d(n - 1) == n * tree_count(n),
        ;
        // the left-hand side
        let l = |k: int| du(k) * u(n - k);
        let l1 = |k: int| c(k + 1) * u(n - k);
        assert(conv(du, u, n) == sum(l, 0, n + 1));
        assert forall|k: int| 0 <= k < n + 1 implies #[trigger] l(k) == l1(k) by {
            lemma_slopes_times_unit(k);
        }
        lemma_sum_ext(l, l1, 0, n + 1);
        assert(sum(l1, 0, n + 1) == sum(l1, 0, n) + l1(n));
        let h = |j: int| c(j) * c(n - j);
        let h1 = |k: int| h(k + 1);
        let g = |k: int| -2 * h1(k);
        assert forall|k: int| 0 <= k < n implies #[trigger] l1(k) == g(k) by {
            assert(n - (k + 1) == n - k - 1);
            let x = tree_count(k + 1);
            let y = tree_count(n - k - 1);
            assert(x * (-2 * y) == -2 * (x * y)) by (nonlinear_arith);
        }
        lemma_sum_ext(l1, g, 0, n);
        crate::sums::lemma_sum_scale(h1, g, -2, 0, n);
        lemma_sum_shift(h, h1, 1, 0, n);
        lemma_sum_first(h, 0, n + 1);
        lemma_count_square(n);
        assert(conv(c, c, n) == sum(h, 0, n + 1));
        assert(c(0) == 1);
        assert(c(n) == tree_count(n));
        assert(h(0) == c(0) * c(n - 0));
        assert(h(0) == tree_count(n)) by (nonlinear_arith)
            requires
                h(0) == c(0) * c(n),
                c(0) == 1,
                c(n) == tree_count(n),
        ;
        let a = tree_count(n + 1);
        let b = tree_count(n);
        assert((n + 1) * a + n * b * -4 == a - 2 * (a - b) ==> (n + 2) * a == (4 * n + 2) * b) by (nonlinear_arith);
    }
}

/// The enumeration lists the `n`-th Catalan number of forests with `n` nodes.
pub proof fn lemma_forests_catalan(n: nat)
    ensures
        forests(n).len() == catalan_spec(n),
    decreases n,
{
    if n > 0 {
        let k = (n - 1) as nat;
        lemma_forests_catalan(k);
        lemma_count_ratio(k as int);
        let a = tree_count(n as int);
        assert(catalan_spec(k) * (4 * k + 2) == a * (k + 2)) by (nonlinear_arith)
            requires
                catalan_spec(k) == tree_count(k as int),
                (k + 2) * a == (4 * k + 2) * tree_count(k as int),
        ;
        vstd::arithmetic::div_mod::lemma_div_by_multiple(a, (k + 2) as int);
    }
}

/// The Catalan recurrence `C(k + 1) · (k + 2) = C(k) · (4k + 2)` holds exactly (the
/// division in `catalan_spec` leaves no remainder).
proof fn lemma_catalan_step(k: nat)
    ensures
        catalan_spec(k + 1) * (k + 2) == catalan_spec(k) * (4 * k + 2),
{
    lemma_forests_catalan(k);
    lemma_forests_catalan(k + 1);
    lemma_count_ratio(k as int);
    let a = tree_count(k + 1 as int);
    assert(catalan_spec(k) * (4 * k + 2) == a * (k + 2)) by (nonlinear_arith)
        requires
            catalan_spec(k) == tree_count(k as int),
            (k + 2) * a == (4 * k + 2) * tree_count(k as int),
    ;
    vstd::arithmetic::div_mod::lemma_div_by_multiple(a, (k + 2) as int);
    assert(catalan_spec(k + 1) == a);
}

/// `C(n) · n! · (n + 1)! = (2n)!`.
proof fn lemma_catalan_factorials(n: nat)
    ensures
        catalan_spec(n) * fact(n) * fact(n + 1) == fact(2 * n),
    decreases n,
{
    if n == 0 {
        assert(fact(1) == 1 * fact(0));
    } else {
        let k = (n - 1) as nat;
        lemma_catalan_factorials(k);
        lemma_catalan_step(k);
        let c = catalan_spec(k);
        let c1 = catalan_spec(n);
        let fk = fact(k);
        assert(fact(n) == n * fk);
        assert(fact(n + 1) == (n + 1) * fact(n));
        assert(fact(2 * n) == (2 * n) * fact((2 * n - 1) as nat));
        assert(fact((2 * n - 1) as nat) == (2 * n - 1) * fact(2 * k));
        let f = fact(n);
        let g = fact(2 * k);
        assert(c1 * f * fact(n + 1) == (c1 * (k + 2)) * (f * f)) by (nonlinear_arith)
            requires
                fact(n + 1) == (n + 1) * f,
                n == k + 1,
        ;
        assert((c * (4 * k + 2)) * (f * f) == (2 * n) * (2 * n - 1) * (c * fk * f)) by (nonlinear_arith)
            requires
                f == n * fk,
                n == k + 1,
        ;
        assert(fact(2 * n) == (2 * n) * (2 * n - 1) * g) by (nonlinear_arith)
            requires
                fact(2 * n) == (2 * n) * fact((2 * n - 1) as nat),
                fact((2 * n - 1) as nat) == (2 * n - 1) * g,
        ;
        assert(c * fk * f == g);
    }
}

/// The Catalan numbers are the central binomial coefficients divided by `n + 1`:
/// `C(n) · (n + 1) = binom(2n, n)`.
pub proof fn lemma_catalan_binomial(n: nat)
    ensures
        catalan_spec(n) * (n + 1) == binom(2 * n, n),
        catalan_spec(n) == binom(2 * n, n) / (n + 1),
{
    lemma_catalan_factorials(n);
    lemma_binom_fact(2 * n, n);
    lemma_fact_pos(n);
    assert((2 * n - n) as nat == n);
    let c = catalan_spec(n);
    let b = binom(2 * n, n);
    let f = fact(n);
    assert(fact(n + 1) == (n + 1) * f);
    assert(c * (n + 1) == b) by (nonlinear_arith)
        requires
            c * f * fact(n + 1) == fact(2 * n),
            b * f * f == fact(2 * n),
            fact(n + 1) == (n + 1) * f,
            f >= 1,
    {
        assert((c * (n + 1)) * (f * f) == b * (f * f));
        vstd::arithmetic::mul::lemma_mul_equality_converse((f * f) as int, (c * (n + 1)) as int, b as int);
    }
    vstd::arithmetic::div_mod::lemma_div_by_multiple(c as int, (n + 1) as int);
}

} // verus!
