//! The number of ways to reduce a tree to a leaf, and the hook length formula.

use vstd::prelude::*;

use crate::enumerate::{fact, forest_hook_product, hook_product, nb_red, nb_sum};
use crate::tree::{
    Shape, bounded, child_leaf_paths, delete_at, delete_leaf_spec, edges, forest_leaf_paths, forest_size,
    is_leaf_shape, lemma_delete_shift, lemma_edges_size, lemma_forest_path_member, lemma_forest_size_append,
    lemma_forest_size_single, lemma_leaf_path_deletes, lemma_paths_nonempty, lemma_reductions_size, leaf_paths,
    reduce_at, reductions, size,
};

verus! {

/// The tree with children `fs`.
pub open spec fn node(fs: Seq<Shape>) -> Shape {
    Shape { children: fs }
}

/// `r` with `c` added as its last child.
pub open spec fn with_last(r: Shape, c: Shape) -> Shape {
    Shape { children: r.children + seq![c] }
}

/// The tree with children `fp` then `r`.
pub open spec fn after(fp: Seq<Shape>, r: Shape) -> Shape {
    Shape { children: fp + seq![r] }
}

/// Adds `c` as the last child.
pub open spec fn add_last(c: Shape) -> spec_fn(Shape) -> Shape {
    |r: Shape| with_last(r, c)
}

/// Puts a tree after the trees `fp`.
pub open spec fn put_after(fp: Seq<Shape>) -> spec_fn(Shape) -> Shape {
    |r: Shape| after(fp, r)
}

/// A deletion along a path that starts in the first children does not touch a last child `c`.
proof fn lemma_reduce_before_last(fp: Seq<Shape>, c: Shape, p: Seq<usize>)
    requires
        p.len() >= 1,
        p[0] < fp.len(),
    ensures
        reduce_at(node(fp + seq![c]), p) == with_last(reduce_at(node(fp), p), c),
{
    let cs = fp + seq![c];
    let s = node(cs);
    let t = node(fp);
    let first = p[0];
    assert(cs[first as int] == fp[first as int]);
    assert(s == with_last(t, c));
    if p.len() == 1 {
        if is_leaf_shape(fp[first as int]) {
            assert(cs.remove(first as int) =~= fp.remove(first as int) + seq![c]);
        }
    } else {
        match delete_at(fp[first as int], p, 1) {
            Ok(x) => {
                assert(cs.update(first as int, x) =~= fp.update(first as int, x) + seq![c]);
            },
            Err(_) => {},
        }
    }
}

/// The reductions of a tree whose last child is `c`: first those made in the other
/// children, then the deletion of `c` where it is a leaf, or else those made inside `c`.
#[verifier::spinoff_prover]
pub proof fn lemma_reductions_last(fp: Seq<Shape>, c: Shape)
    requires
        bounded(node(fp + seq![c])),
    ensures
        reductions(node(fp + seq![c])) == reductions(node(fp)).map_values(add_last(c)) + if is_leaf_shape(c) {
            seq![node(fp)]
        } else {
            reductions(c).map_values(put_after(fp))
        },
{
    let cs = fp + seq![c];
    let s = node(cs);
    let t = node(fp);
    let n = fp.len();
    assert(cs.drop_last() =~= fp);
    assert(cs.last() == c);
    let a = forest_leaf_paths(fp);
    let b = child_leaf_paths(c, n as usize);
    assert(leaf_paths(s) == a + b);
    assert(leaf_paths(t) == a);
    assert(bounded(c)) by {
        assert(cs[n as int] == c);
    }
    assert(fp.len() <= usize::MAX);
    let r1 = reductions(t).map_values(add_last(c));
    let r2 = if is_leaf_shape(c) {
        seq![t]
    } else {
        reductions(c).map_values(put_after(fp))
    };
    let red = reductions(s);
    assert(red.len() == a.len() + b.len());
    assert forall|k: int| 0 <= k < a.len() implies #[trigger] red[k] == r1[k] by {
        let (i, q) = lemma_forest_path_member(fp, k);
        assert(leaf_paths(s)[k] == a[k]);
        assert(a[k][0] == i);
        lemma_reduce_before_last(fp, c, a[k]);
    }
    assert forall|k: int| a.len() <= k < red.len() implies #[trigger] red[k] == r2[k - a.len()] by {
        let j = k - a.len();
        assert(leaf_paths(s)[k] == b[j]);
        if is_leaf_shape(c) {
            assert(b[j] == seq![n as usize]);
            assert(cs.remove(n as int) =~= fp);
        } else {
            let lp = leaf_paths(c);
            let q = lp[j];
            assert(b[j] == seq![n as usize] + q);
            assert(lp.contains(q));
            lemma_paths_nonempty(c, j);
            lemma_leaf_path_deletes(c, q);
            lemma_delete_shift(c, n as usize, q, 0);
            let c2 = delete_leaf_spec(c, q)->Ok_0;
            assert(reduce_at(c, q) == c2);
            assert(cs.update(n as int, c2) =~= fp + seq![c2]);
            assert((seq![n as usize] + q)[0] == n);
        }
    }
    assert(red =~= r1 + r2);
}

/// The binomial coefficients, by Pascal's rule.
pub open spec fn binom(n: nat, k: nat) -> nat
    decreases n,
{
    if k == 0 {
        1
    } else if n == 0 {
        0
    } else {
        binom((n - 1) as nat, (k - 1) as nat) + binom((n - 1) as nat, k)
    }
}

proof fn lemma_binom_above(n: nat, k: nat)
    requires
        k > n,
    ensures
        binom(n, k) == 0,
    decreases n,
{
    if n > 0 {
        lemma_binom_above((n - 1) as nat, (k - 1) as nat);
        lemma_binom_above((n - 1) as nat, k);
    }
}

pub(crate) proof fn lemma_binom_fact(n: nat, k: nat)
    requires
        k <= n,
    ensures
        binom(n, k) * fact(k) * fact((n - k) as nat) == fact(n),
    decreases n,
{
    if k == 0 {
        assert(fact(0) == 1);
        assert(binom(n, k) * fact(k) * fact((n - k) as nat) == fact(n)) by (nonlinear_arith)
            requires
                binom(n, k) == 1,
                fact(k) == 1,
                (n - k) as nat == n,
        ;
    } else {
        let m = (n - 1) as nat;
        let j = (k - 1) as nat;
        assert(binom(n, k) == binom(m, j) + binom(m, k));
        lemma_binom_fact(m, j);
        let b1 = binom(m, j);
        let b2 = binom(m, k);
        let fm = fact(m);
        assert(fact(k) == k * fact(j));
        assert(fact(n) == n * fm);
        assert((n - k) as nat == (m - j) as nat);
        let r = fact((n - k) as nat);
        assert(b1 * fact(j) * r == fm);
        if k <= m {
            lemma_binom_fact(m, k);
            assert(r == (n - k) * fact((m - k) as nat));
            assert(b2 * fact(k) * fact((m - k) as nat) == fm);
            assert((b1 + b2) * (k * fact(j)) * r == n * fm) by (nonlinear_arith)
                requires
                    b1 * fact(j) * r == fm,
                    b2 * (k * fact(j)) * fact((m - k) as nat) == fm,
                    r == (n - k) * fact((m - k) as nat),
                    k <= n,
            ;
        } else {
            lemma_binom_above(m, k);
            assert((b1 + b2) * (k * fact(j)) * r == n * fm) by (nonlinear_arith)
                requires
                    b1 * fact(j) * r == fm,
                    b2 == 0,
                    k == n,
            ;
        }
    }
}

proof fn lemma_nb_sum_append(a: Seq<Shape>, b: Seq<Shape>, lim: nat)
    ensures
        nb_sum(a + b, lim, true) == nb_sum(a, lim, true) + nb_sum(b, lim, true),
    decreases b.len(),
{
    if b.len() == 0 {
        assert(a + b =~= a);
    } else {
        lemma_nb_sum_append(a, b.drop_last(), lim);
        assert((a + b).drop_last() =~= a + b.drop_last());
        assert((a + b).last() == b.last());
    }
}

proof fn lemma_nb_sum_map(rs: Seq<Shape>, g: spec_fn(Shape) -> Shape, k: nat, lim1: nat, lim2: nat)
    requires
        forall|i: int|
            0 <= i < rs.len() ==> size(#[trigger] rs[i]) < lim1 && size(g(rs[i])) < lim2 && nb_red(g(rs[i]), true)
                == k * nb_red(rs[i], true),
    ensures
        nb_sum(rs.map_values(g), lim2, true) == k * nb_sum(rs, lim1, true),
    decreases rs.len(),
{
    if rs.len() == 0 {
        assert(rs.map_values(g).len() == 0);
        assert(k * 0 == 0) by (nonlinear_arith);
    } else {
        let last = (rs.len() - 1) as int;
        assert(size(rs[last]) < lim1);
        lemma_nb_sum_map(rs.drop_last(), g, k, lim1, lim2);
        let ms = rs.map_values(g);
        assert(ms.drop_last() =~= rs.drop_last().map_values(g));
        assert(ms.last() == g(rs.last()));
        assert(size(g(rs[last])) < lim2);
        let x = nb_sum(rs.drop_last(), lim1, true);
        let y = nb_red(rs.last(), true);
        assert(nb_sum(ms, lim2, true) == nb_sum(ms.drop_last(), lim2, true) + nb_red(g(rs.last()), true));
        assert(nb_sum(rs, lim1, true) == x + y);
        assert(k * x + k * y == k * (x + y)) by (nonlinear_arith);
    }
}

/// Reducing a tree whose last child is `c`: the reductions of the other children
/// and those of `c` are shuffled, in `binom(n, size(c))` ways, where `n` counts the
/// nodes below the root.
#[verifier::spinoff_prover]
pub proof fn lemma_nb_last(fp: Seq<Shape>, c: Shape)
    requires
        bounded(node(fp + seq![c])),
    ensures
        nb_red(node(fp + seq![c]), true) == binom(forest_size(fp) + size(c), size(c)) * (nb_red(node(fp), true)
            * nb_red(c, true)),
    decreases forest_size(fp) + size(c),
{
    let cs = fp + seq![c];
    let s = node(cs);
    let t = node(fp);
    let sc = size(c);
    let nn = forest_size(fp) + sc;
    lemma_forest_size_append(fp, seq![c]);
    lemma_forest_size_single(c);
    assert(size(s) == 1 + nn);
    assert(size(t) == 1 + forest_size(fp));
    assert(sc >= 1);
    assert(bounded(c)) by {
        assert(cs[fp.len() as int] == c);
    }
    assert(bounded(t)) by {
        assert forall|i: int| 0 <= i < fp.len() implies bounded(#[trigger] fp[i]) by {
            assert(cs[i] == fp[i]);
        }
    }
    lemma_reductions_last(fp, c);
    lemma_reductions_size(s);
    lemma_reductions_size(t);
    lemma_reductions_size(c);
    let r1 = reductions(t).map_values(add_last(c));
    let r2 = if is_leaf_shape(c) {
        seq![t]
    } else {
        reductions(c).map_values(put_after(fp))
    };
    assert(reductions(s) == r1 + r2);
    assert(nb_red(s, true) == nb_sum(reductions(s), size(s), true));
    lemma_nb_sum_append(r1, r2, size(s));
    let x = nb_red(t, true);
    let y = nb_red(c, true);
    let b1 = binom((nn - 1) as nat, sc);
    let b2 = binom((nn - 1) as nat, (sc - 1) as nat);
    // the reductions made in the other children
    let k1 = b1 * y;
    let rt = reductions(t);
    assert forall|i: int| 0 <= i < rt.len() implies size(#[trigger] rt[i]) < size(t) && size(add_last(c)(rt[i])) < size(s)
        && nb_red(add_last(c)(rt[i]), true) == k1 * nb_red(rt[i], true) by {
        let r = rt[i];
        assert(r1[i] == add_last(c)(r));
        assert(reductions(s)[i] == r1[i]);
        assert(node(r.children) == r);
        assert(size(r) == 1 + forest_size(r.children));
        assert(node(r.children + seq![c]) == add_last(c)(r));
        lemma_nb_last(r.children, c);
        assert(forest_size(r.children) + sc == nn - 1);
        let z = nb_red(r, true);
        assert(b1 * (z * y) == k1 * z) by (nonlinear_arith)
            requires
                k1 == b1 * y,
        ;
    }
    lemma_nb_sum_map(rt, add_last(c), k1, size(t), size(s));
    assert(nb_sum(r1, size(s), true) == k1 * x) by {
        if fp.len() == 0 {
            assert(rt.len() == 0);
            lemma_binom_above((nn - 1) as nat, sc);
            assert(k1 == 0);
        } else {
            assert(nb_red(t, true) == nb_sum(rt, size(t), true));
        }
    }
    // the deletion of `c`, or the reductions made inside it
    let k2 = b2 * x;
    if is_leaf_shape(c) {
        assert(sc == 1) by {
            assert(forest_size(c.children) == 0);
        }
        assert(r2 == seq![t]);
        assert(r2.drop_last() =~= Seq::<Shape>::empty());
        assert(r2.last() == t);
        assert(nb_sum(Seq::<Shape>::empty(), size(s), true) == 0);
        assert(nb_sum(r2, size(s), true) == nb_sum(r2.drop_last(), size(s), true) + nb_red(t, true));
        assert(nb_sum(r2, size(s), true) == x);
        assert(y == 1);
        assert(b2 == 1);
        assert(nb_sum(r2, size(s), true) == k2 * y) by (nonlinear_arith)
            requires
                nb_sum(r2, size(s), true) == x,
                k2 == b2 * x,
                b2 == 1,
                y == 1,
        ;
    } else {
        let rc = reductions(c);
        assert forall|i: int| 0 <= i < rc.len() implies size(#[trigger] rc[i]) < size(c) && size(put_after(fp)(rc[i])) < size(s)
            && nb_red(put_after(fp)(rc[i]), true) == k2 * nb_red(rc[i], true) by {
            let r = rc[i];
            assert(r2[i] == put_after(fp)(r));
            assert(reductions(s)[rt.len() + i] == r2[i]);
            assert(node(fp + seq![r]) == put_after(fp)(r));
            lemma_nb_last(fp, r);
            assert(forest_size(fp) + size(r) == nn - 1);
            let z = nb_red(r, true);
            assert(b2 * (x * z) == k2 * z) by (nonlinear_arith)
                requires
                    k2 == b2 * x,
            ;
        }
        lemma_nb_sum_map(rc, put_after(fp), k2, size(c), size(s));
        assert(nb_red(c, true) == nb_sum(rc, size(c), true));
    }
    assert(binom(nn, sc) == b2 + b1);
    assert(k1 * x + k2 * y == (b2 + b1) * (x * y)) by (nonlinear_arith)
        requires
            k1 == b1 * y,
            k2 == b2 * x,
    ;
}

#[verifier::spinoff_prover]
proof fn lemma_forest_hook(fs: Seq<Shape>)
    requires
        bounded(node(fs)),
    ensures
        nb_red(node(fs), true) * forest_hook_product(fs) == fact(forest_size(fs)),
    decreases forest_size(fs), fs.len(),
{
    if fs.len() == 0 {
        assert(nb_red(node(fs), true) == 1);
        assert(forest_hook_product(fs) == 1);
        assert(fact(forest_size(fs)) == 1);
        assert(1 * 1 == 1nat);
    } else {
        let fp = fs.drop_last();
        let c = fs.last();
        assert(fs =~= fp + seq![c]);
        lemma_nb_last(fp, c);
        lemma_forest_size_append(fp, seq![c]);
        lemma_forest_size_single(c);
        let sc = size(c);
        let np = forest_size(fp);
        let nn = np + sc;
        assert(bounded(c)) by {
            assert(fs[fs.len() - 1] == c);
        }
        assert(bounded(node(fp))) by {
            assert forall|i: int| 0 <= i < fp.len() implies bounded(#[trigger] fp[i]) by {
                assert(fs[i] == fp[i]);
            }
        }
        lemma_forest_hook(fp);
        assert(node(c.children) == c);
        assert(sc == 1 + forest_size(c.children));
        lemma_forest_hook(c.children);
        lemma_binom_fact(nn, sc);
        let b = binom(nn, sc);
        let x = nb_red(node(fp), true);
        let y = nb_red(c, true);
        let hp = forest_hook_product(fp);
        let hc = forest_hook_product(c.children);
        let fc = fact(forest_size(c.children));
        assert(fact(sc) == sc * fc);
        assert(hook_product(c) == hc);
        assert(forest_hook_product(fs) == forest_hook_product(fs.drop_last()) * (size(fs.last()) * hook_product(fs.last())));
        assert(forest_hook_product(fs) == hp * (sc * hc));
        assert((nn - sc) as nat == np);
        assert(b * (x * y) * (hp * (sc * hc)) == fact(nn)) by (nonlinear_arith)
            requires
                x * hp == fact(np),
                y * hc == fc,
                b * (sc * fc) * fact(np) == fact(nn),
        ;
    }
}

/// The hook length formula: the number of ways to reduce `s` to a leaf (deletions
/// that give the same tree told apart) times the product of the sizes of the proper
/// subtrees of `s` is the factorial of its number of edges.
pub proof fn lemma_hook_length(s: Shape)
    requires
        bounded(s),
    ensures
        nb_red(s, true) * hook_product(s) == fact(edges(s)),
{
    assert(node(s.children) == s);
    lemma_forest_hook(s.children);
    lemma_edges_size(s);
}

/// The hook length formula for the reduction counts: when `edges(s)!` fits in a
/// `usize`, the number of reduction sequences of `s` to the leaf (the value that
/// `get_nb_reductions` gives for `s`, with multiplicity) is `edges(s)!` divided by
/// the product of the sizes of the proper subtrees, and is kept whole in `usize`.
pub proof fn lemma_hook_counts(s: Shape)
    requires
        bounded(s),
        fact(edges(s)) <= usize::MAX,
    ensures
        nb_red(s, true) == fact(edges(s)) / hook_product(s),
        nb_red(s, true) % (usize::MAX as nat + 1) == nb_red(s, true),
{
    lemma_hook_length(s);
    lemma_hook_product_pos(s);
    let h = hook_product(s);
    let nb = nb_red(s, true);
    vstd::arithmetic::div_mod::lemma_div_by_multiple(nb as int, h as int);
    assert(nb * h == h * nb) by (nonlinear_arith);
    assert(nb <= fact(edges(s))) by (nonlinear_arith)
        requires
            nb * h == fact(edges(s)),
            h >= 1,
    ;
    vstd::arithmetic::div_mod::lemma_small_mod(nb, (usize::MAX as nat + 1));
}

/// The product of the sizes of the proper subtrees is at least 1.
proof fn lemma_hook_product_pos(s: Shape)
    ensures
        hook_product(s) >= 1,
    decreases s, 1nat,
{
    lemma_forest_hook_product_pos(s.children);
}

/// The product over a forest is at least 1.
proof fn lemma_forest_hook_product_pos(cs: Seq<Shape>)
    ensures
        forest_hook_product(cs) >= 1,
    decreases cs, 0nat,
{
    if cs.len() > 0 {
        let c = cs.last();
        assert(c == cs[cs.len() - 1]);
        lemma_forest_hook_product_pos(cs.drop_last());
        lemma_hook_product_pos(c);
        let a = forest_hook_product(cs.drop_last());
        let b = size(c);
        let h = hook_product(c);
        assert(a * (b * h) >= 1) by (nonlinear_arith)
            requires
                a >= 1,
                b >= 1,
                h >= 1,
        ;
    }
}

pub(crate) proof fn lemma_fact_pos(n: nat)
    ensures
        fact(n) >= 1,
    decreases n,
{
    if n > 0 {
        lemma_fact_pos((n - 1) as nat);
        assert(n * fact((n - 1) as nat) >= 1) by (nonlinear_arith)
            requires
                n >= 1,
                fact((n - 1) as nat) >= 1,
        ;
    }
}

} // verus!
