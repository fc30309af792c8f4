//! Reversing children at chosen heights commutes with deleting a leaf, so
//! dyslexic trees have equal reduction DAGs.

use vstd::prelude::*;

use crate::counting::count_of;
use crate::dag::MultiDag;
use crate::enumerate::{lemma_reaches_refl, lemma_reaches_size, lemma_reaches_step, reaches_red};
use crate::equivalence::{dag_iso, injective_into, is_isomorphism, kids, lemma_built_closed};
use crate::hooks::{add_last, lemma_reductions_last, node, put_after};
use crate::reordering::lemma_map_multiset;
use crate::search::{dags_equal, dyslexic, lemma_dags_equal_of_built, lemma_rho_involution, pick, rho};
use crate::tree::{Shape, Tree, bounded, is_leaf_shape, reductions};

verus! {

broadcast use {vstd::seq_lib::group_to_multiset_ensures, vstd::multiset::group_multiset_axioms};

/// The immediate reductions made at child `i` of the tree with children `cs`: the
/// deletion of that child where it is a leaf, else each reduction made inside it.
pub open spec fn at_child(cs: Seq<Shape>, i: int) -> Seq<Shape> {
    if is_leaf_shape(cs[i]) {
        seq![node(cs.remove(i))]
    } else {
        reductions(cs[i]).map_values(|y: Shape| node(cs.update(i, y)))
    }
}

/// `at_child` for each of the first `k` children, in order.
pub open spec fn by_children(cs: Seq<Shape>, k: nat) -> Seq<Seq<Shape>> {
    Seq::new(k, |i: int| at_child(cs, i))
}

/// Applying `g` to a flattened sequence is flattening the sequences with `g` applied.
proof fn lemma_flatten_map(ys: Seq<Seq<Shape>>, g: spec_fn(Shape) -> Shape)
    ensures
        ys.flatten().map_values(g) == ys.map_values(|s: Seq<Shape>| s.map_values(g)).flatten(),
    decreases ys.len(),
{
    let m = ys.map_values(|s: Seq<Shape>| s.map_values(g));
    if ys.len() > 0 {
        lemma_flatten_map(ys.drop_first(), g);
        assert(m.drop_first() =~= ys.drop_first().map_values(|s: Seq<Shape>| s.map_values(g)));
        assert((ys.first() + ys.drop_first().flatten()).map_values(g) =~= ys.first().map_values(g) + ys.drop_first().flatten().map_values(g));
    } else {
        assert(ys.flatten().map_values(g) =~= m.flatten());
    }
}

/// The immediate reductions of a tree, grouped by the child they are made in.
proof fn lemma_reductions_by_children(cs: Seq<Shape>)
    requires
        bounded(node(cs)),
    ensures
        reductions(node(cs)) == by_children(cs, cs.len()).flatten(),
    decreases cs.len(),
{
    let n = cs.len();
    if n == 0 {
        assert(by_children(cs, 0) =~= Seq::<Seq<Shape>>::empty());
        assert(reductions(node(cs)) =~= Seq::<Shape>::empty());
    } else {
        let fp = cs.drop_last();
        let c = cs.last();
        assert(cs =~= fp + seq![c]);
        assert(bounded(node(fp))) by {
            assert forall|i: int| 0 <= i < fp.len() implies bounded(#[trigger] fp[i]) by {
                assert(fp[i] == cs[i]);
            }
        }
        lemma_reductions_last(fp, c);
        lemma_reductions_by_children(fp);
        let g = add_last(c);
        lemma_flatten_map(by_children(fp, fp.len()), g);
        let mapped = by_children(fp, fp.len()).map_values(|s: Seq<Shape>| s.map_values(g));
        assert forall|i: int| 0 <= i < fp.len() implies #[trigger] mapped[i] == by_children(cs, (n - 1) as nat)[i] by {
            assert(cs[i] == fp[i]);
            if is_leaf_shape(fp[i]) {
                assert(fp.remove(i) + seq![c] =~= cs.remove(i));
                assert(mapped[i] =~= at_child(cs, i));
            } else {
                assert forall|y: Shape| fp.update(i, y) + seq![c] =~= cs.update(i, y) by {}
                assert(mapped[i] =~= at_child(cs, i));
            }
        }
        assert(mapped =~= by_children(cs, (n - 1) as nat));
        let last = at_child(cs, n - 1);
        if is_leaf_shape(c) {
            assert(cs.remove(n - 1) =~= fp);
            assert(last =~= seq![node(fp)]);
        } else {
            assert forall|y: Shape| cs.update(n - 1, y) =~= fp + seq![y] by {}
            assert(last =~= reductions(c).map_values(put_after(fp)));
        }
        assert(by_children(cs, n) =~= by_children(cs, (n - 1) as nat).push(last));
        by_children(cs, (n - 1) as nat).lemma_flatten_push(last);
    }
}

/// `ρ_P` at height `h`, as a function.
pub open spec fn rho_at(h: nat, p: spec_fn(nat) -> bool) -> spec_fn(Shape) -> Shape {
    |x: Shape| rho(x, h, p)
}

/// `pick` is its own inverse.
proof fn lemma_pick_pick(rev: bool, n: nat, i: int)
    requires
        0 <= i < n,
    ensures
        0 <= pick(rev, n, i) < n,
        pick(rev, n, pick(rev, n, i)) == i,
{
}

/// Deleting child `pick(i)` and then applying `ρ` is applying `ρ` and then
/// deleting child `i`.
proof fn lemma_rho_remove(cs: Seq<Shape>, h: nat, p: spec_fn(nat) -> bool, i: int)
    requires
        0 <= i < cs.len(),
    ensures
        rho(node(cs.remove(pick(p(h), cs.len(), i))), h, p) == node(rho(node(cs), h, p).children.remove(i)),
{
    let n = cs.len();
    let k = pick(p(h), n, i);
    let rs = rho(node(cs), h, p).children;
    let l = rho(node(cs.remove(k)), h, p).children;
    let r = rs.remove(i);
    assert forall|j: int| 0 <= j < n - 1 implies #[trigger] l[j] == r[j] by {
        let pj = pick(p(h), (n - 1) as nat, j);
        assert(0 <= pj < n - 1);
        if j < i {
            assert(r[j] == rs[j]);
            assert(rs[j] == rho(cs[pick(p(h), n, j)], h + 1, p));
        } else {
            assert(r[j] == rs[j + 1]);
            assert(rs[j + 1] == rho(cs[pick(p(h), n, j + 1)], h + 1, p));
        }
        if pj < k {
            assert(cs.remove(k)[pj] == cs[pj]);
        } else {
            assert(cs.remove(k)[pj] == cs[pj + 1]);
        }
    }
    assert(l =~= r);
}

/// Replacing child `pick(i)` by `x` and then applying `ρ` is applying `ρ` and
/// then replacing child `i` by `ρ(x)`.
proof fn lemma_rho_update(cs: Seq<Shape>, h: nat, p: spec_fn(nat) -> bool, i: int, x: Shape)
    requires
        0 <= i < cs.len(),
    ensures
        rho(node(cs.update(pick(p(h), cs.len(), i), x)), h, p) == node(
            rho(node(cs), h, p).children.update(i, rho(x, h + 1, p)),
        ),
{
    let n = cs.len();
    let k = pick(p(h), n, i);
    let rs = rho(node(cs), h, p).children;
    let l = rho(node(cs.update(k, x)), h, p).children;
    let r = rs.update(i, rho(x, h + 1, p));
    assert forall|j: int| 0 <= j < n implies #[trigger] l[j] == r[j] by {
        lemma_pick_pick(p(h), n, j);
        lemma_pick_pick(p(h), n, i);
    }
    assert(l =~= r);
}

/// Flattening sequences that hold, one by one, the same items gives the same items.
proof fn lemma_flatten_same_items(a: Seq<Seq<Shape>>, b: Seq<Seq<Shape>>)
    requires
        a.len() == b.len(),
        forall|i: int| 0 <= i < a.len() ==> (#[trigger] a[i]).to_multiset() == b[i].to_multiset(),
    ensures
        a.flatten().to_multiset() == b.flatten().to_multiset(),
    decreases a.len(),
{
    if a.len() > 0 {
        assert forall|i: int| 0 <= i < a.drop_first().len() implies (#[trigger] a.drop_first()[i]).to_multiset()
            == b.drop_first()[i].to_multiset() by {
            assert(a.drop_first()[i] == a[i + 1]);
            assert(b.drop_first()[i] == b[i + 1]);
        }
        lemma_flatten_same_items(a.drop_first(), b.drop_first());
        vstd::seq_lib::lemma_multiset_commutative(a.first(), a.drop_first().flatten());
        vstd::seq_lib::lemma_multiset_commutative(b.first(), b.drop_first().flatten());
        assert(a[0] == a.first() && b[0] == b.first());
    }
}

/// Flattening the sequences in the opposite order gives the same items.
proof fn lemma_flatten_reverse_items(a: Seq<Seq<Shape>>)
    ensures
        a.reverse().flatten().to_multiset() == a.flatten().to_multiset(),
    decreases a.len(),
{
    if a.len() > 0 {
        let d = a.drop_last();
        let l = a.last();
        lemma_flatten_reverse_items(d);
        assert(a.reverse() =~= seq![l] + d.reverse());
        vstd::seq_lib::lemma_flatten_concat(seq![l], d.reverse());
        seq![l].lemma_flatten_one_element();
        assert(a =~= d.push(l));
        d.lemma_flatten_push(l);
        vstd::seq_lib::lemma_multiset_commutative(l, d.reverse().flatten());
        vstd::seq_lib::lemma_multiset_commutative(d.flatten(), l);
    }
}

/// Mapping twice is mapping the composition.
proof fn lemma_map_map(xs: Seq<Shape>, f: spec_fn(Shape) -> Shape, g: spec_fn(Shape) -> Shape)
    ensures
        xs.map_values(f).map_values(g) == xs.map_values(|x: Shape| g(f(x))),
{
    assert(xs.map_values(f).map_values(g) =~= xs.map_values(|x: Shape| g(f(x))));
}

/// The reductions of `ρ_P(s)` are those of `s` with `ρ_P` applied, counted with
/// multiplicity (in another order).
pub proof fn lemma_rho_reductions(s: Shape, h: nat, p: spec_fn(nat) -> bool)
    requires
        bounded(s),
    ensures
        reductions(rho(s, h, p)).to_multiset() == reductions(s).map_values(rho_at(h, p)).to_multiset(),
    decreases s,
{
    let cs = s.children;
    let n = cs.len();
    let rs = rho(s, h, p).children;
    let g = rho_at(h, p);
    assert(s == node(cs));
    assert(rho(s, h, p) == node(rs));
    lemma_rho_bounded(s, h, p);
    lemma_reductions_by_children(cs);
    lemma_reductions_by_children(rs);
    lemma_flatten_map(by_children(cs, n), g);
    let w = by_children(cs, n).map_values(|q: Seq<Shape>| q.map_values(g));
    let z = by_children(rs, n);
    assert forall|i: int| 0 <= i < n implies (#[trigger] z[i]).to_multiset() == w[pick(p(h), n, i)].to_multiset() by {
        let k = pick(p(h), n, i);
        lemma_pick_pick(p(h), n, i);
        let c = cs[k];
        assert(rs[i] == rho(c, h + 1, p));
        assert(bounded(c));
        if is_leaf_shape(c) {
            lemma_rho_remove(cs, h, p, i);
            assert(z[i] =~= w[k]);
        } else {
            lemma_rho_reductions(c, h + 1, p);
            let f1 = rho_at(h + 1, p);
            let up = |y: Shape| node(rs.update(i, y));
            let upk = |y: Shape| node(cs.update(k, y));
            lemma_map_multiset(reductions(rho(c, h + 1, p)), reductions(c).map_values(f1), up);
            lemma_map_map(reductions(c), f1, up);
            lemma_map_map(reductions(c), upk, g);
            assert forall|y: Shape| #[trigger] up(f1(y)) == g(upk(y)) by {
                lemma_rho_update(cs, h, p, i, y);
            }
            assert(reductions(c).map_values(|x: Shape| up(f1(x))) =~= reductions(c).map_values(|x: Shape| g(upk(x))));
            assert(z[i] == reductions(rho(c, h + 1, p)).map_values(up));
            assert(w[k] == reductions(c).map_values(upk).map_values(g));
        }
    }
    if p(h) {
        assert forall|i: int| 0 <= i < n implies (#[trigger] z[i]).to_multiset() == w.reverse()[i].to_multiset() by {
            assert(w.reverse()[i] == w[n - 1 - i]);
        }
        lemma_flatten_same_items(z, w.reverse());
        lemma_flatten_reverse_items(w);
    } else {
        lemma_flatten_same_items(z, w);
    }
}

/// `ρ_P` keeps every out-degree, so it keeps `bounded`.
proof fn lemma_rho_bounded(s: Shape, h: nat, p: spec_fn(nat) -> bool)
    requires
        bounded(s),
    ensures
        bounded(rho(s, h, p)),
    decreases s,
{
    let n = s.children.len();
    let r = rho(s, h, p);
    assert forall|i: int| 0 <= i < n implies bounded(#[trigger] r.children[i]) by {
        lemma_pick_pick(p(h), n, i);
        lemma_rho_bounded(s.children[pick(p(h), n, i)], h + 1, p);
    }
}

/// `ρ_P`, from height 0, is one-to-one.
proof fn lemma_rho_injective(a: Shape, b: Shape, p: spec_fn(nat) -> bool)
    requires
        rho(a, 0, p) == rho(b, 0, p),
    ensures
        a == b,
{
    lemma_rho_involution(a, 0, p);
    lemma_rho_involution(b, 0, p);
}

/// A one-to-one map keeps the number of times each item occurs.
proof fn lemma_count_map_injective(xs: Seq<Shape>, p: spec_fn(nat) -> bool, x: Shape)
    ensures
        xs.map_values(rho_at(0, p)).to_multiset().count(rho(x, 0, p)) == xs.to_multiset().count(x),
    decreases xs.len(),
{
    let g = rho_at(0, p);
    if xs.len() > 0 {
        let d = xs.drop_last();
        let l = xs.last();
        lemma_count_map_injective(d, p, x);
        assert(xs =~= d.push(l));
        assert(xs.map_values(g) =~= d.map_values(g).push(g(l)));
        if g(l) == rho(x, 0, p) {
            lemma_rho_injective(l, x, p);
        }
    } else {
        assert(xs.map_values(g) =~= Seq::<Shape>::empty());
    }
}

/// The labels of the vertices listed in `s`.
pub open spec fn labels_of(d: MultiDag<Tree>, s: Seq<usize>) -> Seq<Shape> {
    s.map_values(|c: usize| d.label(c as int))
}

/// With distinct labels, counting a vertex among `s` is counting its label among
/// their labels.
proof fn lemma_count_labels(d: MultiDag<Tree>, s: Seq<usize>, v: usize)
    requires
        v < d.len(),
        forall|j: int| 0 <= j < s.len() ==> #[trigger] s[j] < d.len(),
        forall|i: int, j: int| 0 <= i < j < d.len() ==> d.label(i) != d.label(j),
    ensures
        count_of(s, v) == labels_of(d, s).to_multiset().count(d.label(v as int)),
    decreases s.len(),
{
    if s.len() > 0 {
        let dl = s.drop_last();
        assert forall|j: int| 0 <= j < dl.len() implies #[trigger] dl[j] < d.len() by {
            assert(dl[j] == s[j]);
        }
        lemma_count_labels(d, dl, v);
        assert(labels_of(d, s) =~= labels_of(d, dl).push(d.label(s.last() as int)));
        assert(s.last() == s[s.len() - 1]);
    } else {
        assert(labels_of(d, s) =~= Seq::<Shape>::empty());
    }
}

/// Whatever `t` reduces to, `ρ_P(t)` reduces to its image.
proof fn lemma_reach_rho(t: Shape, c: Seq<Shape>, k: int, p: spec_fn(nat) -> bool)
    requires
        bounded(t),
        c.len() >= 1,
        c[0] == t,
        forall|i: int| 0 <= i < c.len() - 1 ==> #[trigger] reductions(c[i]).contains(c[i + 1]),
        0 <= k < c.len(),
    ensures
        reaches_red(t, c[k]),
        reaches_red(rho(t, 0, p), rho(c[k], 0, p)),
    decreases k,
{
    if k == 0 {
        lemma_reaches_refl(t);
        lemma_reaches_refl(rho(t, 0, p));
    } else {
        let i = k - 1;
        lemma_reach_rho(t, c, i, p);
        assert(reductions(c[i]).contains(c[i + 1]));
        assert(i + 1 == k);
        lemma_reaches_step(t, c[i], c[k]);
        lemma_reaches_size(t, c[i]);
        lemma_rho_reductions(c[i], 0, p);
        lemma_count_map_injective(reductions(c[i]), p, c[k]);
        assert(reductions(c[i]).to_multiset().count(c[k]) > 0);
        assert(reductions(rho(c[i], 0, p)).to_multiset().count(rho(c[k], 0, p)) > 0);
        lemma_reaches_step(rho(t, 0, p), rho(c[i], 0, p), rho(c[k], 0, p));
    }
}

/// Some vertex of `d2` has the image under `ρ_P` of the label of vertex `u` of `d1`.
spec fn has_image(d1: MultiDag<Tree>, d2: MultiDag<Tree>, u: int, p: spec_fn(nat) -> bool) -> bool {
    exists|v: int| 0 <= v < d2.len() && #[trigger] d2.label(v) == rho(d1.label(u), 0, p)
}

/// The vertices of the reduction DAG of `ρ_P(t)` include the images of those of the
/// reduction DAG of `t`: a one-to-one map sends each vertex to the vertex of its image.
proof fn lemma_rho_injection(d1: MultiDag<Tree>, d2: MultiDag<Tree>, t: Shape, p: spec_fn(nat) -> bool) -> (phi: Seq<usize>)
    requires
        bounded(t),
        d1.is_reduction_dag(t),
        d2.is_reduction_dag(rho(t, 0, p)),
        d1.len() <= usize::MAX,
        d2.len() <= usize::MAX,
    ensures
        phi.len() == d1.len(),
        injective_into(phi, d2.len()),
        forall|u: int| 0 <= u < d1.len() ==> #[trigger] d2.label(phi[u] as int) == rho(d1.label(u), 0, p),
{
    MultiDag::<Tree>::lemma_built_labels_reachable(d1, t);
    MultiDag::<Tree>::lemma_built_labels_reachable(d2, rho(t, 0, p));
    assert forall|u: int| 0 <= u < d1.len() implies #[trigger] has_image(d1, d2, u, p) by {
        assert(reaches_red(t, d1.label(u)));
        let c = choose|c: Seq<Shape>|
            #![trigger c.len(), c[0], c.last()]
            c.len() >= 1 && c[0] == t && c.last() == d1.label(u) && forall|i: int|
                0 <= i < c.len() - 1 ==> #[trigger] reductions(c[i]).contains(c[i + 1]);
        lemma_reach_rho(t, c, c.len() - 1, p);
    }
    let phi = Seq::new(
        d1.len(),
        |u: int| (choose|v: int| 0 <= v < d2.len() && #[trigger] d2.label(v) == rho(d1.label(u), 0, p)) as usize,
    );
    assert forall|u: int| 0 <= u < d1.len() implies #[trigger] d2.label(phi[u] as int) == rho(d1.label(u), 0, p)
        && phi[u] < d2.len() by {
        assert(has_image(d1, d2, u, p));
        let v = choose|v: int| 0 <= v < d2.len() && #[trigger] d2.label(v) == rho(d1.label(u), 0, p);
        assert(phi[u] == v as usize);
    }
    assert forall|i: int| 0 <= i < phi.len() implies #[trigger] phi[i] < d2.len() by {
        assert(d2.label(phi[i] as int) == rho(d1.label(i), 0, p));
    }
    assert forall|i: int, j: int| 0 <= i < j < phi.len() implies phi[i] != phi[j] by {
        if phi[i] == phi[j] {
            assert(d2.label(phi[i] as int) == rho(d1.label(i), 0, p));
            assert(d2.label(phi[j] as int) == rho(d1.label(j), 0, p));
            lemma_rho_injective(d1.label(i), d1.label(j), p);
        }
    }
    phi
}

/// A one-to-one map of `n` items into `m` needs `n <= m`.
proof fn lemma_pigeonhole(phi: Seq<usize>, m: nat)
    requires
        injective_into(phi, m),
    ensures
        phi.len() <= m,
{
    let q = phi.map_values(|x: usize| x as int);
    assert(q.no_duplicates()) by {
        assert forall|i: int, j: int| 0 <= i < q.len() && 0 <= j < q.len() && i != j implies q[i] != q[j] by {
            assert(q[i] == phi[i] as int && q[j] == phi[j] as int);
            if i < j {
                assert(phi[i] != phi[j]);
            } else {
                assert(phi[j] != phi[i]);
            }
        }
    }
    q.unique_seq_to_set();
    let r = vstd::set_lib::set_int_range(0, m as int);
    vstd::set_lib::lemma_int_range(0, m as int);
    assert(q.to_set().subset_of(r)) by {
        assert forall|x: int| q.to_set().contains(x) implies r.contains(x) by {
            assert(q.contains(x));
            let i = choose|i: int| 0 <= i < q.len() && q[i] == x;
            assert(q[i] == phi[i] as int);
            assert(phi[i] < m);
        }
    }
    vstd::set_lib::lemma_len_subset(q.to_set(), r);
    assert(q.len() == phi.len());
}

/// Dyslexic trees have equal reduction DAGs: the reduction DAG of `ρ_P(t)` is that
/// of `t`, up to the numbering of the vertices (`==`).
pub proof fn lemma_rho_dags_equal(t: Shape, p: spec_fn(nat) -> bool, d1: MultiDag<Tree>, d2: MultiDag<Tree>)
    requires
        bounded(t),
        d1.is_built_from(t),
        d2.is_built_from(rho(t, 0, p)),
        d1.len() <= usize::MAX,
        d2.len() <= usize::MAX,
    ensures
        dag_iso(d1, d2),
{
    let t2 = rho(t, 0, p);
    lemma_rho_bounded(t, 0, p);
    lemma_rho_involution(t, 0, p);
    let phi = lemma_rho_injection(d1, d2, t, p);
    let psi = lemma_rho_injection(d2, d1, t2, p);
    lemma_pigeonhole(phi, d2.len());
    lemma_pigeonhole(psi, d1.len());
    lemma_built_closed(d1, t);
    lemma_built_closed(d2, t2);
    assert(phi[0] == 0) by {
        assert(d2.label(phi[0] as int) == rho(d1.label(0), 0, p));
        assert(d2.label(0) == t2);
        if phi[0] != 0 {
            assert(0 < phi[0] < d2.len());
        }
    }
    MultiDag::<Tree>::lemma_built_labels_reachable(d1, t);
    assert forall|u: usize, v: usize| u < phi.len() && v < phi.len() implies #[trigger] count_of(kids(d1, u), v)
        == count_of(kids(d2, phi[u as int]), phi[v as int]) by {
        let a = d1.label(u as int);
        let b = d1.label(v as int);
        let u2 = phi[u as int];
        let v2 = phi[v as int];
        assert(d2.label(u2 as int) == rho(a, 0, p));
        assert(d2.label(v2 as int) == rho(b, 0, p));
        assert(kids(d1, u) == d1.out(u));
        assert(kids(d2, u2) == d2.out(u2));
        assert forall|j: int| 0 <= j < d1.out(u).len() implies #[trigger] d1.out(u)[j] < d1.len() by {}
        assert forall|j: int| 0 <= j < d2.out(u2).len() implies #[trigger] d2.out(u2)[j] < d2.len() by {}
        lemma_count_labels(d1, d1.out(u), v);
        lemma_count_labels(d2, d2.out(u2), v2);
        assert(labels_of(d1, d1.out(u)) =~= d1.child_labels(u));
        assert(labels_of(d2, d2.out(u2)) =~= d2.child_labels(u2));
        assert(d1.child_labels(u) == reductions(a));
        assert(d2.child_labels(u2) == reductions(rho(a, 0, p)));
        assert(reaches_red(t, a));
        lemma_reaches_size(t, a);
        lemma_rho_reductions(a, 0, p);
        lemma_count_map_injective(reductions(a), p, b);
    }
    assert(is_isomorphism(d1, d2, phi));
}

/// Dyslexic trees have equal reduction DAGs (`dags_equal`), and `==` holds between
/// the DAGs that `from_tree` builds for them.
pub proof fn lemma_dyslexic_dags_equal(a: Shape, b: Shape, d1: MultiDag<Tree>, d2: MultiDag<Tree>)
    requires
        bounded(a),
        dyslexic(a, b),
        d1.is_built_from(a),
        d2.is_built_from(b),
        d1.len() <= usize::MAX,
        d2.len() <= usize::MAX,
    ensures
        dag_iso(d1, d2),
        dags_equal(a, b),
{
    let p = choose|p: spec_fn(nat) -> bool| #[trigger] rho(a, 0, p) == b;
    lemma_rho_dags_equal(a, p, d1, d2);
    lemma_dags_equal_of_built(d1, d2, a, b);
}

} // verus!
