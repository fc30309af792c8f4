//! Canonical forms and the reordering of children.

use vstd::prelude::*;
use vstd::relations::{sorted_by, total_ordering};

use crate::canonical::{
    canon, canon_children, lemma_order_basics, lemma_order_transitive, lemma_sort_shapes, shape_order, sort_shapes,
    sorted_shapes,
};
use crate::search::rho;
use crate::tree::Shape;

verus! {

broadcast use {vstd::seq_lib::group_to_multiset_ensures, vstd::multiset::group_multiset_axioms};

/// `b` is `a` with the children of some of its nodes put in another order: the
/// children of `b`, taken in some order, are reorderings of those of `a`, one by one.
pub open spec fn reorders(a: Shape, b: Shape) -> bool
    decreases a,
{
    exists|m: Seq<Shape>|
        #![trigger m.to_multiset()]
        m.len() == a.children.len() && m.to_multiset() == b.children.to_multiset() && forall|i: int|
            0 <= i < m.len() ==> reorders(#[trigger] a.children[i], m[i])
}

/// Equal multisets stay equal when a function is applied to every item.
pub(crate) proof fn lemma_map_multiset(xs: Seq<Shape>, ys: Seq<Shape>, f: spec_fn(Shape) -> Shape)
    requires
        xs.to_multiset() == ys.to_multiset(),
    ensures
        xs.map_values(f).to_multiset() == ys.map_values(f).to_multiset(),
    decreases xs.len(),
{
    if xs.len() == 0 {
        assert(xs.to_multiset().len() == 0);
        assert(ys.to_multiset().len() == ys.len());
        assert(ys.len() == 0);
        assert(xs.map_values(f) =~= ys.map_values(f));
    } else {
        let x = xs.last();
        let xs0 = xs.drop_last();
        assert(xs =~= xs0.push(x));
        assert(ys.to_multiset().contains(x));
        let k = choose|k: int| 0 <= k < ys.len() && ys[k] == x;
        let ys0 = ys.remove(k);
        assert(xs0.to_multiset() =~= xs.to_multiset().remove(x));
        assert(ys0.to_multiset() == ys.to_multiset().remove(ys[k]));
        lemma_map_multiset(xs0, ys0, f);
        assert(xs.map_values(f) =~= xs0.map_values(f).push(f(x)));
        assert(ys0.map_values(f) =~= ys.map_values(f).remove(k));
        assert(ys.map_values(f)[k] == f(x));
        assert(ys0.map_values(f).to_multiset() == ys.map_values(f).to_multiset().remove(f(x)));
        assert(ys.map_values(f).to_multiset().contains(f(x)));
        assert(ys.map_values(f).to_multiset() =~= ys.map_values(f).to_multiset().remove(f(x)).insert(f(x)));
    }
}

proof fn lemma_order_total()
    ensures
        total_ordering(|x: Shape, y: Shape| shape_order(x, y) <= 0),
{
    let leq = |x: Shape, y: Shape| shape_order(x, y) <= 0;
    assert forall|x: Shape| #[trigger] leq(x, x) by {
        lemma_order_basics(x, x);
    }
    assert forall|x: Shape, y: Shape| #[trigger] leq(x, y) && #[trigger] leq(y, x) implies x == y by {
        lemma_order_basics(x, y);
    }
    assert forall|x: Shape, y: Shape, z: Shape| #[trigger] leq(x, y) && #[trigger] leq(y, z) implies leq(x, z) by {
        lemma_order_transitive(x, y, z);
    }
    assert forall|x: Shape, y: Shape| #[trigger] leq(x, y) || #[trigger] leq(y, x) by {
        lemma_order_basics(x, y);
    }
}

/// Sorting shapes gives the same result for any order of the same shapes.
proof fn lemma_sort_same_items(xs: Seq<Shape>, ys: Seq<Shape>)
    requires
        xs.to_multiset() == ys.to_multiset(),
    ensures
        sort_shapes(xs) == sort_shapes(ys),
{
    let leq = |x: Shape, y: Shape| shape_order(x, y) <= 0;
    lemma_sort_shapes(xs);
    lemma_sort_shapes(ys);
    lemma_order_total();
    let sx = sort_shapes(xs);
    let sy = sort_shapes(ys);
    assert(sorted_by(sx, leq)) by {
        assert(sorted_shapes(sx));
    }
    assert(sorted_by(sy, leq)) by {
        assert(sorted_shapes(sy));
    }
    vstd::seq_lib::lemma_sorted_unique(sx, sy, leq);
}

/// The canonical form of a tree is a reordering of it.
pub proof fn lemma_reorders_canon(a: Shape)
    ensures
        reorders(a, canon(a)),
    decreases a,
{
    let m = canon_children(a);
    lemma_sort_shapes(m);
    assert(canon(a).children == sort_shapes(m));
    assert forall|i: int| 0 <= i < m.len() implies reorders(#[trigger] a.children[i], m[i]) by {
        lemma_reorders_canon(a.children[i]);
    }
    assert(m.to_multiset() == canon(a).children.to_multiset());
}

/// Reordering children, at any nodes, does not change the canonical form.
pub proof fn lemma_canon_reordered(a: Shape, b: Shape)
    requires
        reorders(a, b),
    ensures
        canon(a) == canon(b),
    decreases a,
{
    let m = choose|m: Seq<Shape>|
        #![trigger m.to_multiset()]
        m.len() == a.children.len() && m.to_multiset() == b.children.to_multiset() && forall|i: int|
            0 <= i < m.len() ==> reorders(#[trigger] a.children[i], m[i]);
    let canon_f = |c: Shape| canon(c);
    assert forall|i: int| 0 <= i < m.len() implies #[trigger] canon(a.children[i]) == canon(m[i]) by {
        lemma_canon_reordered(a.children[i], m[i]);
    }
    let mm = Shape { children: m };
    assert(m.len() == a.children.len());
    assert forall|i: int| 0 <= i < m.len() implies #[trigger] canon_children(a)[i] == canon_children(mm)[i] by {
        assert(canon(a.children[i]) == canon(m[i]));
    }
    assert(canon_children(a) =~= canon_children(mm));
    assert(canon_children(mm) =~= m.map_values(canon_f));
    assert(canon_children(b) =~= b.children.map_values(canon_f));
    lemma_map_multiset(m, b.children, canon_f);
    lemma_sort_same_items(canon_children(mm), canon_children(b));
}

/// Two trees have the same canonical form exactly when some tree is a reordering of both.
pub proof fn lemma_canon_equal_iff(a: Shape, b: Shape)
    ensures
        canon(a) == canon(b) <==> exists|c: Shape| reorders(a, c) && reorders(b, c),
{
    if canon(a) == canon(b) {
        lemma_reorders_canon(a);
        lemma_reorders_canon(b);
        assert(reorders(a, canon(a)) && reorders(b, canon(a)));
    }
    if exists|c: Shape| reorders(a, c) && reorders(b, c) {
        let c = choose|c: Shape| reorders(a, c) && reorders(b, c);
        lemma_canon_reordered(a, c);
        lemma_canon_reordered(b, c);
    }
}

/// Reversing a sequence keeps its items.
proof fn lemma_reverse_multiset(a: Seq<Shape>)
    ensures
        a.reverse().to_multiset() == a.to_multiset(),
    decreases a.len(),
{
    if a.len() > 0 {
        let l = a.last();
        let d = a.drop_last();
        lemma_reverse_multiset(d);
        assert(a.reverse() =~= seq![l] + d.reverse());
        vstd::seq_lib::lemma_multiset_commutative(seq![l], d.reverse());
        assert(d.reverse() + seq![l] =~= d.reverse().push(l));
        assert(a =~= d.push(l));
    }
}

/// `ρ_P` only reorders children.
pub proof fn lemma_rho_reorders(t: Shape, h: nat, p: spec_fn(nat) -> bool)
    ensures
        reorders(t, rho(t, h, p)),
    decreases t,
{
    let n = t.children.len();
    let r = rho(t, h, p);
    let m = Seq::new(n, |i: int| rho(t.children[i], h + 1, p));
    assert forall|i: int| 0 <= i < m.len() implies reorders(#[trigger] t.children[i], m[i]) by {
        lemma_rho_reorders(t.children[i], h + 1, p);
    }
    if p(h) {
        assert(r.children =~= m.reverse());
        lemma_reverse_multiset(m);
    } else {
        assert(r.children =~= m);
    }
    assert(m.to_multiset() == r.children.to_multiset());
}

/// Reversing the children at chosen heights (`ρ_P`) keeps the canonical form:
/// dyslexic trees have the same canonical form.
pub proof fn lemma_rho_keeps_canon(t: Shape, h: nat, p: spec_fn(nat) -> bool)
    ensures
        canon(rho(t, h, p)) == canon(t),
{
    lemma_rho_reorders(t, h, p);
    lemma_canon_reordered(t, rho(t, h, p));
}

} // verus!
