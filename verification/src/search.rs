use rand::rngs::ThreadRng;

use vstd::prelude::*;

use crate::dag::MultiDag;
use crate::enumerate::{get_random_tree, grown, lemma_grown_depth, parents_ok};
use crate::equivalence::{dag_iso, lemma_built_closed, lemma_built_eq_determined, lemma_dag_iso_reflexive};
use crate::random::fair_coin;
use crate::canonical::{canon, compare_trees, shape_order};
use crate::enumerate::get_trees;
use crate::tree::{
    Shape, Tree, depth, edges, forest_size, lemma_child_depth, lemma_edges_size, lemma_forest_size_append,
    lemma_forest_size_single, leaf_shape, size,
};

verus! {

/// Index of the child that lands at position `i` among `n` children, when the
/// order is reversed or kept.
pub open spec fn pick(rev: bool, n: nat, i: int) -> int {
    if rev {
        n - 1 - i
    } else {
        i
    }
}

/// `ρ_P` applied to `s` rooted at height `h`: below every node at a height in
/// `P`, the order of the children is reversed; elsewhere it is kept.
pub open spec fn rho(s: Shape, h: nat, p: spec_fn(nat) -> bool) -> Shape
    decreases s,
{
    let n = s.children.len();
    Shape {
        children: Seq::new(
            n,
            |i: int|
                if 0 <= pick(p(h), n, i) < n {
                    rho(s.children[pick(p(h), n, i)], h + 1, p)
                } else {
                    leaf_shape()
                },
        ),
    }
}

/// `ρ_P` undoes itself: applying it twice gives back the tree.
pub proof fn lemma_rho_involution(s: Shape, h: nat, p: spec_fn(nat) -> bool)
    ensures
        rho(rho(s, h, p), h, p) == s,
    decreases s,
{
    let n = s.children.len();
    let r = rho(s, h, p);
    let rr = rho(r, h, p);
    assert forall|k: int| 0 <= k < n implies rr.children[k] == s.children[k] by {
        let j = pick(p(h), n, k);
        assert(pick(p(h), n, j) == k);
        lemma_rho_involution(s.children[k], h + 1, p);
    }
    assert(rr.children =~= s.children);
    assert(rr =~= s);
}

/// `r` is what `ρ` gives on `t` rooted at height `h` when each node at height `k`
/// asks `f(k)` whether to reverse its children: at every node, some answer that
/// `f` can give for its height decides the order of its children.
pub open spec fn rho_rel<F: Fn(usize) -> bool>(t: Shape, h: nat, f: F, r: Shape) -> bool
    decreases t, 1nat, 0nat,
{
    let n = t.children.len();
    &&& r.children.len() == n
    &&& n == 0 || exists|b: bool| #[trigger] call_ensures(f, (h as usize,), b) && rho_rel_from(t, h, f, r, b, 0)
}

/// The children of `t` from position `i` on are related by `rho_rel` to those
/// of `r`, in the same order or reversed.
pub open spec fn rho_rel_from<F: Fn(usize) -> bool>(t: Shape, h: nat, f: F, r: Shape, b: bool, i: nat) -> bool
    decreases t, 0nat, t.children.len() - i,
{
    let n = t.children.len();
    i >= n || (rho_rel(t.children[i as int], h + 1, f, r.children[pick(b, n, i as int)]) && rho_rel_from(
        t,
        h,
        f,
        r,
        b,
        i + 1,
    ))
}

proof fn lemma_rho_rel_from<F: Fn(usize) -> bool>(t: Shape, h: nat, f: F, r: Shape, b: bool, i: nat)
    requires
        forall|j: int|
            i <= j < t.children.len() ==> rho_rel(#[trigger] t.children[j], h + 1, f, r.children[pick(
                b,
                t.children.len(),
                j,
            )]),
    ensures
        rho_rel_from(t, h, f, r, b, i),
    decreases t.children.len() - i,
{
    if i < t.children.len() {
        assert(rho_rel(t.children[i as int], h + 1, f, r.children[pick(b, t.children.len(), i as int)]));
        lemma_rho_rel_from(t, h, f, r, b, i + 1);
    }
}

/// When `f` answers by `p` at every height up to `usize::MAX`, the relation
/// `rho_rel` pins the result down to `ρ_P`.
pub proof fn lemma_rho_rel_is_rho<F: Fn(usize) -> bool>(t: Shape, h: nat, f: F, r: Shape, p: spec_fn(nat) -> bool)
    requires
        rho_rel(t, h, f, r),
        h + depth(t) <= usize::MAX,
        forall|k: usize, b: bool| #[trigger] call_ensures(f, (k,), b) ==> b == p(k as nat),
    ensures
        r == rho(t, h, p),
    decreases t, 1nat, 0nat,
{
    let n = t.children.len();
    if n == 0 {
        assert(r.children =~= rho(t, h, p).children);
        assert(r =~= rho(t, h, p));
    } else {
        let b = choose|b: bool| #[trigger] call_ensures(f, (h as usize,), b) && rho_rel_from(t, h, f, r, b, 0);
        assert(b == p(h));
        lemma_rho_rel_from_is_rho(t, h, f, r, p, b, 0);
        let e = rho(t, h, p);
        assert forall|k: int| 0 <= k < n implies r.children[k] == e.children[k] by {
            let j = pick(b, n, k);
            assert(pick(b, n, j) == k);
            assert(r.children[pick(b, n, j)] == rho(t.children[j], h + 1, p));
        }
        assert(r.children =~= e.children);
        assert(r =~= e);
    }
}

proof fn lemma_rho_rel_from_is_rho<F: Fn(usize) -> bool>(
    t: Shape,
    h: nat,
    f: F,
    r: Shape,
    p: spec_fn(nat) -> bool,
    b: bool,
    i: nat,
)
    requires
        rho_rel_from(t, h, f, r, b, i),
        h + depth(t) <= usize::MAX,
        forall|k: usize, b: bool| #[trigger] call_ensures(f, (k,), b) ==> b == p(k as nat),
    ensures
        forall|j: int|
            i <= j < t.children.len() ==> r.children[pick(b, t.children.len(), j)] == rho(
                #[trigger] t.children[j],
                h + 1,
                p,
            ),
    decreases t, 0nat, t.children.len() - i,
{
    let n = t.children.len();
    if i < n {
        lemma_child_depth(t, i as int);
        lemma_rho_rel_is_rho(t.children[i as int], h + 1, f, r.children[pick(b, n, i as int)], p);
        lemma_rho_rel_from_is_rho(t, h, f, r, p, b, i + 1);
    }
}

/// The items of `v` in the opposite order.
fn reversed(v: Vec<Tree>) -> (r: Vec<Tree>)
    ensures
        r@ == v@.reverse(),
{
    let ghost v0 = v@;
    let mut v = v;
    let mut r: Vec<Tree> = Vec::new();
    while v.len() > 0
        invariant
            v@ == v0.take(v@.len() as int),
            r@.len() + v@.len() == v0.len(),
            forall|j: int| 0 <= j < r@.len() ==> #[trigger] r@[j] == v0[v0.len() - 1 - j],
        decreases v.len(),
    {
        let x = v.pop().unwrap();
        r.push(x);
        assert(v@ =~= v0.take(v@.len() as int));
    }
    assert(r@ =~= v0.reverse());
    r
}

/// Applies `ρ_P` to `t` rooted at height `height`, where `P` is the set of heights
/// accepted by `in_p`: below every node whose height `in_p` accepts, the order of
/// the children is reversed.
pub fn rho_by_height(t: &Tree, height: usize, in_p: &impl Fn(usize) -> bool) -> (r: Tree)
    requires
        forall|h: usize| call_requires(*in_p, (h,)),
        height + depth(t@) <= usize::MAX,
    ensures
        rho_rel(t@, height as nat, *in_p, r@),
    decreases t,
{
    if t.is_leaf() {
        let r = Tree::leaf();
        return r;
    }
    let n = t.children.len();
    let mut children: Vec<Tree> = Vec::new();
    let mut i: usize = 0;
    while i < n
        invariant
            n == t.children@.len(),
            n > 0,
            0 <= i <= n,
            height + depth(t@) <= usize::MAX,
            forall|h: usize| call_requires(*in_p, (h,)),
            children@.len() == i,
            forall|j: int| 0 <= j < i ==> rho_rel(#[trigger] t@.children[j], height as nat + 1, *in_p, children@[j]@),
        decreases n - i,
    {
        proof {
            lemma_child_depth(t@, i as int);
            assert(t@.children[i as int] == t.children@[i as int]@);
        }
        let c = rho_by_height(&t.children[i], height + 1, in_p);
        children.push(c);
        i = i + 1;
    }
    let b = in_p(height);
    let ghost built = children@;
    let children = if b {
        reversed(children)
    } else {
        children
    };
    let r = Tree { children };
    proof {
        assert forall|j: int| 0 <= j < n implies rho_rel(#[trigger] t@.children[j], height as nat + 1, *in_p, r@.children[pick(b, n as nat, j)]) by {
            let k = pick(b, n as nat, j);
            assert(r@.children[k] == r.children@[k]@);
            assert(built[j]@ == r.children@[k]@);
        }
        lemma_rho_rel_from(t@, height as nat, *in_p, r@, b, 0);
        assert(call_ensures(*in_p, (height,), b));
        assert((height as nat) as usize == height);
        assert(call_ensures(*in_p, ((height as nat) as usize,), b));
        assert(r@.children.len() == n);
    }
    r
}

/// `t2` is `ρ_P(t)` for some set of heights `P`: one keep-or-reverse decision per
/// height, taken alike at every node of that height.
pub open spec fn dyslexic(t: Shape, t2: Shape) -> bool {
    exists|p: spec_fn(nat) -> bool| #[trigger] rho(t, 0, p) == t2
}

/// The shapes of a list of pairs of trees.
pub open spec fn views(v: Seq<(&Tree, &Tree)>) -> Seq<(Shape, Shape)> {
    v.map_values(|pr: (&Tree, &Tree)| (pr.0@, pr.1@))
}

/// `ρ_P`, applied at height `h`, maps the first tree of each pair onto the second.
pub open spec fn all_map(pairs: Seq<(Shape, Shape)>, h: nat, p: spec_fn(nat) -> bool) -> bool {
    forall|i: int| 0 <= i < pairs.len() ==> rho(#[trigger] pairs[i].0, h, p) == pairs[i].1
}

/// Some set of heights `P` makes `ρ_P`, applied at height `h`, map the first tree of
/// each pair onto the second.
pub open spec fn level_ok(pairs: Seq<(Shape, Shape)>, h: nat) -> bool {
    exists|p: spec_fn(nat) -> bool| #[trigger] all_map(pairs, h, p)
}

/// The two trees of each pair have as many children as each other.
pub open spec fn counts_match(pairs: Seq<(Shape, Shape)>) -> bool {
    forall|i: int| 0 <= i < pairs.len() ==> (#[trigger] pairs[i]).0.children.len() == pairs[i].1.children.len()
}

/// The children of the two trees of `pr`, paired in the same order or reversed.
pub open spec fn child_pairs(pr: (Shape, Shape), rev: bool) -> Seq<(Shape, Shape)> {
    let n = pr.0.children.len();
    Seq::new(n, |j: int| (pr.0.children[j], pr.1.children[pick(rev, n, j)]))
}

/// The pairs of children of all the pairs, in order.
pub open spec fn next_pairs(pairs: Seq<(Shape, Shape)>, rev: bool) -> Seq<(Shape, Shape)>
    decreases pairs.len(),
{
    if pairs.len() == 0 {
        Seq::empty()
    } else {
        next_pairs(pairs.drop_last(), rev) + child_pairs(pairs.last(), rev)
    }
}

/// `ρ_P` at height `h` depends only on the decisions for heights `h` and above.
proof fn lemma_rho_local(s: Shape, h: nat, p: spec_fn(nat) -> bool, q: spec_fn(nat) -> bool)
    requires
        forall|k: nat| k >= h ==> #[trigger] p(k) == q(k),
    ensures
        rho(s, h, p) == rho(s, h, q),
    decreases s,
{
    let n = s.children.len();
    assert(p(h) == q(h));
    assert forall|i: int| 0 <= i < n implies #[trigger] rho(s, h, p).children[i] == rho(s, h, q).children[i] by {
        lemma_rho_local(s.children[pick(p(h), n, i)], h + 1, p, q);
    }
    assert(rho(s, h, p).children =~= rho(s, h, q).children);
}

/// `ρ_P` maps `a` onto `b` exactly when their children do, in the order decided at `h`.
proof fn lemma_rho_pair(a: Shape, b: Shape, h: nat, p: spec_fn(nat) -> bool)
    ensures
        rho(a, h, p) == b <==> a.children.len() == b.children.len() && forall|j: int|
            0 <= j < a.children.len() ==> rho(#[trigger] a.children[j], h + 1, p) == b.children[pick(
                p(h),
                a.children.len(),
                j,
            )],
{
    let n = a.children.len();
    let r = rho(a, h, p);
    if rho(a, h, p) == b {
        assert forall|j: int| 0 <= j < n implies rho(#[trigger] a.children[j], h + 1, p) == b.children[pick(
            p(h),
            n,
            j,
        )] by {
            let i = pick(p(h), n, j);
            assert(pick(p(h), n, i) == j);
            assert(r.children[i] == rho(a.children[j], h + 1, p));
        }
    }
    if n == b.children.len() && forall|j: int|
        0 <= j < n ==> rho(#[trigger] a.children[j], h + 1, p) == b.children[pick(p(h), n, j)] {
        assert forall|i: int| 0 <= i < n implies #[trigger] r.children[i] == b.children[i] by {
            let j = pick(p(h), n, i);
            assert(pick(p(h), n, j) == i);
            assert(rho(a.children[j], h + 1, p) == b.children[pick(p(h), n, j)]);
        }
        assert(r.children =~= b.children);
        assert(r == b);
    }
}

/// The pairs of children all map under `ρ_P` at `h + 1` exactly when, for each pair,
/// its children map in the order `rev`.
proof fn lemma_next_pairs_map(pairs: Seq<(Shape, Shape)>, rev: bool, h1: nat, p: spec_fn(nat) -> bool)
    ensures
        all_map(next_pairs(pairs, rev), h1, p) <==> forall|i: int, j: int|
            0 <= i < pairs.len() && 0 <= j < pairs[i].0.children.len() ==> rho(
                #[trigger] pairs[i].0.children[j],
                h1,
                p,
            ) == pairs[i].1.children[pick(rev, pairs[i].0.children.len(), j)],
    decreases pairs.len(),
{
    if pairs.len() > 0 {
        let init = pairs.drop_last();
        let last = pairs.last();
        lemma_next_pairs_map(init, rev, h1, p);
        let a = next_pairs(init, rev);
        let c = child_pairs(last, rev);
        let s = a + c;
        assert(next_pairs(pairs, rev) == s);
        let n = last.0.children.len();
        if all_map(s, h1, p) {
            assert(all_map(a, h1, p)) by {
                assert forall|k: int| 0 <= k < a.len() implies rho(#[trigger] a[k].0, h1, p) == a[k].1 by {
                    assert(s[k] == a[k]);
                }
            }
            assert forall|i: int, j: int|
                0 <= i < pairs.len() && 0 <= j < pairs[i].0.children.len() implies rho(
                #[trigger] pairs[i].0.children[j],
                h1,
                p,
            ) == pairs[i].1.children[pick(rev, pairs[i].0.children.len(), j)] by {
                if i < init.len() {
                    assert(init[i] == pairs[i]);
                    assert(init[i].0.children[j] == pairs[i].0.children[j]);
                    assert(rho(init[i].0.children[j], h1, p) == init[i].1.children[pick(
                        rev,
                        init[i].0.children.len(),
                        j,
                    )]);
                } else {
                    assert(pairs[i] == last);
                    assert(s[a.len() + j] == c[j]);
                    assert(rho(s[a.len() + j].0, h1, p) == s[a.len() + j].1);
                    assert(c[j] == (last.0.children[j], last.1.children[pick(rev, n, j)]));
                }
            }
        }
        if forall|i: int, j: int|
            0 <= i < pairs.len() && 0 <= j < pairs[i].0.children.len() ==> rho(
                #[trigger] pairs[i].0.children[j],
                h1,
                p,
            ) == pairs[i].1.children[pick(rev, pairs[i].0.children.len(), j)] {
            assert forall|i: int, j: int|
                0 <= i < init.len() && 0 <= j < init[i].0.children.len() implies rho(
                #[trigger] init[i].0.children[j],
                h1,
                p,
            ) == init[i].1.children[pick(rev, init[i].0.children.len(), j)] by {
                assert(init[i] == pairs[i]);
                assert(rho(pairs[i].0.children[j], h1, p) == pairs[i].1.children[pick(
                    rev,
                    pairs[i].0.children.len(),
                    j,
                )]);
            }
            assert forall|k: int| 0 <= k < s.len() implies rho(#[trigger] s[k].0, h1, p) == s[k].1 by {
                if k < a.len() {
                    assert(s[k] == a[k]);
                } else {
                    let j = k - a.len();
                    assert(s[k] == c[j]);
                    let li = pairs.len() - 1;
                    assert(pairs[li] == last);
                    assert(rho(pairs[li].0.children[j], h1, p) == pairs[li].1.children[pick(
                        rev,
                        pairs[li].0.children.len(),
                        j,
                    )]);
                }
            }
        }
    }
}

/// One level of the search: a set of heights exists for the pairs at height `h`
/// exactly when their children counts agree and one exists for their children, in
/// the same order or reversed, at height `h + 1`.
proof fn lemma_level_step(pairs: Seq<(Shape, Shape)>, h: nat)
    requires
        counts_match(pairs),
    ensures
        level_ok(pairs, h) <==> level_ok(next_pairs(pairs, false), h + 1) || level_ok(next_pairs(pairs, true), h + 1),
{
    if level_ok(pairs, h) {
        let p = choose|p: spec_fn(nat) -> bool| #[trigger] all_map(pairs, h, p);
        assert forall|i: int, j: int|
            0 <= i < pairs.len() && 0 <= j < pairs[i].0.children.len() implies rho(
            #[trigger] pairs[i].0.children[j],
            h + 1,
            p,
        ) == pairs[i].1.children[pick(p(h), pairs[i].0.children.len(), j)] by {
            lemma_rho_pair(pairs[i].0, pairs[i].1, h, p);
        }
        lemma_next_pairs_map(pairs, p(h), h + 1, p);
        assert(all_map(next_pairs(pairs, p(h)), h + 1, p));
    }
    assert forall|rev: bool| #[trigger] level_ok(next_pairs(pairs, rev), h + 1) implies level_ok(pairs, h) by {
        let q = choose|q: spec_fn(nat) -> bool| #[trigger] all_map(next_pairs(pairs, rev), h + 1, q);
        let p = |k: nat| if k == h {
            rev
        } else {
            q(k)
        };
        let nx = next_pairs(pairs, rev);
        assert forall|k: int| 0 <= k < nx.len() implies rho(#[trigger] nx[k].0, h + 1, p) == nx[k].1 by {
            lemma_rho_local(nx[k].0, h + 1, p, q);
        }
        lemma_next_pairs_map(pairs, rev, h + 1, p);
        assert forall|i: int| 0 <= i < pairs.len() implies rho(#[trigger] pairs[i].0, h, p) == pairs[i].1 by {
            lemma_rho_pair(pairs[i].0, pairs[i].1, h, p);
            assert forall|j: int| 0 <= j < pairs[i].0.children.len() implies rho(
                #[trigger] pairs[i].0.children[j],
                h + 1,
                p,
            ) == pairs[i].1.children[pick(p(h), pairs[i].0.children.len(), j)] by {}
        }
        assert(all_map(pairs, h, p));
    }
}

/// The children of the pairs, paired in the same order or reversed.
fn expand<'a>(pairs: &Vec<(&'a Tree, &'a Tree)>, rev: bool, Ghost(h): Ghost<nat>, Ghost(d): Ghost<nat>) -> (r: Vec<
    (&'a Tree, &'a Tree),
>)
    requires
        counts_match(views(pairs@)),
        forall|i: int| 0 <= i < pairs@.len() ==> h + depth((#[trigger] pairs@[i]).0@) <= d,
    ensures
        views(r@) == next_pairs(views(pairs@), rev),
        forall|k: int| 0 <= k < r@.len() ==> h + 1 + depth((#[trigger] r@[k]).0@) <= d,
{
    let ghost vp = views(pairs@);
    let mut r: Vec<(&'a Tree, &'a Tree)> = Vec::new();
    let mut i: usize = 0;
    assert(vp.take(0) =~= Seq::<(Shape, Shape)>::empty());
    assert(views(r@) =~= Seq::<(Shape, Shape)>::empty());
    while i < pairs.len()
        invariant
            vp == views(pairs@),
            counts_match(vp),
            forall|i: int| 0 <= i < pairs@.len() ==> h + depth((#[trigger] pairs@[i]).0@) <= d,
            0 <= i <= pairs@.len(),
            views(r@) == next_pairs(vp.take(i as int), rev),
            forall|k: int| 0 <= k < r@.len() ==> h + 1 + depth((#[trigger] r@[k]).0@) <= d,
        decreases pairs@.len() - i,
    {
        let (a, b) = pairs[i];
        assert(vp[i as int] == (a@, b@));
        let n = a.children.len();
        assert(b.children.len() == n) by {
            assert(b@.children.len() == a@.children.len());
        }
        let ghost base = views(r@);
        let ghost cp = child_pairs(vp[i as int], rev);
        let mut j: usize = 0;
        assert(cp.take(0) =~= Seq::<(Shape, Shape)>::empty());
        assert(base + cp.take(0) =~= base);
        while j < n
            invariant
                0 <= i < pairs@.len(),
                pairs@[i as int] == (a, b),
                vp == views(pairs@),
                vp[i as int] == (a@, b@),
                n == a@.children.len(),
                n == b@.children.len(),
                h + depth(a@) <= d,
                cp == child_pairs(vp[i as int], rev),
                0 <= j <= n,
                views(r@) == base + cp.take(j as int),
                forall|k: int| 0 <= k < r@.len() ==> h + 1 + depth((#[trigger] r@[k]).0@) <= d,
            decreases n - j,
        {
            let k = if rev {
                n - 1 - j
            } else {
                j
            };
            proof {
                lemma_child_depth(a@, j as int);
                assert(a@.children[j as int] == a.children@[j as int]@);
                assert(b@.children[k as int] == b.children@[k as int]@);
            }
            let ghost r0 = r@;
            r.push((&a.children[j], &b.children[k]));
            proof {
                assert(views(r@) =~= views(r0).push((a@.children[j as int], b@.children[k as int])));
                assert(cp.take(j + 1) =~= cp.take(j as int).push(cp[j as int]));
                assert(views(r@) =~= base + cp.take(j + 1));
            }
            j = j + 1;
        }
        proof {
            assert(cp.take(n as int) =~= cp);
            assert(vp.take(i + 1).drop_last() =~= vp.take(i as int));
            assert(vp.take(i + 1).last() == vp[i as int]);
        }
        i = i + 1;
    }
    assert(vp.take(pairs@.len() as int) =~= vp);
    r
}

/// Whether some set of heights maps, at height `h`, the first tree of each pair onto
/// the second: a search over the heights in turn, trying both decisions at each.
fn level_search(pairs: Vec<(&Tree, &Tree)>, Ghost(h): Ghost<nat>, Ghost(d): Ghost<nat>) -> (r: bool)
    requires
        forall|i: int| 0 <= i < pairs@.len() ==> h + depth((#[trigger] pairs@[i]).0@) <= d,
    ensures
        r == level_ok(views(pairs@), h),
    decreases d + 1 - h,
{
    let ghost vp = views(pairs@);
    if pairs.len() == 0 {
        assert(all_map(vp, h, |k: nat| false));
        return true;
    }
    let n = pairs.len();
    let mut i: usize = 0;
    while i < n
        invariant
            n == pairs@.len(),
            vp == views(pairs@),
            0 <= i <= n,
            forall|k: int| 0 <= k < i ==> (#[trigger] vp[k]).0.children.len() == vp[k].1.children.len(),
        decreases n - i,
    {
        let (a, b) = pairs[i];
        assert(vp[i as int] == (a@, b@));
        if a.children.len() != b.children.len() {
            proof {
                assert forall|p: spec_fn(nat) -> bool| !#[trigger] all_map(vp, h, p) by {
                    assert(rho(vp[i as int].0, h, p).children.len() == a@.children.len());
                }
            }
            return false;
        }
        i = i + 1;
    }
    proof {
        assert(pairs@[0].0@ == vp[0].0);
        assert(h + depth(vp[0].0) <= d);
    }
    let keep = expand(&pairs, false, Ghost(h), Ghost(d));
    proof {
        lemma_level_step(vp, h);
    }
    if level_search(keep, Ghost(h + 1), Ghost(d)) {
        return true;
    }
    let rev = expand(&pairs, true, Ghost(h), Ghost(d));
    level_search(rev, Ghost(h + 1), Ghost(d))
}

/// Whether some set of heights `P` turns `t` into `t2` by `ρ_P` (one keep-or-reverse
/// decision per height).
pub fn are_dyslexic(t: &Tree, t2: &Tree) -> (r: bool)
    ensures
        r == dyslexic(t@, t2@),
{
    let mut pairs: Vec<(&Tree, &Tree)> = Vec::new();
    pairs.push((t, t2));
    let ghost vp = views(pairs@);
    assert(vp =~= seq![(t@, t2@)]);
    let r = level_search(pairs, Ghost(0), Ghost(depth(t@)));
    proof {
        if r {
            let p = choose|p: spec_fn(nat) -> bool| #[trigger] all_map(vp, 0, p);
            assert(rho(vp[0].0, 0, p) == vp[0].1);
        }
        if dyslexic(t@, t2@) {
            let p = choose|p: spec_fn(nat) -> bool| #[trigger] rho(t@, 0, p) == t2@;
            assert(all_map(vp, 0, p));
        }
    }
    r
}

/// `ρ_P` with no reversal leaves a tree as it is.
proof fn lemma_rho_keep(s: Shape, h: nat)
    ensures
        rho(s, h, |k: nat| false) == s,
    decreases s,
{
    let r = rho(s, h, |k: nat| false);
    assert forall|i: int| 0 <= i < s.children.len() implies #[trigger] r.children[i] == s.children[i] by {
        lemma_rho_keep(s.children[i], h + 1);
    }
    assert(r.children =~= s.children);
}

/// Every tree is dyslexic to itself.
pub proof fn lemma_dyslexic_reflexive(t: Shape)
    ensures
        dyslexic(t, t),
{
    lemma_rho_keep(t, 0);
}

/// Dyslexia is symmetric: the same set of heights maps back.
pub proof fn lemma_dyslexic_symmetric(t: Shape, t2: Shape)
    requires
        dyslexic(t, t2),
    ensures
        dyslexic(t2, t),
{
    let p = choose|p: spec_fn(nat) -> bool| #[trigger] rho(t, 0, p) == t2;
    lemma_rho_involution(t, 0, p);
    assert(rho(t2, 0, p) == t);
}


/// Two forests whose trees have, position by position, the same sizes have the
/// same total size.
proof fn lemma_forest_size_pointwise(a: Seq<Shape>, b: Seq<Shape>)
    requires
        a.len() == b.len(),
        forall|i: int| 0 <= i < a.len() ==> #[trigger] size(a[i]) == size(b[i]),
    ensures
        forest_size(a) == forest_size(b),
    decreases a.len(),
{
    if a.len() > 0 {
        assert(size(a[a.len() - 1]) == size(b[b.len() - 1]));
        lemma_forest_size_pointwise(a.drop_last(), b.drop_last());
    }
}

/// Reversing a forest keeps its total size.
proof fn lemma_forest_size_reverse(a: Seq<Shape>)
    ensures
        forest_size(a.reverse()) == forest_size(a),
    decreases a.len(),
{
    if a.len() > 0 {
        let l = a.last();
        let d = a.drop_last();
        lemma_forest_size_reverse(d);
        assert(a.reverse() =~= seq![l] + d.reverse());
        lemma_forest_size_append(seq![l], d.reverse());
        lemma_forest_size_single(l);
    }
}

/// `ρ_P` keeps the number of nodes and of edges.
pub proof fn lemma_rho_size(s: Shape, h: nat, p: spec_fn(nat) -> bool)
    ensures
        size(rho(s, h, p)) == size(s),
        edges(rho(s, h, p)) == edges(s),
    decreases s,
{
    let n = s.children.len();
    let r = rho(s, h, p);
    let m = Seq::new(n, |i: int| rho(s.children[i], h + 1, p));
    assert forall|i: int| 0 <= i < n implies #[trigger] size(m[i]) == size(s.children[i]) by {
        lemma_rho_size(s.children[i], h + 1, p);
    }
    lemma_forest_size_pointwise(m, s.children);
    if p(h) {
        assert(r.children =~= m.reverse());
        lemma_forest_size_reverse(m);
    } else {
        assert(r.children =~= m);
    }
    lemma_edges_size(s);
    lemma_edges_size(r);
}

/// The answers of `f` at each height, where it gives one.
spec fn answers<F: Fn(usize) -> bool>(f: F) -> spec_fn(nat) -> bool {
    |k: nat| exists|b: bool| #[trigger] call_ensures(f, (k as usize,), b) && b
}

/// An `in_p` that gives one answer per height answers by `answers(f)`.
proof fn lemma_answers<F: Fn(usize) -> bool>(f: F)
    requires
        forall|k: usize, b1: bool, b2: bool|
            #[trigger] call_ensures(f, (k,), b1) && #[trigger] call_ensures(f, (k,), b2) ==> b1 == b2,
    ensures
        forall|k: usize, b: bool| #[trigger] call_ensures(f, (k,), b) ==> b == answers(f)(k as nat),
{
    assert forall|k: usize, b: bool| #[trigger] call_ensures(f, (k,), b) implies b == answers(f)(k as nat) by {
        assert((k as nat) as usize == k);
        if answers(f)(k as nat) {
            let c = choose|c: bool| #[trigger] call_ensures(f, ((k as nat) as usize,), c) && c;
            assert(call_ensures(f, (k,), c));
        }
    }
}

/// `rho_by_height` undoes itself: when `in_p` gives one answer per height, a
/// result `r2` of `rho_by_height` on a result `r` on `t`, both at height `h`, is `t`.
pub proof fn lemma_rho_by_height_involution<F: Fn(usize) -> bool>(t: Shape, r: Shape, r2: Shape, h: nat, f: F)
    requires
        rho_rel(t, h, f, r),
        rho_rel(r, h, f, r2),
        h + depth(t) <= usize::MAX,
        h + depth(r) <= usize::MAX,
        forall|k: usize, b1: bool, b2: bool|
            #[trigger] call_ensures(f, (k,), b1) && #[trigger] call_ensures(f, (k,), b2) ==> b1 == b2,
    ensures
        r2 == t,
{
    lemma_answers(f);
    lemma_rho_rel_is_rho(t, h, f, r, answers(f));
    lemma_rho_rel_is_rho(r, h, f, r2, answers(f));
    lemma_rho_involution(t, h, answers(f));
}

/// `rho_by_height` keeps the number of nodes and of edges, when `in_p` gives one
/// answer per height.
pub proof fn lemma_rho_by_height_size<F: Fn(usize) -> bool>(t: Shape, r: Shape, h: nat, f: F)
    requires
        rho_rel(t, h, f, r),
        h + depth(t) <= usize::MAX,
        forall|k: usize, b1: bool, b2: bool|
            #[trigger] call_ensures(f, (k,), b1) && #[trigger] call_ensures(f, (k,), b2) ==> b1 == b2,
    ensures
        size(r) == size(t),
        edges(r) == edges(t),
{
    lemma_answers(f);
    lemma_rho_rel_is_rho(t, h, f, r, answers(f));
    lemma_rho_size(t, h, answers(f));
}

/// `rho_by_height` with an `in_p` that never accepts a height gives back the tree.
pub proof fn lemma_rho_by_height_keep<F: Fn(usize) -> bool>(t: Shape, r: Shape, h: nat, f: F)
    requires
        rho_rel(t, h, f, r),
        h + depth(t) <= usize::MAX,
        forall|k: usize, b: bool| #[trigger] call_ensures(f, (k,), b) ==> !b,
    ensures
        r == t,
{
    let p = |k: nat| false;
    assert forall|k: usize, b: bool| #[trigger] call_ensures(f, (k,), b) implies b == p(k as nat) by {}
    lemma_rho_rel_is_rho(t, h, f, r, p);
    lemma_rho_keep(t, h);
}

/// `s` is a tree that `get_random_tree` can give for `n` edges.
pub open spec fn is_grown(s: Shape, n: nat) -> bool {
    exists|p: Seq<usize>| p.len() == n && parents_ok(p) && s == grown(p, 0)
}

/// The reduction DAG of `s`, numbered as `from_tree` numbers it (there is one: see
/// `MultiDag::lemma_built_unique`).
pub open spec fn reduction_dag(s: Shape) -> MultiDag<Tree> {
    choose|d: MultiDag<Tree>| d.is_built_from(s) && d.len() <= usize::MAX
}

/// The reduction DAGs of `a` and `b` are equal (`==`).
pub open spec fn dags_equal(a: Shape, b: Shape) -> bool {
    dag_iso(reduction_dag(a), reduction_dag(b))
}

/// Being dyslexic and having equal reduction DAGs disagree on `(a, b)`.
pub open spec fn conjecture_fails(a: Shape, b: Shape) -> bool {
    dyslexic(a, b) != dags_equal(a, b)
}

/// `==` on reduction DAGs that `from_tree` built is `dags_equal` on their trees.
pub(crate) proof fn lemma_dags_equal_of_built(d1: MultiDag<Tree>, d2: MultiDag<Tree>, a: Shape, b: Shape)
    requires
        d1.is_built_from(a),
        d2.is_built_from(b),
        d1.len() <= usize::MAX,
        d2.len() <= usize::MAX,
    ensures
        dag_iso(d1, d2) == dags_equal(a, b),
        reduction_dag(a).is_built_from(a),
        reduction_dag(a).len() <= usize::MAX,
{
    let e1 = reduction_dag(a);
    let e2 = reduction_dag(b);
    assert(e1.is_built_from(a) && e1.len() <= usize::MAX);
    assert(e2.is_built_from(b) && e2.len() <= usize::MAX);
    lemma_built_eq_determined(d1, d2, e1, e2, a, b);
}

/// A random tree has no more levels than edges.
proof fn lemma_grown_depth_bound(s: Shape, n: nat)
    requires
        is_grown(s, n),
    ensures
        depth(s) <= n,
{
    let p = choose|p: Seq<usize>| p.len() == n && parents_ok(p) && s == grown(p, 0);
    lemma_grown_depth(p, 0);
}

/// Numbers that two equal reduction DAGs share, used to sort DAGs into buckets.
#[derive(Clone, Copy, Debug, PartialEq, Eq, Hash, Structural)]
struct DagInvariant {
    node_count: usize,
    edges_count: usize,
    edges_count_single: usize,
    finals: usize,
}

impl DagInvariant {
    fn of(d: &MultiDag<Tree>) -> (r: Self)
        requires
            d.wf(),
        ensures
            r.node_count == d.len(),
            r.edges_count == d.edges_below(d.len()) % (usize::MAX as nat + 1),
            r.edges_count_single == d.single_edges_below(d.len()) % (usize::MAX as nat + 1),
            r.finals == d.finals_below(d.len()),
    {
        Self {
            node_count: d.node_count(),
            edges_count: d.edges_count(),
            edges_count_single: d.edges_count_single(),
            finals: d.get_finals().len(),
        }
    }
}

/// A random tree with `edge_count` edges and its image under `ρ_P` for a random
/// set of heights `P ⊆ 0..=max_height` (each height drawn independently).
pub fn generate_dyslexic_pair(rng: &mut ThreadRng, edge_count: usize, max_height: usize) -> (r: (Tree, Tree))
    requires
        edge_count < usize::MAX,
        max_height < usize::MAX,
    ensures
        is_grown(r.0@, edge_count as nat),
        exists|bits: Seq<bool>|
            bits.len() == max_height + 1 && r.1@ == rho(
                r.0@,
                0,
                |h: nat| h < bits.len() && bits[h as int],
            ),
{
    let t = get_random_tree(rng, edge_count);
    let mut p: Vec<bool> = Vec::new();
    let mut k: usize = 0;
    while k <= max_height
        invariant
            max_height < usize::MAX,
            0 <= k <= max_height + 1,
            p@.len() == k,
        decreases max_height + 1 - k,
    {
        let b = fair_coin(rng);
        p.push(b);
        k = k + 1;
    }
    let in_p = |h: usize| -> (b: bool)
        ensures
            b == (h < p@.len() && p@[h as int]),
        {
            if h < p.len() {
                p[h]
            } else {
                false
            }
        };
    proof {
        lemma_grown_depth_bound(t@, edge_count as nat);
    }
    let t2 = rho_by_height(&t, 0, &in_p);
    proof {
        let bits = p@;
        let f = |h: nat| h < bits.len() && bits[h as int];
        lemma_rho_rel_is_rho(t@, 0, in_p, t2@, f);
    }
    (t, t2)
}

/// The numbers of a `DagInvariant`.
spec fn key_of(v: DagInvariant) -> (nat, nat, nat, nat) {
    (v.node_count as nat, v.edges_count as nat, v.edges_count_single as nat, v.finals as nat)
}

/// The numbers by which the collision searches sort a tree: those of the
/// `DagInvariant` of its reduction DAG (vertices, edges and distinct edges, both
/// counted in `usize` arithmetic, and vertices without children).
pub open spec fn inv_key(s: Shape) -> (nat, nat, nat, nat) {
    let d = reduction_dag(s);
    (
        d.len(),
        d.edges_below(d.len()) % (usize::MAX as nat + 1),
        d.single_edges_below(d.len()) % (usize::MAX as nat + 1),
        d.finals_below(d.len()),
    )
}

/// How many of the first `n` trees have the key `k`.
pub open spec fn key_count(trees: Seq<Tree>, n: int, k: (nat, nat, nat, nat)) -> nat
    decreases n,
{
    if n <= 0 {
        0
    } else {
        key_count(trees, n - 1, k) + if inv_key(trees[n - 1]@) == k {
            1nat
        } else {
            0nat
        }
    }
}

/// Tree `i` is kept for comparison with the later tree `j`: it has the same key
/// and is among the first `limit` trees with that key.
pub open spec fn kept_for(trees: Seq<Tree>, limit: nat, i: int, j: int) -> bool {
    &&& 0 <= i < j < trees.len()
    &&& inv_key(trees[i]@) == inv_key(trees[j]@)
    &&& key_count(trees, i, inv_key(trees[i]@)) < limit
}

/// Trees `i` and `j` collide: `i` is kept for `j`, their reduction DAGs are equal
/// and, with `skip_dyslexic`, they are not dyslexic.
pub open spec fn collision(trees: Seq<Tree>, limit: nat, skip_dyslexic: bool, i: int, j: int) -> bool {
    &&& kept_for(trees, limit, i, j)
    &&& dags_equal(trees[i]@, trees[j]@)
    &&& skip_dyslexic ==> !dyslexic(trees[i]@, trees[j]@)
}

/// Two DAGs with the same vertex count and the same children lists have the same
/// edge and final-vertex counts below `m`.
proof fn lemma_same_outs_counts(d: MultiDag<Tree>, e: MultiDag<Tree>, m: nat)
    requires
        d.len() == e.len(),
        m <= d.len(),
        forall|p: usize| p < d.len() ==> #[trigger] d.out(p) == e.out(p),
    ensures
        d.edges_below(m) == e.edges_below(m),
        d.single_edges_below(m) == e.single_edges_below(m),
        d.finals_below(m) == e.finals_below(m),
    decreases m,
{
    if m > 0 {
        lemma_same_outs_counts(d, e, (m - 1) as nat);
        assert(d.out((m - 1) as usize) == e.out((m - 1) as usize));
    }
}

/// The `DagInvariant` of the reduction DAG of `t` has the numbers `inv_key(t@)`.
fn invariant_of_tree(t: &Tree) -> (r: (DagInvariant, MultiDag<Tree>))
    ensures
        key_of(r.0) == inv_key(t@),
        r.1.is_built_from(t@),
        r.1.len() <= usize::MAX,
{
    let d = MultiDag::from_tree(t);
    // reading the vertex count shows that it fits in a `usize`
    let _n = d.node_count();
    let inv = DagInvariant::of(&d);
    proof {
        let e = reduction_dag(t@);
        lemma_dags_equal_of_built(d, d, t@, t@);
        MultiDag::<Tree>::lemma_built_unique(d, e, t@);
        lemma_same_outs_counts(d, e, d.len());
    }
    (inv, d)
}

/// What `first_collision` holds after looking at the first `round` trees: the key
/// of each and, for those kept, the reduction DAG.
spec fn seen_ok(
    keys: Seq<DagInvariant>,
    dags: Seq<Option<MultiDag<Tree>>>,
    trees: Seq<Tree>,
    round: int,
    limit: nat,
) -> bool {
    &&& keys.len() == round
    &&& dags.len() == round
    &&& forall|k: int| 0 <= k < round ==> #[trigger] key_of(keys[k]) == inv_key(trees[k]@)
    &&& forall|k: int|
        0 <= k < round ==> (#[trigger] dags[k] is Some <==> key_count(trees, k, inv_key(trees[k]@)) < limit)
    &&& forall|k: int|
        0 <= k < round && #[trigger] dags[k] is Some ==> dags[k]->0.is_built_from(trees[k]@) && dags[k]->0.len()
            <= usize::MAX
}

/// Goes through `trees` in order and returns the first pair that collides: for
/// each tree, the earlier trees with the same `DagInvariant` that were kept (the
/// first `bucket_limit` with it) are compared in order with it (`==` on reduction
/// DAGs and, with `skip_dyslexic`, not dyslexic). Nothing is kept, so nothing is
/// found, when `bucket_limit` is 0.
pub fn first_collision(trees: &Vec<Tree>, bucket_limit: usize, skip_dyslexic: bool) -> (r: Option<(Tree, Tree)>)
    ensures
        match r {
            Some((a, b)) => exists|i: int, j: int|
                #[trigger] collision(trees@, bucket_limit as nat, skip_dyslexic, i, j) && trees@[i]@ == a@
                    && trees@[j]@ == b@ && (forall|i2: int, j2: int|
                    j2 < j ==> !#[trigger] collision(trees@, bucket_limit as nat, skip_dyslexic, i2, j2)) && (forall|
                    i2: int,
                | i2 < i ==> !#[trigger] collision(trees@, bucket_limit as nat, skip_dyslexic, i2, j)),
            None => forall|i: int, j: int| !#[trigger] collision(trees@, bucket_limit as nat, skip_dyslexic, i, j),
        },
        trees@.len() == 0 || bucket_limit == 0 ==> r is None,
{
    let ghost tv = trees@;
    let ghost limit = bucket_limit as nat;
    let mut keys: Vec<DagInvariant> = Vec::new();
    let mut dags: Vec<Option<MultiDag<Tree>>> = Vec::new();
    let mut round: usize = 0;
    while round < trees.len()
        invariant
            tv == trees@,
            limit == bucket_limit as nat,
            0 <= round <= tv.len(),
            seen_ok(keys@, dags@, tv, round as int, limit),
            forall|i: int, j: int| j < round ==> !#[trigger] collision(tv, limit, skip_dyslexic, i, j),
        decreases tv.len() - round,
    {
        let t = &trees[round];
        let (inv, d) = invariant_of_tree(t);
        let mut same: usize = 0;
        let mut i: usize = 0;
        while i < round
            invariant
                tv == trees@,
                limit == bucket_limit as nat,
                0 <= round < tv.len(),
                *t == tv[round as int],
                key_of(inv) == inv_key(t@),
                d.is_built_from(t@),
                d.len() <= usize::MAX,
                seen_ok(keys@, dags@, tv, round as int, limit),
                0 <= i <= round,
                same == key_count(tv, i as int, inv_key(t@)),
                same <= i,
                forall|i2: int, j2: int| j2 < round ==> !#[trigger] collision(tv, limit, skip_dyslexic, i2, j2),
                forall|i2: int| i2 < i ==> !#[trigger] collision(tv, limit, skip_dyslexic, i2, round as int),
            decreases round - i,
        {
            proof {
                assert(key_of(keys@[i as int]) == inv_key(tv[i as int]@));
            }
            if keys[i] == inv {
                same = same + 1;
                match &dags[i] {
                    Some(pd) => {
                        let prev = &trees[i];
                        proof {
                            assert(dags@[i as int] is Some);
                            lemma_dags_equal_of_built(*pd, d, prev@, t@);
                        }
                        if pd.eq(&d) && (!skip_dyslexic || !are_dyslexic(prev, t)) {
                            proof {
                                assert(collision(tv, limit, skip_dyslexic, i as int, round as int));
                            }
                            return Some((prev.duplicate(), t.duplicate()));
                        }
                    },
                    None => {},
                }
            }
            i = i + 1;
        }
        proof {
            assert(key_count(tv, round as int + 1, inv_key(t@)) == same + 1);
        }
        let kept = same < bucket_limit;
        keys.push(inv);
        if kept {
            dags.push(Some(d));
        } else {
            dags.push(None);
        }
        proof {
            let r1 = round as int + 1;
            assert forall|k: int| 0 <= k < r1 implies #[trigger] key_of(keys@[k]) == inv_key(tv[k]@) by {}
            assert forall|k: int| 0 <= k < r1 implies (#[trigger] dags@[k] is Some <==> key_count(tv, k, inv_key(tv[k]@))
                < limit) by {}
        }
        round = round + 1;
    }
    None
}

/// `r` is what `first_collision` gives on `trees`: the first colliding pair (least
/// later tree, then least earlier tree), or `None` when no pair collides.
pub open spec fn collision_outcome(trees: Seq<Tree>, limit: nat, skip_dyslexic: bool, r: Option<(Tree, Tree)>) -> bool {
    match r {
        Some((a, b)) => exists|i: int, j: int|
            #[trigger] collision(trees, limit, skip_dyslexic, i, j) && trees[i]@ == a@ && trees[j]@ == b@ && (forall|
                i2: int,
                j2: int,
            | j2 < j ==> !#[trigger] collision(trees, limit, skip_dyslexic, i2, j2)) && (forall|i2: int|
                i2 < i ==> !#[trigger] collision(trees, limit, skip_dyslexic, i2, j)),
        None => forall|i: int, j: int| !#[trigger] collision(trees, limit, skip_dyslexic, i, j),
    }
}

/// A tree that occurs again after a kept copy collides with it: its reduction DAG
/// is equal to itself, so the search that does not skip dyslexic pairs finds a pair.
pub proof fn lemma_repeat_collides(trees: Seq<Tree>, limit: nat, i: int, j: int, d: MultiDag<Tree>)
    requires
        0 <= i < j < trees.len(),
        trees[i]@ == trees[j]@,
        key_count(trees, i, inv_key(trees[i]@)) < limit,
        d.is_built_from(trees[i]@),
        d.len() <= usize::MAX,
    ensures
        collision(trees, limit, false, i, j),
        forall|r: Option<(Tree, Tree)>| collision_outcome(trees, limit, false, r) ==> r is Some,
{
    let t = trees[i]@;
    lemma_dags_equal_of_built(d, d, t, t);
    lemma_built_closed(d, t);
    lemma_dag_iso_reflexive(d);
    assert(dags_equal(t, t));
    assert(collision(trees, limit, false, i, j));
}

/// Draws `count` random trees with `edge_count` edges.
fn draw_trees(rng: &mut ThreadRng, edge_count: usize, count: usize) -> (r: Vec<Tree>)
    requires
        edge_count < usize::MAX,
    ensures
        r@.len() == count,
        forall|i: int| 0 <= i < r@.len() ==> is_grown((#[trigger] r@[i])@, edge_count as nat),
        forall|i: int| 0 <= i < r@.len() ==> edges((#[trigger] r@[i])@) == edge_count,
{
    let mut v: Vec<Tree> = Vec::new();
    let mut k: usize = 0;
    while k < count
        invariant
            edge_count < usize::MAX,
            0 <= k <= count,
            v@.len() == k,
            forall|i: int| 0 <= i < v@.len() ==> is_grown((#[trigger] v@[i])@, edge_count as nat),
            forall|i: int| 0 <= i < v@.len() ==> edges((#[trigger] v@[i])@) == edge_count,
        decreases count - k,
    {
        let t = get_random_tree(rng, edge_count);
        v.push(t);
        k = k + 1;
    }
    v
}

/// Draws `pool` random trees with `edge_count` edges and returns the first pair
/// whose reduction DAGs are equal (`==`), as `first_collision` finds it: the earlier
/// tree comes first. With an empty pool there is none.
pub fn generate_same_dag_pair_by_collision(
    rng: &mut ThreadRng,
    edge_count: usize,
    pool: usize,
    bucket_limit: usize,
) -> (r: Option<(Tree, Tree)>)
    requires
        edge_count < usize::MAX,
    ensures
        r matches Some((a, b)) ==> is_grown(a@, edge_count as nat) && is_grown(b@, edge_count as nat) && edges(a@)
            == edge_count && edges(b@) == edge_count && dags_equal(a@, b@),
        pool == 0 || bucket_limit == 0 ==> r is None,
        exists|draws: Seq<Tree>|
            #![trigger draws.len()]
            draws.len() == pool && (forall|i: int| 0 <= i < pool ==> is_grown((#[trigger] draws[i])@, edge_count as nat))
                && collision_outcome(draws, bucket_limit as nat, false, r),
{
    let trees = draw_trees(rng, edge_count, pool);
    let r = first_collision(&trees, bucket_limit, false);
    proof {
        assert(collision_outcome(trees@, bucket_limit as nat, false, r));
        assert(trees@.len() == pool);
    }
    r
}

/// Draws `pool` random trees with `edge_count` edges and returns the first pair
/// whose reduction DAGs are equal (`==`) but which are not dyslexic, with the
/// same buckets as `generate_same_dag_pair_by_collision`. With an empty pool
/// there is none.
pub fn find_dag_equivalent_not_dyslexic_counterexample(
    rng: &mut ThreadRng,
    edge_count: usize,
    pool: usize,
    bucket_limit: usize,
) -> (r: Option<(Tree, Tree)>)
    requires
        edge_count < usize::MAX,
    ensures
        r matches Some((a, b)) ==> is_grown(a@, edge_count as nat) && is_grown(b@, edge_count as nat) && edges(a@)
            == edge_count && edges(b@) == edge_count && dags_equal(a@, b@) && !dyslexic(a@, b@),
        pool == 0 || bucket_limit == 0 ==> r is None,
        exists|draws: Seq<Tree>|
            #![trigger draws.len()]
            draws.len() == pool && (forall|i: int| 0 <= i < pool ==> is_grown((#[trigger] draws[i])@, edge_count as nat))
                && collision_outcome(draws, bucket_limit as nat, true, r),
{
    let trees = draw_trees(rng, edge_count, pool);
    let r = first_collision(&trees, bucket_limit, true);
    proof {
        assert(collision_outcome(trees@, bucket_limit as nat, true, r));
        assert(trees@.len() == pool);
    }
    r
}

/// Being dyslexic and having equal reduction DAGs (`==`) agree on `a` and `b`.
pub open spec fn conjecture_holds(a: Shape, b: Shape) -> bool {
    dyslexic(a, b) == dags_equal(a, b)
}

/// `r` is what `first_disagreement` gives on `pairs`: the first pair on which being
/// dyslexic and having equal reduction DAGs disagree, or `None` when they agree on all.
pub open spec fn disagreement_outcome(pairs: Seq<(Tree, Tree)>, r: Option<(Tree, Tree)>) -> bool {
    match r {
        Some((a, b)) => exists|i: int|
            0 <= i < pairs.len() && pairs[i].0@ == a@ && pairs[i].1@ == b@ && conjecture_fails(a@, b@) && forall|k: int|
                0 <= k < i ==> conjecture_holds(#[trigger] pairs[k].0@, pairs[k].1@),
        None => forall|k: int| 0 <= k < pairs.len() ==> conjecture_holds(#[trigger] pairs[k].0@, pairs[k].1@),
    }
}

/// The first pair of `pairs` on which being dyslexic and having equal reduction
/// DAGs (`==`, on the DAGs that `from_tree` builds) disagree, or `None` when they
/// agree on every pair.
pub fn first_disagreement(pairs: &Vec<(Tree, Tree)>) -> (r: Option<(Tree, Tree)>)
    ensures
        match r {
            Some((a, b)) => exists|i: int|
                0 <= i < pairs@.len() && pairs@[i].0@ == a@ && pairs@[i].1@ == b@ && conjecture_fails(a@, b@) && forall|k: int|
                    0 <= k < i ==> conjecture_holds(#[trigger] pairs@[k].0@, pairs@[k].1@),
            None => forall|k: int| 0 <= k < pairs@.len() ==> conjecture_holds(#[trigger] pairs@[k].0@, pairs@[k].1@),
        },
{
    let n = pairs.len();
    let mut i: usize = 0;
    while i < n
        invariant
            n == pairs@.len(),
            0 <= i <= n,
            forall|k: int| 0 <= k < i ==> conjecture_holds(#[trigger] pairs@[k].0@, pairs@[k].1@),
        decreases n - i,
    {
        let t = &pairs[i].0;
        let t2 = &pairs[i].1;
        let found = are_dyslexic(t, t2);
        let d1 = MultiDag::from_tree(t);
        let d2 = MultiDag::from_tree(t2);
        let dag_eq = d1.eq(&d2);
        // reading the vertex counts shows that they fit in a `usize`
        let _n1 = d1.node_count();
        let _n2 = d2.node_count();
        proof {
            lemma_dags_equal_of_built(d1, d2, t@, t2@);
        }
        if found != dag_eq {
            return Some((t.duplicate(), t2.duplicate()));
        }
        i = i + 1;
    }
    None
}

/// Draws `trials` pairs of random trees with `edge_count` edges and returns the
/// first pair for which being dyslexic and having equal reduction DAGs (`==`)
/// disagree, as `first_disagreement` finds it. With no trials there is none.
pub fn find_dyslexic_dag_conjecture_counterexample(rng: &mut ThreadRng, edge_count: usize, trials: usize) -> (r:
    Option<(Tree, Tree)>)
    requires
        edge_count < usize::MAX,
    ensures
        r matches Some((a, b)) ==> is_grown(a@, edge_count as nat) && is_grown(b@, edge_count as nat) && edges(a@)
            == edge_count && edges(b@) == edge_count && conjecture_fails(a@, b@),
        trials == 0 ==> r is None,
        exists|draws: Seq<(Tree, Tree)>|
            #![trigger draws.len()]
            draws.len() == trials && (forall|i: int|
                0 <= i < trials ==> is_grown((#[trigger] draws[i]).0@, edge_count as nat) && is_grown(
                    draws[i].1@,
                    edge_count as nat,
                )) && disagreement_outcome(draws, r),
{
    let mut pairs: Vec<(Tree, Tree)> = Vec::new();
    let mut round: usize = 0;
    while round < trials
        invariant
            edge_count < usize::MAX,
            0 <= round <= trials,
            pairs@.len() == round,
            forall|i: int| 0 <= i < pairs@.len() ==> is_grown((#[trigger] pairs@[i]).0@, edge_count as nat) && is_grown(
                pairs@[i].1@,
                edge_count as nat,
            ) && edges(pairs@[i].0@) == edge_count && edges(pairs@[i].1@) == edge_count,
        decreases trials - round,
    {
        let t = get_random_tree(rng, edge_count);
        let t2 = get_random_tree(rng, edge_count);
        pairs.push((t, t2));
        round = round + 1;
    }
    let r = first_disagreement(&pairs);
    proof {
        if r is Some {
            let pr = r.unwrap();
            let a = pr.0;
            let b = pr.1;
            let i = choose|i: int|
                0 <= i < pairs@.len() && pairs@[i].0@ == a@ && pairs@[i].1@ == b@ && conjecture_fails(a@, b@) && forall|k: int|
                    0 <= k < i ==> conjecture_holds(#[trigger] pairs@[k].0@, pairs@[k].1@);
            assert(is_grown(pairs@[i].0@, edge_count as nat));
            assert(edges(pairs@[i].0@) == edge_count);
        }
        assert(disagreement_outcome(pairs@, r));
        assert(pairs@.len() == trials);
    }
    r
}


/// `e` is `d` with each list of children reduced to its distinct elements (what
/// `remove_multiedges` makes of `d`).
pub open spec fn deduped(d: MultiDag<Tree>, e: MultiDag<Tree>) -> bool {
    &&& e.nodes == d.nodes
    &&& e.rev_edges == d.rev_edges
    &&& e.root == d.root
    &&& forall|k: usize| #[trigger] e.edges@.contains_key(k) <==> d.edges@.contains_key(k)
    &&& forall|k: usize| k < d.len() ==> #[trigger] e.out(k) == d.out(k).remove_duplicates(Seq::empty())
}

/// `==` on two DAGs.
pub open spec fn dag_eq(e1: MultiDag<Tree>, e2: MultiDag<Tree>) -> bool {
    dag_iso(e1, e2)
}

/// The reduction DAGs of `a` and `b`, numbered as `from_tree` numbers them and with
/// their multi-edges removed when `dedup`, compare (`==`) as `v`.
pub open spec fn dags_compare(a: Shape, b: Shape, dedup: bool, v: bool) -> bool {
    if dedup {
        exists|d1: MultiDag<Tree>, d2: MultiDag<Tree>, e1: MultiDag<Tree>, e2: MultiDag<Tree>|
            #![trigger deduped(d1, e1), deduped(d2, e2)]
            d1.is_built_from(a) && d2.is_built_from(b) && deduped(d1, e1) && deduped(d2, e2) && v == dag_eq(
                e1,
                e2,
            )
    } else {
        exists|d1: MultiDag<Tree>, d2: MultiDag<Tree>|
            #![trigger d1.is_built_from(a), d2.is_built_from(b)]
            d1.is_built_from(a) && d2.is_built_from(b) && v == dag_eq(d1, d2)
    }
}

proof fn lemma_dags_compare_intro(
    a: Shape,
    b: Shape,
    dedup: bool,
    d1: MultiDag<Tree>,
    d2: MultiDag<Tree>,
    e1: MultiDag<Tree>,
    e2: MultiDag<Tree>,
)
    requires
        d1.is_built_from(a),
        d2.is_built_from(b),
        if dedup {
            deduped(d1, e1) && deduped(d2, e2)
        } else {
            e1 == d1 && e2 == d2
        },
    ensures
        dags_compare(a, b, dedup, dag_eq(e1, e2)),
{
    if dedup {
        assert(deduped(d1, e1) && deduped(d2, e2));
    } else {
        assert(d1.is_built_from(a) && d2.is_built_from(b));
    }
}

/// The pair `(a, b)` is listed in `r`, or DAG equality agrees on it with equality of
/// canonical forms.
pub open spec fn equality_checked(r: Seq<(Tree, Tree, bool, bool)>, a: Shape, b: Shape, dedup: bool) -> bool {
    (exists|k: int| 0 <= k < r.len() && (#[trigger] r[k]).0@ == a && r[k].1@ == b) || dags_compare(
        a,
        b,
        dedup,
        canon(a) == canon(b),
    )
}

/// A listed pair: both trees have `m` edges, the first is not before the second,
/// `ce` tells whether their canonical forms are equal and `de`, which differs, how
/// their reduction DAGs compare.
pub open spec fn equality_mismatch(e: (Tree, Tree, bool, bool), m: nat, dedup: bool) -> bool {
    &&& edges(e.0@) == m
    &&& edges(e.1@) == m
    &&& shape_order(e.0@, e.1@) >= 0
    &&& e.3 == (canon(e.0@) == canon(e.1@))
    &&& e.2 != e.3
    &&& dags_compare(e.0@, e.1@, dedup, e.2)
}

/// No pair of trees is listed twice.
pub open spec fn pairs_once(r: Seq<(Tree, Tree, bool, bool)>) -> bool {
    forall|k1: int, k2: int| 0 <= k1 < k2 < r.len() ==> !(#[trigger] r[k1].0@ == #[trigger] r[k2].0@ && r[k1].1@ == r[k2].1@)
}

/// Goes through all pairs of trees with `n + 1` edges whose first tree is not
/// before the second, and lists those on which equality of reduction DAGs (`==`,
/// with multi-edges removed when `multi`) and equality of canonical forms disagree,
/// with both answers.
pub fn search_equality(n: usize, multi: bool) -> (r: Vec<(Tree, Tree, bool, bool)>)
    requires
        n < usize::MAX,
    ensures
        forall|k: int| 0 <= k < r@.len() ==> equality_mismatch(#[trigger] r@[k], (n + 1) as nat, multi),
        forall|a: Shape, b: Shape|
            edges(a) == n + 1 && edges(b) == n + 1 && shape_order(a, b) >= 0 ==> #[trigger] equality_checked(
                r@,
                a,
                b,
                multi,
            ),
        pairs_once(r@),
{
    let m = n + 1;
    let trees = get_trees(m);
    let len = trees.len();
    let ghost ts = trees@;
    let mut out: Vec<(Tree, Tree, bool, bool)> = Vec::new();
    let ghost mut idx: Seq<(int, int)> = Seq::empty();
    let mut i: usize = 0;
    while i < len
        invariant
            len == ts.len(),
            ts == trees@,
            m == n + 1,
            0 <= i <= len,
            forall|x: int, y: int| 0 <= x < len && 0 <= y < len && x != y ==> #[trigger] ts[x]@ != #[trigger] ts[y]@,
            idx.len() == out@.len(),
            forall|k: int|
                0 <= k < idx.len() ==> 0 <= (#[trigger] idx[k]).0 < i && 0 <= idx[k].1 < len && out@[k].0@ == ts[idx[k].0]@
                    && out@[k].1@ == ts[idx[k].1]@,
            pairs_once(out@),
            forall|k: int| 0 <= k < out@.len() ==> equality_mismatch(#[trigger] out@[k], m as nat, multi),
            forall|x: int, y: int|
                0 <= x < i && 0 <= y < len && shape_order(ts[x]@, ts[y]@) >= 0 ==> equality_checked(
                    out@,
                    #[trigger] ts[x]@,
                    #[trigger] ts[y]@,
                    multi,
                ),
            forall|x: int| 0 <= x < len ==> edges(#[trigger] ts[x]@) == m,
        decreases len - i,
    {
        let mut j: usize = 0;
        while j < len
            invariant
                len == ts.len(),
                ts == trees@,
                m == n + 1,
                0 <= i < len,
                0 <= j <= len,
                forall|x: int, y: int| 0 <= x < len && 0 <= y < len && x != y ==> #[trigger] ts[x]@ != #[trigger] ts[y]@,
                idx.len() == out@.len(),
                forall|k: int|
                    0 <= k < idx.len() ==> 0 <= (#[trigger] idx[k]).0 <= i && (idx[k].0 < i || idx[k].1 < j) && 0
                        <= idx[k].1 < len && out@[k].0@ == ts[idx[k].0]@ && out@[k].1@ == ts[idx[k].1]@,
                pairs_once(out@),
                forall|k: int| 0 <= k < out@.len() ==> equality_mismatch(#[trigger] out@[k], m as nat, multi),
                forall|x: int, y: int|
                    0 <= x < i && 0 <= y < len && shape_order(ts[x]@, ts[y]@) >= 0 ==> equality_checked(
                        out@,
                        #[trigger] ts[x]@,
                        #[trigger] ts[y]@,
                        multi,
                    ),
                forall|y: int|
                    0 <= y < j && shape_order(ts[i as int]@, ts[y]@) >= 0 ==> equality_checked(
                        out@,
                        ts[i as int]@,
                        #[trigger] ts[y]@,
                        multi,
                    ),
                forall|x: int| 0 <= x < len ==> edges(#[trigger] ts[x]@) == m,
            decreases len - j,
        {
            let t1 = &trees[i];
            let t2 = &trees[j];
            let ghost o0 = out@;
            if compare_trees(t1, t2) >= 0 {
                let mut d1 = MultiDag::from_tree(t1);
                let mut d2 = MultiDag::from_tree(t2);
                let ghost g1 = d1;
                let ghost g2 = d2;
                if multi {
                    d1.remove_multiedges();
                    d2.remove_multiedges();
                }
                let de = d1.eq(&d2);
                let mut c1 = t1.duplicate();
                let mut c2 = t2.duplicate();
                c1.to_canonical();
                c2.to_canonical();
                let ce = c1.same_shape(&c2);
                proof {
                    assert(g1.is_built_from(t1@) && g2.is_built_from(t2@));
                    if multi {
                        assert forall|k: usize| k < g1.len() implies #[trigger] d1.out(k) == g1.out(k).remove_duplicates(
                            Seq::empty(),
                        ) by {
                            assert(g1.edges@.contains_key(k));
                        }
                        assert forall|k: usize| k < g2.len() implies #[trigger] d2.out(k) == g2.out(k).remove_duplicates(
                            Seq::empty(),
                        ) by {
                            assert(g2.edges@.contains_key(k));
                        }
                        assert forall|k: usize| #[trigger] d1.edges@.contains_key(k) <==> g1.edges@.contains_key(k) by {}
                        assert forall|k: usize| #[trigger] d2.edges@.contains_key(k) <==> g2.edges@.contains_key(k) by {}
                        assert(deduped(g1, d1) && deduped(g2, d2));
                    } else {
                        assert(d1 == g1 && d2 == g2);
                    }
                    assert(de == dag_iso(d1, d2));
                    lemma_dags_compare_intro(t1@, t2@, multi, g1, g2, d1, d2);
                    assert(dags_compare(t1@, t2@, multi, de));
                }
                if de != ce {
                    let ghost o1 = out@;
                    out.push((t1.duplicate(), t2.duplicate(), de, ce));
                    proof {
                        assert forall|k: int| 0 <= k < o1.len() implies !(o1[k].0@ == t1@ && o1[k].1@ == t2@) by {
                            let q = idx[k];
                            if q.0 == i {
                                assert(q.1 != j);
                                assert(ts[q.1]@ != ts[j as int]@);
                            } else {
                                assert(ts[q.0]@ != ts[i as int]@);
                            }
                        }
                        idx = idx.push((i as int, j as int));
                        assert forall|k1: int, k2: int| 0 <= k1 < k2 < out@.len() implies !(#[trigger] out@[k1].0@
                            == #[trigger] out@[k2].0@ && out@[k1].1@ == out@[k2].1@) by {
                            if k2 < o1.len() {
                                assert(out@[k1] == o1[k1] && out@[k2] == o1[k2]);
                            } else {
                                assert(out@[k1] == o1[k1]);
                            }
                        }
                        let e = out@[out@.len() - 1];
                        assert(equality_mismatch(e, m as nat, multi));
                        assert(equality_checked(out@, ts[i as int]@, ts[j as int]@, multi));
                    }
                }
                proof {
                    assert(equality_checked(out@, ts[i as int]@, ts[j as int]@, multi));
                }
            }
            proof {
                assert forall|k: int| 0 <= k < o0.len() implies out@[k] == o0[k] by {}
                assert forall|x: int, y: int|
                    0 <= x < len && 0 <= y < len && equality_checked(o0, ts[x]@, ts[y]@, multi) implies equality_checked(
                    out@,
                    #[trigger] ts[x]@,
                    #[trigger] ts[y]@,
                    multi,
                ) by {
                    if exists|k: int| 0 <= k < o0.len() && (#[trigger] o0[k]).0@ == ts[x]@ && o0[k].1@ == ts[y]@ {
                        let k = choose|k: int| 0 <= k < o0.len() && (#[trigger] o0[k]).0@ == ts[x]@ && o0[k].1@ == ts[y]@;
                        assert(out@[k] == o0[k]);
                    }
                }
            }
            j = j + 1;
        }
        i = i + 1;
    }
    proof {
        assert forall|a: Shape, b: Shape|
            edges(a) == n + 1 && edges(b) == n + 1 && shape_order(a, b) >= 0 implies #[trigger] equality_checked(
            out@,
            a,
            b,
            multi,
        ) by {
            let x = choose|x: int| 0 <= x < ts.len() && (#[trigger] ts[x])@ == a;
            let y = choose|y: int| 0 <= y < ts.len() && (#[trigger] ts[y])@ == b;
            assert(equality_checked(out@, ts[x]@, ts[y]@, multi));
        }
    }
    out
}

} // verus!
