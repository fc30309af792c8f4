use std::collections::HashMap;

use rand::rngs::ThreadRng;

use vstd::prelude::*;

use crate::growth::lemma_grown_edges;
use crate::hooks::{lemma_fact_pos, lemma_hook_length};
use crate::listing::{lemma_forests_catalan, lemma_forests_complete, lemma_forests_distinct};
use crate::parse::{lemma_text_roundtrip, parse_tree};
use crate::reduction::immediate_reductions;
use crate::random::random_below;
use crate::dyck::{is_dyck, lemma_dyck_words};
use crate::tree::{
    Shape, Tree, bounded, depth, edges, enc, forest_enc, forest_size, lemma_depth_at_most, lemma_forest_edges_size,
    lemma_edges_size, lemma_forest_size_append, lemma_forest_size_single, lemma_reductions_size, lemma_tree_bounded,
    leaf_shape, reductions, shapes_of, size,
};

verus! {

/// Vertex `j` (for `1 <= j <= p.len()`) hangs below vertex `p[j - 1]`, which
/// comes before it; the vertices can be numbered by `usize`.
pub open spec fn parents_ok(p: Seq<usize>) -> bool {
    &&& p.len() < usize::MAX
    &&& forall|j: int| 0 <= j < p.len() ==> #[trigger] p[j] <= j
}

/// The vertices among `1..=k` that hang below `v`, in increasing order.
pub open spec fn kids(p: Seq<usize>, v: nat, k: nat) -> Seq<usize>
    decreases k,
{
    if k == 0 {
        Seq::empty()
    } else {
        kids(p, v, (k - 1) as nat) + if k <= p.len() && p[k - 1] == v {
            seq![k as usize]
        } else {
            Seq::<usize>::empty()
        }
    }
}

/// The tree grown from vertex `v`: its children are the vertices hanging below
/// it, in increasing order, each with the tree grown from it.
pub open spec fn grown(p: Seq<usize>, v: nat) -> Shape
    decreases p.len() + 1 - v,
{
    let ks = kids(p, v, p.len());
    Shape {
        children: Seq::new(
            ks.len(),
            |i: int|
                if v < ks[i] <= p.len() {
                    grown(p, ks[i] as nat)
                } else {
                    leaf_shape()
                },
        ),
    }
}

/// Every vertex listed below `v` comes after it and exists.
proof fn lemma_kids_range(p: Seq<usize>, v: nat, k: nat)
    requires
        parents_ok(p),
        k <= p.len(),
    ensures
        forall|i: int| 0 <= i < kids(p, v, k).len() ==> v < #[trigger] kids(p, v, k)[i] <= k,
    decreases k,
{
    if k > 0 {
        lemma_kids_range(p, v, (k - 1) as nat);
        let a = kids(p, v, (k - 1) as nat);
        assert forall|i: int| 0 <= i < kids(p, v, k).len() implies v < #[trigger] kids(p, v, k)[i] <= k by {
            if i < a.len() {
                assert(kids(p, v, k)[i] == a[i]);
            } else {
                let j = k - 1;
                assert(p[j] <= j);
                assert(k <= p.len() && p[j] == v);
                assert(kids(p, v, k)[i] == k as usize);
            }
        }
    }
}

/// The tree grown from `v` is no deeper than the number of vertices after `v`.
pub proof fn lemma_grown_depth(p: Seq<usize>, v: nat)
    requires
        parents_ok(p),
        v <= p.len(),
    ensures
        depth(grown(p, v)) + v <= p.len(),
    decreases p.len() + 1 - v,
{
    let g = grown(p, v);
    let ks = kids(p, v, p.len());
    lemma_kids_range(p, v, p.len());
    assert forall|i: int| 0 <= i < g.children.len() implies depth(#[trigger] g.children[i]) + 1 <= p.len() - v by {
        assert(v < ks[i] <= p.len());
        lemma_grown_depth(p, ks[i] as nat);
    }
    lemma_depth_at_most(g, (p.len() - v) as nat);
}

/// Builds the tree grown from `node`, given the children lists `children`.
fn build(node: usize, children: &Vec<Vec<usize>>, Ghost(p): Ghost<Seq<usize>>) -> (r: Tree)
    requires
        parents_ok(p),
        children@.len() == p.len() + 1,
        node <= p.len(),
        forall|v: int| 0 <= v <= p.len() ==> (#[trigger] children@[v])@ == kids(p, v as nat, p.len()),
    ensures
        r@ == grown(p, node as nat),
    decreases p.len() + 1 - node,
{
    let ks = &children[node];
    proof {
        lemma_kids_range(p, node as nat, p.len());
    }
    let m = ks.len();
    let mut out: Vec<Tree> = Vec::new();
    let mut i: usize = 0;
    while i < m
        invariant
            parents_ok(p),
            children@.len() == p.len() + 1,
            node <= p.len(),
            forall|v: int| 0 <= v <= p.len() ==> (#[trigger] children@[v])@ == kids(p, v as nat, p.len()),
            ks@ == kids(p, node as nat, p.len()),
            forall|j: int| 0 <= j < ks@.len() ==> node < #[trigger] ks@[j] <= p.len(),
            m == ks@.len(),
            0 <= i <= m,
            out@.len() == i,
            forall|j: int| 0 <= j < i ==> (#[trigger] out@[j])@ == grown(p, ks@[j] as nat),
        decreases m - i,
    {
        let c = build(ks[i], children, Ghost(p));
        out.push(c);
        i = i + 1;
    }
    let r = Tree { children: out };
    proof {
        let g = grown(p, node as nat);
        assert(g.children.len() == m);
        assert forall|j: int| 0 <= j < m implies r@.children[j] == g.children[j] by {
            assert(node < ks@[j] <= p.len());
        }
        assert(r@.children =~= g.children);
        assert(r@ =~= g);
    }
    r
}

/// The tree on the vertices `0..=parents.len()` in which vertex `j >= 1` is the
/// last child (so far) of vertex `parents[j - 1]`: each vertex lists its children
/// in increasing order.
pub fn tree_from_parents(parents: &Vec<usize>) -> (r: Tree)
    requires
        parents_ok(parents@),
        parents@.len() < usize::MAX,
    ensures
        r@ == grown(parents@, 0),
        edges(r@) == parents@.len(),
{
    proof {
        lemma_grown_edges(parents@);
    }
    let ghost p = parents@;
    let n = parents.len();
    let mut children: Vec<Vec<usize>> = Vec::new();
    children.push(Vec::new());
    let mut k: usize = 1;
    while k <= n
        invariant
            p == parents@,
            parents_ok(p),
            n == p.len(),
            n < usize::MAX,
            1 <= k <= n + 1,
            children@.len() == k,
            forall|v: int| 0 <= v < k ==> (#[trigger] children@[v])@ == kids(p, v as nat, (k - 1) as nat),
        decreases n + 1 - k,
    {
        let parent = parents[k - 1];
        assert(parent <= k - 1);
        children.push(Vec::new());
        let mut row = children.remove(parent);
        row.push(k);
        children.insert(parent, row);
        proof {
            assert forall|v: int| 0 <= v < k + 1 implies (#[trigger] children@[v])@ == kids(p, v as nat, k as nat) by {
                if v == k {
                    assert(kids(p, v as nat, (k - 1) as nat) =~= Seq::<usize>::empty()) by {
                        lemma_kids_range(p, v as nat, (k - 1) as nat);
                        if kids(p, v as nat, (k - 1) as nat).len() > 0 {
                            assert(v < kids(p, v as nat, (k - 1) as nat)[0] <= k - 1);
                        }
                    }
                    assert(p[k - 1] != v);
                    assert(kids(p, v as nat, k as nat) =~= Seq::<usize>::empty());
                } else if v == parent {
                    assert(kids(p, v as nat, k as nat) =~= kids(p, v as nat, (k - 1) as nat).push(k as usize));
                } else {
                    assert(kids(p, v as nat, k as nat) =~= kids(p, v as nat, (k - 1) as nat));
                }
            }
        }
        k = k + 1;
    }
    build(0, &children, Ghost(p))
}

/// A random tree with `edge_count` edges: vertex `j` (for `1 <= j <= edge_count`)
/// is attached below a vertex drawn uniformly among `0..j`, after the children
/// already there.
pub fn get_random_tree(rng: &mut ThreadRng, edge_count: usize) -> (r: Tree)
    requires
        edge_count < usize::MAX,
    ensures
        exists|p: Seq<usize>| p.len() == edge_count && parents_ok(p) && r@ == grown(p, 0),
        edges(r@) == edge_count,
{
    let mut parents: Vec<usize> = Vec::new();
    let mut new_node: usize = 1;
    while new_node <= edge_count
        invariant
            edge_count < usize::MAX,
            1 <= new_node <= edge_count + 1,
            parents@.len() == new_node - 1,
            parents_ok(parents@),
        decreases edge_count + 1 - new_node,
    {
        let parent = random_below(rng, new_node);
        parents.push(parent);
        new_node = new_node + 1;
    }
    tree_from_parents(&parents)
}

broadcast use vstd::std_specs::hash::group_hash_axioms;

/// The numbers `C_0 = 1`, `C_{k+1} = C_k · (4k + 2) / (k + 2)` (the Catalan numbers).
pub open spec fn catalan_spec(n: nat) -> nat
    decreases n,
{
    if n == 0 {
        1
    } else {
        let k = (n - 1) as nat;
        (catalan_spec(k) * (4 * k + 2) / (k + 2)) as nat
    }
}

/// The `n`-th Catalan number, computed by `C_{k+1} = C_k · (4k + 2) / (k + 2)`.
pub fn catalan(n: usize) -> (r: u128)
    requires
        forall|k: nat| k < n ==> #[trigger] catalan_spec(k) * (4 * k + 2) <= u128::MAX,
    ensures
        r == catalan_spec(n as nat),
{
    let mut c: u128 = 1;
    let mut k: usize = 0;
    while k < n
        invariant
            0 <= k <= n,
            c == catalan_spec(k as nat),
            forall|j: nat| j < n ==> #[trigger] catalan_spec(j) * (4 * j + 2) <= u128::MAX,
        decreases n - k,
    {
        assert(catalan_spec(k as nat) * (4 * k + 2) <= u128::MAX);
        let kk = k as u128;
        assert(kk <= usize::MAX);
        c = c * (4 * kk + 2) / (kk + 2);
        k = k + 1;
    }
    c
}

/// The forests with `p` nodes in all, in the order in which they are enumerated:
/// a non-empty forest is a first tree whose children form a forest with `k` nodes,
/// followed by a forest with `p - 1 - k` nodes, for `k` from 0 up.
pub open spec fn forests(p: nat) -> Seq<Seq<Shape>>
    decreases p, 2nat, 0nat,
{
    if p == 0 {
        seq![Seq::<Shape>::empty()]
    } else {
        forests_from(p, 0)
    }
}

/// The non-empty forests with `p` nodes whose first tree has at least `k + 1` nodes.
pub open spec fn forests_from(p: nat, k: nat) -> Seq<Seq<Shape>>
    decreases p, 1nat, p - k,
{
    if k >= p {
        Seq::empty()
    } else {
        joins(forests(k), forests((p - 1 - k) as nat)) + forests_from(p, k + 1)
    }
}

/// For each forest `l` of `ls` in turn, each forest of `rs` preceded by the tree
/// with children `l`.
pub open spec fn joins(ls: Seq<Seq<Shape>>, rs: Seq<Seq<Shape>>) -> Seq<Seq<Shape>>
    decreases ls.len(),
{
    if ls.len() == 0 {
        Seq::empty()
    } else {
        joins(ls.drop_last(), rs) + rs.map_values(|r: Seq<Shape>| seq![Shape { children: ls.last() }] + r)
    }
}

pub proof fn lemma_joins_member(ls: Seq<Seq<Shape>>, rs: Seq<Seq<Shape>>, f: Seq<Shape>)
    requires
        joins(ls, rs).contains(f),
    ensures
        exists|l: Seq<Shape>, r: Seq<Shape>| ls.contains(l) && rs.contains(r) && f == seq![Shape { children: l }] + r,
    decreases ls.len(),
{
    let a = joins(ls.drop_last(), rs);
    let g = |r: Seq<Shape>| seq![Shape { children: ls.last() }] + r;
    let b = rs.map_values(g);
    let i = choose|i: int| 0 <= i < joins(ls, rs).len() && joins(ls, rs)[i] == f;
    if i < a.len() {
        assert(a[i] == f);
        lemma_joins_member(ls.drop_last(), rs, f);
        let (l, r) = choose|l: Seq<Shape>, r: Seq<Shape>|
            ls.drop_last().contains(l) && rs.contains(r) && f == seq![Shape { children: l }] + r;
        let k = choose|k: int| 0 <= k < ls.drop_last().len() && ls.drop_last()[k] == l;
        assert(ls[k] == l);
    } else {
        let j = i - a.len();
        assert(b[j] == f);
        assert(rs[j] == rs[j]);
        assert(ls[ls.len() - 1] == ls.last());
        assert(ls.contains(ls.last()));
        assert(rs.contains(rs[j]));
        assert(f == seq![Shape { children: ls.last() }] + rs[j]);
    }
}

/// Every forest listed by `forests(p)` has `p` nodes.
pub proof fn lemma_forests_size(p: nat)
    ensures
        forall|f: Seq<Shape>| #[trigger] forests(p).contains(f) ==> forest_size(f) == p,
    decreases p, 2nat, 0nat,
{
    if p == 0 {
        assert forall|f: Seq<Shape>| #[trigger] forests(p).contains(f) implies forest_size(f) == p by {
            let i = choose|i: int| 0 <= i < forests(p).len() && forests(p)[i] == f;
            assert(f == Seq::<Shape>::empty());
        }
    } else {
        lemma_forests_from_size(p, 0);
        assert(forests(p) == forests_from(p, 0));
        assert forall|f: Seq<Shape>| #[trigger] forests(p).contains(f) implies forest_size(f) == p by {
            assert(forests_from(p, 0).contains(f));
        }
    }
}

proof fn lemma_forests_from_size(p: nat, k: nat)
    requires
        p > 0,
    ensures
        forall|f: Seq<Shape>| #[trigger] forests_from(p, k).contains(f) ==> forest_size(f) == p,
    decreases p, 1nat, p - k,
{
    if k < p {
        lemma_forests_size(k);
        lemma_forests_size((p - 1 - k) as nat);
        lemma_forests_from_size(p, k + 1);
        let a = joins(forests(k), forests((p - 1 - k) as nat));
        let b = forests_from(p, k + 1);
        assert forall|f: Seq<Shape>| #[trigger] forests_from(p, k).contains(f) implies forest_size(f) == p by {
            let i = choose|i: int| 0 <= i < (a + b).len() && (a + b)[i] == f;
            if i < a.len() {
                assert(a.contains(f));
                lemma_joins_member(forests(k), forests((p - 1 - k) as nat), f);
                let (l, r) = choose|l: Seq<Shape>, r: Seq<Shape>|
                    forests(k).contains(l) && forests((p - 1 - k) as nat).contains(r) && f == seq![Shape { children: l }] + r;
                lemma_forest_size_append(seq![Shape { children: l }], r);
                lemma_forest_size_single(Shape { children: l });
                assert(size(Shape { children: l }) == 1 + forest_size(l));
            } else {
                assert(b[i - a.len()] == f);
                assert(b.contains(f));
            }
        }
    }
}

/// `v` lists the texts of `forests(p)`, in order.
pub open spec fn words_of(v: Seq<String>, p: nat) -> bool {
    &&& v.len() == forests(p).len()
    &&& forall|i: int| 0 <= i < v.len() ==> (#[trigger] v[i])@ == forest_enc(forests(p)[i])
}

proof fn lemma_forest_enc_append(a: Seq<Shape>, b: Seq<Shape>)
    ensures
        forest_enc(a + b) == forest_enc(a) + forest_enc(b),
    decreases b.len(),
{
    if b.len() == 0 {
        assert(a + b =~= a);
    } else {
        lemma_forest_enc_append(a, b.drop_last());
        assert((a + b).drop_last() =~= a + b.drop_last());
    }
}

proof fn lemma_forest_enc_cons(c: Shape, r: Seq<Shape>)
    ensures
        forest_enc(seq![c] + r) == seq!['('] + forest_enc(c.children) + seq![')'] + forest_enc(r),
{
    lemma_forest_enc_append(seq![c], r);
    assert(seq![c].drop_last() =~= Seq::<Shape>::empty());
    assert(forest_enc(seq![c]) == forest_enc(Seq::<Shape>::empty()) + enc(c));
    assert(forest_enc(seq![c]) =~= enc(c));
}

/// Copies a list of texts.
fn copy_words(v: &Vec<String>) -> (r: Vec<String>)
    ensures
        r@.len() == v@.len(),
        forall|i: int| 0 <= i < v@.len() ==> (#[trigger] r@[i])@ == v@[i]@,
{
    let n = v.len();
    let mut r: Vec<String> = Vec::new();
    let mut i: usize = 0;
    while i < n
        invariant
            n == v@.len(),
            0 <= i <= n,
            r@.len() == i,
            forall|j: int| 0 <= j < i ==> (#[trigger] r@[j])@ == v@[j]@,
        decreases n - i,
    {
        r.push(v[i].clone());
        i = i + 1;
    }
    r
}

/// The texts of `forests(pairs)`, remembering those already built in `memo`.
fn generate(pairs: usize, memo: &mut HashMap<usize, Vec<String>>) -> (r: Vec<String>)
    requires
        forall|k: usize| #[trigger] old(memo)@.contains_key(k) ==> words_of(old(memo)@[k]@, k as nat),
    ensures
        words_of(r@, pairs as nat),
        forall|k: usize| #[trigger] final(memo)@.contains_key(k) ==> words_of(final(memo)@[k]@, k as nat),
    decreases pairs,
{
    match memo.get(&pairs) {
        Some(v) => {
            return copy_words(v);
        },
        None => {},
    }
    let out = if pairs == 0 {
        let mut out: Vec<String> = Vec::new();
        out.push(String::new());
        proof {
            assert(forest_enc(Seq::<Shape>::empty()) =~= Seq::<char>::empty());
        }
        out
    } else {
        let mut out: Vec<String> = Vec::new();
        let ghost mut acc: Seq<Seq<Shape>> = Seq::empty();
        let mut k: usize = 0;
        while k < pairs
            invariant
                0 <= k <= pairs,
                pairs > 0,
                forall|q: usize| #[trigger] memo@.contains_key(q) ==> words_of(memo@[q]@, q as nat),
                out@.len() == acc.len(),
                forall|i: int| 0 <= i < acc.len() ==> (#[trigger] out@[i])@ == forest_enc(acc[i]),
                forests(pairs as nat) == acc + forests_from(pairs as nat, k as nat),
            decreases pairs - k,
        {
            let left = generate(k, memo);
            let right = generate(pairs - 1 - k, memo);
            let ghost ls = forests(k as nat);
            let ghost rs = forests((pairs - 1 - k) as nat);
            let ghost acc0 = acc;
            let nl = left.len();
            let nr = right.len();
            let mut i: usize = 0;
            while i < nl
                invariant
                    nl == left@.len(),
                    nr == right@.len(),
                    words_of(left@, k as nat),
                    words_of(right@, (pairs - 1 - k) as nat),
                    ls == forests(k as nat),
                    rs == forests((pairs - 1 - k) as nat),
                    0 <= i <= nl,
                    acc == acc0 + joins(ls.take(i as int), rs),
                    out@.len() == acc.len(),
                    forall|j: int| 0 <= j < acc.len() ==> (#[trigger] out@[j])@ == forest_enc(acc[j]),
                decreases nl - i,
            {
                let ghost acc1 = acc;
                let mut j: usize = 0;
                while j < nr
                    invariant
                        nl == left@.len(),
                        nr == right@.len(),
                        words_of(left@, k as nat),
                        words_of(right@, (pairs - 1 - k) as nat),
                        ls == forests(k as nat),
                        rs == forests((pairs - 1 - k) as nat),
                        0 <= i < nl,
                        0 <= j <= nr,
                        acc == acc1 + rs.take(j as int).map_values(
                            |r: Seq<Shape>| seq![Shape { children: ls[i as int] }] + r,
                        ),
                        out@.len() == acc.len(),
                        forall|q: int| 0 <= q < acc.len() ==> (#[trigger] out@[q])@ == forest_enc(acc[q]),
                    decreases nr - j,
                {
                    let mut w = String::new();
                    proof {
                        reveal_strlit("(");
                        reveal_strlit(")");
                    }
                    w.append("(");
                    w.append(left[i].as_str());
                    w.append(")");
                    w.append(right[j].as_str());
                    let ghost f = seq![Shape { children: ls[i as int] }] + rs[j as int];
                    proof {
                        lemma_forest_enc_cons(Shape { children: ls[i as int] }, rs[j as int]);
                        assert(w@ =~= forest_enc(f));
                    }
                    out.push(w);
                    proof {
                        let g = |r: Seq<Shape>| seq![Shape { children: ls[i as int] }] + r;
                        assert(rs.take(j + 1).map_values(g) =~= rs.take(j as int).map_values(g).push(f));
                        acc = acc.push(f);
                    }
                    j = j + 1;
                }
                proof {
                    let g = |r: Seq<Shape>| seq![Shape { children: ls[i as int] }] + r;
                    assert(rs.take(nr as int) =~= rs);
                    assert(ls.take(i + 1).drop_last() =~= ls.take(i as int));
                    assert(ls.take(i + 1).last() == ls[i as int]);
                    assert(joins(ls.take(i + 1), rs) == joins(ls.take(i as int), rs) + rs.map_values(g));
                    assert(acc =~= acc0 + joins(ls.take(i + 1), rs));
                }
                i = i + 1;
            }
            proof {
                assert(ls.take(nl as int) =~= ls);
                assert(forests_from(pairs as nat, k as nat) == joins(ls, rs) + forests_from(pairs as nat, (k + 1) as nat));
                assert(forests(pairs as nat) =~= acc + forests_from(pairs as nat, (k + 1) as nat));
            }
            k = k + 1;
        }
        proof {
            assert(forests(pairs as nat) =~= acc);
        }
        out
    };
    let stored = copy_words(&out);
    memo.insert(pairs, stored);
    out
}

/// The Dyck words with `pairs` pairs of parentheses, in the order of `forests`:
/// every balanced string of `pairs` pairs, each once.
fn get_dyck_words(pairs: usize) -> (r: Vec<String>)
    ensures
        words_of(r@, pairs as nat),
        forall|i: int| 0 <= i < r@.len() ==> is_dyck(#[trigger] r@[i]@, pairs as nat),
        forall|w: Seq<char>| is_dyck(w, pairs as nat) ==> exists|i: int| 0 <= i < r@.len() && #[trigger] r@[i]@ == w,
        forall|i: int, k: int| 0 <= i < k < r@.len() ==> #[trigger] r@[i]@ != #[trigger] r@[k]@,
{
    let mut memo: HashMap<usize, Vec<String>> = HashMap::new();
    let r = generate(pairs, &mut memo);
    proof {
        lemma_dyck_words(r@, pairs as nat);
    }
    r
}

/// All trees with `edge_count` edges, each exactly once, as many as the Catalan
/// number of `edge_count`: the tree whose children form each forest of
/// `forests(edge_count)`, in that order.
pub fn get_trees(edge_count: usize) -> (r: Vec<Tree>)
    ensures
        r@.len() == forests(edge_count as nat).len(),
        r@.len() == catalan_spec(edge_count as nat),
        forall|i: int| 0 <= i < r@.len() ==> (#[trigger] r@[i])@ == (Shape { children: forests(edge_count as nat)[i] }),
        forall|i: int| 0 <= i < r@.len() ==> edges(#[trigger] r@[i]@) == edge_count,
        forall|s: Shape| edges(s) == edge_count ==> exists|i: int| 0 <= i < r@.len() && (#[trigger] r@[i])@ == s,
        forall|i: int, j: int| 0 <= i < j < r@.len() ==> (#[trigger] r@[i])@ != (#[trigger] r@[j])@,
{
    let inner = get_dyck_words(edge_count);
    let n = inner.len();
    let mut out: Vec<Tree> = Vec::new();
    let mut i: usize = 0;
    while i < n
        invariant
            n == inner@.len(),
            words_of(inner@, edge_count as nat),
            0 <= i <= n,
            out@.len() == i,
            forall|j: int| 0 <= j < i ==> (#[trigger] out@[j])@ == (Shape { children: forests(edge_count as nat)[j] }),
        decreases n - i,
    {
        let mut s = String::new();
        proof {
            reveal_strlit("(");
            reveal_strlit(")");
        }
        s.append("(");
        s.append(inner[i].as_str());
        s.append(")");
        let ghost sh = Shape { children: forests(edge_count as nat)[i as int] };
        proof {
            assert(s@ =~= enc(sh));
            lemma_text_roundtrip(sh);
        }
        match parse_tree(s.as_str()) {
            Ok(t) => {
                out.push(t);
            },
            Err(_) => {
                assert(false);
            },
        }
        i = i + 1;
    }
    proof {
        lemma_forests_size(edge_count as nat);
        assert forall|i: int| 0 <= i < out@.len() implies edges(#[trigger] out@[i]@) == edge_count by {
            let f = forests(edge_count as nat)[i];
            assert(forests(edge_count as nat).contains(f));
            lemma_forest_edges_size(f);
        }
        assert forall|s: Shape| edges(s) == edge_count implies exists|i: int| 0 <= i < out@.len() && (#[trigger] out@[i])@ == s by {
            lemma_edges_size(s);
            lemma_forests_complete(s.children);
            let i = choose|i: int| 0 <= i < forests(edge_count as nat).len() && forests(edge_count as nat)[i] == s.children;
            assert(out@[i]@ == s);
        }
        lemma_forests_distinct(edge_count as nat);
        lemma_forests_catalan(edge_count as nat);
        assert forall|i: int, j: int| 0 <= i < j < out@.len() implies (#[trigger] out@[i])@ != (#[trigger] out@[j])@ by {
            if out@[i]@ == out@[j]@ {
                assert(forests(edge_count as nat)[i] == out@[i]@.children);
            }
        }
    }
    out
}

/// The immediate reductions of `s` that are counted: all of them with `multi`,
/// otherwise each distinct tree once (first occurrences, in order).
pub open spec fn counted_reductions(s: Shape, multi: bool) -> Seq<Shape> {
    if multi {
        reductions(s)
    } else {
        reductions(s).remove_duplicates(Seq::empty())
    }
}

/// The number of ways to reduce `s` to a leaf, one non-root leaf deletion at a
/// time: with `multi`, deletions that give the same tree are told apart; without,
/// they count once.
pub open spec fn nb_red(s: Shape, multi: bool) -> nat
    decreases size(s), 1nat, 0nat,
{
    if s.children.len() == 0 {
        1
    } else {
        nb_sum(counted_reductions(s, multi), size(s), multi)
    }
}

/// The sum of `nb_red` over the shapes of `rs` that have fewer than `lim` nodes.
pub open spec fn nb_sum(rs: Seq<Shape>, lim: nat, multi: bool) -> nat
    decreases lim, 0nat, rs.len(),
{
    if rs.len() == 0 {
        0
    } else {
        nb_sum(rs.drop_last(), lim, multi) + if size(rs.last()) < lim {
            nb_red(rs.last(), multi)
        } else {
            0
        }
    }
}

/// `b` is obtained from `a` by zero or more immediate reductions.
pub open spec fn reaches_red(a: Shape, b: Shape) -> bool {
    exists|c: Seq<Shape>|
        #![trigger c.len(), c[0], c.last()]
        c.len() >= 1 && c[0] == a && c.last() == b && forall|i: int|
            0 <= i < c.len() - 1 ==> #[trigger] reductions(c[i]).contains(c[i + 1])
}

/// `m` records, for distinct trees reachable from `root`, their numbers of
/// reductions modulo `usize::MAX + 1`; the counted reductions of a recorded tree
/// that has any are recorded too.
pub open spec fn nb_memo_ok(m: Seq<(Tree, usize)>, multi: bool, root: Shape) -> bool {
    &&& forall|i: int, j: int| 0 <= i < j < m.len() ==> m[i].0@ != m[j].0@
    &&& forall|i: int| 0 <= i < m.len() ==> #[trigger] m[i].1 == nb_red(m[i].0@, multi) % (usize::MAX as nat + 1)
    &&& forall|i: int| 0 <= i < m.len() ==> reaches_red(root, #[trigger] m[i].0@)
    &&& forall|i: int, x: Shape|
        0 <= i < m.len() && #[trigger] reductions(m[i].0@).contains(x) ==> exists|j: int|
            0 <= j < m.len() && m[j].0@ == x
}

pub(crate) proof fn lemma_reaches_refl(a: Shape)
    ensures
        reaches_red(a, a),
{
    let c = seq![a];
    assert(c.len() >= 1 && c[0] == a && c.last() == a);
}

pub(crate) proof fn lemma_reaches_step(a: Shape, b: Shape, x: Shape)
    requires
        reaches_red(a, b),
        reductions(b).contains(x),
    ensures
        reaches_red(a, x),
{
    let c = choose|c: Seq<Shape>|
        #![trigger c.len(), c[0], c.last()]
        c.len() >= 1 && c[0] == a && c.last() == b && forall|i: int|
            0 <= i < c.len() - 1 ==> #[trigger] reductions(c[i]).contains(c[i + 1]);
    let d = c.push(x);
    assert forall|i: int| 0 <= i < d.len() - 1 implies #[trigger] reductions(d[i]).contains(d[i + 1]) by {
        if i < c.len() - 1 {
            assert(d[i] == c[i] && d[i + 1] == c[i + 1]);
        } else {
            assert(d[i] == b);
        }
    }
    assert(d.len() >= 1 && d[0] == a && d.last() == x);
}

/// A tree reached from a bounded tree by reductions is bounded and no larger.
pub(crate) proof fn lemma_reaches_size(a: Shape, b: Shape)
    requires
        reaches_red(a, b),
        bounded(a),
    ensures
        size(b) <= size(a),
        bounded(b),
{
    let c = choose|c: Seq<Shape>|
        #![trigger c.len(), c[0], c.last()]
        c.len() >= 1 && c[0] == a && c.last() == b && forall|i: int|
            0 <= i < c.len() - 1 ==> #[trigger] reductions(c[i]).contains(c[i + 1]);
    lemma_chain_size(c, c.len() - 1);
}

proof fn lemma_chain_size(c: Seq<Shape>, k: int)
    requires
        c.len() >= 1,
        bounded(c[0]),
        forall|i: int| 0 <= i < c.len() - 1 ==> #[trigger] reductions(c[i]).contains(c[i + 1]),
        0 <= k < c.len(),
    ensures
        size(c[k]) <= size(c[0]),
        bounded(c[k]),
    decreases k,
{
    if k > 0 {
        lemma_chain_size(c, k - 1);
        let j = k - 1;
        assert(reductions(c[j]).contains(c[j + 1]));
        lemma_reductions_size(c[j]);
        let q = choose|q: int| 0 <= q < reductions(c[j]).len() && reductions(c[j])[q] == c[k];
        assert(size(reductions(c[j])[q]) + 1 == size(c[j]));
    }
}

proof fn lemma_counted_contains(s: Shape, multi: bool, x: Shape)
    ensures
        counted_reductions(s, multi).contains(x) <==> reductions(s).contains(x),
{
    if !multi {
        reductions(s).lemma_remove_duplicates_properties(Seq::empty());
    }
}

/// The sum of `nb_red` over the trees of `rs`.
pub open spec fn red_sum(rs: Seq<Shape>, multi: bool) -> nat
    decreases rs.len(),
{
    if rs.len() == 0 {
        0
    } else {
        red_sum(rs.drop_last(), multi) + nb_red(rs.last(), multi)
    }
}

/// `nb_sum` leaves out only trees with `lim` nodes or more.
proof fn lemma_nb_sum_all(rs: Seq<Shape>, lim: nat, multi: bool)
    requires
        forall|i: int| 0 <= i < rs.len() ==> size(#[trigger] rs[i]) < lim,
    ensures
        nb_sum(rs, lim, multi) == red_sum(rs, multi),
    decreases rs.len(),
{
    if rs.len() > 0 {
        assert(size(rs[rs.len() - 1]) < lim);
        lemma_nb_sum_all(rs.drop_last(), lim, multi);
    }
}

/// The recursion that `get_nb_reductions` computes (in `usize`, so modulo
/// `usize::MAX + 1`): a leaf has one reduction sequence, and any other tree has
/// the sum of those of its immediate reductions, each counted with its
/// multiplicity (`multi`) or once.
pub proof fn lemma_nb_red_recursion(s: Shape, multi: bool)
    requires
        bounded(s),
    ensures
        s.children.len() == 0 ==> nb_red(s, multi) == 1,
        s.children.len() > 0 ==> nb_red(s, multi) == red_sum(counted_reductions(s, multi), multi),
{
    if s.children.len() > 0 {
        lemma_reductions_size(s);
        let rs = counted_reductions(s, multi);
        assert forall|i: int| 0 <= i < rs.len() implies size(#[trigger] rs[i]) < size(s) by {
            lemma_counted_contains(s, multi, rs[i]);
            assert(rs.contains(rs[i]));
            let k = choose|k: int| 0 <= k < reductions(s).len() && reductions(s)[k] == rs[i];
            assert(size(reductions(s)[k]) + 1 == size(s));
        }
        lemma_nb_sum_all(rs, size(s), multi);
    }
}

/// Position of a tree with the shape of `t` in `memo`, if any.
fn find_entry(memo: &Vec<(Tree, usize)>, t: &Tree) -> (r: Option<usize>)
    ensures
        match r {
            Some(i) => i < memo@.len() && memo@[i as int].0@ == t@,
            None => forall|i: int| 0 <= i < memo@.len() ==> memo@[i].0@ != t@,
        },
{
    let n = memo.len();
    let mut i: usize = 0;
    while i < n
        invariant
            n == memo@.len(),
            0 <= i <= n,
            forall|j: int| 0 <= j < i ==> memo@[j].0@ != t@,
        decreases n - i,
    {
        if memo[i].0.same_shape(t) {
            return Some(i);
        }
        i = i + 1;
    }
    None
}

/// The trees of `v`, each shape once (first occurrences, in order).
pub(crate) fn dedup_trees(v: Vec<Tree>) -> (r: Vec<Tree>)
    ensures
        r@.map_values(|t: Tree| t@) == v@.map_values(|t: Tree| t@).remove_duplicates(Seq::empty()),
        shapes_of(r@).no_duplicates(),
        forall|x: Shape| #[trigger] shapes_of(r@).contains(x) <==> shapes_of(v@).contains(x),
{
    let ghost vs = v@.map_values(|t: Tree| t@);
    let n = v.len();
    let mut r: Vec<Tree> = Vec::new();
    let mut i: usize = 0;
    assert(vs.skip(0) =~= vs);
    assert(r@.map_values(|t: Tree| t@) =~= Seq::<Shape>::empty());
    while i < n
        invariant
            n == v@.len(),
            vs == v@.map_values(|t: Tree| t@),
            0 <= i <= n,
            vs.remove_duplicates(Seq::empty()) == vs.skip(i as int).remove_duplicates(r@.map_values(|t: Tree| t@)),
            r@.map_values(|t: Tree| t@).no_duplicates(),
        decreases n - i,
    {
        let ghost seen = r@.map_values(|t: Tree| t@);
        assert(vs.skip(i as int)[0] == vs[i as int]);
        assert(vs.skip(i as int).skip(1) =~= vs.skip(i + 1));
        let m = r.len();
        let mut j: usize = 0;
        let mut found = false;
        while j < m
            invariant
                m == r@.len(),
                0 <= j <= m,
                seen == r@.map_values(|t: Tree| t@),
                found == exists|q: int| 0 <= q < j && r@[q]@ == v@[i as int]@,
                i < n,
                n == v@.len(),
            decreases m - j,
        {
            if r[j].same_shape(&v[i]) {
                found = true;
            }
            j = j + 1;
        }
        assert(found == seen.contains(vs[i as int])) by {
            if found {
                let q = choose|q: int| 0 <= q < m && r@[q]@ == v@[i as int]@;
                assert(seen[q] == vs[i as int]);
            }
            if seen.contains(vs[i as int]) {
                let q = choose|q: int| 0 <= q < seen.len() && seen[q] == vs[i as int];
                assert(r@[q]@ == v@[i as int]@);
            }
        }
        if !found {
            r.push(v[i].duplicate());
            assert(r@.map_values(|t: Tree| t@) =~= seen + seq![vs[i as int]]);
        }
        i = i + 1;
    }
    assert(vs.skip(n as int) =~= Seq::<Shape>::empty());
    proof {
        vs.lemma_remove_duplicates_properties(Seq::empty());
        assert(vs + Seq::<Shape>::empty() =~= vs);
        assert(shapes_of(r@) == r@.map_values(|t: Tree| t@));
        assert(shapes_of(v@) == vs);
    }
    r
}

fn count(tree: &Tree, memo: &mut Vec<(Tree, usize)>, multi: bool, Ghost(root): Ghost<Shape>)
    requires
        nb_memo_ok(old(memo)@, multi, root),
        reaches_red(root, tree@),
    ensures
        nb_memo_ok(final(memo)@, multi, root),
        exists|i: int| 0 <= i < final(memo)@.len() && final(memo)@[i].0@ == tree@,
        old(memo)@.len() <= final(memo)@.len(),
        forall|i: int| 0 <= i < old(memo)@.len() ==> final(memo)@[i] == old(memo)@[i],
        forall|i: int| old(memo)@.len() <= i < final(memo)@.len() ==> reaches_red(tree@, #[trigger] final(memo)@[i].0@),
    decreases size(tree@),
{
    proof {
        lemma_tree_bounded(tree);
    }
    match find_entry(memo, tree) {
        Some(_) => {
            return;
        },
        None => {},
    }
    if tree.is_leaf() {
        let ghost m0 = memo@;
        memo.push((Tree::leaf(), 1));
        proof {
            lemma_reaches_refl(tree@);
            assert(tree@.children =~= Seq::<Shape>::empty());
            assert(tree@ =~= leaf_shape());
            assert(memo@[m0.len() as int].0@ == tree@);
            vstd::arithmetic::div_mod::lemma_small_mod(1, usize::MAX as nat + 1);
            assert forall|i: int, x: Shape| 0 <= i < memo@.len() && #[trigger] reductions(memo@[i].0@).contains(x)
                implies exists|j: int| 0 <= j < memo@.len() && memo@[j].0@ == x by {
                if i < m0.len() {
                    assert(memo@[i] == m0[i]);
                    let j = choose|j: int| 0 <= j < m0.len() && m0[j].0@ == x;
                    assert(memo@[j] == m0[j]);
                } else {
                    assert(reductions(leaf_shape()).len() == 0) by {
                        assert(crate::tree::leaf_paths(leaf_shape()).len() == 0) by {
                            assert(crate::tree::forest_leaf_paths(Seq::<Shape>::empty()) =~= Seq::empty()) by {
                                reveal_with_fuel(crate::tree::forest_leaf_paths, 1);
                            }
                        }
                    }
                }
            }
            assert forall|i: int| 0 <= i < memo@.len() implies reaches_red(root, #[trigger] memo@[i].0@) by {
                if i < m0.len() {
                    assert(memo@[i] == m0[i]);
                }
            }
            assert forall|i: int| 0 <= i < memo@.len() implies #[trigger] memo@[i].1 == nb_red(memo@[i].0@, multi) % (usize::MAX as nat + 1) by {
                if i < m0.len() {
                    assert(memo@[i] == m0[i]);
                }
            }
        }
        return;
    }
    let ghost m0 = memo@;
    let all = immediate_reductions(tree);
    let reduct = if multi {
        all
    } else {
        dedup_trees(all)
    };
    let ghost next = counted_reductions(tree@, multi);
    assert(reduct@.map_values(|t: Tree| t@) == next);
    proof {
        lemma_reductions_size(tree@);
    }
    let n = reduct.len();
    let mut res: usize = 0;
    let mut i: usize = 0;
    proof {
        vstd::arithmetic::div_mod::lemma_small_mod(0, usize::MAX as nat + 1);
        assert(next.take(0) =~= Seq::<Shape>::empty());
    }
    while i < n
        invariant
            n == reduct@.len(),
            next == reduct@.map_values(|t: Tree| t@),
            next == counted_reductions(tree@, multi),
            0 <= i <= n,
            bounded(tree@),
            tree@.children.len() > 0,
            reaches_red(root, tree@),
            nb_memo_ok(memo@, multi, root),
            forall|j: int| 0 <= j < m0.len() ==> memo@[j] == m0[j],
            m0.len() <= memo@.len(),
            forall|j: int| 0 <= j < m0.len() ==> m0[j].0@ != tree@,
            forall|j: int| m0.len() <= j < memo@.len() ==> reaches_red(tree@, #[trigger] memo@[j].0@) && memo@[j].0@ != tree@,
            forall|j: int| 0 <= j < i ==> exists|q: int| 0 <= q < memo@.len() && memo@[q].0@ == #[trigger] next[j],
            res == nb_sum(next.take(i as int), size(tree@), multi) % (usize::MAX as nat + 1),
            forall|k: int| 0 <= k < reductions(tree@).len() ==> size(#[trigger] reductions(tree@)[k]) + 1 == size(tree@),
        decreases n - i,
    {
        let ghost mi = memo@;
        proof {
            assert(next[i as int] == reduct@[i as int]@);
            lemma_counted_contains(tree@, multi, next[i as int]);
            assert(next.contains(next[i as int]));
            let k = choose|k: int| 0 <= k < reductions(tree@).len() && reductions(tree@)[k] == next[i as int];
            assert(size(next[i as int]) < size(tree@));
            lemma_reaches_refl(tree@);
            lemma_reaches_step(tree@, tree@, next[i as int]);
            lemma_reaches_step(root, tree@, next[i as int]);
        }
        count(&reduct[i], memo, multi, Ghost(root));
        let found = find_entry(memo, &reduct[i]);
        proof {
            if found is None {
                let q = choose|q: int| 0 <= q < memo@.len() && memo@[q].0@ == reduct@[i as int]@;
                assert(memo@[q].0@ != reduct@[i as int]@);
            }
        }
        let j = found.unwrap();
        let v = memo[j].1;
        proof {
            assert(memo@[j as int].1 == nb_red(next[i as int], multi) % (usize::MAX as nat + 1));
            let a = nb_sum(next.take(i as int), size(tree@), multi);
            let b = nb_red(next[i as int], multi);
            assert(next.take(i + 1).drop_last() =~= next.take(i as int));
            assert(next.take(i + 1).last() == next[i as int]);
            assert(nb_sum(next.take(i + 1), size(tree@), multi) == a + b);
            crate::dag::lemma_mod_sum_step(a, b, res as int, v as int);
            assert forall|q: int| m0.len() <= q < memo@.len() implies reaches_red(tree@, #[trigger] memo@[q].0@) && memo@[q].0@ != tree@ by {
                if q < mi.len() {
                    assert(memo@[q] == mi[q]);
                } else {
                    lemma_reaches_refl(tree@);
                    lemma_counted_contains(tree@, multi, next[i as int]);
                    assert(next.contains(next[i as int]));
                    let k = choose|k: int| 0 <= k < reductions(tree@).len() && reductions(tree@)[k] == next[i as int];
                    lemma_reductions_size(tree@);
                    assert(bounded(next[i as int]));
                    lemma_reaches_step(tree@, tree@, next[i as int]);
                    lemma_reaches_trans(tree@, next[i as int], memo@[q].0@);
                    lemma_reaches_size(next[i as int], memo@[q].0@);
                }
            }
            assert forall|jj: int| 0 <= jj < i + 1 implies exists|q: int| 0 <= q < memo@.len() && memo@[q].0@ == #[trigger] next[jj] by {
                if jj < i {
                    let q = choose|q: int| 0 <= q < mi.len() && mi[q].0@ == next[jj];
                    assert(memo@[q] == mi[q]);
                } else {
                    assert(memo@[j as int].0@ == next[jj]);
                }
            }
        }
        res = res.wrapping_add(v);
        i = i + 1;
    }
    let ghost m1 = memo@;
    memo.push((tree.duplicate(), res));
    proof {
        assert(next.take(n as int) =~= next);
        let t = memo@[m1.len() as int];
        assert(t.0@ == tree@);
        assert(nb_red(tree@, multi) == nb_sum(next, size(tree@), multi));
        assert forall|a: int, b: int| 0 <= a < b < memo@.len() implies memo@[a].0@ != memo@[b].0@ by {
            if b == m1.len() {
                if a < m0.len() {
                    assert(memo@[a] == m0[a]);
                } else {
                    assert(memo@[a] == m1[a]);
                }
            } else {
                assert(memo@[a] == m1[a] && memo@[b] == m1[b]);
            }
        }
        assert forall|a: int| 0 <= a < memo@.len() implies #[trigger] memo@[a].1 == nb_red(memo@[a].0@, multi) % (usize::MAX as nat + 1) by {
            if a < m1.len() {
                assert(memo@[a] == m1[a]);
            }
        }
        assert forall|a: int| 0 <= a < memo@.len() implies reaches_red(root, #[trigger] memo@[a].0@) by {
            if a < m1.len() {
                assert(memo@[a] == m1[a]);
            }
        }
        assert forall|a: int, x: Shape| 0 <= a < memo@.len() && #[trigger] reductions(memo@[a].0@).contains(x)
            implies exists|j: int| 0 <= j < memo@.len() && memo@[j].0@ == x by {
            if a < m1.len() {
                assert(memo@[a] == m1[a]);
                let j = choose|j: int| 0 <= j < m1.len() && m1[j].0@ == x;
                assert(memo@[j] == m1[j]);
            } else {
                lemma_counted_contains(tree@, multi, x);
                let k = choose|k: int| 0 <= k < next.len() && next[k] == x;
                let q = choose|q: int| 0 <= q < m1.len() && m1[q].0@ == next[k];
                assert(memo@[q] == m1[q]);
            }
        }
        assert forall|a: int| m0.len() <= a < memo@.len() implies reaches_red(tree@, #[trigger] memo@[a].0@) by {
            if a < m1.len() {
                assert(memo@[a] == m1[a]);
            } else {
                lemma_reaches_refl(tree@);
            }
        }
        assert(forall|a: int| 0 <= a < m0.len() ==> memo@[a] == m0[a]);
    }
}

proof fn lemma_reaches_trans(a: Shape, b: Shape, c: Shape)
    requires
        reaches_red(a, b),
        reaches_red(b, c),
    ensures
        reaches_red(a, c),
{
    let p = choose|p: Seq<Shape>|
        #![trigger p.len(), p[0], p.last()]
        p.len() >= 1 && p[0] == a && p.last() == b && forall|i: int|
            0 <= i < p.len() - 1 ==> #[trigger] reductions(p[i]).contains(p[i + 1]);
    let q = choose|q: Seq<Shape>|
        #![trigger q.len(), q[0], q.last()]
        q.len() >= 1 && q[0] == b && q.last() == c && forall|i: int|
            0 <= i < q.len() - 1 ==> #[trigger] reductions(q[i]).contains(q[i + 1]);
    let d = p + q.drop_first();
    assert forall|i: int| 0 <= i < d.len() - 1 implies #[trigger] reductions(d[i]).contains(d[i + 1]) by {
        if i < p.len() - 1 {
            assert(d[i] == p[i] && d[i + 1] == p[i + 1]);
        } else if i == p.len() - 1 {
            assert(d[i] == b);
            assert(d[i + 1] == q[1]);
            assert(reductions(q[0]).contains(q[1]));
        } else {
            let k = i - p.len() + 1;
            assert(d[i] == q[k] && d[i + 1] == q[k + 1]);
        }
    }
    if q.len() == 1 {
        assert(d =~= p);
    }
    assert(d.len() >= 1 && d[0] == a && d.last() == c);
}

/// For the tree `tree` and every tree reachable from it by reductions, the number
/// of ways to reduce it to a leaf (see `nb_red`), modulo `usize::MAX + 1`; each
/// such tree appears once.
pub fn get_nb_reductions(tree: Tree, multi: bool) -> (r: Vec<(Tree, usize)>)
    ensures
        forall|i: int, j: int| 0 <= i < j < r@.len() ==> r@[i].0@ != r@[j].0@,
        forall|i: int| 0 <= i < r@.len() ==> #[trigger] r@[i].1 == nb_red(r@[i].0@, multi) % (usize::MAX as nat + 1),
        forall|i: int| 0 <= i < r@.len() ==> reaches_red(tree@, #[trigger] r@[i].0@),
        forall|s: Shape| reaches_red(tree@, s) ==> exists|i: int| 0 <= i < r@.len() && #[trigger] r@[i].0@ == s,
        forall|i: int|
            0 <= i < r@.len() ==> (#[trigger] r@[i].0@).children.len() == 0 ==> r@[i].1 == 1,
        forall|i: int|
            0 <= i < r@.len() ==> (#[trigger] r@[i].0@).children.len() > 0 ==> r@[i].1 == red_sum(
                counted_reductions(r@[i].0@, multi),
                multi,
            ) % (usize::MAX as nat + 1),
{
    let mut res: Vec<(Tree, usize)> = Vec::new();
    proof {
        lemma_reaches_refl(tree@);
    }
    count(&tree, &mut res, multi, Ghost(tree@));
    proof {
        assert forall|s: Shape| reaches_red(tree@, s) implies exists|i: int| 0 <= i < res@.len() && #[trigger] res@[i].0@ == s by {
            let c = choose|c: Seq<Shape>|
                #![trigger c.len(), c[0], c.last()]
                c.len() >= 1 && c[0] == tree@ && c.last() == s && forall|i: int|
                    0 <= i < c.len() - 1 ==> #[trigger] reductions(c[i]).contains(c[i + 1]);
            lemma_chain_recorded(res@, multi, tree@, c, c.len() - 1);
        }
        assert forall|i: int| 0 <= i < res@.len() implies #[trigger] nb_red(res@[i].0@, multi) == if res@[i].0@.children.len()
            == 0 {
            1
        } else {
            red_sum(counted_reductions(res@[i].0@, multi), multi)
        } by {
            lemma_tree_bounded(&res@[i].0);
            lemma_nb_red_recursion(res@[i].0@, multi);
        }
        vstd::arithmetic::div_mod::lemma_small_mod(1, usize::MAX as nat + 1);
    }
    res
}

proof fn lemma_chain_recorded(m: Seq<(Tree, usize)>, multi: bool, root: Shape, c: Seq<Shape>, k: int)
    requires
        nb_memo_ok(m, multi, root),
        c.len() >= 1,
        exists|i: int| 0 <= i < m.len() && m[i].0@ == c[0],
        forall|i: int| 0 <= i < c.len() - 1 ==> #[trigger] reductions(c[i]).contains(c[i + 1]),
        0 <= k < c.len(),
    ensures
        exists|i: int| 0 <= i < m.len() && m[i].0@ == c[k],
    decreases k,
{
    if k > 0 {
        lemma_chain_recorded(m, multi, root, c, k - 1);
        let i = choose|i: int| 0 <= i < m.len() && m[i].0@ == c[k - 1];
        let j = k - 1;
        assert(reductions(c[j]).contains(c[j + 1]));
        assert(reductions(m[i].0@).contains(c[k]));
    }
}

/// `n!`.
pub open spec fn fact(n: nat) -> nat
    decreases n,
{
    if n == 0 {
        1
    } else {
        n * fact((n - 1) as nat)
    }
}

/// The product of the sizes of all proper subtrees of `s`.
pub open spec fn hook_product(s: Shape) -> nat
    decreases s, 1nat,
{
    forest_hook_product(s.children)
}

/// The product, over the trees `c` of `cs`, of `size(c)` times `hook_product(c)`.
pub open spec fn forest_hook_product(cs: Seq<Shape>) -> nat
    decreases cs, 0nat,
{
    if cs.len() == 0 {
        1
    } else {
        forest_hook_product(cs.drop_last()) * (size(cs.last()) * hook_product(cs.last()))
    }
}

/// One step of a product kept modulo `usize::MAX + 1`.
proof fn lemma_mod_mul_step(a: nat, t: nat, y: nat)
    requires
        t == a % (usize::MAX as nat + 1),
    ensures
        (t * y) % (usize::MAX as nat + 1) == (a * y) % (usize::MAX as nat + 1),
{
    vstd::arithmetic::div_mod::lemma_mul_mod_noop_left(a as int, y as int, usize::MAX as int + 1);
}

/// Multiplies `acc` by the size of every proper subtree of `t`, in `usize`
/// arithmetic, which wraps around.
fn strict_product(t: &Tree, acc: usize) -> (r: usize)
    requires
        size(t@) <= usize::MAX,
    ensures
        r == (acc as nat * hook_product(t@)) % (usize::MAX as nat + 1),
    decreases t,
{
    let n = t.children.len();
    let mut acc = acc;
    let ghost a0 = acc as nat;
    let mut i: usize = 0;
    proof {
        assert(t@.children.take(0) =~= Seq::<Shape>::empty());
        assert(forest_hook_product(t@.children.take(0)) == 1);
        assert(a0 * 1 == a0);
        vstd::arithmetic::div_mod::lemma_small_mod(acc as nat, usize::MAX as nat + 1);
    }
    while i < n
        invariant
            n == t@.children.len(),
            0 <= i <= n,
            size(t@) <= usize::MAX,
            acc == (a0 * forest_hook_product(t@.children.take(i as int))) % (usize::MAX as nat + 1),
        decreases n - i,
    {
        let c = &t.children[i];
        assert(t@.children[i as int] == c@);
        proof {
            crate::tree::lemma_forest_split(t@.children, i as int);
            assert(size(c@) <= usize::MAX);
        }
        let k = c.node_count();
        let ghost before = acc as nat;
        let acc1 = acc.wrapping_mul(k);
        let acc2 = strict_product(c, acc1);
        proof {
            let m = usize::MAX as nat + 1;
            let p = forest_hook_product(t@.children.take(i as int));
            let kn = k as nat;
            lemma_mod_mul_step(a0 * p, before, kn);
            assert(acc1 == (a0 * p * kn) % m) by {
                assert(acc1 == (before * kn) % m);
            }
            lemma_mod_mul_step(a0 * p * kn, acc1 as nat, hook_product(c@));
            assert(t@.children.take(i + 1).drop_last() =~= t@.children.take(i as int));
            assert(t@.children.take(i + 1).last() == c@);
            assert(forest_hook_product(t@.children.take(i + 1)) == p * (size(c@) * hook_product(c@)));
            assert(a0 * p * kn * hook_product(c@) == a0 * (p * (size(c@) * hook_product(c@)))) by (nonlinear_arith)
                requires
                    kn == size(c@),
            ;
        }
        acc = acc2;
        i = i + 1;
    }
    assert(t@.children.take(n as int) =~= t@.children);
    acc
}

/// The product of the sizes of all proper subtrees of `tree`, computed in `usize`
/// arithmetic, which wraps around: the divisor of `get_hook_length`.
pub fn hook_denominator(tree: &Tree) -> (r: usize)
    requires
        size(tree@) <= usize::MAX,
    ensures
        r == hook_product(tree@) % (usize::MAX as nat + 1),
{
    let r = strict_product(tree, 1);
    assert(1 * hook_product(tree@) == hook_product(tree@));
    r
}

/// `(n - 1)! / ∏ size(x)` over the proper subtrees `x` of `tree`, where `n` is its
/// number of nodes, both computed in `usize` arithmetic, which wraps around: by the
/// hook length formula, the number of ways to reduce `tree` to a leaf, deletions
/// that give the same tree told apart, wherever `(n - 1)!` fits in a `usize`.
pub fn get_hook_length(tree: &Tree) -> (r: usize)
    requires
        size(tree@) <= usize::MAX,
        hook_product(tree@) % (usize::MAX as nat + 1) != 0,
    ensures
        r == (fact(edges(tree@)) % (usize::MAX as nat + 1)) / (hook_product(tree@) % (usize::MAX as nat + 1)),
        fact(edges(tree@)) <= usize::MAX ==> r == nb_red(tree@, true),
{
    proof {
        lemma_edges_size(tree@);
        lemma_tree_bounded(tree);
        lemma_hook_length(tree@);
        let f = fact(edges(tree@));
        let h = hook_product(tree@);
        let nb = nb_red(tree@, true);
        if f <= usize::MAX {
            lemma_fact_pos(edges(tree@));
            assert(h <= f && h >= 1) by (nonlinear_arith)
                requires
                    nb * h == f,
                    f >= 1,
            ;
            vstd::arithmetic::div_mod::lemma_small_mod(f, usize::MAX as nat + 1);
            vstd::arithmetic::div_mod::lemma_small_mod(h, usize::MAX as nat + 1);
            vstd::arithmetic::div_mod::lemma_div_by_multiple(nb as int, h as int);
            assert(f / h == nb);
        }
    }
    let n = tree.edge_count();
    let mut fact_n: usize = 1;
    let mut k: usize = 0;
    proof {
        vstd::arithmetic::div_mod::lemma_small_mod(1, usize::MAX as nat + 1);
    }
    while k < n
        invariant
            0 <= k <= n,
            fact_n == fact(k as nat) % (usize::MAX as nat + 1),
        decreases n - k,
    {
        k = k + 1;
        proof {
            lemma_mod_mul_step(fact((k - 1) as nat), fact_n as nat, k as nat);
            assert(fact(k as nat) == k * fact((k - 1) as nat));
            assert(fact((k - 1) as nat) * k == k * fact((k - 1) as nat)) by (nonlinear_arith);
        }
        fact_n = fact_n.wrapping_mul(k);
    }
    let deno = hook_denominator(tree);
    fact_n / deno
}

} // verus!
