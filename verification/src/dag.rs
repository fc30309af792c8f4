use std::collections::HashMap;

use vstd::prelude::*;
use vstd::std_specs::iter::IteratorSpec;

use crate::enumerate::{lemma_reaches_refl, lemma_reaches_step, reaches_red};
use crate::reduction::immediate_reductions;
use crate::tree::{Shape, Tree, bounded, lemma_reductions_size, lemma_tree_bounded, reductions, size};
use crate::counting::{
    count_of, is_multiplicity_list, lemma_count_append, lemma_count_contains, multiplicities, unique_ids,
};

verus! {

broadcast use vstd::std_specs::hash::group_hash_axioms;

/// Index of a vertex in a `MultiDag`.
pub type NodeId = usize;

/// A labelled vertex.
#[derive(Clone, Debug)]
pub struct DagNode<T> {
    pub id: NodeId,
    pub label: T,
}

/// A directed graph with multi-edges, whose vertices are numbered from 0.
///
/// `edges[p]` lists the children of `p`, once per edge (with multiplicity);
/// `rev_edges[c]` lists the parents of `c` the same way.
#[derive(Debug)]
pub struct MultiDag<T = crate::tree::Tree> {
    pub nodes: Vec<DagNode<T>>,
    pub edges: HashMap<NodeId, Vec<NodeId>>,
    pub rev_edges: HashMap<NodeId, Vec<NodeId>>,
    pub root: NodeId,
}

/// One step of a sum kept modulo `usize::MAX + 1`.
proof fn lemma_wrapping_step(a: nat, t: int, l: int)
    requires
        t == a % (usize::MAX as nat + 1),
        0 <= l <= usize::MAX,
    ensures
        (if t + l > usize::MAX {
            t + l - (usize::MAX + 1)
        } else {
            t + l
        }) == (a + l) % (usize::MAX as int + 1),
{
    let m: int = usize::MAX as int + 1;
    vstd::arithmetic::div_mod::lemma_add_mod_noop(a as int, l, m);
    vstd::arithmetic::div_mod::lemma_small_mod(l as nat, m as nat);
    vstd::arithmetic::div_mod::lemma_mod_bound(a as int, m);
    if t + l > usize::MAX {
        vstd::arithmetic::div_mod::lemma_mod_sub_multiples_vanish(t + l, m);
        vstd::arithmetic::div_mod::lemma_small_mod((t + l - m) as nat, m as nat);
        assert(-m + (t + l) == t + l - m);
    } else {
        vstd::arithmetic::div_mod::lemma_small_mod((t + l) as nat, m as nat);
    }
}

/// `f(ks[0]) + f(ks[1]) + ...`.
pub open spec fn sum_over(f: spec_fn(usize) -> nat, ks: Seq<usize>) -> nat
    decreases ks.len(),
{
    if ks.len() == 0 {
        0
    } else {
        sum_over(f, ks.drop_last()) + f(ks.last())
    }
}

proof fn lemma_sum_over_remove(f: spec_fn(usize) -> nat, ks: Seq<usize>, i: int)
    requires
        0 <= i < ks.len(),
    ensures
        sum_over(f, ks) == sum_over(f, ks.remove(i)) + f(ks[i]),
    decreases ks.len(),
{
    if i == ks.len() - 1 {
        assert(ks.remove(i) =~= ks.drop_last());
    } else {
        lemma_sum_over_remove(f, ks.drop_last(), i);
        assert(ks.remove(i).drop_last() =~= ks.drop_last().remove(i));
        assert(ks.remove(i).last() == ks.last());
    }
}

/// A sum over distinct keys does not depend on the order in which they are listed.
pub proof fn lemma_sum_over_order(f: spec_fn(usize) -> nat, a: Seq<usize>, b: Seq<usize>)
    requires
        a.no_duplicates(),
        b.no_duplicates(),
        a.to_set() == b.to_set(),
    ensures
        sum_over(f, a) == sum_over(f, b),
    decreases a.len(),
{
    if a.len() == 0 {
        a.unique_seq_to_set();
        b.unique_seq_to_set();
        assert(a.to_set() =~= Set::<usize>::empty());
    } else {
        let x = a.last();
        assert(a.to_set().contains(x));
        assert(b.to_set().contains(x));
        let i = choose|i: int| 0 <= i < b.len() && b[i] == x;
        let a0 = a.drop_last();
        let b0 = b.remove(i);
        assert(a0.no_duplicates());
        assert(b0.no_duplicates()) by {
            assert forall|p: int, q: int| 0 <= p < b0.len() && 0 <= q < b0.len() && p != q implies b0[p] != b0[q] by {
                let pp = if p < i { p } else { p + 1 };
                let qq = if q < i { q } else { q + 1 };
                assert(b0[p] == b[pp] && b0[q] == b[qq]);
            }
        }
        assert forall|y: usize| a0.to_set().contains(y) <==> b0.to_set().contains(y) by {
            if a0.to_set().contains(y) {
                let p = choose|p: int| 0 <= p < a0.len() && a0[p] == y;
                assert(a[p] == y && p != a.len() - 1);
                assert(y != x);
                assert(a.to_set().contains(y));
                let q = choose|q: int| 0 <= q < b.len() && b[q] == y;
                assert(q != i);
                let qq = if q < i { q } else { q - 1 };
                assert(b0[qq] == y);
            }
            if b0.to_set().contains(y) {
                let q = choose|q: int| 0 <= q < b0.len() && b0[q] == y;
                let qq = if q < i { q } else { q + 1 };
                assert(b[qq] == y && qq != i);
                assert(y != x);
                assert(b.to_set().contains(y));
                let p = choose|p: int| 0 <= p < a.len() && a[p] == y;
                assert(p != a.len() - 1);
                assert(a0[p] == y);
            }
        }
        assert(a0.to_set() =~= b0.to_set());
        lemma_sum_over_order(f, a0, b0);
        lemma_sum_over_remove(f, b, i);
    }
}

/// The keys `0, 1, ..., n - 1`.
pub open spec fn key_range(n: nat) -> Seq<usize> {
    Seq::new(n, |i: int| i as usize)
}

/// Adding `b` to a sum kept modulo `usize::MAX + 1`, in `usize` arithmetic
/// that wraps around.
pub proof fn lemma_mod_sum_step(a: nat, b: nat, t: int, v: int)
    requires
        t == a % (usize::MAX as nat + 1),
        v == b % (usize::MAX as nat + 1),
    ensures
        (if t + v > usize::MAX {
            t + v - (usize::MAX + 1)
        } else {
            t + v
        }) == (a + b) % (usize::MAX as nat + 1),
{
    let m: int = usize::MAX as int + 1;
    vstd::arithmetic::div_mod::lemma_mod_bound(b as int, m);
    lemma_wrapping_step(a, t, v);
    vstd::arithmetic::div_mod::lemma_add_mod_noop_right(a as int, b as int, m);
}

/// `k` copies of `x`.
pub open spec fn repeat(x: usize, k: nat) -> Seq<usize> {
    Seq::new(k, |_i: int| x)
}

pub proof fn lemma_count_repeat(x: usize, k: nat, y: usize)
    ensures
        count_of(repeat(x, k), y) == if x == y {
            k
        } else {
            0nat
        },
    decreases k,
{
    if k > 0 {
        assert(repeat(x, k).drop_last() =~= repeat(x, (k - 1) as nat));
        lemma_count_repeat(x, (k - 1) as nat, y);
    }
}

impl<T> DagNode<T> {
    pub fn new(id: NodeId, label: T) -> (r: Self)
        ensures
            r.id == id,
            r.label == label,
    {
        DagNode { id, label }
    }
}

impl<T> MultiDag<T> {
    /// Number of vertices, as a mathematical integer.
    pub open spec fn len(&self) -> nat {
        self.nodes@.len()
    }

    /// The children of `k`, with multiplicity.
    pub open spec fn out(&self, k: usize) -> Seq<usize> {
        self.edges@[k]@
    }

    /// The parents of `k`, with multiplicity.
    pub open spec fn inc(&self, k: usize) -> Seq<usize> {
        self.rev_edges@[k]@
    }

    /// Vertex `i` carries the number `i`, both edge maps have an entry for
    /// each vertex and only those, every listed vertex exists, and `c` is a
    /// child of `p` exactly when `p` is a parent of `c`.
    pub open spec fn wf(&self) -> bool {
        &&& forall|i: int| 0 <= i < self.len() ==> #[trigger] self.nodes@[i].id == i
        &&& forall|k: usize| #[trigger] self.edges@.contains_key(k) <==> k < self.len()
        &&& forall|k: usize| #[trigger] self.rev_edges@.contains_key(k) <==> k < self.len()
        &&& forall|k: usize, j: int|
            k < self.len() && 0 <= j < self.out(k).len() ==> #[trigger] self.out(k)[j] < self.len()
        &&& forall|k: usize, j: int|
            k < self.len() && 0 <= j < self.inc(k).len() ==> #[trigger] self.inc(k)[j] < self.len()
        &&& forall|p: usize, c: usize|
            #![trigger self.out(p).contains(c)]
            #![trigger self.inc(c).contains(p)]
            p < self.len() && c < self.len() ==> (self.out(p).contains(c) <==> self.inc(c).contains(p))
    }

    /// Every edge is listed as often among the parents of its target as among the
    /// children of its source.
    pub open spec fn balanced(&self) -> bool {
        forall|p: usize, c: usize|
            #![trigger count_of(self.out(p), c)]
            #![trigger count_of(self.inc(c), p)]
            p < self.len() && c < self.len() ==> count_of(self.out(p), c) == count_of(self.inc(c), p)
    }

    /// Every edge leads from a vertex to a higher-numbered one.
    pub open spec fn ranked(&self) -> bool {
        forall|p: usize, j: int| p < self.len() && 0 <= j < self.out(p).len() ==> #[trigger] self.out(p)[j] > p
    }

    fn get_new_id(&self) -> (r: NodeId)
        ensures
            r == self.len(),
    {
        self.nodes.len()
    }

    /// Number of vertices.
    pub fn node_count(&self) -> (r: usize)
        ensures
            r == self.len(),
    {
        self.nodes.len()
    }

    /// A height estimate: always 4.
    pub fn height(&self) -> (r: usize)
        ensures
            r == 4,
    {
        4
    }

    /// Appends `x` to the list of `k` in `m`.
    fn push_to(m: &mut HashMap<NodeId, Vec<NodeId>>, k: NodeId, x: NodeId)
        requires
            old(m)@.contains_key(k),
        ensures
            final(m)@ == old(m)@.insert(k, final(m)@[k]),
            final(m)@[k]@ == old(m)@[k]@.push(x),
    {
        let mut v = m.remove(&k).unwrap();
        v.push(x);
        m.insert(k, v);
    }

    /// Adds a vertex labelled `label`, with edges from each of `parents` and to each
    /// of `childs` (once per listing), and returns its number.
    pub fn add_node(&mut self, label: T, parents: Vec<NodeId>, childs: Vec<NodeId>) -> (r: NodeId)
        requires
            old(self).wf(),
            forall|i: int| 0 <= i < parents@.len() ==> #[trigger] parents@[i] < old(self).len(),
            forall|i: int| 0 <= i < childs@.len() ==> #[trigger] childs@[i] <= old(self).len(),
        ensures
            r == old(self).len(),
            final(self).nodes@ == old(self).nodes@.push(DagNode { id: r, label }),
            final(self).root == old(self).root,
            forall|k: usize| k < r ==> #[trigger] final(self).out(k) == old(self).out(k) + repeat(r, count_of(parents@, k)),
            final(self).out(r) == childs@,
            forall|k: usize| k < r ==> #[trigger] final(self).inc(k) == old(self).inc(k) + repeat(r, count_of(childs@, k)),
            final(self).inc(r) == parents@ + repeat(r, count_of(childs@, r)),
            final(self).wf(),
            old(self).balanced() ==> final(self).balanced(),
    {
        let id = self.get_new_id();
        let ghost o = *self;
        self.nodes.push(DagNode::new(id, label));
        let np = parents.len();
        let mut i: usize = 0;
        while i < np
            invariant
                np == parents@.len(),
                0 <= i <= np,
                id == o.len(),
                self.nodes@ == o.nodes@.push(DagNode { id, label }),
                self.rev_edges == o.rev_edges,
                self.root == o.root,
                forall|j: int| 0 <= j < parents@.len() ==> #[trigger] parents@[j] < o.len(),
                forall|k: usize| #[trigger] self.edges@.contains_key(k) <==> k < o.len(),
                forall|k: usize| k < id ==> #[trigger] self.out(k) == o.out(k) + repeat(id, count_of(parents@.take(i as int), k)),
            decreases np - i,
        {
            let x = parents[i];
            let ghost s0 = *self;
            let ghost e0 = self.edges@;
            Self::push_to(&mut self.edges, x, id);
            proof {
                assert(parents@.take(i + 1).drop_last() =~= parents@.take(i as int));
                assert(parents@.take(i + 1).last() == x);
                assert forall|k: usize| k < id implies #[trigger] self.out(k) == o.out(k) + repeat(id, count_of(parents@.take(i + 1), k)) by {
                    let c0 = count_of(parents@.take(i as int), k);
                    assert(s0.out(k) == o.out(k) + repeat(id, c0));
                    assert(e0[k]@ == s0.out(k));
                    if k == x {
                        assert(count_of(parents@.take(i + 1), k) == c0 + 1);
                        assert(repeat(id, c0 + 1) =~= repeat(id, c0).push(id));
                        assert(o.out(k) + repeat(id, c0 + 1) =~= (o.out(k) + repeat(id, c0)).push(id));
                    } else {
                        assert(count_of(parents@.take(i + 1), k) == c0);
                        assert(self.edges@[k] == e0[k]);
                    }
                }
            }
            i = i + 1;
        }
        assert(parents@.take(np as int) =~= parents@);
        let ghost parents_v = parents@;
        let ghost e1 = self.edges@;
        assert forall|k: usize| k < id implies #[trigger] e1[k]@ == o.out(k) + repeat(id, count_of(parents_v, k)) by {
            assert(self.out(k) == o.out(k) + repeat(id, count_of(parents@.take(np as int), k)));
        }
        self.rev_edges.insert(id, parents);
        let nc = childs.len();
        let mut i: usize = 0;
        assert(childs@.take(0) =~= Seq::<usize>::empty());
        assert(self.inc(id) =~= parents_v + repeat(id, count_of(childs@.take(0), id)));
        while i < nc
            invariant
                nc == childs@.len(),
                0 <= i <= nc,
                id == o.len(),
                self.nodes@ == o.nodes@.push(DagNode { id, label }),
                self.root == o.root,
                forall|j: int| 0 <= j < childs@.len() ==> #[trigger] childs@[j] <= o.len(),
                forall|k: usize| #[trigger] self.rev_edges@.contains_key(k) <==> k <= o.len(),
                forall|k: usize| k < id ==> #[trigger] self.inc(k) == o.inc(k) + repeat(id, count_of(childs@.take(i as int), k)),
                self.inc(id) == parents_v + repeat(id, count_of(childs@.take(i as int), id)),
                self.edges@ == e1,
            decreases nc - i,
        {
            let x = childs[i];
            let ghost s0 = *self;
            let ghost r0 = self.rev_edges@;
            Self::push_to(&mut self.rev_edges, x, id);
            proof {
                assert(childs@.take(i + 1).drop_last() =~= childs@.take(i as int));
                assert(childs@.take(i + 1).last() == x);
                assert forall|k: usize| k <= id implies #[trigger] self.inc(k) == (if k < id { o.inc(k) } else { parents_v })
                    + repeat(id, count_of(childs@.take(i + 1), k)) by {
                    let c0 = count_of(childs@.take(i as int), k);
                    let base = if k < id { o.inc(k) } else { parents_v };
                    if k < id {
                        assert(s0.inc(k) == o.inc(k) + repeat(id, c0));
                    } else {
                        assert(s0.inc(id) == parents_v + repeat(id, c0));
                    }
                    assert(r0[k]@ == s0.inc(k));
                    if k == x {
                        assert(count_of(childs@.take(i + 1), k) == c0 + 1);
                        assert(repeat(id, c0 + 1) =~= repeat(id, c0).push(id));
                        assert(base + repeat(id, c0 + 1) =~= (base + repeat(id, c0)).push(id));
                    } else {
                        assert(count_of(childs@.take(i + 1), k) == c0);
                        assert(self.rev_edges@[k] == r0[k]);
                    }
                }
            }
            i = i + 1;
        }
        assert(childs@.take(nc as int) =~= childs@);
        let ghost childs_v = childs@;
        let ghost edges_before = self.edges@;
        let ghost s_before = *self;
        self.edges.insert(id, childs);
        assert forall|k: usize| k < id implies #[trigger] self.inc(k) == o.inc(k) + repeat(id, count_of(childs_v, k)) by {
            assert(s_before.inc(k) == o.inc(k) + repeat(id, count_of(childs@.take(nc as int), k)));
        }
        assert(self.inc(id) == parents_v + repeat(id, count_of(childs_v, id))) by {
            assert(s_before.inc(id) == parents_v + repeat(id, count_of(childs@.take(nc as int), id)));
        }
        assert(self.out(id) == childs_v);
        assert forall|k: usize| k < id implies #[trigger] self.out(k) == o.out(k) + repeat(id, count_of(parents_v, k)) by {
            assert(self.edges@[k] == edges_before[k]);
            assert(edges_before[k] == e1[k]);
        }
        proof {
            self.lemma_add_node_wf(o, id, parents_v);
        }
        id
    }

    proof fn lemma_add_node_wf(&self, o: Self, id: usize, parents: Seq<usize>)
        requires
            o.wf(),
            id == o.len(),
            self.len() == o.len() + 1,
            forall|i: int| 0 <= i < o.len() ==> #[trigger] self.nodes@[i] == o.nodes@[i],
            self.nodes@[id as int].id == id,
            forall|i: int| 0 <= i < parents.len() ==> #[trigger] parents[i] < o.len(),
            forall|j: int| 0 <= j < self.out(id).len() ==> #[trigger] self.out(id)[j] <= o.len(),
            forall|k: usize| #[trigger] self.edges@.contains_key(k) <==> k <= o.len(),
            forall|k: usize| #[trigger] self.rev_edges@.contains_key(k) <==> k <= o.len(),
            forall|k: usize| k < id ==> #[trigger] self.out(k) == o.out(k) + repeat(id, count_of(parents, k)),
            forall|k: usize| k < id ==> #[trigger] self.inc(k) == o.inc(k) + repeat(id, count_of(self.out(id), k)),
            self.inc(id) == parents + repeat(id, count_of(self.out(id), id)),
        ensures
            self.wf(),
            o.balanced() ==> self.balanced(),
    {
        let ch = self.out(id);
        assert forall|i: int| 0 <= i < self.len() implies #[trigger] self.nodes@[i].id == i by {
            if i < o.len() {
                assert(self.nodes@[i] == o.nodes@[i]);
            }
        }
        assert forall|k: usize, j: int| k < self.len() && 0 <= j < self.out(k).len() implies #[trigger] self.out(k)[j]
            < self.len() by {
            if k < id {
                if j >= o.out(k).len() {
                    assert(self.out(k)[j] == id);
                }
            }
        }
        assert forall|k: usize, j: int| k < self.len() && 0 <= j < self.inc(k).len() implies #[trigger] self.inc(k)[j]
            < self.len() by {
            if k < id {
                if j >= o.inc(k).len() {
                    assert(self.inc(k)[j] == id);
                }
            } else {
                if j < parents.len() {
                    assert(self.inc(k)[j] == parents[j]);
                } else {
                    assert(self.inc(k)[j] == id);
                }
            }
        }
        // multiplicities: relate counts on both sides
        assert forall|p: usize, c: usize| p < self.len() && c < self.len() implies (#[trigger] count_of(self.out(p), c)
            == count_of(self.inc(c), p) || !o.balanced()) && (count_of(self.out(p), c) > 0 <==> count_of(self.inc(c), p)
            > 0) by {
            if p < id {
                lemma_count_append(o.out(p), repeat(id, count_of(parents, p)), c);
                lemma_count_repeat(id, count_of(parents, p), c);
                if c < id {
                    lemma_count_append(o.inc(c), repeat(id, count_of(ch, c)), p);
                    lemma_count_repeat(id, count_of(ch, c), p);
                    lemma_count_contains(o.out(p), c);
                    lemma_count_contains(o.inc(c), p);
                } else {
                    lemma_count_append(parents, repeat(id, count_of(ch, id)), p);
                    lemma_count_repeat(id, count_of(ch, id), p);
                    lemma_count_bounded_seq(o.out(p), id);
                }
            } else {
                if c < id {
                    lemma_count_append(o.inc(c), repeat(id, count_of(ch, c)), p);
                    lemma_count_repeat(id, count_of(ch, c), p);
                    lemma_count_bounded_seq(o.inc(c), id);
                } else {
                    lemma_count_append(parents, repeat(id, count_of(ch, id)), p);
                    lemma_count_repeat(id, count_of(ch, id), p);
                    lemma_count_bounded_seq(parents, id);
                }
            }
        }
        assert forall|p: usize, c: usize| p < self.len() && c < self.len() implies (#[trigger] self.out(p).contains(c)
            <==> self.inc(c).contains(p)) by {
            lemma_count_contains(self.out(p), c);
            lemma_count_contains(self.inc(c), p);
            assert(count_of(self.out(p), c) > 0 <==> count_of(self.inc(c), p) > 0);
        }
    }
}

impl<T> MultiDag<T> {
    /// Adds one edge from `parent` to `child`.
    pub fn add_edge(&mut self, parent: NodeId, child: NodeId)
        requires
            old(self).wf(),
            parent < old(self).len(),
            child < old(self).len(),
        ensures
            final(self).nodes == old(self).nodes,
            final(self).root == old(self).root,
            final(self).edges@ == old(self).edges@.insert(parent, final(self).edges@[parent]),
            final(self).out(parent) == old(self).out(parent).push(child),
            final(self).rev_edges@ == old(self).rev_edges@.insert(child, final(self).rev_edges@[child]),
            final(self).inc(child) == old(self).inc(child).push(parent),
            final(self).wf(),
            old(self).balanced() ==> final(self).balanced(),
    {
        let ghost o = *self;
        Self::push_to(&mut self.edges, parent, child);
        Self::push_to(&mut self.rev_edges, child, parent);
        proof {
            assert forall|k: usize, j: int| k < self.len() && 0 <= j < self.out(k).len() implies #[trigger] self.out(
                k,
            )[j] < self.len() by {
                if k == parent && j == o.out(k).len() {
                } else if k == parent {
                    assert(self.out(k)[j] == o.out(k)[j]);
                    assert(o.out(k)[j] < o.len());
                } else {
                    assert(self.edges@[k] == o.edges@[k]);
                    assert(o.out(k)[j] < o.len());
                }
            }
            assert forall|k: usize, j: int| k < self.len() && 0 <= j < self.inc(k).len() implies #[trigger] self.inc(
                k,
            )[j] < self.len() by {
                if k == child && j == o.inc(k).len() {
                } else if k == child {
                    assert(self.inc(k)[j] == o.inc(k)[j]);
                    assert(o.inc(k)[j] < o.len());
                } else {
                    assert(self.rev_edges@[k] == o.rev_edges@[k]);
                    assert(o.inc(k)[j] < o.len());
                }
            }
            assert forall|p: usize, c: usize| p < self.len() && c < self.len() implies (#[trigger] count_of(
                self.out(p),
                c,
            ) == count_of(o.out(p), c) + if p == parent && c == child {
                1nat
            } else {
                0nat
            }) && count_of(self.inc(c), p) == count_of(o.inc(c), p) + if p == parent && c == child {
                1nat
            } else {
                0nat
            } by {
                if p == parent {
                    assert(self.out(p).drop_last() =~= o.out(p));
                } else {
                    assert(self.edges@[p] == o.edges@[p]);
                }
                if c == child {
                    assert(self.inc(c).drop_last() =~= o.inc(c));
                } else {
                    assert(self.rev_edges@[c] == o.rev_edges@[c]);
                }
            }
            assert forall|p: usize, c: usize| p < self.len() && c < self.len() implies (#[trigger] self.out(p).contains(c)
                <==> self.inc(c).contains(p)) by {
                lemma_count_contains(self.out(p), c);
                lemma_count_contains(self.inc(c), p);
                lemma_count_contains(o.out(p), c);
                lemma_count_contains(o.inc(c), p);
                assert(o.out(p).contains(c) <==> o.inc(c).contains(p));
            }
        }
    }

    /// The children of `from`, each once, in increasing order, with the number of
    /// edges to it.
    pub fn children(&self, from: NodeId) -> (r: Vec<(NodeId, usize)>)
        requires
            self.wf(),
            from < self.len(),
        ensures
            is_multiplicity_list(r@, self.out(from)),
    {
        let v = self.edges.get(&from).unwrap();
        multiplicities(v)
    }

    /// The parents of `from`, each once, in increasing order, with the number of
    /// edges from it.
    pub fn parents(&self, from: NodeId) -> (r: Vec<(NodeId, usize)>)
        requires
            self.wf(),
            from < self.len(),
        ensures
            is_multiplicity_list(r@, self.inc(from)),
    {
        let v = self.rev_edges.get(&from).unwrap();
        multiplicities(v)
    }

    /// Number of vertices without children among those below `m`.
    pub open spec fn finals_below(&self, m: nat) -> nat
        decreases m,
    {
        if m == 0 {
            0
        } else {
            self.finals_below((m - 1) as nat) + if self.out((m - 1) as usize).len() == 0 {
                1nat
            } else {
                0nat
            }
        }
    }

    /// Total number of edges (with multiplicity) out of the vertices below `m`.
    pub open spec fn edges_below(&self, m: nat) -> nat
        decreases m,
    {
        if m == 0 {
            0
        } else {
            self.edges_below((m - 1) as nat) + self.out((m - 1) as usize).len()
        }
    }

    /// Total number of distinct edges out of the vertices below `m`.
    pub open spec fn single_edges_below(&self, m: nat) -> nat
        decreases m,
    {
        if m == 0 {
            0
        } else {
            self.single_edges_below((m - 1) as nat) + self.out((m - 1) as usize).remove_duplicates(
                Seq::empty(),
            ).len()
        }
    }

    /// The number of children (with multiplicity) of each vertex.
    pub open spec fn out_len(&self) -> spec_fn(usize) -> nat {
        |k: usize| self.edges@[k]@.len()
    }

    /// The number of distinct children of each vertex.
    pub open spec fn out_distinct_len(&self) -> spec_fn(usize) -> nat {
        |k: usize| self.edges@[k]@.remove_duplicates(Seq::empty()).len()
    }

    /// `ks` lists each key of the edge map once.
    pub open spec fn lists_keys(&self, ks: Seq<usize>) -> bool {
        ks.no_duplicates() && ks.to_set() == self.edges@.dom()
    }

    proof fn lemma_below_is_sum(&self, m: nat)
        ensures
            self.edges_below(m) == sum_over(self.out_len(), key_range(m)),
            self.single_edges_below(m) == sum_over(self.out_distinct_len(), key_range(m)),
        decreases m,
    {
        if m > 0 {
            self.lemma_below_is_sum((m - 1) as nat);
            assert(key_range(m).drop_last() =~= key_range((m - 1) as nat));
            assert(key_range(m).last() == (m - 1) as usize);
        }
    }

    /// With the vertices numbered `0..len` as keys, summing over any listing of the
    /// keys gives the sums over the vertices in order.
    proof fn lemma_keys_sum(&self, ks: Seq<usize>)
        requires
            self.wf(),
            self.lists_keys(ks),
            self.len() <= usize::MAX,
        ensures
            sum_over(self.out_len(), ks) == self.edges_below(self.len()),
            sum_over(self.out_distinct_len(), ks) == self.single_edges_below(self.len()),
    {
        let r = key_range(self.len());
        assert(r.no_duplicates()) by {
            assert forall|a: int, b: int| 0 <= a < r.len() && 0 <= b < r.len() && a != b implies r[a] != r[b] by {
                assert(r[a] == a && r[b] == b);
            }
        }
        assert forall|k: usize| r.to_set().contains(k) <==> ks.to_set().contains(k) by {
            if k < self.len() {
                assert(r[k as int] == k);
            }
        }
        assert(r.to_set() =~= ks.to_set());
        lemma_sum_over_order(self.out_len(), ks, r);
        lemma_sum_over_order(self.out_distinct_len(), ks, r);
        self.lemma_below_is_sum(self.len());
    }

    /// Number of edges (sum of multiplicities), counted in `usize` arithmetic,
    /// which wraps around.
    pub fn edges_count(&self) -> (r: usize)
        ensures
            exists|ks: Seq<usize>| self.lists_keys(ks) && r == sum_over(self.out_len(), ks) % (usize::MAX as nat + 1),
            self.wf() ==> r == self.edges_below(self.len()) % (usize::MAX as nat + 1),
    {
        self.count_over_keys(false)
    }

    /// Number of edges, counting multi-edges once, counted in `usize` arithmetic,
    /// which wraps around.
    pub fn edges_count_single(&self) -> (r: usize)
        ensures
            exists|ks: Seq<usize>| self.lists_keys(ks) && r == sum_over(self.out_distinct_len(), ks) % (usize::MAX as nat
                + 1),
            self.wf() ==> r == self.single_edges_below(self.len()) % (usize::MAX as nat + 1),
    {
        self.count_over_keys(true)
    }

    /// Sums the numbers of children (of distinct children with `distinct`) over the
    /// keys of the edge map, in `usize` arithmetic, which wraps around.
    fn count_over_keys(&self, distinct: bool) -> (r: usize)
        ensures
            exists|ks: Seq<usize>| self.lists_keys(ks) && r == sum_over(
                if distinct {
                    self.out_distinct_len()
                } else {
                    self.out_len()
                },
                ks,
            ) % (usize::MAX as nat + 1),
            self.wf() ==> r == (if distinct {
                self.single_edges_below(self.len())
            } else {
                self.edges_below(self.len())
            }) % (usize::MAX as nat + 1),
    {
        let _n: usize = self.nodes.len();
        let ghost f = if distinct {
            self.out_distinct_len()
        } else {
            self.out_len()
        };
        let mut total: usize = 0;
        proof {
            vstd::arithmetic::div_mod::lemma_small_mod(0, usize::MAX as nat + 1);
        }
        let ghost mut ks: Seq<usize> = Seq::empty();
        let keys = self.edges.keys();
        let ghost all = IteratorSpec::remaining(&keys);
        proof {
            assert(all.unref().to_set() == self.edges@.dom());
            assert(all.no_duplicates());
        }
        for k in it: keys
            invariant
                it.seq() == all,
                all.unref().to_set() == self.edges@.dom(),
                all.no_duplicates(),
                ks == all.take(it.index()).map_values(|x: &usize| *x),
                total == sum_over(f, ks) % (usize::MAX as nat + 1),
                f == (if distinct {
                    self.out_distinct_len()
                } else {
                    self.out_len()
                }),
        {
            proof {
                assert(self.edges@.contains_key(*k));
            }
            let v = self.edges.get(k).unwrap();
            let l: usize = if distinct {
                unique_ids(v).len()
            } else {
                v.len()
            };
            proof {
                assert(l == f(*k));
                lemma_wrapping_step(sum_over(f, ks), total as int, l as int);
                let ks2 = ks.push(*k);
                assert(ks2.drop_last() =~= ks);
                ks = ks2;
            }
            total = total.wrapping_add(l);
        }
        proof {
            assert(ks =~= all.unref());
            assert(ks.no_duplicates()) by {
                assert forall|a: int, b: int| 0 <= a < ks.len() && 0 <= b < ks.len() && a != b implies ks[a] != ks[b] by {
                    assert(all[a] != all[b]);
                }
            }
            assert(self.lists_keys(ks));
            if self.wf() {
                self.lemma_keys_sum(ks);
            }
        }
        total
    }

    /// Replaces each list of children by its distinct elements (first occurrences, in order).
    pub fn remove_multiedges(&mut self)
        ensures
            final(self).nodes == old(self).nodes,
            final(self).rev_edges == old(self).rev_edges,
            final(self).root == old(self).root,
            final(self).edges@.dom() == old(self).edges@.dom(),
            forall|k: usize| #[trigger] old(self).edges@.contains_key(k) ==> final(self).edges@[k]@
                == old(self).edges@[k]@.remove_duplicates(Seq::empty()),
            old(self).wf() ==> final(self).wf(),
    {
        let ghost o = *self;
        let mut ks: Vec<usize> = Vec::new();
        let keys = self.edges.keys();
        let ghost all = IteratorSpec::remaining(&keys);
        proof {
            assert(all.unref().to_set() == self.edges@.dom());
            assert(all.no_duplicates());
        }
        for k in it: keys
            invariant
                it.seq() == all,
                all.unref().to_set() == o.edges@.dom(),
                all.no_duplicates(),
                ks@ == all.take(it.index()).map_values(|x: &usize| *x),
        {
            ks.push(*k);
            proof {
                assert(ks@ =~= all.take(it.index() + 1).map_values(|x: &usize| *x));
            }
        }
        proof {
            assert(ks@ =~= all.unref());
            assert(ks@.no_duplicates()) by {
                assert forall|a: int, b: int| 0 <= a < ks@.len() && 0 <= b < ks@.len() && a != b implies ks@[a] != ks@[b] by {
                    assert(all[a] != all[b]);
                }
            }
            assert forall|x: usize| ks@.contains(x) <==> o.edges@.contains_key(x) by {
                assert(ks@.to_set().contains(x) == ks@.contains(x));
            }
        }
        let n = ks.len();
        let mut i: usize = 0;
        while i < n
            invariant
                n == ks@.len(),
                0 <= i <= n,
                ks@.no_duplicates(),
                forall|x: usize| ks@.contains(x) <==> o.edges@.contains_key(x),
                self.nodes == o.nodes,
                self.rev_edges == o.rev_edges,
                self.root == o.root,
                self.edges@.dom() == o.edges@.dom(),
                forall|a: int| 0 <= a < i ==> #[trigger] self.edges@[ks@[a]]@ == o.edges@[ks@[a]]@.remove_duplicates(
                    Seq::empty(),
                ),
                forall|a: int| i <= a < n ==> #[trigger] self.edges@[ks@[a]]@ == o.edges@[ks@[a]]@,
            decreases n - i,
        {
            let k = ks[i];
            assert(ks@.contains(k));
            let ghost s0 = *self;
            let v = self.edges.remove(&k).unwrap();
            let u = unique_ids(&v);
            self.edges.insert(k, u);
            proof {
                assert(self.edges@.dom() =~= o.edges@.dom());
                assert forall|a: int| 0 <= a < i + 1 implies #[trigger] self.edges@[ks@[a]]@ == o.edges@[ks@[a]]@.remove_duplicates(
                    Seq::empty(),
                ) by {
                    if a < i {
                        assert(ks@[a] != k);
                        assert(self.edges@[ks@[a]] == s0.edges@[ks@[a]]);
                    }
                }
                assert forall|a: int| i + 1 <= a < n implies #[trigger] self.edges@[ks@[a]]@ == o.edges@[ks@[a]]@ by {
                    assert(ks@[a] != k);
                    assert(self.edges@[ks@[a]] == s0.edges@[ks@[a]]);
                }
            }
            i = i + 1;
        }
        proof {
            assert forall|k: usize| #[trigger] o.edges@.contains_key(k) implies self.edges@[k]@ == o.edges@[k]@.remove_duplicates(
                Seq::empty(),
            ) by {
                assert(ks@.contains(k));
                let a = choose|a: int| 0 <= a < ks@.len() && ks@[a] == k;
            }
            if o.wf() {
                assert forall|j: usize, c: usize| j < o.len() implies #[trigger] self.out(j).contains(c) == o.out(j).contains(c) by {
                    assert(o.edges@.contains_key(j));
                    assert(self.out(j) == o.out(j).remove_duplicates(Seq::empty()));
                    o.out(j).lemma_remove_duplicates_properties(Seq::empty());
                    assert(o.out(j) + Seq::<usize>::empty() =~= o.out(j));
                }
                assert forall|k: usize| #[trigger] self.edges@.contains_key(k) <==> k < self.len() by {}
                assert forall|j: usize, i: int| j < self.len() && 0 <= i < self.out(j).len() implies #[trigger] self.out(j)[i]
                    < self.len() by {
                    assert(self.out(j).contains(self.out(j)[i]));
                    assert(o.out(j).contains(self.out(j)[i]));
                    let m = choose|m: int| 0 <= m < o.out(j).len() && o.out(j)[m] == self.out(j)[i];
                    assert(o.out(j)[m] < o.len());
                }
                assert forall|j: usize, i: int| j < self.len() && 0 <= i < self.inc(j).len() implies #[trigger] self.inc(j)[i]
                    < self.len() by {
                    assert(self.inc(j) == o.inc(j));
                    assert(o.inc(j)[i] < o.len());
                }
                assert forall|i: int| 0 <= i < self.len() implies #[trigger] self.nodes@[i].id == i by {
                    assert(o.nodes@[i].id == i);
                }
                assert forall|p: usize, c: usize| p < self.len() && c < self.len() implies (#[trigger] self.out(p).contains(c)
                    <==> self.inc(c).contains(p)) by {
                    assert(self.inc(c) == o.inc(c));
                    assert(self.out(p).contains(c) == o.out(p).contains(c));
                    assert(o.out(p).contains(c) <==> o.inc(c).contains(p));
                }
            }
        }
    }

    /// The vertices without children, in increasing order.
    pub fn get_finals(&self) -> (r: Vec<NodeId>)
        requires
            self.wf(),
        ensures
            forall|i: int, j: int| 0 <= i < j < r@.len() ==> r@[i] < r@[j],
            forall|i: int| 0 <= i < r@.len() ==> #[trigger] r@[i] < self.len() && self.out(r@[i]).len() == 0,
            forall|k: usize| k < self.len() && #[trigger] self.out(k).len() == 0 ==> r@.contains(k),
            r@.len() == self.finals_below(self.len()),
    {
        let n = self.nodes.len();
        let mut r: Vec<NodeId> = Vec::new();
        let mut k: usize = 0;
        while k < n
            invariant
                self.wf(),
                n == self.len(),
                0 <= k <= n,
                r@.len() == self.finals_below(k as nat),
                forall|i: int, j: int| 0 <= i < j < r@.len() ==> r@[i] < r@[j],
                forall|i: int| 0 <= i < r@.len() ==> #[trigger] r@[i] < k && self.out(r@[i]).len() == 0,
                forall|j: usize| j < k && #[trigger] self.out(j).len() == 0 ==> r@.contains(j),
            decreases n - k,
        {
            let id = self.nodes[k].id;
            let c = self.children(id);
            if c.len() == 0 {
                proof {
                    if self.out(k).len() > 0 {
                        lemma_count_contains(self.out(k), self.out(k)[0]);
                        assert(self.out(k).contains(self.out(k)[0]));
                    }
                }
                let ghost r0 = r@;
                r.push(id);
                assert(r@[r@.len() - 1] == k);
                assert forall|j: usize| j < k + 1 && #[trigger] self.out(j).len() == 0 implies r@.contains(j) by {
                    if j < k {
                        let a = choose|a: int| 0 <= a < r0.len() && r0[a] == j;
                        assert(r@[a] == j);
                    }
                }
            } else {
                proof {
                    assert(c@[0].1 > 0);
                    lemma_count_contains(self.out(k), c@[0].0);
                }
            }
            k = k + 1;
        }
        r
    }

    /// The vertices without children, in increasing order.
    pub fn get_final_nodes(&self) -> (r: Vec<&DagNode<T>>)
        requires
            self.wf(),
        ensures
            forall|i: int, j: int| 0 <= i < j < r@.len() ==> r@[i].id < r@[j].id,
            forall|i: int| 0 <= i < r@.len() ==> #[trigger] r@[i].id < self.len() && *r@[i] == self.nodes@[r@[i].id as int]
                && self.out(r@[i].id).len() == 0,
            forall|k: usize| k < self.len() && #[trigger] self.out(k).len() == 0 ==> exists|i: int| 0 <= i < r@.len() && r@[i].id == k,
    {
        let finals = self.get_finals();
        let mut r: Vec<&DagNode<T>> = Vec::new();
        let n = finals.len();
        let mut i: usize = 0;
        while i < n
            invariant
                self.wf(),
                n == finals@.len(),
                0 <= i <= n,
                forall|a: int, b: int| 0 <= a < b < finals@.len() ==> finals@[a] < finals@[b],
                forall|a: int| 0 <= a < finals@.len() ==> #[trigger] finals@[a] < self.len() && self.out(finals@[a]).len() == 0,
                r@.len() == i,
                forall|a: int| 0 <= a < i ==> #[trigger] r@[a] == &self.nodes@[finals@[a] as int] && r@[a].id == finals@[a],
            decreases n - i,
        {
            let node = &self.nodes[finals[i]];
            r.push(node);
            i = i + 1;
        }
        proof {
            assert forall|k: usize| k < self.len() && #[trigger] self.out(k).len() == 0 implies exists|a: int| 0 <= a < r@.len() && r@[a].id == k by {
                let a = choose|a: int| 0 <= a < finals@.len() && finals@[a] == k;
                assert(r@[a].id == k);
            }
        }
        r
    }
}

impl MultiDag<Tree> {
    /// The shape of the label of vertex `i`.
    pub open spec fn label(&self, i: int) -> Shape {
        self.nodes@[i].label@
    }

    /// Vertex `i` is a child of a lower-numbered vertex.
    pub open spec fn has_lower_parent(&self, i: usize) -> bool {
        exists|p: usize| p < i && #[trigger] self.out(p).contains(i)
    }

    /// The shapes of the children of `p`, edge by edge.
    pub open spec fn child_labels(&self, p: usize) -> Seq<Shape> {
        self.out(p).map_values(|c: usize| self.label(c as int))
    }

    /// `self` is the reduction DAG of `root`: vertex 0 is `root`, the vertices are
    /// distinct trees, the children of each vertex are, edge by edge and in order,
    /// its immediate reductions, every edge leads to a higher number, and every
    /// other vertex is a child of a lower-numbered vertex.
    pub open spec fn is_reduction_dag(&self, root: Shape) -> bool {
        &&& self.wf()
        &&& self.balanced()
        &&& self.len() >= 1
        &&& self.root == 0
        &&& self.label(0) == root
        &&& forall|i: int, j: int| 0 <= i < j < self.len() ==> self.label(i) != self.label(j)
        &&& forall|p: usize| p < self.len() ==> #[trigger] self.child_labels(p)
            == reductions(self.label(p as int))
        &&& self.ranked()
        &&& forall|i: usize| 0 < i < self.len() ==> #[trigger] self.has_lower_parent(i)
    }

    /// Each vertex of a reduction DAG of `root` is a tree that `root` reduces to.
    proof fn lemma_label_reachable(d: Self, root: Shape, i: usize)
        requires
            d.is_reduction_dag(root),
            i < d.len(),
        ensures
            reaches_red(root, d.label(i as int)),
        decreases i,
    {
        if i == 0 {
            lemma_reaches_refl(root);
        } else {
            assert(d.has_lower_parent(i));
            let p = choose|p: usize| p < i && #[trigger] d.out(p).contains(i);
            let j = choose|j: int| 0 <= j < d.out(p).len() && d.out(p)[j] == i;
            Self::lemma_label_reachable(d, root, p);
            assert(d.child_labels(p) == reductions(d.label(p as int)));
            assert(d.child_labels(p)[j] == d.label(i as int));
            lemma_reaches_step(root, d.label(p as int), d.label(i as int));
        }
    }

    /// Each tree along a reduction chain from `root` is a vertex of a reduction DAG
    /// of `root`.
    proof fn lemma_chain_labels(d: Self, root: Shape, c: Seq<Shape>, k: int)
        requires
            d.is_reduction_dag(root),
            d.len() <= usize::MAX,
            c.len() >= 1,
            c[0] == root,
            forall|i: int| 0 <= i < c.len() - 1 ==> #[trigger] reductions(c[i]).contains(c[i + 1]),
            0 <= k < c.len(),
        ensures
            exists|v: int| 0 <= v < d.len() && #[trigger] d.label(v) == c[k],
        decreases k,
    {
        if k == 0 {
            assert(d.label(0) == c[0]);
        } else {
            Self::lemma_chain_labels(d, root, c, k - 1);
            let q = choose|v: int| 0 <= v < d.len() && #[trigger] d.label(v) == c[k - 1];
            let i = k - 1;
            assert(reductions(c[i]).contains(c[i + 1]));
            assert(i + 1 == k);
            assert(d.child_labels(q as usize) == reductions(d.label(q)));
            let rs = reductions(c[k - 1]);
            let j = choose|j: int| 0 <= j < rs.len() && #[trigger] rs[j] == c[k];
            let v = d.out(q as usize)[j];
            assert(d.child_labels(q as usize)[j] == d.label(v as int));
            assert(v < d.len());
        }
    }

    /// The vertices of a reduction DAG of `root` are exactly the trees that `root`
    /// reduces to by repeated leaf deletions, `root` itself included.
    pub proof fn lemma_built_labels_reachable(d: Self, root: Shape)
        requires
            d.is_reduction_dag(root),
            d.len() <= usize::MAX,
        ensures
            forall|i: int| 0 <= i < d.len() ==> reaches_red(root, #[trigger] d.label(i)),
            forall|s: Shape| reaches_red(root, s) ==> exists|i: int| 0 <= i < d.len() && #[trigger] d.label(i) == s,
    {
        assert forall|i: int| 0 <= i < d.len() implies reaches_red(root, #[trigger] d.label(i)) by {
            Self::lemma_label_reachable(d, root, i as usize);
        }
        assert forall|s: Shape| reaches_red(root, s) implies exists|i: int| 0 <= i < d.len() && #[trigger] d.label(i)
            == s by {
            let c = choose|c: Seq<Shape>|
                #![trigger c.len(), c[0], c.last()]
                c.len() >= 1 && c[0] == root && c.last() == s && forall|i: int|
                    0 <= i < c.len() - 1 ==> #[trigger] reductions(c[i]).contains(c[i + 1]);
            Self::lemma_chain_labels(d, root, c, c.len() - 1);
        }
    }

    /// `self` is the reduction DAG of `root`, numbered as `from_tree` numbers it.
    pub open spec fn is_built_from(&self, root: Shape) -> bool {
        self.is_reduction_dag(root) && self.discovery_ordered()
    }

    /// Some edge into `v` comes before position `k` of the children of `q` (an
    /// earlier parent, or an earlier position of the same one).
    pub open spec fn reached_before(&self, v: usize, q: usize, k: int) -> bool {
        exists|q0: usize, k0: int|
            #![trigger self.out(q0)[k0]]
            q0 < self.len() && 0 <= k0 < self.out(q0).len() && self.out(q0)[k0] == v && (q0 < q || (q0 == q && k0 < k))
    }

    /// The vertices are numbered in the order in which the edges, read parent by
    /// parent and child by child, first reach them: for `0 < v < w`, every edge into
    /// `w` comes after some edge into `v`.
    pub open spec fn discovery_ordered(&self) -> bool {
        forall|v: usize, q: usize, k: int|
            #![trigger self.reached_before(v, q, k)]
            q < self.len() && 0 <= k < self.out(q).len() && 0 < v < self.out(q)[k] ==> self.reached_before(v, q, k)
    }

    /// Appending an edge `p -> c` after all the edges so far (to a new last vertex,
    /// or to a vertex already reached) keeps the numbering in order of discovery.
    proof fn lemma_discovery_step(before: Self, after: Self, p: usize, c: usize)
        requires
            before.discovery_ordered(),
            p < before.len(),
            before.len() <= after.len() <= before.len() + 1,
            forall|q: usize| q < after.len() && q != p ==> #[trigger] after.out(q) == (if q < before.len() {
                before.out(q)
            } else {
                Seq::<usize>::empty()
            }),
            after.out(p) == before.out(p).push(c),
            forall|q: usize| p < q < before.len() ==> #[trigger] before.out(q).len() == 0,
            0 < c < after.len(),
            c == before.len() || c < before.len(),
            forall|v: usize| 0 < v < before.len() ==> #[trigger] before.has_lower_parent(v),
        ensures
            after.discovery_ordered(),
    {
        let j = before.out(p).len() as int;
        assert forall|v: usize| 0 < v < before.len() implies #[trigger] before.reached_before(v, p, j) by {
            assert(before.has_lower_parent(v));
            let q0 = choose|q0: usize| q0 < v && #[trigger] before.out(q0).contains(v);
            let k0 = choose|k0: int| 0 <= k0 < before.out(q0).len() && before.out(q0)[k0] == v;
            if q0 > p {
                assert(before.out(q0).len() == 0);
            }
            assert(before.out(q0)[k0] == v);
        }
        assert forall|v: usize, q: usize, k: int|
            q < after.len() && 0 <= k < after.out(q).len() && 0 < v < after.out(q)[k] implies #[trigger] after.reached_before(
            v,
            q,
            k,
        ) by {
            let w = after.out(q)[k];
            let (q0, k0): (usize, int) = if q == p && k == j {
                if c < before.len() {
                    assert(before.reached_before(c, p, j));
                    let (q1, k1): (usize, int) = choose|q1: usize, k1: int|
                        q1 < before.len() && 0 <= k1 < before.out(q1).len() && #[trigger] before.out(q1)[k1] == c && (q1 < p
                            || (q1 == p && k1 < j));
                    assert(before.reached_before(v, q1, k1));
                    choose|q0: usize, k0: int|
                        q0 < before.len() && 0 <= k0 < before.out(q0).len() && #[trigger] before.out(q0)[k0] == v && (q0 < q1
                            || (q0 == q1 && k0 < k1))
                } else {
                    assert(v < before.len());
                    assert(before.reached_before(v, p, j));
                    choose|q0: usize, k0: int|
                        q0 < before.len() && 0 <= k0 < before.out(q0).len() && #[trigger] before.out(q0)[k0] == v && (q0 < p
                            || (q0 == p && k0 < j))
                }
            } else {
                assert(q < before.len()) by {
                    if q >= before.len() {
                        assert(after.out(q).len() == 0);
                    }
                }
                assert(before.out(q)[k] == w) by {
                    if q == p {
                        assert(after.out(p)[k] == before.out(p)[k]);
                    }
                }
                assert(before.reached_before(v, q, k));
                choose|q0: usize, k0: int|
                    q0 < before.len() && 0 <= k0 < before.out(q0).len() && #[trigger] before.out(q0)[k0] == v && (q0 < q
                        || (q0 == q && k0 < k))
            };
            assert(q0 < before.len() && 0 <= k0 < before.out(q0).len() && before.out(q0)[k0] == v);
            assert(q0 < p || (q0 == p && k0 < j) || !(q == p && k == j));
            assert(after.out(q0)[k0] == v) by {
                if q0 == p {
                    assert(after.out(p)[k0] == before.out(p)[k0]);
                } else {
                    assert(after.out(q0) == before.out(q0));
                }
            }
        }
    }

    /// Vertex numbers that `label` has in `self`, searched from `from` on.
    fn find_label(&self, from: usize, t: &Tree) -> (r: Option<NodeId>)
        requires
            from <= self.len(),
        ensures
            match r {
                Some(c) => from <= c < self.len() && self.label(c as int) == t@,
                None => forall|i: int| from <= i < self.len() ==> self.label(i) != t@,
            },
    {
        let n = self.nodes.len();
        let mut i = from;
        while i < n
            invariant
                n == self.len(),
                from <= i <= n,
                forall|k: int| from <= k < i ==> self.label(k) != t@,
            decreases n - i,
        {
            if self.nodes[i].label.same_shape(t) {
                return Some(i);
            }
            i = i + 1;
        }
        None
    }

    /// Builds the reduction DAG of `root`: one vertex per distinct tree reachable
    /// from `root` by deleting non-root leaves, with one edge per leaf deletion.
    pub fn from_tree(root: &Tree) -> (r: Self)
        ensures
            r.is_reduction_dag(root@),
            r.discovery_ordered(),
    {
        let mut dag: MultiDag<Tree> = MultiDag::default();
        let root_id = dag.add_node(root.duplicate(), Vec::new(), Vec::new());
        dag.root = root_id;
        proof {
            lemma_tree_bounded(root);
        }
        assert(dag.out(0).len() == 0);
        assert(dag.discovery_ordered());
        let mut lo: usize = 0;
        let mut hi: usize = 1;
        let ghost mut level: nat = size(root@);
        while lo < hi
            invariant
                dag.wf(),
                dag.balanced(),
                dag.root == 0,
                dag.len() == hi,
                lo <= hi,
                hi >= 1,
                dag.label(0) == root@,
                lo < hi ==> level >= 1,
                forall|i: int, j: int| 0 <= i < j < dag.len() ==> dag.label(i) != dag.label(j),
                forall|i: usize| i < lo ==> #[trigger] dag.child_labels(i)
                    == reductions(dag.label(i as int)),
                forall|i: usize| lo <= i < hi ==> #[trigger] dag.out(i).len() == 0,
                forall|i: int| lo <= i < hi ==> #[trigger] size(dag.label(i)) == level,
                forall|i: int| 0 <= i < hi ==> #[trigger] size(dag.label(i)) >= level,
                dag.ranked(),
                dag.discovery_ordered(),
                forall|i: usize| 0 < i < dag.len() ==> #[trigger] dag.has_lower_parent(i),
            decreases level,
        {
            let mut p: usize = lo;
            while p < hi
                invariant
                    dag.wf(),
                    dag.balanced(),
                    dag.root == 0,
                    dag.len() >= hi,
                    lo <= p <= hi,
                    hi >= 1,
                    level >= 1,
                    dag.label(0) == root@,
                    forall|i: int, j: int| 0 <= i < j < dag.len() ==> dag.label(i) != dag.label(j),
                    forall|i: usize| i < p ==> #[trigger] dag.child_labels(i)
                        == reductions(dag.label(i as int)),
                    forall|i: usize| p <= i < dag.len() ==> #[trigger] dag.out(i).len() == 0,
                    forall|i: int| lo <= i < hi ==> #[trigger] size(dag.label(i)) == level,
                    forall|i: int| 0 <= i < hi ==> #[trigger] size(dag.label(i)) >= level,
                    forall|i: int| hi <= i < dag.len() ==> #[trigger] size(dag.label(i)) == level - 1,
                    dag.ranked(),
                    dag.discovery_ordered(),
                    forall|i: usize| 0 < i < dag.len() ==> #[trigger] dag.has_lower_parent(i),
                decreases hi - p,
            {
                let reds = immediate_reductions(&dag.nodes[p].label);
                proof {
                    lemma_tree_bounded(&dag.nodes@[p as int].label);
                    lemma_reductions_size(dag.label(p as int));
                    assert(size(dag.label(p as int)) == level);
                }
                let ghost reds_spec = reductions(dag.label(p as int));
                assert(reds@.map_values(|t: Tree| t@) == reds_spec);
                let nr = reds.len();
                let mut j: usize = 0;
                assert(dag.child_labels(p) =~= reds_spec.take(0));
                while j < nr
                    invariant
                        dag.wf(),
                        dag.balanced(),
                        dag.root == 0,
                        dag.len() >= hi,
                        lo <= p < hi,
                        hi >= 1,
                        level >= 1,
                        nr == reds@.len(),
                        reds@.map_values(|t: Tree| t@) == reds_spec,
                        reds_spec == reductions(dag.label(p as int)),
                        forall|k: int| 0 <= k < reds_spec.len() ==> size(#[trigger] reds_spec[k]) + 1 == level,
                        0 <= j <= nr,
                        dag.label(0) == root@,
                        forall|i: int, j2: int| 0 <= i < j2 < dag.len() ==> dag.label(i) != dag.label(j2),
                        forall|i: usize| i < p ==> #[trigger] dag.child_labels(i)
                            == reductions(dag.label(i as int)),
                        dag.child_labels(p) == reds_spec.take(j as int),
                        forall|i: usize| p < i < dag.len() ==> #[trigger] dag.out(i).len() == 0,
                        forall|i: int| lo <= i < hi ==> #[trigger] size(dag.label(i)) == level,
                        forall|i: int| 0 <= i < hi ==> #[trigger] size(dag.label(i)) >= level,
                        forall|i: int| hi <= i < dag.len() ==> #[trigger] size(dag.label(i)) == level - 1,
                        dag.ranked(),
                        dag.discovery_ordered(),
                        forall|i: usize| 0 < i < dag.len() ==> #[trigger] dag.has_lower_parent(i),
                    decreases nr - j,
                {
                    let child = &reds[j];
                    assert(child@ == reds_spec[j as int]);
                    let ghost before = dag;
                    match dag.find_label(hi, child) {
                        Some(c) => {
                            dag.add_edge(p, c);
                            proof {
                                assert forall|q: usize| q < dag.len() && q != p implies #[trigger] dag.out(q) == (if q < before.len() {
                                    before.out(q)
                                } else {
                                    Seq::<usize>::empty()
                                }) by {
                                    assert(dag.edges@[q] == before.edges@[q]);
                                }
                                Self::lemma_discovery_step(before, dag, p, c);
                                assert forall|i: int| 0 <= i < dag.len() implies #[trigger] dag.label(i) == before.label(i) by {}
                                assert forall|i: usize| i < dag.len() && i != p implies #[trigger] dag.out(i) == before.out(i) by {
                                    assert(dag.edges@[i] == before.edges@[i]);
                                }
                                assert forall|i: usize| i < p implies #[trigger] dag.child_labels(i)
                                    == reductions(dag.label(i as int)) by {
                                    assert(dag.out(i) == before.out(i));
                                    assert(dag.child_labels(i) =~= before.child_labels(i)) by {
                                        assert forall|k: int| 0 <= k < dag.out(i).len() implies before.out(i)[k] < before.len() by {}
                                    }
                                }
                                assert(dag.child_labels(p) =~= reds_spec.take(j + 1)) by {
                                    assert forall|k: int| 0 <= k < before.out(p).len() implies #[trigger] dag.out(p)[k] == before.out(p)[k]
                                        && before.out(p)[k] < before.len() by {}
                                    assert(before.child_labels(p) =~= reds_spec.take(j as int));
                                    assert(before.child_labels(p).len() == j);
                                    assert(before.out(p).len() == j);
                                    assert(dag.out(p)[j as int] == c);
                                    assert(dag.label(c as int) == reds_spec[j as int]);
                                    assert forall|k: int| 0 <= k < before.out(p).len() implies dag.label(#[trigger] dag.out(p)[k] as int)
                                        == before.label(before.out(p)[k] as int) by {}
                                }
                                assert forall|q: usize, k: int| q < dag.len() && 0 <= k < dag.out(q).len() implies #[trigger] dag.out(q)[k] > q by {
                                    if q == p {
                                        if k < before.out(p).len() {
                                            assert(dag.out(p)[k] == before.out(p)[k]);
                                        }
                                    } else {
                                        assert(dag.out(q) == before.out(q));
                                    }
                                }
                                assert forall|i: usize| 0 < i < dag.len() implies #[trigger] dag.has_lower_parent(i) by {
                                    assert(before.has_lower_parent(i));
                                    let q = choose|q: usize| q < i && #[trigger] before.out(q).contains(i);
                                    let k = choose|k: int| 0 <= k < before.out(q).len() && before.out(q)[k] == i;
                                    if q == p {
                                        assert(dag.out(q)[k] == i);
                                    } else {
                                        assert(dag.out(q) == before.out(q));
                                    }
                                    assert(dag.out(q).contains(i));
                                }
                            }
                        },
                        None => {
                            let mut ps: Vec<NodeId> = Vec::new();
                            ps.push(p);
                            let ghost psv = ps@;
                            let c = dag.add_node(child.duplicate(), ps, Vec::new());
                            proof {
                                assert(seq![p].drop_last() =~= Seq::<usize>::empty());
                                assert forall|k: usize| #[trigger] count_of(seq![p], k) == if k == p { 1nat } else { 0nat } by {
                                    assert(seq![p].last() == p);
                                    assert(seq![p].drop_last() =~= Seq::<usize>::empty());
                                    assert(count_of(Seq::<usize>::empty(), k) == 0);
                                }
                                assert(psv =~= seq![p]);
                                assert forall|q: usize| q < dag.len() && q != p implies #[trigger] dag.out(q) == (if q < before.len() {
                                    before.out(q)
                                } else {
                                    Seq::<usize>::empty()
                                }) by {
                                    if q < c {
                                        assert(repeat(c, 0) =~= Seq::<usize>::empty());
                                        assert(before.out(q) + repeat(c, 0) =~= before.out(q));
                                    } else {
                                        assert(dag.out(c) =~= Seq::<usize>::empty());
                                    }
                                }
                                assert(dag.out(p) =~= before.out(p).push(c)) by {
                                    assert(repeat(c, 1) =~= seq![c]);
                                }
                                Self::lemma_discovery_step(before, dag, p, c);
                                assert(psv =~= seq![p]);
                                assert(seq![p].drop_last() =~= Seq::<usize>::empty());
                                assert forall|k: usize| #[trigger] count_of(seq![p], k) == if k == p { 1nat } else { 0nat } by {
                                    assert(seq![p].last() == p);
                                    assert(seq![p].drop_last() =~= Seq::<usize>::empty());
                                    assert(count_of(Seq::<usize>::empty(), k) == 0);
                                }
                                assert forall|i: int| 0 <= i < before.len() implies #[trigger] dag.label(i) == before.label(i) by {
                                    assert(dag.nodes@[i] == before.nodes@[i]);
                                }
                                assert(dag.label(c as int) == reds_spec[j as int]);
                                assert(size(dag.label(c as int)) == level - 1);
                                assert forall|i: usize| i < c && i != p implies #[trigger] dag.out(i) == before.out(i) by {
                                    assert(repeat(c, 0) =~= Seq::<usize>::empty());
                                    assert(before.out(i) + repeat(c, 0) =~= before.out(i));
                                }
                                assert(dag.out(p) =~= before.out(p).push(c)) by {
                                    assert(repeat(c, 1) =~= seq![c]);
                                }
                                assert(dag.out(c).len() == 0);
                                assert forall|i: int, i2: int| 0 <= i < i2 < dag.len() implies dag.label(i) != dag.label(i2) by {
                                    if i2 == c {
                                        if i < hi {
                                            assert(size(before.label(i)) >= level);
                                        } else {
                                            assert(before.label(i) != reds_spec[j as int]);
                                        }
                                    }
                                }
                                assert forall|i: usize| i < p implies #[trigger] dag.child_labels(i)
                                    == reductions(dag.label(i as int)) by {
                                    assert(dag.out(i) == before.out(i));
                                    assert(dag.child_labels(i) =~= before.child_labels(i)) by {
                                        assert forall|k: int| 0 <= k < dag.out(i).len() implies before.out(i)[k] < before.len() by {}
                                    }
                                }
                                assert(dag.child_labels(p) =~= reds_spec.take(j + 1)) by {
                                    assert forall|k: int| 0 <= k < before.out(p).len() implies #[trigger] dag.out(p)[k] == before.out(p)[k]
                                        && before.out(p)[k] < before.len() by {}
                                    assert forall|k: int| 0 <= k < before.out(p).len() implies dag.label(#[trigger] dag.out(p)[k] as int)
                                        == before.label(before.out(p)[k] as int) by {}
                                    assert(before.child_labels(p) =~= reds_spec.take(j as int));
                                }
                                assert forall|i: usize| p < i < dag.len() implies #[trigger] dag.out(i).len() == 0 by {
                                    if i < c {
                                        assert(dag.out(i) == before.out(i));
                                    }
                                }
                                assert forall|i: int| lo <= i < hi implies #[trigger] size(dag.label(i)) == level by {
                                    assert(dag.label(i) == before.label(i));
                                }
                                assert forall|i: int| 0 <= i < hi implies #[trigger] size(dag.label(i)) >= level by {
                                    assert(dag.label(i) == before.label(i));
                                }
                                assert forall|i: int| hi <= i < dag.len() implies #[trigger] size(dag.label(i)) == level - 1 by {
                                    if i < c {
                                        assert(dag.label(i) == before.label(i));
                                    }
                                }
                                assert forall|q: usize, k: int| q < dag.len() && 0 <= k < dag.out(q).len() implies #[trigger] dag.out(q)[k] > q by {
                                    if q == p {
                                        if k < before.out(p).len() {
                                            assert(dag.out(p)[k] == before.out(p)[k]);
                                        }
                                    } else if q < c {
                                        assert(dag.out(q) == before.out(q));
                                    }
                                }
                                assert forall|i: usize| 0 < i < dag.len() implies #[trigger] dag.has_lower_parent(i) by {
                                    if i == c {
                                        assert(dag.out(p)[dag.out(p).len() - 1] == c);
                                        assert(dag.out(p).contains(c));
                                    } else {
                                        assert(before.has_lower_parent(i));
                                        assert(before.has_lower_parent(i));
                                    let q = choose|q: usize| q < i && #[trigger] before.out(q).contains(i);
                                        let k = choose|k: int| 0 <= k < before.out(q).len() && before.out(q)[k] == i;
                                        if q == p {
                                            assert(dag.out(q)[k] == i);
                                        } else {
                                            assert(dag.out(q) == before.out(q));
                                        }
                                        assert(dag.out(q).contains(i));
                                    }
                                }
                            }
                        },
                    }
                    j = j + 1;
                }
                assert(reds_spec.take(nr as int) =~= reds_spec);
                p = p + 1;
            }
            proof {
                if hi < dag.len() {
                    assert(size(dag.label(hi as int)) == level - 1);
                    assert(size(dag.label(hi as int)) >= 1);
                }
            }
            lo = hi;
            hi = dag.nodes.len();
            proof {
                level = (level - 1) as nat;
            }
        }
        dag
    }
}

impl<T: Clone> Clone for MultiDag<T> {
    /// A copy of the DAG: the same numbers, edges and root, each label cloned.
    fn clone(&self) -> (r: Self)
        ensures
            r.nodes@.len() == self.nodes@.len(),
            forall|i: int|
                0 <= i < r.nodes@.len() ==> #[trigger] r.nodes@[i].id == self.nodes@[i].id && cloned::<T>(
                    self.nodes@[i].label,
                    r.nodes@[i].label,
                ),
            r.edges@ == self.edges@,
            r.rev_edges@ == self.rev_edges@,
            r.root == self.root,
    {
        let n = self.nodes.len();
        let mut nodes: Vec<DagNode<T>> = Vec::new();
        let mut i: usize = 0;
        while i < n
            invariant
                n == self.nodes@.len(),
                0 <= i <= n,
                nodes@.len() == i,
                forall|j: int|
                    0 <= j < i ==> #[trigger] nodes@[j].id == self.nodes@[j].id && cloned::<T>(
                        self.nodes@[j].label,
                        nodes@[j].label,
                    ),
            decreases n - i,
        {
            let node = &self.nodes[i];
            let label = node.label.clone();
            nodes.push(DagNode { id: node.id, label });
            i = i + 1;
        }
        MultiDag { nodes, edges: self.edges.clone(), rev_edges: self.rev_edges.clone(), root: self.root }
    }
}

impl<T> Default for MultiDag<T> {
    fn default() -> (r: Self)
        ensures
            r.nodes@.len() == 0,
            r.edges@ == Map::<NodeId, Vec<NodeId>>::empty(),
            r.rev_edges@ == Map::<NodeId, Vec<NodeId>>::empty(),
            r.root == 0,
    {
        MultiDag { nodes: Vec::new(), edges: HashMap::new(), rev_edges: HashMap::new(), root: 0 }
    }
}

proof fn lemma_count_bounded_seq(s: Seq<usize>, bound: usize)
    requires
        forall|j: int| 0 <= j < s.len() ==> #[trigger] s[j] < bound,
    ensures
        count_of(s, bound) == 0,
{
    lemma_count_contains(s, bound);
}



proof fn lemma_dedup_distinct<A>(s: Seq<A>, seen: Seq<A>)
    requires
        seen.no_duplicates(),
    ensures
        s.remove_duplicates(seen).no_duplicates(),
    decreases s.len(),
{
    if s.len() > 0 && !seen.contains(s[0]) {
        let seen2 = seen + seq![s[0]];
        assert(seen2.no_duplicates()) by {
            assert forall|i: int, j: int| 0 <= i < seen2.len() && 0 <= j < seen2.len() && i != j implies seen2[i]
                != seen2[j] by {
                if i < seen.len() && j < seen.len() {
                    assert(seen2[i] == seen[i] && seen2[j] == seen[j]);
                } else if i < seen.len() {
                    assert(seen2[i] == seen[i]);
                } else if j < seen.len() {
                    assert(seen2[j] == seen[j]);
                }
            }
        }
        lemma_dedup_distinct(s.skip(1), seen2);
    } else if s.len() > 0 {
        lemma_dedup_distinct(s.skip(1), seen);
    }
}

proof fn lemma_dedup_of_distinct<A>(s: Seq<A>, seen: Seq<A>)
    requires
        (seen + s).no_duplicates(),
    ensures
        s.remove_duplicates(seen) == seen + s,
    decreases s.len(),
{
    if s.len() == 0 {
        assert(seen + s =~= seen);
    } else {
        let all = seen + s;
        assert(!seen.contains(s[0])) by {
            if seen.contains(s[0]) {
                let i = choose|i: int| 0 <= i < seen.len() && seen[i] == s[0];
                assert(all[i] == all[seen.len() as int]);
            }
        }
        let seen2 = seen + seq![s[0]];
        assert(seen2 + s.skip(1) =~= all);
        lemma_dedup_of_distinct(s.skip(1), seen2);
    }
}

impl<T> MultiDag<T> {
    proof fn lemma_dedup_counts_below(before: MultiDag<T>, after: MultiDag<T>, m: nat)
        requires
            m <= before.len(),
            forall|k: usize| k < before.len() ==> #[trigger] after.out(k) == before.out(k).remove_duplicates(Seq::empty()),
        ensures
            after.edges_below(m) == before.single_edges_below(m),
            after.single_edges_below(m) == before.single_edges_below(m),
        decreases m,
    {
        if m > 0 {
            Self::lemma_dedup_counts_below(before, after, (m - 1) as nat);
            let k = (m - 1) as usize;
            let d = before.out(k).remove_duplicates(Seq::empty());
            assert(after.out(k) == d);
            lemma_dedup_distinct(before.out(k), Seq::empty());
            assert(Seq::<usize>::empty() + d =~= d);
            lemma_dedup_of_distinct(d, Seq::empty());
        }
    }

    /// Once the multi-edges are removed (the result that `remove_multiedges` describes),
    /// the number of edges is the number of distinct edges before, and the number of
    /// distinct edges has not changed.
    pub proof fn lemma_remove_multiedges_counts(before: MultiDag<T>, after: MultiDag<T>)
        requires
            after.nodes == before.nodes,
            forall|k: usize| k < before.len() ==> #[trigger] after.out(k) == before.out(k).remove_duplicates(Seq::empty()),
        ensures
            after.edges_below(after.len()) == before.single_edges_below(before.len()),
            after.single_edges_below(after.len()) == before.single_edges_below(before.len()),
    {
        Self::lemma_dedup_counts_below(before, after, before.len());
    }
}


impl MultiDag<Tree> {
    proof fn lemma_reached_next(&self, v: usize, q: usize, k: int)
        requires
            q < self.len(),
            0 <= k < self.out(q).len(),
        ensures
            self.reached_before(v, q, k + 1) <==> self.reached_before(v, q, k) || self.out(q)[k] == v,
    {
        if self.reached_before(v, q, k + 1) {
            let (q0, k0): (usize, int) = choose|q0: usize, k0: int|
                q0 < self.len() && 0 <= k0 < self.out(q0).len() && #[trigger] self.out(q0)[k0] == v && (q0 < q || (q0 == q
                    && k0 < k + 1));
            if !(q0 == q && k0 == k) {
                assert(self.out(q0)[k0] == v);
            }
        }
        if self.out(q)[k] == v {
            assert(self.out(q)[k] == v);
        }
        if self.reached_before(v, q, k) {
            let (q0, k0): (usize, int) = choose|q0: usize, k0: int|
                q0 < self.len() && 0 <= k0 < self.out(q0).len() && #[trigger] self.out(q0)[k0] == v && (q0 < q || (q0 == q
                    && k0 < k));
            assert(self.out(q0)[k0] == v);
        }
    }

    proof fn lemma_reached_row(&self, v: usize, q: usize, q1: usize)
        requires
            q1 == q + 1,
            q1 < self.len(),
        ensures
            self.reached_before(v, q1, 0) <==> self.reached_before(v, q, self.out(q).len() as int),
    {
        if self.reached_before(v, q1, 0) {
            let (q0, k0): (usize, int) = choose|q0: usize, k0: int|
                q0 < self.len() && 0 <= k0 < self.out(q0).len() && #[trigger] self.out(q0)[k0] == v && (q0 < q1 || (q0
                    == q1 && k0 < 0));
            assert(self.out(q0)[k0] == v);
        }
        if self.reached_before(v, q, self.out(q).len() as int) {
            let (q0, k0): (usize, int) = choose|q0: usize, k0: int|
                q0 < self.len() && 0 <= k0 < self.out(q0).len() && #[trigger] self.out(q0)[k0] == v && (q0 < q || (q0 == q
                    && k0 < self.out(q).len()));
            assert(self.out(q0)[k0] == v);
        }
    }

    /// Up to position `k` of the children of `q`, two DAGs built from the same shape
    /// agree: same vertices reached, with the same labels, and the same edges.
    proof fn lemma_built_agree(d: Self, e: Self, s: Shape, q: usize, k: int)
        requires
            d.is_built_from(s),
            e.is_built_from(s),
            q < d.len(),
            0 <= k <= d.out(q).len(),
        ensures
            q < e.len(),
            d.label(q as int) == e.label(q as int),
            d.out(q).len() == e.out(q).len(),
            forall|j: int| 0 <= j < k ==> d.out(q)[j] == e.out(q)[j],
            forall|p: usize| p < q ==> #[trigger] d.out(p) == e.out(p),
            forall|p: usize| p < q ==> p < e.len() && #[trigger] d.label(p as int) == e.label(p as int),
            forall|v: usize| #[trigger] d.reached_before(v, q, k) <==> e.reached_before(v, q, k),
            forall|v: usize| #[trigger] d.reached_before(v, q, k) ==> v < e.len() && d.label(v as int) == e.label(v as int),
        decreases q, k,
    {
        if k > 0 {
            let k0 = k - 1;
            Self::lemma_built_agree(d, e, s, q, k0);
            let td = d.out(q)[k0];
            let te = e.out(q)[k0];
            assert(d.child_labels(q) == reductions(d.label(q as int)));
            assert(e.child_labels(q) == reductions(e.label(q as int)));
            assert(d.child_labels(q)[k0] == d.label(td as int));
            assert(e.child_labels(q)[k0] == e.label(te as int));
            assert(d.label(td as int) == e.label(te as int));
            assert(td < d.len() && te < e.len());
            assert(td > q && te > q);
            if d.reached_before(td, q, k0) {
                assert(e.reached_before(td, q, k0));
                assert(td < e.len() && d.label(td as int) == e.label(td as int));
                if td != te {
                    if td < te {
                        assert(e.label(td as int) != e.label(te as int));
                    } else {
                        assert(e.label(te as int) != e.label(td as int));
                    }
                }
            } else {
                if e.reached_before(te, q, k0) {
                    assert(d.reached_before(te, q, k0));
                    assert(te < e.len() && d.label(te as int) == e.label(te as int));
                    if td < te {
                        assert(d.label(td as int) != d.label(te as int));
                    } else if te < td {
                        assert(d.label(te as int) != d.label(td as int));
                    }
                }
                if td < te {
                    assert(e.reached_before(td, q, k0));
                } else if te < td {
                    assert(d.reached_before(te, q, k0));
                }
            }
            assert(td == te);
            assert forall|p: usize| p < q implies #[trigger] d.out(p) == e.out(p) by {}
            assert forall|p: usize| p < q implies p < e.len() && #[trigger] d.label(p as int) == e.label(p as int) by {}
            assert forall|v: usize| #[trigger] d.reached_before(v, q, k) <==> e.reached_before(v, q, k) by {
                d.lemma_reached_next(v, q, k0);
                e.lemma_reached_next(v, q, k0);
            }
            assert forall|v: usize| #[trigger] d.reached_before(v, q, k) implies v < e.len() && d.label(v as int) == e.label(
                v as int,
            ) by {
                d.lemma_reached_next(v, q, k0);
                if !d.reached_before(v, q, k0) {
                    assert(v == td);
                }
            }
        } else if q > 0 {
            let q0 = (q - 1) as usize;
            let lq = d.out(q0).len() as int;
            Self::lemma_built_agree(d, e, s, q0, lq);
            assert(d.out(q0) =~= e.out(q0));
            assert(d.has_lower_parent(q));
            let pp = choose|pp: usize| pp < q && #[trigger] d.out(pp).contains(q);
            let kk = choose|kk: int| 0 <= kk < d.out(pp).len() && d.out(pp)[kk] == q;
            assert(d.out(pp)[kk] == q);
            assert(d.reached_before(q, q0, lq));
            assert(q < e.len());
            assert forall|v: usize| #[trigger] d.reached_before(v, q, 0) <==> e.reached_before(v, q, 0) by {
                d.lemma_reached_row(v, q0, q);
                e.lemma_reached_row(v, q0, q);
            }
            assert forall|v: usize| #[trigger] d.reached_before(v, q, 0) implies v < e.len() && d.label(v as int) == e.label(
                v as int,
            ) by {
                d.lemma_reached_row(v, q0, q);
            }
            assert forall|p: usize| p < q implies #[trigger] d.out(p) == e.out(p) by {
                if p < q0 {
                    assert(d.out(p) == e.out(p));
                }
            }
            assert forall|p: usize| p < q implies p < e.len() && #[trigger] d.label(p as int) == e.label(p as int) by {
                if p < q0 {
                    assert(d.label(p as int) == e.label(p as int));
                }
            }
            assert(d.child_labels(q).len() == reductions(d.label(q as int)).len());
            assert(e.child_labels(q).len() == reductions(e.label(q as int)).len());
        } else {
            assert(d.child_labels(0).len() == reductions(s).len());
            assert(e.child_labels(0).len() == reductions(s).len());
            assert forall|v: usize| #[trigger] d.reached_before(v, q, k) <==> e.reached_before(v, q, k) by {}

        }
    }

    /// The reduction DAG of a shape, numbered in order of discovery, is unique: two
    /// such DAGs have the same vertices, labels and edges.
    pub proof fn lemma_built_unique(d: Self, e: Self, s: Shape)
        requires
            d.is_built_from(s),
            e.is_built_from(s),
            d.len() <= usize::MAX,
            e.len() <= usize::MAX,
        ensures
            d.len() == e.len(),
            forall|i: int| 0 <= i < d.len() ==> #[trigger] d.label(i) == e.label(i),
            forall|p: usize| p < d.len() ==> #[trigger] d.out(p) == e.out(p),
    {
        assert forall|p: usize| p < d.len() implies p < e.len() && #[trigger] d.out(p) == e.out(p) && d.label(p as int)
            == e.label(p as int) by {
            Self::lemma_built_agree(d, e, s, p, d.out(p).len() as int);
            assert(d.out(p) =~= e.out(p));
        }
        if d.len() < e.len() {
            Self::lemma_built_agree(e, d, s, d.len() as usize, 0);
        }
        if e.len() < d.len() {
            Self::lemma_built_agree(d, e, s, e.len() as usize, 0);
        }
        assert forall|i: int| 0 <= i < d.len() implies #[trigger] d.label(i) == e.label(i) by {
            assert(d.out(i as usize) == e.out(i as usize));
            assert((i as usize) as int == i);
        }
    }
}

} // verus!
