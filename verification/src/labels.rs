use std::collections::HashSet;

use vstd::prelude::*;

use crate::dag::{DagNode, MultiDag, NodeId};
use crate::reach::{is_above, is_below};

verus! {

broadcast use vstd::std_specs::hash::group_hash_axioms;

/// Whether `x` occurs in `v`.
fn vec_contains(v: &Vec<NodeId>, x: NodeId) -> (r: bool)
    ensures
        r == v@.contains(x),
{
    let n = v.len();
    let mut i: usize = 0;
    while i < n
        invariant
            n == v@.len(),
            0 <= i <= n,
            forall|j: int| 0 <= j < i ==> v@[j] != x,
        decreases n - i,
    {
        if v[i] == x {
            assert(v@[i as int] == x);
            return true;
        }
        i = i + 1;
    }
    false
}

impl<T> MultiDag<T> {
    /// The same DAG with each label `l` of a vertex numbered `id` replaced by `f(l, id)`.
    ///
    /// `f` is called once per vertex, on the vertices in order: it goes through the
    /// states `fs`, and its call in state `fs[i]` is on the label and number of
    /// vertex `i` and gives the new label of vertex `i`.
    pub fn map<U, F: FnMut(T, NodeId) -> U>(self, f: F) -> (r: MultiDag<U>)
        requires
            forall|l: T, k: NodeId| call_requires(f, (l, k)),
        ensures
            r.nodes@.len() == self.nodes@.len(),
            exists|fs: Seq<F>|
                #![trigger fs.len()]
                fs.len() == self.nodes@.len() + 1 && fs[0] == f && forall|i: int|
                    0 <= i < self.nodes@.len() ==> call_ensures(
                        #[trigger] fs[i],
                        (self.nodes@[i].label, self.nodes@[i].id),
                        r.nodes@[i].label,
                    ),
            forall|i: int|
                0 <= i < self.nodes@.len() ==> call_ensures(
                    f,
                    (self.nodes@[i].label, self.nodes@[i].id),
                    #[trigger] r.nodes@[i].label,
                ),
            forall|i: int| 0 <= i < r.nodes@.len() ==> #[trigger] r.nodes@[i].id == self.nodes@[i].id,
            r.edges@ == self.edges@,
            r.rev_edges@ == self.rev_edges@,
            r.root == self.root,
    {
        let ghost n0 = self.nodes@;
        let ghost f0 = f;
        let mut f = f;
        let total = self.nodes.len();
        let mut nodes = self.nodes;
        let mut rev: Vec<DagNode<T>> = Vec::new();
        while nodes.len() > 0
            invariant
                total == n0.len(),
                nodes@ == n0.take(nodes@.len() as int),
                rev@.len() + nodes@.len() == total,
                forall|j: int| 0 <= j < rev@.len() ==> #[trigger] rev@[j] == n0[total - 1 - j],
            decreases nodes.len(),
        {
            let n = nodes.pop().unwrap();
            rev.push(n);
            assert(nodes@ =~= n0.take(nodes@.len() as int));
        }
        let mut out: Vec<DagNode<U>> = Vec::new();
        let ghost mut fs: Seq<F> = seq![f];
        while rev.len() > 0
            invariant
                total == n0.len(),
                rev@.len() + out@.len() == total,
                forall|j: int| 0 <= j < rev@.len() ==> #[trigger] rev@[j] == n0[total - 1 - j],
                forall|l: T, k: NodeId| call_requires(f, (l, k)),
                fs.len() == out@.len() + 1,
                fs[0] == f0,
                fs.last() == f,
                f == f0,
                forall|j: int| 0 <= j < fs.len() ==> #[trigger] fs[j] == f0,
                forall|j: int| 0 <= j < out@.len() ==> #[trigger] out@[j].id == n0[j].id,
                forall|j: int|
                    0 <= j < out@.len() ==> call_ensures(#[trigger] fs[j], (n0[j].label, n0[j].id), out@[j].label),
            decreases rev.len(),
        {
            let ghost k = out@.len();
            assert(rev@[rev@.len() - 1] == n0[k as int]);
            let n = rev.pop().unwrap();
            let id = n.id;
            let ghost before = f;
            let lbl = f(n.label, id);
            out.push(DagNode { id, label: lbl });
            proof {
                fs = fs.push(f);
                assert forall|j: int| 0 <= j < out@.len() implies call_ensures(
                    #[trigger] fs[j],
                    (n0[j].label, n0[j].id),
                    out@[j].label,
                ) by {
                    if j == k {
                        assert(fs[j] == before);
                    }
                }
            }
        }
        proof {
            assert forall|i: int| 0 <= i < n0.len() implies call_ensures(
                f0,
                (n0[i].label, n0[i].id),
                #[trigger] out@[i].label,
            ) by {
                assert(fs[i] == f0);
            }
        }
        MultiDag { nodes: out, edges: self.edges, rev_edges: self.rev_edges, root: self.root }
    }

    /// The same DAG with every label replaced by `()`.
    pub fn remove_labels(self) -> (r: MultiDag<()>)
        ensures
            r.nodes@.len() == self.nodes@.len(),
            forall|i: int| 0 <= i < r.nodes@.len() ==> #[trigger] r.nodes@[i].id == self.nodes@[i].id,
            r.edges@ == self.edges@,
            r.rev_edges@ == self.rev_edges@,
            r.root == self.root,
    {
        self.map(|_l: T, _k: NodeId| ())
    }

    /// The same DAG with each label `l` of a vertex numbered `id` replaced by
    /// `(l, set.contains(id))`.
    pub fn tag_set(self, set: &HashSet<NodeId>) -> (r: MultiDag<(T, bool)>)
        ensures
            r.nodes@.len() == self.nodes@.len(),
            forall|i: int|
                0 <= i < r.nodes@.len() ==> #[trigger] r.nodes@[i] == (DagNode {
                    id: self.nodes@[i].id,
                    label: (self.nodes@[i].label, set@.contains(self.nodes@[i].id)),
                }),
            r.edges@ == self.edges@,
            r.rev_edges@ == self.rev_edges@,
            r.root == self.root,
    {
        let tag = |l: T, k: NodeId| -> (o: (T, bool))
            ensures
                o == (l, set@.contains(k)),
            {
                let b = set.contains(&k);
                (l, b)
            };
        let ghost s = self;
        let ghost g = tag;
        let r = self.map(tag);
        assert forall|i: int| 0 <= i < r.nodes@.len() implies #[trigger] r.nodes@[i] == (DagNode {
            id: s.nodes@[i].id,
            label: (s.nodes@[i].label, set@.contains(s.nodes@[i].id)),
        }) by {
            assert(r.nodes@[i].id == s.nodes@[i].id);
            assert(call_ensures(g, (s.nodes@[i].label, s.nodes@[i].id), r.nodes@[i].label));
        }
        r
    }

    /// The same DAG with each label `l` of a vertex numbered `id` replaced by
    /// `(l, vec.contains(id))`.
    pub fn tag_vec(self, vec: &Vec<NodeId>) -> (r: MultiDag<(T, bool)>)
        ensures
            r.nodes@.len() == self.nodes@.len(),
            forall|i: int|
                0 <= i < r.nodes@.len() ==> #[trigger] r.nodes@[i] == (DagNode {
                    id: self.nodes@[i].id,
                    label: (self.nodes@[i].label, vec@.contains(self.nodes@[i].id)),
                }),
            r.edges@ == self.edges@,
            r.rev_edges@ == self.rev_edges@,
            r.root == self.root,
    {
        let tag = |l: T, k: NodeId| -> (o: (T, bool))
            ensures
                o == (l, vec@.contains(k)),
            {
                let b = vec_contains(vec, k);
                (l, b)
            };
        let ghost s = self;
        let ghost g = tag;
        let r = self.map(tag);
        assert forall|i: int| 0 <= i < r.nodes@.len() implies #[trigger] r.nodes@[i] == (DagNode {
            id: s.nodes@[i].id,
            label: (s.nodes@[i].label, vec@.contains(s.nodes@[i].id)),
        }) by {
            assert(r.nodes@[i].id == s.nodes@[i].id);
            assert(call_ensures(g, (s.nodes@[i].label, s.nodes@[i].id), r.nodes@[i].label));
        }
        r
    }

    /// The same DAG with each label `l` of a vertex numbered `id` replaced by
    /// `(l, b)`, where `b` tells whether `id` lies strictly above `start`.
    pub fn tag_above(self, start: NodeId) -> (r: MultiDag<(T, bool)>)
        requires
            self.wf(),
            start < self.len(),
        ensures
            r.nodes@.len() == self.nodes@.len(),
            forall|i: int|
                0 <= i < r.nodes@.len() ==> #[trigger] r.nodes@[i] == (DagNode {
                    id: self.nodes@[i].id,
                    label: (self.nodes@[i].label, is_above(self, start, self.nodes@[i].id)),
                }),
            r.edges@ == self.edges@,
            r.rev_edges@ == self.rev_edges@,
            r.root == self.root,
    {
        let above = self.get_above(start);
        let ghost s = self;
        let r = self.tag_set(&above);
        assert forall|i: int| 0 <= i < r.nodes@.len() implies above@.contains(#[trigger] s.nodes@[i].id) == is_above(
            s,
            start,
            s.nodes@[i].id,
        ) by {}
        r
    }

    /// The same DAG with each label `l` of a vertex numbered `id` replaced by
    /// `(l, b)`, where `b` tells whether `id` lies strictly below `start`.
    pub fn tag_below(self, start: NodeId) -> (r: MultiDag<(T, bool)>)
        requires
            self.wf(),
            start < self.len(),
        ensures
            r.nodes@.len() == self.nodes@.len(),
            forall|i: int|
                0 <= i < r.nodes@.len() ==> #[trigger] r.nodes@[i] == (DagNode {
                    id: self.nodes@[i].id,
                    label: (self.nodes@[i].label, is_below(self, start, self.nodes@[i].id)),
                }),
            r.edges@ == self.edges@,
            r.rev_edges@ == self.rev_edges@,
            r.root == self.root,
    {
        let below = self.get_below(start);
        let ghost s = self;
        let r = self.tag_set(&below);
        assert forall|i: int| 0 <= i < r.nodes@.len() implies below@.contains(#[trigger] s.nodes@[i].id) == is_below(
            s,
            start,
            s.nodes@[i].id,
        ) by {}
        r
    }
}

} // verus!
