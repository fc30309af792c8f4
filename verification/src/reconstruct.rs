use std::collections::HashSet;

use vstd::prelude::*;

use crate::counting::{count_of, is_multiplicity_list, lemma_count_contains, lemma_count_run};
use crate::dag::{DagNode, MultiDag, NodeId};
use crate::dot::DotLabel;
use crate::equivalence::{lemma_mult_list_unique, mult_list};
use crate::reach::is_above;

verus! {

broadcast use vstd::std_specs::hash::group_hash_axioms;

/// How a vertex is shown when two spines are drawn.
pub enum NodeType {
    Spine1,
    Spine2,
    Both,
    Neither,
}

impl DotLabel for NodeType {
    open spec fn text_spec(&self) -> Seq<char> {
        Seq::empty()
    }

    open spec fn meta_spec(&self) -> Seq<char> {
        match self {
            NodeType::Spine1 => "color=red"@,
            NodeType::Spine2 => "color=green"@,
            NodeType::Both => "color=yellow"@,
            NodeType::Neither => Seq::empty(),
        }
    }

    fn get_text(&self) -> (r: String) {
        String::new()
    }

    fn get_meta(&self) -> (r: String) {
        match self {
            NodeType::Spine1 => String::from_str("color=red"),
            NodeType::Spine2 => String::from_str("color=green"),
            NodeType::Both => String::from_str("color=yellow"),
            NodeType::Neither => String::new(),
        }
    }
}

/// A multiplicity list holds the single entry `(x, 1)` exactly when the listed
/// sequence is `[x]`.
pub proof fn lemma_single_entry(r: Seq<(usize, usize)>, s: Seq<usize>, x: usize)
    requires
        is_multiplicity_list(r, s),
    ensures
        (r.len() == 1 && r[0] == (x, 1usize)) <==> s =~= seq![x],
{
    if r.len() == 1 && r[0] == (x, 1usize) {
        assert forall|i: int| 0 <= i < s.len() implies #[trigger] s[i] == x by {
            lemma_count_contains(s, s[i]);
            assert(s.contains(s[i]));
            let k = choose|k: int| 0 <= k < r.len() && r[k].0 == s[i];
            assert(k == 0);
        }
        if s.len() > 0 {
            assert forall|i: int| 0 <= i < s.len() implies #[trigger] s[i] == s[0] by {}
            lemma_count_run(s, x);
        } else {
            assert(count_of(s, x) == 0);
        }
        assert(count_of(s, x) == 1);
    }
    if s =~= seq![x] {
        assert(s.drop_last() =~= Seq::<usize>::empty());
        assert(count_of(s.drop_last(), x) == 0);
        assert(count_of(s, x) == 1);
        assert forall|k: int| 0 <= k < r.len() implies #[trigger] r[k].0 == x by {
            lemma_count_contains(s, r[k].0);
            assert(r[k].1 > 0);
            assert(s.contains(r[k].0));
        }
        lemma_count_contains(s, x);
        assert(s.contains(s[0]));
        let k = choose|k: int| 0 <= k < r.len() && r[k].0 == x;
        if r.len() > 1 {
            assert(r[0].0 < r[1].0);
        }
    }
}

/// Whether `x` occurs in `v`.
fn contains_id(v: &Vec<NodeId>, x: NodeId) -> (r: bool)
    ensures
        r == v@.contains(x),
{
    let n = v.len();
    let mut i: usize = 0;
    while i < n
        invariant
            n == v@.len(),
            0 <= i <= n,
            forall|j: int| 0 <= j < i ==> v@[j] != x,
        decreases n - i,
    {
        if v[i] == x {
            assert(v@[i as int] == x);
            return true;
        }
        i = i + 1;
    }
    false
}

/// The vertex without children (the only one, where there is exactly one).
pub open spec fn final_of<T>(m: MultiDag<T>) -> usize {
    choose|v: usize| v < m.len() && m.out(v).len() == 0
}

/// The breadth-first walk that builds the spine: the vertices of `list` from
/// position `h` on are visited in turn, and visiting `e` appends, in increasing
/// order, each parent whose single edge leads to `e` and that is not listed yet.
pub open spec fn spine_walk<T>(m: MultiDag<T>, list: Seq<usize>, h: nat) -> Seq<usize>
    decreases m.len() + 1 - h,
{
    if h >= list.len() || list.len() > m.len() {
        list
    } else {
        let e = list[h as int];
        spine_walk(m, spine_visit(m, list, e, mult_list(m.inc(e)), 0), h + 1)
    }
}

/// Appends to `list`, in the order of `ps` from position `k` on, each listed
/// parent of `e` whose single edge leads to `e` and that is not in `list` yet.
pub open spec fn spine_visit<T>(m: MultiDag<T>, list: Seq<usize>, e: usize, ps: Seq<(usize, usize)>, k: nat) -> Seq<
    usize,
>
    decreases ps.len() - k,
{
    if k >= ps.len() {
        list
    } else {
        let p = ps[k as int].0;
        let next = if m.out(p) =~= seq![e] && !list.contains(p) {
            list.push(p)
        } else {
            list
        };
        spine_visit(m, next, e, ps, k + 1)
    }
}

/// The spine of `m`, as `get_spine` lists it.
pub open spec fn spine_of<T>(m: MultiDag<T>) -> Seq<usize> {
    spine_walk(m, seq![final_of(m)], 0)
}

/// The spine of `m` from its only final vertex: the vertices whose edges, one by
/// one, lead down to it (each such vertex has a single edge). `r[0]` is the final
/// vertex; every later vertex has a single edge, to a vertex listed before it; and
/// every vertex with a single edge to a listed vertex is listed.
pub open spec fn is_spine<T>(m: MultiDag<T>, root: usize, r: Seq<usize>) -> bool {
    &&& r.len() >= 1
    &&& r[0] == root
    &&& r.no_duplicates()
    &&& forall|i: int| 0 <= i < r.len() ==> #[trigger] r[i] < m.len()
    &&& forall|i: int| 0 < i < r.len() ==> exists|j: int| 0 <= j < i && m.out(#[trigger] r[i]) =~= seq![r[j]]
    &&& forall|p: usize, x: usize|
        #![trigger m.out(p), r.contains(x)]
        p < m.len() && r.contains(x) && m.out(p) =~= seq![x] ==> r.contains(p)
}

/// The list of vertices in order from the final vertex upward: see `is_spine`.
///
/// `m` must have exactly one vertex without children.
pub fn get_spine<T>(m: &MultiDag<T>) -> (r: Vec<NodeId>)
    requires
        m.wf(),
        m.finals_below(m.len()) == 1,
    ensures
        r@ == spine_of(*m),
        m.out(r@[0]).len() == 0,
        is_spine(*m, r@[0], r@),
{
    let finals = m.get_finals();
    let root = finals[0];
    proof {
        let f = final_of(*m);
        assert(m.out(root).len() == 0);
        assert(f < m.len() && m.out(f).len() == 0);
        assert(finals@.contains(f));
        assert(root == f);
    }
    let ghost init = seq![root];
    let n = m.nodes.len();
    let mut to_tag: Vec<NodeId> = Vec::new();
    to_tag.push(root);
    let mut h: usize = 0;
    while h < to_tag.len()
        invariant
            m.wf(),
            n == m.len(),
            root < n,
            to_tag@.len() >= 1,
            to_tag@[0] == root,
            h <= to_tag@.len(),
            to_tag@.len() <= n,
            to_tag@.no_duplicates(),
            forall|i: int| 0 <= i < to_tag@.len() ==> #[trigger] to_tag@[i] < n,
            forall|i: int| 0 < i < to_tag@.len() ==> exists|j: int| 0 <= j < i && #[trigger] m.out(to_tag@[i]) =~= seq![to_tag@[j]],
            forall|i: int, p: usize|
                #![trigger m.out(p), to_tag@[i]]
                0 <= i < h && p < n && m.out(p) =~= seq![to_tag@[i]] ==> to_tag@.contains(p),
            spine_walk(*m, init, 0) == spine_walk(*m, to_tag@, h as nat),
        decreases n + 1 - h,
    {
        let e = to_tag[h];
        let parents = m.parents(e);
        proof {
            lemma_mult_list_unique(parents@, mult_list(m.inc(e)), m.inc(e));
        }
        let ghost l0 = to_tag@;
        let np = parents.len();
        let mut k: usize = 0;
        while k < np
            invariant
                m.wf(),
                n == m.len(),
                root < n,
                to_tag@.len() >= 1,
                to_tag@[0] == root,
                h < to_tag@.len(),
                e == to_tag@[h as int],
                e < n,
                to_tag@.len() <= n,
                to_tag@.no_duplicates(),
                np == parents@.len(),
                is_multiplicity_list(parents@, m.inc(e)),
                0 <= k <= np,
                forall|i: int| 0 <= i < to_tag@.len() ==> #[trigger] to_tag@[i] < n,
                forall|i: int| 0 < i < to_tag@.len() ==> exists|j: int| 0 <= j < i && #[trigger] m.out(to_tag@[i]) =~= seq![to_tag@[j]],
                forall|i: int, p: usize|
                    #![trigger m.out(p), to_tag@[i]]
                    0 <= i < h && p < n && m.out(p) =~= seq![to_tag@[i]] ==> to_tag@.contains(p),
                forall|q: int| 0 <= q < k && m.out(#[trigger] parents@[q].0) =~= seq![e] ==> to_tag@.contains(parents@[q].0),
                parents@ == mult_list(m.inc(e)),
                spine_visit(*m, l0, e, parents@, 0) == spine_visit(*m, to_tag@, e, parents@, k as nat),
            decreases np - k,
        {
            let node = parents[k].0;
            proof {
                lemma_count_contains(m.inc(e), node);
                assert(m.inc(e).contains(node));
                let z = choose|z: int| 0 <= z < m.inc(e).len() && m.inc(e)[z] == node;
                assert(m.inc(e)[z] < n);
            }
            let childs = m.children(node);
            let single = childs.len() == 1 && childs[0].1 == 1;
            let ghost lk = to_tag@;
            proof {
                if single {
                    lemma_single_entry(childs@, m.out(node), childs@[0].0);
                    assert(m.out(node).contains(e) <==> m.inc(e).contains(node));
                    assert(m.out(node)[0] == childs@[0].0);
                    assert(m.out(node).contains(childs@[0].0));
                    assert(childs@[0].0 == e);
                } else {
                    lemma_single_entry(childs@, m.out(node), e);
                }
            }
            if single {
                let me = childs[0].0;
                assert(me == e);
                if !contains_id(&to_tag, node) {
                    let ghost t0 = to_tag@;
                    proof {
                        assert(t0.push(node).no_duplicates());
                        assert(t0.push(node).to_set().len() == t0.len() + 1) by {
                            t0.push(node).unique_seq_to_set();
                        }
                        assert(t0.push(node).to_set().subset_of(Set::<usize>::range(0, n))) by {
                            assert forall|x: usize| #[trigger] t0.push(node).to_set().contains(x) implies Set::<usize>::range(0, n).contains(x) by {
                                let a = choose|a: int| 0 <= a < t0.push(node).len() && t0.push(node)[a] == x;
                                if a < t0.len() {
                                    assert(t0[a] < n);
                                }
                            }
                        }
                        vstd::set_lib::range_set_properties::<usize>(0, n);
                        vstd::set_lib::lemma_len_subset(t0.push(node).to_set(), Set::<usize>::range(0, n));
                    }
                    to_tag.push(node);
                    proof {
                        assert forall|i: int| 0 < i < to_tag@.len() implies exists|j: int| 0 <= j < i && m.out(#[trigger] to_tag@[i]) =~= seq![to_tag@[j]] by {
                            if i < t0.len() {
                                let j = choose|j: int| 0 <= j < i && m.out(t0[i]) =~= seq![t0[j]];
                                assert(to_tag@[j] == t0[j]);
                            } else {
                                assert(to_tag@[h as int] == e);
                            }
                        }
                        assert forall|i: int, p: usize|
                            #![trigger m.out(p), to_tag@[i]]
                            0 <= i < h && p < n && m.out(p) =~= seq![to_tag@[i]] implies to_tag@.contains(p) by {
                            assert(to_tag@[i] == t0[i]);
                            assert(t0.contains(p));
                            let a = choose|a: int| 0 <= a < t0.len() && t0[a] == p;
                            assert(to_tag@[a] == p);
                        }
                        assert forall|q: int| 0 <= q < k + 1 && m.out(#[trigger] parents@[q].0) =~= seq![e] implies to_tag@.contains(parents@[q].0) by {
                            if q < k {
                                let a = choose|a: int| 0 <= a < t0.len() && t0[a] == parents@[q].0;
                                assert(to_tag@[a] == parents@[q].0);
                            } else {
                                assert(to_tag@[to_tag@.len() - 1] == node);
                            }
                        }
                    }
                }
            }
            proof {
                assert(single == (m.out(node) =~= seq![e]));
                assert(spine_visit(*m, lk, e, parents@, k as nat) == spine_visit(*m, to_tag@, e, parents@, (k + 1) as nat));
            }
            k = k + 1;
        }
        proof {
            assert(spine_walk(*m, l0, h as nat) == spine_walk(*m, spine_visit(*m, l0, e, parents@, 0), (h + 1) as nat));
            assert(spine_visit(*m, to_tag@, e, parents@, np as nat) == to_tag@);
        }
        proof {
            assert forall|i: int, p: usize|
                #![trigger m.out(p), to_tag@[i]]
                0 <= i < h + 1 && p < n && m.out(p) =~= seq![to_tag@[i]] implies to_tag@.contains(p) by {
                if i == h {
                    assert(to_tag@[i] == e);
                    assert(m.out(p)[0] == e);
                    assert(m.out(p).contains(e));
                    assert(m.inc(e).contains(p));
                    lemma_count_contains(m.inc(e), p);
                    let q = choose|q: int| 0 <= q < parents@.len() && parents@[q].0 == p;
                    assert(m.out(parents@[q].0) =~= seq![e]);
                }
            }
        }
        h = h + 1;
    }
    proof {
        assert(spine_walk(*m, to_tag@, h as nat) == to_tag@);
        assert forall|p: usize, x: usize| p < m.len() && to_tag@.contains(x) && m.out(p) =~= seq![x] implies to_tag@.contains(p) by {
            let i = choose|i: int| 0 <= i < to_tag@.len() && to_tag@[i] == x;
            assert(m.out(p) =~= seq![to_tag@[i]]);
        }
    }
    to_tag
}

/// Vertex `v` of a tagged DAG is marked.
pub open spec fn marked<T>(m: MultiDag<(T, bool)>, v: usize) -> bool {
    m.nodes@[v as int].label.1
}

/// Among the children of `p`, `c` is the only unmarked one, and `p` has a single
/// edge to it.
pub open spec fn sole_unmarked_child<T>(m: MultiDag<(T, bool)>, p: usize, c: usize) -> bool {
    &&& !marked(m, c)
    &&& count_of(m.out(p), c) == 1
    &&& forall|y: usize| #[trigger] m.out(p).contains(y) && y != c ==> marked(m, y)
}

/// The spine above `start` in a tagged DAG, ignoring marked vertices: `r[0]` is
/// `start`; every later vertex is unmarked and has a single edge to its only
/// unmarked child, which is listed before it; and every unmarked vertex whose
/// only unmarked child (by a single edge) is listed is listed.
pub open spec fn is_spine_ignoring<T>(m: MultiDag<(T, bool)>, start: usize, r: Seq<usize>) -> bool {
    &&& r.len() >= 1
    &&& r[0] == start
    &&& r.no_duplicates()
    &&& forall|i: int| 0 <= i < r.len() ==> #[trigger] r[i] < m.len()
    &&& forall|i: int|
        0 < i < r.len() ==> !marked(m, #[trigger] r[i]) && exists|j: int| 0 <= j < i && sole_unmarked_child(m, r[i], r[j])
    &&& forall|p: usize, x: usize|
        #![trigger sole_unmarked_child(m, p, x), r.contains(x)]
        p < m.len() && r.contains(x) && !marked(m, p) && sole_unmarked_child(m, p, x) ==> r.contains(p)
}

/// The breadth-first walk that builds the spine ignoring marked vertices: the
/// vertices of `list` from position `h` on are visited in turn, and visiting `e`
/// appends, in increasing order, each unmarked parent whose only unmarked child is
/// `e`, by a single edge, and that is not listed yet.
pub open spec fn ignoring_walk<T>(m: MultiDag<(T, bool)>, list: Seq<usize>, h: nat) -> Seq<usize>
    decreases m.len() + 1 - h,
{
    if h >= list.len() || list.len() > m.len() {
        list
    } else {
        let e = list[h as int];
        ignoring_walk(m, ignoring_visit(m, list, e, mult_list(m.inc(e)), 0), h + 1)
    }
}

/// Appends to `list`, in the order of `ps` from position `k` on, each listed parent
/// of `e` that is unmarked, has `e` as its only unmarked child by a single edge, and
/// is not in `list` yet.
pub open spec fn ignoring_visit<T>(m: MultiDag<(T, bool)>, list: Seq<usize>, e: usize, ps: Seq<(usize, usize)>, k: nat) -> Seq<
    usize,
>
    decreases ps.len() - k,
{
    if k >= ps.len() {
        list
    } else {
        let p = ps[k as int].0;
        let next = if !marked(m, p) && sole_unmarked_child(m, p, e) && !list.contains(p) {
            list.push(p)
        } else {
            list
        };
        ignoring_visit(m, next, e, ps, k + 1)
    }
}

/// When `start` is marked, none of its unmarked parents has an only unmarked child.
pub open spec fn ignorable_start_ok<T>(m: MultiDag<(T, bool)>, start: usize) -> bool {
    marked(m, start) ==> forall|p: usize, c: usize|
        p < m.len() && #[trigger] m.inc(start).contains(p) && !marked(m, p) ==> !#[trigger] sole_unmarked_child(m, p, c)
}

/// The only unmarked child of `p`, with the number of edges to it, if `p` has
/// exactly one unmarked child.
fn sole_unmarked<T>(m: &MultiDag<(T, bool)>, p: NodeId) -> (r: Option<(NodeId, usize)>)
    requires
        m.wf(),
        p < m.len(),
    ensures
        match r {
            Some((c, k)) => k == count_of(m.out(p), c) && k > 0 && c < m.len() && !marked(*m, c) && forall|y: usize|
                #[trigger] m.out(p).contains(y) && y != c ==> marked(*m, y),
            None => forall|c: usize| !#[trigger] sole_unmarked_child(*m, p, c),
        },
{
    let childs = m.children(p);
    let ghost o = m.out(p);
    let nc = childs.len();
    let mut cnt: usize = 0;
    let mut first: (NodeId, usize) = (0, 0);
    let mut b: usize = 0;
    while b < nc
        invariant
            m.wf(),
            p < m.len(),
            o == m.out(p),
            nc == childs@.len(),
            is_multiplicity_list(childs@, o),
            0 <= b <= nc,
            cnt <= 2,
            cnt == 0 ==> forall|a: int| 0 <= a < b ==> marked(*m, #[trigger] childs@[a].0),
            cnt >= 1 ==> !marked(*m, first.0) && exists|a: int| 0 <= a < b && childs@[a] == first,
            cnt == 1 ==> forall|a: int| 0 <= a < b && !marked(*m, #[trigger] childs@[a].0) ==> childs@[a] == first,
            cnt == 2 ==> exists|a1: int, a2: int|
                0 <= a1 < a2 < b && !marked(*m, childs@[a1].0) && !marked(*m, childs@[a2].0),
        decreases nc - b,
    {
        let c = childs[b].0;
        proof {
            lemma_count_contains(o, c);
            assert(o.contains(c));
            let z = choose|z: int| 0 <= z < o.len() && o[z] == c;
            assert(o[z] < m.len());
        }
        let is_marked = m.nodes[c].label.1;
        if !is_marked {
            if cnt == 0 {
                first = childs[b];
                cnt = 1;
            } else if cnt == 1 {
                proof {
                    let a1 = choose|a: int| 0 <= a < b && childs@[a] == first;
                    assert(!marked(*m, childs@[a1].0) && !marked(*m, childs@[b as int].0));
                }
                cnt = 2;
            }
        }
        b = b + 1;
    }
    if cnt == 1 {
        proof {
            let a = choose|a: int| 0 <= a < nc && childs@[a] == first;
            assert(first.1 == count_of(o, first.0));
            assert(first.0 < m.len()) by {
                lemma_count_contains(o, first.0);
                let z = choose|z: int| 0 <= z < o.len() && o[z] == first.0;
                assert(o[z] < m.len());
            }
            assert forall|y: usize| #[trigger] o.contains(y) && y != first.0 implies marked(*m, y) by {
                lemma_count_contains(o, y);
                let q = choose|q: int| 0 <= q < childs@.len() && childs@[q].0 == y;
                if !marked(*m, y) {
                    assert(childs@[q] == first);
                }
            }
        }
        Some(first)
    } else {
        proof {
            assert forall|c: usize| !#[trigger] sole_unmarked_child(*m, p, c) by {
                if sole_unmarked_child(*m, p, c) {
                    lemma_count_contains(o, c);
                    let q = choose|q: int| 0 <= q < childs@.len() && childs@[q].0 == c;
                    if cnt == 0 {
                        assert(marked(*m, childs@[q].0));
                    } else {
                        let (a1, a2) = choose|a1: int, a2: int|
                            0 <= a1 < a2 < nc && !marked(*m, childs@[a1].0) && !marked(*m, childs@[a2].0);
                        assert(childs@[a1].0 < childs@[a2].0);
                        lemma_count_contains(o, childs@[a1].0);
                        lemma_count_contains(o, childs@[a2].0);
                        assert(o.contains(childs@[a1].0));
                        assert(o.contains(childs@[a2].0));
                    }
                }
            }
        }
        None
    }
}

/// The spine above `start`, ignoring marked vertices, in order from `start` upward:
/// see `is_spine_ignoring`.
pub fn get_spine_ignorable<T>(m: &MultiDag<(T, bool)>, start: NodeId) -> (r: Vec<NodeId>)
    requires
        m.wf(),
        start < m.len(),
        ignorable_start_ok(*m, start),
    ensures
        is_spine_ignoring(*m, start, r@),
        r@ == ignoring_walk(*m, seq![start], 0),
{
    let n = m.nodes.len();
    let mut to_tag: Vec<NodeId> = Vec::new();
    to_tag.push(start);
    let ghost init = to_tag@;
    assert(init =~= seq![start]);
    let mut h: usize = 0;
    while h < to_tag.len()
        invariant
            m.wf(),
            n == m.len(),
            start < n,
            ignorable_start_ok(*m, start),
            to_tag@.len() >= 1,
            to_tag@[0] == start,
            h <= to_tag@.len(),
            to_tag@.len() <= n,
            to_tag@.no_duplicates(),
            forall|i: int| 0 <= i < to_tag@.len() ==> #[trigger] to_tag@[i] < n,
            forall|i: int|
                0 < i < to_tag@.len() ==> !marked(*m, #[trigger] to_tag@[i]) && exists|j: int|
                    0 <= j < i && sole_unmarked_child(*m, to_tag@[i], to_tag@[j]),
            forall|i: int, p: usize|
                #![trigger sole_unmarked_child(*m, p, to_tag@[i])]
                0 <= i < h && p < n && !marked(*m, p) && sole_unmarked_child(*m, p, to_tag@[i]) ==> to_tag@.contains(p),
            ignoring_walk(*m, init, 0) == ignoring_walk(*m, to_tag@, h as nat),
        decreases n + 1 - h,
    {
        let e = to_tag[h];
        let parents = m.parents(e);
        proof {
            lemma_mult_list_unique(parents@, mult_list(m.inc(e)), m.inc(e));
        }
        let ghost l0 = to_tag@;
        let np = parents.len();
        let mut k: usize = 0;
        while k < np
            invariant
                m.wf(),
                n == m.len(),
                start < n,
                ignorable_start_ok(*m, start),
                to_tag@.len() >= 1,
                to_tag@[0] == start,
                h < to_tag@.len(),
                e == to_tag@[h as int],
                e < n,
                to_tag@.len() <= n,
                to_tag@.no_duplicates(),
                np == parents@.len(),
                is_multiplicity_list(parents@, m.inc(e)),
                0 <= k <= np,
                forall|i: int| 0 <= i < to_tag@.len() ==> #[trigger] to_tag@[i] < n,
                forall|i: int|
                    0 < i < to_tag@.len() ==> !marked(*m, #[trigger] to_tag@[i]) && exists|j: int|
                        0 <= j < i && sole_unmarked_child(*m, to_tag@[i], to_tag@[j]),
                forall|i: int, p: usize|
                    #![trigger sole_unmarked_child(*m, p, to_tag@[i])]
                    0 <= i < h && p < n && !marked(*m, p) && sole_unmarked_child(*m, p, to_tag@[i]) ==> to_tag@.contains(p),
                forall|q: int|
                    0 <= q < k && !marked(*m, parents@[q].0) && #[trigger] sole_unmarked_child(*m, parents@[q].0, e)
                        ==> to_tag@.contains(parents@[q].0),
                parents@ == mult_list(m.inc(e)),
                ignoring_visit(*m, l0, e, parents@, 0) == ignoring_visit(*m, to_tag@, e, parents@, k as nat),
            decreases np - k,
        {
            let node = parents[k].0;
            let ghost lk = to_tag@;
            proof {
                lemma_count_contains(m.inc(e), node);
                assert(m.inc(e).contains(node));
                let z = choose|z: int| 0 <= z < m.inc(e).len() && m.inc(e)[z] == node;
                assert(m.inc(e)[z] < n);
            }
            if !m.nodes[node].label.1 {
                match sole_unmarked(m, node) {
                    Some((me, mult)) => {
                        if mult == 1 {
                            proof {
                                assert(sole_unmarked_child(*m, node, me));
                                assert(m.out(node).contains(e));
                                if me != e {
                                    assert(marked(*m, e));
                                    if h > 0 {
                                        assert(!marked(*m, to_tag@[h as int]));
                                    }
                                    assert(e == start);
                                    assert(!sole_unmarked_child(*m, node, me));
                                }
                            }
                            if !contains_id(&to_tag, node) {
                                let ghost t0 = to_tag@;
                                proof {
                                    assert(t0.push(node).no_duplicates());
                                    assert(t0.push(node).to_set().len() == t0.len() + 1) by {
                                        t0.push(node).unique_seq_to_set();
                                    }
                                    assert(t0.push(node).to_set().subset_of(Set::<usize>::range(0, n))) by {
                                        assert forall|x: usize| #[trigger] t0.push(node).to_set().contains(x) implies Set::<usize>::range(0, n).contains(x) by {
                                            let a = choose|a: int| 0 <= a < t0.push(node).len() && t0.push(node)[a] == x;
                                            if a < t0.len() {
                                                assert(t0[a] < n);
                                            }
                                        }
                                    }
                                    vstd::set_lib::range_set_properties::<usize>(0, n);
                                    vstd::set_lib::lemma_len_subset(t0.push(node).to_set(), Set::<usize>::range(0, n));
                                }
                                to_tag.push(node);
                                proof {
                                    assert forall|i: int|
                                        0 < i < to_tag@.len() implies !marked(*m, #[trigger] to_tag@[i]) && exists|j: int|
                                            0 <= j < i && sole_unmarked_child(*m, to_tag@[i], to_tag@[j]) by {
                                        if i < t0.len() {
                                            let j = choose|j: int| 0 <= j < i && sole_unmarked_child(*m, t0[i], t0[j]);
                                            assert(to_tag@[j] == t0[j]);
                                        } else {
                                            assert(to_tag@[h as int] == e);
                                        }
                                    }
                                    assert forall|i: int, p: usize|
                                        #![trigger sole_unmarked_child(*m, p, to_tag@[i])]
                                        0 <= i < h && p < n && !marked(*m, p) && sole_unmarked_child(*m, p, to_tag@[i]) implies to_tag@.contains(p) by {
                                        assert(to_tag@[i] == t0[i]);
                                        assert(t0.contains(p));
                                        let a = choose|a: int| 0 <= a < t0.len() && t0[a] == p;
                                        assert(to_tag@[a] == p);
                                    }
                                    assert forall|q: int|
                                        0 <= q < k + 1 && !marked(*m, parents@[q].0) && #[trigger] sole_unmarked_child(*m, parents@[q].0, e)
                                            implies to_tag@.contains(parents@[q].0) by {
                                        if q < k {
                                            let a = choose|a: int| 0 <= a < t0.len() && t0[a] == parents@[q].0;
                                            assert(to_tag@[a] == parents@[q].0);
                                        } else {
                                            assert(to_tag@[to_tag@.len() - 1] == node);
                                        }
                                    }
                                }
                            }
                        } else {
                            proof {
                                assert forall|c: usize| !sole_unmarked_child(*m, node, c) by {
                                    if sole_unmarked_child(*m, node, c) && c != me {
                                        lemma_count_contains(m.out(node), c);
                                        assert(m.out(node).contains(c));
                                    }
                                }
                            }
                        }
                    },
                    None => {},
                }
            }
            proof {
                let nx = if !marked(*m, node) && sole_unmarked_child(*m, node, e) && !lk.contains(node) {
                    lk.push(node)
                } else {
                    lk
                };
                assert(to_tag@ == nx);
                assert(ignoring_visit(*m, lk, e, parents@, k as nat) == ignoring_visit(*m, nx, e, parents@, (k + 1) as nat));
            }
            k = k + 1;
        }
        proof {
            assert(to_tag@ == ignoring_visit(*m, to_tag@, e, parents@, np as nat));
            assert(ignoring_walk(*m, l0, h as nat) == ignoring_walk(*m, to_tag@, (h + 1) as nat));
            assert forall|i: int, p: usize|
                #![trigger sole_unmarked_child(*m, p, to_tag@[i])]
                0 <= i < h + 1 && p < n && !marked(*m, p) && sole_unmarked_child(*m, p, to_tag@[i]) implies to_tag@.contains(p) by {
                if i == h {
                    assert(to_tag@[i] == e);
                    lemma_count_contains(m.out(p), e);
                    assert(m.out(p).contains(e));
                    assert(m.inc(e).contains(p));
                    lemma_count_contains(m.inc(e), p);
                    let q = choose|q: int| 0 <= q < parents@.len() && parents@[q].0 == p;
                    assert(sole_unmarked_child(*m, parents@[q].0, e));
                }
            }
        }
        h = h + 1;
    }
    proof {
        assert forall|p: usize, x: usize|
            #![trigger sole_unmarked_child(*m, p, x), to_tag@.contains(x)]
            p < m.len() && to_tag@.contains(x) && !marked(*m, p) && sole_unmarked_child(*m, p, x) implies to_tag@.contains(p) by {
            let i = choose|i: int| 0 <= i < to_tag@.len() && to_tag@[i] == x;
            assert(sole_unmarked_child(*m, p, to_tag@[i]));
        }
    }
    to_tag
}

/// How many spine positions before `i` have more parent edges than their threshold.
pub open spec fn overs_before<T>(m: MultiDag<T>, spine: Seq<usize>, i: nat) -> nat
    decreases i, 0nat,
{
    if i == 0 {
        0
    } else {
        overs_before(m, spine, (i - 1) as nat) + if is_over(m, spine, (i - 1) as nat) {
            1nat
        } else {
            0nat
        }
    }
}

/// Spine position `i` has more parent edges than its threshold: 2, plus one for
/// each earlier position over its own threshold.
pub open spec fn is_over<T>(m: MultiDag<T>, spine: Seq<usize>, i: nat) -> bool
    decreases i, 1nat,
{
    m.inc(spine[i as int]).len() > 2 + overs_before(m, spine, i)
}

/// What `spine_splits` lists from position `i` on, when the threshold there is the
/// one that the earlier positions give.
proof fn lemma_spine_splits_from<T>(m: MultiDag<T>, spine: Seq<usize>, i: nat)
    requires
        spine.len() <= usize::MAX,
        i <= spine.len(),
    ensures
        ({
            let r = spine_splits(m, spine, i, 2 + overs_before(m, spine, i));
            &&& forall|k: int|
                0 <= k < r.len() ==> i <= (#[trigger] r[k]).1 < spine.len() && is_over(m, spine, r[k].1 as nat)
                    && first_outside(m.inc(spine[r[k].1 as int]), spine) == Some(r[k].0)
            &&& forall|p: nat|
                i <= p < spine.len() && #[trigger] is_over(m, spine, p) && first_outside(m.inc(spine[p as int]), spine)
                    is Some ==> exists|k: int|
                    0 <= k < r.len() && r[k] == (first_outside(m.inc(spine[p as int]), spine)->0, p as usize)
            &&& forall|k1: int, k2: int| 0 <= k1 < k2 < r.len() ==> (#[trigger] r[k1]).1 < (#[trigger] r[k2]).1
        }),
    decreases spine.len() - i,
{
    if i < spine.len() {
        lemma_spine_splits_from(m, spine, i + 1);
        let nb = 2 + overs_before(m, spine, i);
        let r = spine_splits(m, spine, i, nb);
        let rest = spine_splits(m, spine, i + 1, 2 + overs_before(m, spine, i + 1));
        assert(overs_before(m, spine, i + 1) == overs_before(m, spine, i) + if is_over(m, spine, i) {
            1nat
        } else {
            0nat
        });
        if is_over(m, spine, i) {
            assert(m.inc(spine[i as int]).len() > nb);
            let piece = match first_outside(m.inc(spine[i as int]), spine) {
                Some(x) => seq![(x, i as usize)],
                None => Seq::<(usize, usize)>::empty(),
            };
            assert(r == piece + rest);
            assert forall|k: int| 0 <= k < r.len() implies i <= (#[trigger] r[k]).1 < spine.len() && is_over(
                m,
                spine,
                r[k].1 as nat,
            ) && first_outside(m.inc(spine[r[k].1 as int]), spine) == Some(r[k].0) by {
                if k < piece.len() {
                    assert(r[k] == piece[k]);
                } else {
                    assert(r[k] == rest[k - piece.len()]);
                }
            }
            assert forall|p: nat|
                i <= p < spine.len() && #[trigger] is_over(m, spine, p) && first_outside(m.inc(spine[p as int]), spine)
                    is Some implies exists|k: int|
                0 <= k < r.len() && r[k] == (first_outside(m.inc(spine[p as int]), spine)->0, p as usize) by {
                if p == i {
                    assert(r[0] == piece[0]);
                } else {
                    let k = choose|k: int|
                        0 <= k < rest.len() && rest[k] == (first_outside(m.inc(spine[p as int]), spine)->0, p as usize);
                    assert(r[k + piece.len()] == rest[k]);
                }
            }
            assert forall|k1: int, k2: int| 0 <= k1 < k2 < r.len() implies (#[trigger] r[k1]).1 < (#[trigger] r[k2]).1 by {
                if k1 >= piece.len() {
                    assert(r[k1] == rest[k1 - piece.len()] && r[k2] == rest[k2 - piece.len()]);
                } else {
                    assert(r[k1] == piece[k1]);
                    assert(r[k2] == rest[k2 - piece.len()]);
                }
            }
        } else {
            assert(!(m.inc(spine[i as int]).len() > nb));
            assert(r == rest);
        }
    }
}

/// The splits of the spine, as `all_spine_split` lists them: each spine position
/// with more parent edges than its threshold (2, plus one for each earlier such
/// position) and with a parent off the spine gives exactly one entry, its first
/// parent off the spine and the position; there are no other entries, and they
/// come in order of position.
pub proof fn lemma_spine_splits_exact<T>(m: MultiDag<T>, spine: Seq<usize>)
    requires
        spine.len() <= usize::MAX,
    ensures
        ({
            let r = spine_splits(m, spine, 0, 2);
            &&& forall|k: int|
                0 <= k < r.len() ==> (#[trigger] r[k]).1 < spine.len() && is_over(m, spine, r[k].1 as nat) && first_outside(
                    m.inc(spine[r[k].1 as int]),
                    spine,
                ) == Some(r[k].0)
            &&& forall|p: nat|
                p < spine.len() && #[trigger] is_over(m, spine, p) && first_outside(m.inc(spine[p as int]), spine)
                    is Some ==> exists|k: int|
                    0 <= k < r.len() && r[k] == (first_outside(m.inc(spine[p as int]), spine)->0, p as usize)
            &&& forall|k1: int, k2: int| 0 <= k1 < k2 < r.len() ==> (#[trigger] r[k1]).1 < (#[trigger] r[k2]).1
        }),
{
    lemma_spine_splits_from(m, spine, 0);
    assert(overs_before(m, spine, 0) == 0);
}

/// The first entry of `ps` that is not in `spine`.
pub open spec fn first_outside(ps: Seq<usize>, spine: Seq<usize>) -> Option<usize>
    decreases ps.len(),
{
    if ps.len() == 0 {
        None
    } else if !spine.contains(ps[0]) {
        Some(ps[0])
    } else {
        first_outside(ps.drop_first(), spine)
    }
}

/// The first spine position `i` (from `from` on) whose vertex has more than one
/// parent edge, paired with the first of those parents that is off the spine, if
/// there is one.
pub open spec fn spine_split<T>(m: MultiDag<T>, spine: Seq<usize>, from: nat) -> Option<(usize, usize)>
    decreases spine.len() - from,
{
    if from >= spine.len() {
        None
    } else if m.inc(spine[from as int]).len() > 1 {
        match first_outside(m.inc(spine[from as int]), spine) {
            Some(x) => Some((x, from as usize)),
            None => None,
        }
    } else {
        spine_split(m, spine, from + 1)
    }
}

/// `first_outside` gives the first entry not on the spine.
pub proof fn lemma_first_outside(ps: Seq<usize>, spine: Seq<usize>)
    ensures
        match first_outside(ps, spine) {
            Some(x) => exists|j: int|
                0 <= j < ps.len() && ps[j] == x && !spine.contains(x) && forall|k: int|
                    0 <= k < j ==> spine.contains(#[trigger] ps[k]),
            None => forall|k: int| 0 <= k < ps.len() ==> spine.contains(#[trigger] ps[k]),
        },
    decreases ps.len(),
{
    if ps.len() > 0 && spine.contains(ps[0]) {
        let rest = ps.drop_first();
        lemma_first_outside(rest, spine);
        match first_outside(rest, spine) {
            Some(x) => {
                let j = choose|j: int|
                    0 <= j < rest.len() && rest[j] == x && !spine.contains(x) && forall|k: int|
                        0 <= k < j ==> spine.contains(#[trigger] rest[k]);
                assert(ps[j + 1] == x);
                assert forall|k: int| 0 <= k < j + 1 implies spine.contains(#[trigger] ps[k]) by {
                    if k > 0 {
                        assert(ps[k] == rest[k - 1]);
                    }
                }
            },
            None => {
                assert forall|k: int| 0 <= k < ps.len() implies spine.contains(#[trigger] ps[k]) by {
                    if k > 0 {
                        assert(ps[k] == rest[k - 1]);
                    }
                }
            },
        }
    }
}

/// `spine_split` looks at the first spine position, from `from` on, whose vertex
/// has more than one parent edge: it gives that position and the first of its
/// parents off the spine, or nothing if there is no such position or parent.
pub proof fn lemma_spine_split_first<T>(m: MultiDag<T>, spine: Seq<usize>, from: nat)
    requires
        spine.len() <= usize::MAX,
    ensures
        match spine_split(m, spine, from) {
            Some((x, i)) => {
                &&& from <= i < spine.len()
                &&& m.inc(spine[i as int]).len() > 1
                &&& first_outside(m.inc(spine[i as int]), spine) == Some(x)
                &&& forall|k: int| from <= k < i ==> (#[trigger] m.inc(spine[k])).len() <= 1
            },
            None => forall|i: int|
                from <= i < spine.len() && (#[trigger] m.inc(spine[i])).len() > 1 ==> (exists|k: int|
                    from <= k < i && (#[trigger] m.inc(spine[k])).len() > 1) || first_outside(m.inc(spine[i]), spine)
                    is None,
        },
    decreases spine.len() - from,
{
    if from < spine.len() {
        if m.inc(spine[from as int]).len() <= 1 {
            lemma_spine_split_first(m, spine, from + 1);
            match spine_split(m, spine, from + 1) {
                Some((x, i)) => {
                    assert forall|k: int| from <= k < i implies (#[trigger] m.inc(spine[k])).len() <= 1 by {
                        if k > from {
                            assert(from + 1 <= k);
                        }
                    }
                },
                None => {
                    assert forall|i: int|
                        from <= i < spine.len() && (#[trigger] m.inc(spine[i])).len() > 1 implies (exists|k: int|
                            from <= k < i && (#[trigger] m.inc(spine[k])).len() > 1) || first_outside(
                            m.inc(spine[i]),
                            spine,
                        ) is None by {
                        assert(i != from);
                        if first_outside(m.inc(spine[i]), spine) is Some {
                            let k = choose|k: int| from + 1 <= k < i && (#[trigger] m.inc(spine[k])).len() > 1;
                            assert(from <= k < i);
                        }
                    }
                },
            }
        } else {
            assert((from as usize) as nat == from);
        }
    }
}

/// Walking up the spine from position `i` with threshold `nb`: each vertex with
/// more than `nb` parent edges raises the threshold by one and contributes its
/// first parent off the spine, if any, with its position.
pub open spec fn spine_splits<T>(m: MultiDag<T>, spine: Seq<usize>, i: nat, nb: nat) -> Seq<(usize, usize)>
    decreases spine.len() - i,
{
    if i >= spine.len() {
        Seq::empty()
    } else if m.inc(spine[i as int]).len() > nb {
        (match first_outside(m.inc(spine[i as int]), spine) {
            Some(x) => seq![(x, i as usize)],
            None => Seq::empty(),
        }) + spine_splits(m, spine, i + 1, nb + 1)
    } else {
        spine_splits(m, spine, i + 1, nb)
    }
}

/// The first entry of `ps` that is not in `spine`.
fn find_outside(ps: &Vec<NodeId>, spine: &Vec<NodeId>) -> (r: Option<NodeId>)
    ensures
        r == first_outside(ps@, spine@),
{
    let n = ps.len();
    let mut i: usize = 0;
    assert(ps@.skip(0) =~= ps@);
    while i < n
        invariant
            n == ps@.len(),
            0 <= i <= n,
            first_outside(ps@, spine@) == first_outside(ps@.skip(i as int), spine@),
        decreases n - i,
    {
        assert(ps@.skip(i as int)[0] == ps@[i as int]);
        assert(ps@.skip(i as int).drop_first() =~= ps@.skip(i + 1));
        if !contains_id(spine, ps[i]) {
            return Some(ps[i]);
        }
        i = i + 1;
    }
    assert(ps@.skip(n as int) =~= Seq::<usize>::empty());
    None
}

/// The first split of the spine: see `spine_split`.
pub fn find_spine_split<T>(m: &MultiDag<T>, spine: Vec<NodeId>) -> (r: Option<(NodeId, usize)>)
    requires
        m.wf(),
        forall|i: int| 0 <= i < spine@.len() ==> #[trigger] spine@[i] < m.len(),
    ensures
        r == spine_split(*m, spine@, 0),
{
    let n = spine.len();
    let mut i: usize = 0;
    while i < n
        invariant
            m.wf(),
            n == spine@.len(),
            forall|j: int| 0 <= j < spine@.len() ==> #[trigger] spine@[j] < m.len(),
            0 <= i <= n,
            spine_split(*m, spine@, 0) == spine_split(*m, spine@, i as nat),
        decreases n - i,
    {
        let node = spine[i];
        assert(spine@[i as int] < m.len());
        let parents = m.rev_edges.get(&node).unwrap();
        if parents.len() > 1 {
            let good = find_outside(parents, &spine);
            return match good {
                Some(x) => Some((x, i)),
                None => None,
            };
        }
        i = i + 1;
    }
    None
}

/// The splits of the spine with a rising threshold: see `spine_splits`.
pub fn all_spine_split<T>(m: &MultiDag<T>, spine: &Vec<NodeId>) -> (r: Vec<(NodeId, usize)>)
    requires
        m.wf(),
        forall|i: int| 0 <= i < spine@.len() ==> #[trigger] spine@[i] < m.len(),
    ensures
        r@ == spine_splits(*m, spine@, 0, 2),
        forall|k: int|
            0 <= k < r@.len() ==> (#[trigger] r@[k]).1 < spine@.len() && is_over(*m, spine@, r@[k].1 as nat)
                && first_outside(m.inc(spine@[r@[k].1 as int]), spine@) == Some(r@[k].0),
        forall|p: nat|
            p < spine@.len() && #[trigger] is_over(*m, spine@, p) && first_outside(m.inc(spine@[p as int]), spine@)
                is Some ==> exists|k: int|
                0 <= k < r@.len() && r@[k] == (first_outside(m.inc(spine@[p as int]), spine@)->0, p as usize),
        forall|k1: int, k2: int| 0 <= k1 < k2 < r@.len() ==> (#[trigger] r@[k1]).1 < (#[trigger] r@[k2]).1,
{
    // reading the length shows that it fits in a `usize`
    let _len = spine.len();
    proof {
        lemma_spine_splits_exact(*m, spine@);
    }
    let n = spine.len();
    let mut nb: usize = 2;
    let mut res: Vec<(NodeId, usize)> = Vec::new();
    let mut i: usize = 0;
    while i < n
        invariant
            m.wf(),
            n == spine@.len(),
            forall|j: int| 0 <= j < spine@.len() ==> #[trigger] spine@[j] < m.len(),
            0 <= i <= n,
            spine_splits(*m, spine@, 0, 2) == res@ + spine_splits(*m, spine@, i as nat, nb as nat),
        decreases n - i,
    {
        let node = spine[i];
        assert(spine@[i as int] < m.len());
        let parents = m.rev_edges.get(&node).unwrap();
        if parents.len() > nb {
            let good = find_outside(parents, spine);
            let ghost r0 = res@;
            match good {
                Some(x) => {
                    res.push((x, i));
                },
                None => {},
            }
            proof {
                let piece = match first_outside(m.inc(spine@[i as int]), spine@) {
                    Some(x) => seq![(x, i as usize)],
                    None => Seq::<(usize, usize)>::empty(),
                };
                assert(res@ =~= r0 + piece);
                assert(r0 + (piece + spine_splits(*m, spine@, (i + 1) as nat, (nb + 1) as nat)) =~= res@
                    + spine_splits(*m, spine@, (i + 1) as nat, (nb + 1) as nat));
            }
            nb = nb + 1;
        }
        i = i + 1;
    }
    assert(res@ + spine_splits(*m, spine@, n as nat, nb as nat) =~= res@);
    res
}

/// The vertex just above the first split of the spine (see `spine_splits`).
pub open spec fn split_top<T>(m: MultiDag<T>) -> usize {
    spine_of(m)[spine_splits(m, spine_of(m), 0, 2)[0].1 + 1]
}

/// A copy of `m` in which the vertex just above the first split of the spine and
/// every vertex above it are tagged `true`, the others `false`.
///
/// `m` must have exactly one final vertex, its spine must split, and the split
/// must not be at the top of the spine.
#[verifier::spinoff_prover]
pub fn reconstruct<T: Clone>(m: &MultiDag<T>) -> (r: MultiDag<(T, bool)>)
    requires
        m.wf(),
        m.finals_below(m.len()) == 1,
        spine_splits(*m, spine_of(*m), 0, 2).len() > 0,
        spine_splits(*m, spine_of(*m), 0, 2)[0].1 + 1 < spine_of(*m).len(),
    ensures
        r.nodes@.len() == m.nodes@.len(),
        forall|i: int|
            0 <= i < r.nodes@.len() ==> #[trigger] r.nodes@[i].id == m.nodes@[i].id && cloned::<T>(
                m.nodes@[i].label,
                r.nodes@[i].label.0,
            ) && r.nodes@[i].label.1 == (m.nodes@[i].id == split_top(*m) || is_above(
                *m,
                split_top(*m),
                m.nodes@[i].id,
            )),
        r.edges@ == m.edges@,
        r.rev_edges@ == m.rev_edges@,
        r.root == m.root,
{
    let spine = get_spine(m);
    let splits = all_spine_split(m, &spine);
    let (_, first_split_pos) = splits[0];
    let spine_above_first_split = spine[first_split_pos + 1];
    assert(spine@[first_split_pos + 1] < m.len());
    let mut above_first_split = m.get_above(spine_above_first_split);
    above_first_split.insert(spine_above_first_split);
    let copy = m.clone();
    let ghost c = copy;
    let r = copy.tag_set(&above_first_split);
    assert forall|i: int| 0 <= i < r.nodes@.len() implies #[trigger] r.nodes@[i].id == m.nodes@[i].id && cloned::<T>(
        m.nodes@[i].label,
        r.nodes@[i].label.0,
    ) && r.nodes@[i].label.1 == (m.nodes@[i].id == split_top(*m) || is_above(*m, split_top(*m), m.nodes@[i].id)) by {
        assert(r.nodes@[i].id == c.nodes@[i].id);
        assert(c.nodes@[i].id == m.nodes@[i].id);
    }
    r
}

} // verus!
