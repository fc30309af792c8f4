use std::collections::HashSet;

use vstd::prelude::*;

use crate::counting::{count_of, is_multiplicity_list, lemma_count_contains};
use crate::dag::{MultiDag, NodeId};

verus! {

broadcast use {vstd::std_specs::hash::group_hash_axioms, vstd::set_lib::range_set_properties};

/// The vertices one step from `x`: its parents when `up`, its children otherwise
/// (with multiplicity).
pub open spec fn next<T>(d: MultiDag<T>, up: bool, x: usize) -> Seq<usize> {
    if up {
        d.inc(x)
    } else {
        d.out(x)
    }
}

/// `p` follows edges (towards parents when `up`, towards children otherwise).
pub open spec fn is_walk<T>(d: MultiDag<T>, up: bool, p: Seq<usize>) -> bool {
    forall|i: int| 0 <= i < p.len() - 1 ==> #[trigger] next(d, up, p[i]).contains(p[i + 1])
}

/// `x` is reached from `s` by a walk of at least one step.
pub open spec fn reaches<T>(d: MultiDag<T>, up: bool, s: usize, x: usize) -> bool {
    exists|p: Seq<usize>| #![trigger is_walk(d, up, p)] p.len() >= 2 && p[0] == s && p.last() == x && is_walk(d, up, p)
}

/// `x` lies strictly below `s`: a path of edges leads from `s` down to `x`.
pub open spec fn is_below<T>(d: MultiDag<T>, s: usize, x: usize) -> bool {
    reaches(d, false, s, x)
}

/// `x` lies strictly above `s`: a path of reverse edges leads from `s` up to `x`.
pub open spec fn is_above<T>(d: MultiDag<T>, s: usize, x: usize) -> bool {
    reaches(d, true, s, x)
}

/// `s` holds every vertex one step from `start` and every vertex one step from
/// one of its members.
pub open spec fn closed_from<T>(d: MultiDag<T>, up: bool, start: usize, s: Set<usize>) -> bool {
    &&& forall|c: usize| #[trigger] next(d, up, start).contains(c) ==> s.contains(c)
    &&& forall|x: usize, c: usize| s.contains(x) && #[trigger] next(d, up, x).contains(c) ==> s.contains(c)
}

/// The end of every walk of at least one step from `start` lies in a set that is
/// closed from `start`.
proof fn lemma_walk_end_in_closed<T>(d: MultiDag<T>, up: bool, start: usize, s: Set<usize>, p: Seq<usize>)
    requires
        closed_from(d, up, start, s),
        is_walk(d, up, p),
        p.len() >= 2,
        p[0] == start,
    ensures
        s.contains(p.last()),
    decreases p.len(),
{
    let q = p.drop_last();
    let k = p.len() - 2;
    assert(next(d, up, p[k]).contains(p[k + 1]));
    if p.len() > 2 {
        assert(is_walk(d, up, q)) by {
            assert forall|i: int| 0 <= i < q.len() - 1 implies #[trigger] next(d, up, q[i]).contains(q[i + 1]) by {
                assert(next(d, up, p[i]).contains(p[i + 1]));
            }
        }
        lemma_walk_end_in_closed(d, up, start, s, q);
    }
}

/// A walk extended by one more step.
proof fn lemma_walk_push<T>(d: MultiDag<T>, up: bool, p: Seq<usize>, c: usize)
    requires
        is_walk(d, up, p),
        p.len() >= 1,
        next(d, up, p.last()).contains(c),
    ensures
        is_walk(d, up, p.push(c)),
{
    let q = p.push(c);
    assert forall|i: int| 0 <= i < q.len() - 1 implies #[trigger] next(d, up, q[i]).contains(q[i + 1]) by {
        if i < p.len() - 1 {
            assert(next(d, up, p[i]).contains(p[i + 1]));
        }
    }
}

/// Every vertex of a walk that starts at an existing vertex exists.
proof fn lemma_walk_in_range<T>(d: MultiDag<T>, up: bool, p: Seq<usize>)
    requires
        d.wf(),
        is_walk(d, up, p),
        p.len() >= 1,
        p[0] < d.len(),
    ensures
        forall|i: int| 0 <= i < p.len() ==> #[trigger] p[i] < d.len(),
    decreases p.len(),
{
    if p.len() > 1 {
        let q = p.drop_last();
        assert(is_walk(d, up, q)) by {
            assert forall|i: int| 0 <= i < q.len() - 1 implies #[trigger] next(d, up, q[i]).contains(q[i + 1]) by {
                assert(next(d, up, p[i]).contains(p[i + 1]));
            }
        }
        lemma_walk_in_range(d, up, q);
        let k = p.len() - 2;
        assert(next(d, up, p[k]).contains(p[k + 1]));
        assert(q[k] < d.len());
        let j = choose|j: int| 0 <= j < next(d, up, p[k]).len() && next(d, up, p[k])[j] == p[k + 1];
        if up {
            assert(d.inc(p[k])[j] < d.len());
        } else {
            assert(d.out(p[k])[j] < d.len());
        }
        assert forall|i: int| 0 <= i < p.len() implies #[trigger] p[i] < d.len() by {
            if i < p.len() - 1 {
                assert(q[i] < d.len());
            }
        }
    }
}

/// In a well-formed DAG, a walk read backwards follows the edges the other way.
proof fn lemma_walk_reverse<T>(d: MultiDag<T>, up: bool, p: Seq<usize>)
    requires
        d.wf(),
        is_walk(d, up, p),
        p.len() >= 1,
        p[0] < d.len(),
    ensures
        is_walk(d, !up, p.reverse()),
{
    lemma_walk_in_range(d, up, p);
    let q = p.reverse();
    let down = !up;
    assert forall|i: int| 0 <= i < q.len() - 1 implies #[trigger] next(d, down, q[i]).contains(q[i + 1]) by {
        let k = p.len() - 2 - i;
        assert(next(d, up, p[k]).contains(p[k + 1]));
        assert(q[i] == p[k + 1]);
        assert(q[i + 1] == p[k]);
        assert(p[k] < d.len() && p[k + 1] < d.len());
        if up {
            assert(d.inc(p[k]).contains(p[k + 1]));
            assert(d.out(p[k + 1]).contains(p[k]));
        } else {
            assert(d.out(p[k]).contains(p[k + 1]));
            assert(d.inc(p[k + 1]).contains(p[k]));
        }
    }
}

/// In a well-formed DAG, `x` lies strictly above `s` exactly when `s` lies strictly
/// below `x`.
pub proof fn lemma_above_below_dual<T>(d: MultiDag<T>, s: usize, x: usize)
    requires
        d.wf(),
        s < d.len(),
        x < d.len(),
    ensures
        is_above(d, s, x) <==> is_below(d, x, s),
{
    if is_above(d, s, x) {
        let p = choose|p: Seq<usize>| #![trigger is_walk(d, true, p)] p.len() >= 2 && p[0] == s && p.last() == x && is_walk(d, true, p);
        lemma_walk_reverse(d, true, p);
        assert(is_walk(d, false, p.reverse()));
        assert(p.reverse()[0] == x);
        assert(p.reverse().last() == s);
    }
    if is_below(d, x, s) {
        let p = choose|p: Seq<usize>| #![trigger is_walk(d, false, p)] p.len() >= 2 && p[0] == x && p.last() == s && is_walk(d, false, p);
        lemma_walk_reverse(d, false, p);
        assert(is_walk(d, true, p.reverse()));
        assert(p.reverse()[0] == s);
        assert(p.reverse().last() == x);
    }
}

impl<T> MultiDag<T> {
    /// The vertices reached from `start` by at least one step, found breadth first.
    fn closure(&self, start: NodeId, up: bool) -> (r: HashSet<NodeId>)
        requires
            self.wf(),
            start < self.len(),
        ensures
            r@ == Set::new(|x: usize| reaches(*self, up, start, x)),
    {
        let n = self.nodes.len();
        let mut found: HashSet<NodeId> = HashSet::new();
        let mut queue: Vec<NodeId> = Vec::new();
        queue.push(start);
        let mut h: usize = 0;
        while h < queue.len()
            invariant
                n == self.len(),
                self.wf(),
                start < n,
                queue@.len() >= 1,
                queue@[0] == start,
                h <= queue@.len(),
                queue@.len() == found@.len() + 1,
                found@.finite(),
                forall|i: int| 0 <= i < queue@.len() ==> #[trigger] queue@[i] < n,
                forall|i: int| 1 <= i < queue@.len() ==> found@.contains(#[trigger] queue@[i]),
                forall|x: usize| #[trigger] found@.contains(x) ==> x < n && reaches(*self, up, start, x)
                    && exists|i: int| 1 <= i < queue@.len() && queue@[i] == x,
                forall|i: int, c: usize|
                    0 <= i < h && #[trigger] next(*self, up, queue@[i]).contains(c) ==> found@.contains(c),
            decreases n + 1 - h,
        {
            proof {
                vstd::set_lib::lemma_len_subset(found@, Set::<usize>::range(0, n));
            }
            let e = queue[h];
            let ch = if up {
                self.parents(e)
            } else {
                self.children(e)
            };
            assert(is_multiplicity_list(ch@, next(*self, up, e)));
            let m = ch.len();
            let mut t: usize = 0;
            while t < m
                invariant
                    n == self.len(),
                    self.wf(),
                    start < n,
                    m == ch@.len(),
                    is_multiplicity_list(ch@, next(*self, up, e)),
                    h < queue@.len(),
                    e == queue@[h as int],
                    0 <= t <= m,
                    queue@.len() >= 1,
                    queue@[0] == start,
                    queue@.len() == found@.len() + 1,
                    found@.finite(),
                    forall|i: int| 0 <= i < queue@.len() ==> #[trigger] queue@[i] < n,
                    forall|i: int| 1 <= i < queue@.len() ==> found@.contains(#[trigger] queue@[i]),
                    forall|x: usize| #[trigger] found@.contains(x) ==> x < n && reaches(*self, up, start, x)
                        && exists|i: int| 1 <= i < queue@.len() && queue@[i] == x,
                    forall|i: int, c: usize|
                        0 <= i < h && #[trigger] next(*self, up, queue@[i]).contains(c) ==> found@.contains(c),
                    forall|u: int| 0 <= u < t ==> found@.contains(#[trigger] ch@[u].0),
                decreases m - t,
            {
                let c = ch[t].0;
                proof {
                    lemma_count_contains(next(*self, up, e), c);
                    assert(count_of(next(*self, up, e), ch@[t as int].0) > 0);
                    assert(next(*self, up, e).contains(c));
                    if up {
                        assert(self.inc(e).contains(c));
                        let k = choose|k: int| 0 <= k < self.inc(e).len() && self.inc(e)[k] == c;
                        assert(self.inc(e)[k] < n);
                    } else {
                        assert(self.out(e).contains(c));
                        let k = choose|k: int| 0 <= k < self.out(e).len() && self.out(e)[k] == c;
                        assert(self.out(e)[k] < n);
                    }
                }
                let ghost q0 = queue@;
                let ghost f0 = found@;
                if found.insert(c) {
                    queue.push(c);
                    proof {
                        let w: Seq<usize> = if h == 0 {
                            seq![start, c]
                        } else {
                            assert(found@.contains(q0[h as int]));
                            choose|p: Seq<usize>| #![trigger is_walk(*self, up, p)] p.len() >= 2 && p[0] == start && p.last() == e && is_walk(*self, up, p)
                        };
                        if h == 0 {
                            assert(next(*self, up, w[0]).contains(w[1]));
                            assert(is_walk(*self, up, w));
                        } else {
                            lemma_walk_push(*self, up, w, c);
                            assert(w.push(c).last() == c);
                            assert(is_walk(*self, up, w.push(c)));
                        }
                        assert forall|x: usize| #[trigger] found@.contains(x) implies x < n && reaches(*self, up, start, x)
                            && exists|i: int| 1 <= i < queue@.len() && queue@[i] == x by {
                            if x != c {
                                assert(f0.contains(x));
                                let i = choose|i: int| 1 <= i < q0.len() && q0[i] == x;
                                assert(queue@[i] == x);
                            } else {
                                assert(queue@[queue@.len() - 1] == c);
                                if h != 0 {
                                    assert(is_walk(*self, up, w.push(c)));
                                }
                            }
                        }
                        assert forall|i: int| 1 <= i < queue@.len() implies found@.contains(#[trigger] queue@[i]) by {
                            if i < q0.len() {
                                assert(q0[i] == queue@[i]);
                            }
                        }
                    }
                } else {
                    proof {
                        assert(found@ == f0);
                    }
                }
                t = t + 1;
            }
            proof {
                assert forall|c: usize| #[trigger] next(*self, up, e).contains(c) implies found@.contains(c) by {
                    lemma_count_contains(next(*self, up, e), c);
                    let u = choose|u: int| 0 <= u < ch@.len() && ch@[u].0 == c;
                    assert(found@.contains(ch@[u].0));
                }
            }
            h = h + 1;
        }
        proof {
            assert forall|x: usize, c: usize| found@.contains(x) && #[trigger] next(*self, up, x).contains(c) implies found@.contains(c) by {
                let i = choose|i: int| 1 <= i < queue@.len() && queue@[i] == x;
                assert(next(*self, up, queue@[i]).contains(c));
            }
            assert forall|c: usize| #[trigger] next(*self, up, start).contains(c) implies found@.contains(c) by {
                assert(next(*self, up, queue@[0]).contains(c));
            }
            assert(closed_from(*self, up, start, found@));
            assert forall|x: usize| #[trigger] reaches(*self, up, start, x) implies found@.contains(x) by {
                let p = choose|p: Seq<usize>| #![trigger is_walk(*self, up, p)] p.len() >= 2 && p[0] == start && p.last() == x && is_walk(*self, up, p);
                lemma_walk_end_in_closed(*self, up, start, found@, p);
            }
            assert(found@ =~= Set::new(|x: usize| reaches(*self, up, start, x)));
        }
        found
    }

    /// The vertices strictly above `start`: those from which a path of edges leads to it.
    pub fn get_above(&self, start: NodeId) -> (r: HashSet<NodeId>)
        requires
            self.wf(),
            start < self.len(),
        ensures
            r@ == Set::new(|x: usize| is_above(*self, start, x)),
    {
        self.closure(start, true)
    }

    /// The vertices strictly below `start`: those reached from it by a path of edges.
    pub fn get_below(&self, start: NodeId) -> (r: HashSet<NodeId>)
        requires
            self.wf(),
            start < self.len(),
        ensures
            r@ == Set::new(|x: usize| is_below(*self, start, x)),
    {
        self.closure(start, false)
    }
}

} // verus!
