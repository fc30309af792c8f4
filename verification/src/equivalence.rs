use vstd::prelude::*;

use crate::counting::{count_of, is_multiplicity_list, multiplicities};
use crate::dag::{MultiDag, NodeId};
use crate::tree::{Shape, Tree};
use vstd::std_specs::cmp::PartialEqSpec;

verus! {

broadcast use vstd::std_specs::hash::group_hash_axioms;

/// The multiplicity list of `s`: its values, each once, increasing, with their counts.
pub open spec fn mult_list(s: Seq<usize>) -> Seq<(usize, usize)> {
    choose|r: Seq<(usize, usize)>| is_multiplicity_list(r, s)
}


/// A value occurs at most as often as the sequence is long.
proof fn lemma_count_le_len(s: Seq<usize>, x: usize)
    ensures
        count_of(s, x) <= s.len(),
    decreases s.len(),
{
    if s.len() > 0 {
        lemma_count_le_len(s.drop_last(), x);
    }
}

/// The first position from `j` on whose key is above `x`, in a list whose keys
/// before `j` are below `x` and none of which is `x`.
proof fn key_split(r: Seq<(usize, usize)>, x: usize, j: int) -> (p: int)
    requires
        0 <= j <= r.len(),
        forall|k: int| 0 <= k < j ==> (#[trigger] r[k]).0 < x,
        forall|k: int| 0 <= k < r.len() ==> (#[trigger] r[k]).0 != x,
    ensures
        j <= p <= r.len(),
        forall|k: int| 0 <= k < p ==> (#[trigger] r[k]).0 < x,
        p == r.len() || r[p].0 > x,
    decreases r.len() - j,
{
    if j == r.len() || r[j].0 > x {
        j
    } else {
        key_split(r, x, j + 1)
    }
}

/// A multiplicity list of a sequence that fits in memory.
proof fn mult_list_build(s: Seq<usize>) -> (r: Seq<(usize, usize)>)
    requires
        s.len() <= usize::MAX,
    ensures
        is_multiplicity_list(r, s),
    decreases s.len(),
{
    if s.len() == 0 {
        Seq::empty()
    } else {
        let d = s.drop_last();
        let x = s.last();
        let r0 = mult_list_build(d);
        assert(s =~= d.push(x));
        assert forall|y: usize| #[trigger] count_of(s, y) == count_of(d, y) + if y == x {
            1nat
        } else {
            0nat
        } by {}
        if exists|i: int| 0 <= i < r0.len() && r0[i].0 == x {
            let i = choose|i: int| 0 <= i < r0.len() && r0[i].0 == x;
            lemma_count_le_len(d, x);
            let r = r0.update(i, (x, (r0[i].1 + 1) as usize));
            assert forall|y: usize| #[trigger] count_of(s, y) > 0 implies exists|k: int| 0 <= k < r.len() && r[k].0 == y by {
                if y == x {
                    assert(r[i].0 == x);
                } else {
                    let k = choose|k: int| 0 <= k < r0.len() && r0[k].0 == y;
                    assert(r[k].0 == y);
                }
            }
            assert forall|k: int| 0 <= k < r.len() implies r[k].1 == count_of(s, r[k].0) && r[k].1 > 0 by {
                if k != i {
                    assert(r0[k].0 != x);
                }
            }
            r
        } else {
            assert(count_of(d, x) == 0) by {
                if count_of(d, x) > 0 {
                    let k = choose|k: int| 0 <= k < r0.len() && r0[k].0 == x;
                }
            }
            let p = key_split(r0, x, 0);
            assert forall|k: int| p <= k < r0.len() implies (#[trigger] r0[k]).0 > x by {
                if k > p {
                    assert(r0[p].0 < r0[k].0);
                }
            }
            let r = r0.take(p) + seq![(x, 1usize)] + r0.skip(p);
            assert forall|k: int| 0 <= k < r.len() implies #[trigger] r[k] == if k < p {
                r0[k]
            } else if k == p {
                (x, 1usize)
            } else {
                r0[k - 1]
            } by {}
            assert forall|a: int, b: int| 0 <= a < b < r.len() implies r[a].0 < r[b].0 by {
                assert(r[a] == if a < p { r0[a] } else if a == p { (x, 1usize) } else { r0[a - 1] });
                assert(r[b] == if b < p { r0[b] } else if b == p { (x, 1usize) } else { r0[b - 1] });
            }
            assert forall|k: int| 0 <= k < r.len() implies r[k].1 == count_of(s, r[k].0) && r[k].1 > 0 by {
                assert(r[k] == if k < p { r0[k] } else if k == p { (x, 1usize) } else { r0[k - 1] });
            }
            assert forall|y: usize| #[trigger] count_of(s, y) > 0 implies exists|k: int| 0 <= k < r.len() && r[k].0 == y by {
                if y == x {
                    assert(r[p] == (x, 1usize));
                } else {
                    let k = choose|k: int| 0 <= k < r0.len() && r0[k].0 == y;
                    if k < p {
                        assert(r[k] == r0[k]);
                    } else {
                        assert(r[k + 1] == r0[k]);
                    }
                }
            }
            r
        }
    }
}

/// Every sequence that fits in memory has its multiplicity list, and the list has
/// one entry per distinct value.
pub proof fn lemma_mult_list_len(s: Seq<usize>)
    requires
        s.len() <= usize::MAX,
    ensures
        is_multiplicity_list(mult_list(s), s),
        mult_list(s).len() == s.to_set().len(),
{
    let r0 = mult_list_build(s);
    let r = mult_list(s);
    assert(is_multiplicity_list(r, s));
    let keys = r.map_values(|e: (usize, usize)| e.0);
    assert(keys.no_duplicates()) by {
        assert forall|i: int, j: int| 0 <= i < keys.len() && 0 <= j < keys.len() && i != j implies keys[i] != keys[j] by {
            if i < j {
                assert(r[i].0 < r[j].0);
            } else {
                assert(r[j].0 < r[i].0);
            }
        }
    }
    keys.unique_seq_to_set();
    assert(keys.to_set() =~= s.to_set()) by {
        assert forall|y: usize| keys.to_set().contains(y) <==> s.to_set().contains(y) by {
            crate::counting::lemma_count_contains(s, y);
            if keys.contains(y) {
                let k = choose|k: int| 0 <= k < keys.len() && keys[k] == y;
                assert(r[k].1 == count_of(s, r[k].0) && r[k].1 > 0);
            }
            if s.contains(y) {
                let k = choose|k: int| 0 <= k < r.len() && r[k].0 == y;
                assert(keys[k] == y);
            }
        }
    }
}

/// Whether `x` is a key of `r`.
pub open spec fn has_key(r: Seq<(usize, usize)>, x: usize) -> bool {
    exists|i: int| 0 <= i < r.len() && r[i].0 == x
}

/// Two multiplicity lists of the same sequence are equal.
pub proof fn lemma_mult_list_unique(r1: Seq<(usize, usize)>, r2: Seq<(usize, usize)>, s: Seq<usize>)
    requires
        is_multiplicity_list(r1, s),
        is_multiplicity_list(r2, s),
    ensures
        r1 == r2,
{
    assert forall|x: usize| #[trigger] has_key(r1, x) <==> has_key(r2, x) by {
        if exists|i: int| 0 <= i < r1.len() && r1[i].0 == x {
            let i = choose|i: int| 0 <= i < r1.len() && r1[i].0 == x;
            assert(count_of(s, x) > 0);
        }
        if exists|i: int| 0 <= i < r2.len() && r2[i].0 == x {
            let i = choose|i: int| 0 <= i < r2.len() && r2[i].0 == x;
            assert(count_of(s, x) > 0);
        }
    }
    lemma_increasing_keys_equal(r1, r2);
    assert forall|i: int| 0 <= i < r1.len() implies r1[i] == r2[i] by {
        assert(r1[i].1 == count_of(s, r1[i].0));
        assert(r2[i].1 == count_of(s, r2[i].0));
    }
    assert(r1 =~= r2);
}

/// Two strictly increasing key sequences with the same keys agree position by position.
proof fn lemma_increasing_keys_equal(r1: Seq<(usize, usize)>, r2: Seq<(usize, usize)>)
    requires
        forall|i: int, j: int| 0 <= i < j < r1.len() ==> r1[i].0 < r1[j].0,
        forall|i: int, j: int| 0 <= i < j < r2.len() ==> r2[i].0 < r2[j].0,
        forall|x: usize| #[trigger] has_key(r1, x) <==> has_key(r2, x),
    ensures
        r1.len() == r2.len(),
        forall|i: int| 0 <= i < r1.len() ==> r1[i].0 == r2[i].0,
    decreases r1.len() + r2.len(),
{
    if r1.len() > 0 && r2.len() > 0 {
        let x1 = r1[0].0;
        let x2 = r2[0].0;
        assert(has_key(r1, x1));
        let j2 = choose|i: int| 0 <= i < r2.len() && #[trigger] r2[i].0 == x1;
        assert(has_key(r2, x2));
        assert(has_key(r1, x2));
        let j1 = choose|i: int| 0 <= i < r1.len() && r1[i].0 == x2;
        assert(x1 == x2) by {
            if j2 > 0 { assert(x2 < x1); }
            if j1 > 0 { assert(x1 < x2); }
        }
        let t1 = r1.drop_first();
        let t2 = r2.drop_first();
        assert forall|x: usize| #[trigger] has_key(t1, x) <==> has_key(t2, x) by {
            if exists|i: int| 0 <= i < t1.len() && t1[i].0 == x {
                let i = choose|i: int| 0 <= i < t1.len() && t1[i].0 == x;
                assert(r1[i + 1].0 == x);
                assert(x > x1);
                assert(has_key(r1, x));
                assert(has_key(r2, x));
                let k = choose|k: int| 0 <= k < r2.len() && #[trigger] r2[k].0 == x;
                assert(k != 0);
                assert(t2[k - 1].0 == x);
            }
            if exists|i: int| 0 <= i < t2.len() && #[trigger] t2[i].0 == x {
                let i = choose|i: int| 0 <= i < t2.len() && #[trigger] t2[i].0 == x;
                assert(r2[i + 1].0 == x);
                assert(x > x2);
                assert(has_key(r2, x));
                assert(has_key(r1, x));
                let k = choose|k: int| 0 <= k < r1.len() && r1[k].0 == x;
                assert(k != 0);
                assert(t1[k - 1].0 == x);
            }
        }
        lemma_increasing_keys_equal(t1, t2);
        assert forall|i: int| 0 <= i < r1.len() implies r1[i].0 == r2[i].0 by {
            if i > 0 {
                assert(t1[i - 1].0 == t2[i - 1].0);
            }
        }
    } else if r1.len() > 0 {
        assert(has_key(r1, r1[0].0));
        assert(has_key(r2, r1[0].0));
    } else if r2.len() > 0 {
        assert(has_key(r2, r2[0].0));
        assert(has_key(r1, r2[0].0));
    }
}


/// The children of `u` in `d`, with multiplicity (none where the edge map has no
/// entry for `u`).
pub open spec fn kids(d: MultiDag<Tree>, u: usize) -> Seq<usize> {
    if d.edges@.contains_key(u) {
        d.edges@[u]@
    } else {
        Seq::empty()
    }
}

/// The root and every edge of `d` lead to vertices of `d`.
pub open spec fn closed(d: MultiDag<Tree>) -> bool {
    &&& d.root < d.len()
    &&& forall|u: usize, j: int| u < d.len() && 0 <= j < kids(d, u).len() ==> #[trigger] kids(d, u)[j] < d.len()
}

/// `phi` sends the vertices `0..phi.len()` to distinct vertices below `n`.
pub open spec fn injective_into(phi: Seq<usize>, n: nat) -> bool {
    &&& forall|i: int| 0 <= i < phi.len() ==> #[trigger] phi[i] < n
    &&& forall|i: int, j: int| 0 <= i < j < phi.len() ==> phi[i] != phi[j]
}

/// Among the vertices `0..phi.len()` of `d1`, `phi` keeps the number of edges from
/// each vertex to each vertex, and sends the root of `d1`, if it is among them, to
/// the root of `d2`.
pub open spec fn keeps_edges(d1: MultiDag<Tree>, d2: MultiDag<Tree>, phi: Seq<usize>) -> bool {
    &&& forall|u: usize, v: usize|
        u < phi.len() && v < phi.len() ==> #[trigger] count_of(kids(d1, u), v) == count_of(
            kids(d2, phi[u as int]),
            phi[v as int],
        )
    &&& d1.root < phi.len() ==> phi[d1.root as int] == d2.root
}

/// `phi` is an isomorphism of `d1` onto `d2`: a one-to-one map of the vertices of
/// `d1` onto those of `d2` that sends root to root and keeps the number of edges
/// between any two vertices.
pub open spec fn is_isomorphism(d1: MultiDag<Tree>, d2: MultiDag<Tree>, phi: Seq<usize>) -> bool {
    &&& d1.len() == d2.len()
    &&& closed(d1)
    &&& closed(d2)
    &&& phi.len() == d1.len()
    &&& injective_into(phi, d2.len())
    &&& keeps_edges(d1, d2, phi)
}

/// `d1` and `d2` are the same graph: some isomorphism maps one onto the other.
pub open spec fn dag_iso(d1: MultiDag<Tree>, d2: MultiDag<Tree>) -> bool {
    exists|phi: Seq<usize>| #[trigger] is_isomorphism(d1, d2, phi)
}

/// The images `pm` of the first vertices can be the start of an isomorphism: they
/// are distinct vertices of `d2` and keep the edges among themselves.
pub open spec fn partial_ok(d1: MultiDag<Tree>, d2: MultiDag<Tree>, pm: Seq<usize>) -> bool {
    &&& pm.len() <= d1.len()
    &&& injective_into(pm, d2.len())
    &&& keeps_edges(d1, d2, pm)
}

/// Some isomorphism of `d1` onto `d2` begins with the images `pm`.
pub open spec fn iso_extends(d1: MultiDag<Tree>, d2: MultiDag<Tree>, pm: Seq<usize>) -> bool {
    exists|phi: Seq<usize>| #[trigger] is_isomorphism(d1, d2, phi) && phi.take(pm.len() as int) == pm
}

proof fn lemma_iso_prefix_ok(d1: MultiDag<Tree>, d2: MultiDag<Tree>, phi: Seq<usize>, k: int)
    requires
        is_isomorphism(d1, d2, phi),
        0 <= k <= phi.len(),
    ensures
        partial_ok(d1, d2, phi.take(k)),
{
    let q = phi.take(k);
    assert forall|u: usize, v: usize| u < q.len() && v < q.len() implies #[trigger] count_of(kids(d1, u), v) == count_of(
        kids(d2, q[u as int]),
        q[v as int],
    ) by {
        assert(count_of(kids(d1, u), v) == count_of(kids(d2, phi[u as int]), phi[v as int]));
    }
    assert forall|i: int, j: int| 0 <= i < j < q.len() implies q[i] != q[j] by {
        assert(phi[i] != phi[j]);
    }
}

/// Number of times `x` occurs in `v`.
fn count_in(v: &Vec<usize>, x: usize) -> (r: usize)
    ensures
        r == count_of(v@, x),
{
    let mut r: usize = 0;
    let mut i: usize = 0;
    assert(v@.take(0) =~= Seq::<usize>::empty());
    while i < v.len()
        invariant
            0 <= i <= v@.len(),
            r == count_of(v@.take(i as int), x),
            r <= i,
        decreases v@.len() - i,
    {
        assert(v@.take(i + 1).drop_last() =~= v@.take(i as int));
        assert(v@.take(i + 1).last() == v@[i as int]);
        if v[i] == x {
            r = r + 1;
        }
        i = i + 1;
    }
    assert(v@.take(v@.len() as int) =~= v@);
    r
}

impl MultiDag<Tree> {
    /// Number of edges from `u` to `x`.
    fn kids_count(&self, u: usize, x: usize) -> (r: usize)
        ensures
            r == count_of(kids(*self, u), x),
    {
        match self.edges.get(&u) {
            Some(v) => count_in(v, x),
            None => 0,
        }
    }

    /// Whether the root and every edge lead to vertices of the DAG.
    fn check_closed(&self) -> (r: bool)
        ensures
            r == closed(*self),
    {
        let n = self.nodes.len();
        if self.root >= n {
            return false;
        }
        let mut u: usize = 0;
        while u < n
            invariant
                n == self.len(),
                self.root < n,
                0 <= u <= n,
                forall|w: usize, j: int| w < u && 0 <= j < kids(*self, w).len() ==> #[trigger] kids(*self, w)[j] < n,
            decreases n - u,
        {
            match self.edges.get(&u) {
                Some(v) => {
                    let mut j: usize = 0;
                    while j < v.len()
                        invariant
                            n == self.len(),
                            0 <= u < n,
                            self.edges@.contains_key(u),
                            v@ == kids(*self, u),
                            0 <= j <= v@.len(),
                            forall|k: int| 0 <= k < j ==> #[trigger] v@[k] < n,
                        decreases v@.len() - j,
                    {
                        if v[j] >= n {
                            return false;
                        }
                        j = j + 1;
                    }
                },
                None => {},
            }
            u = u + 1;
        }
        true
    }

    /// Whether sending the next vertex of `self` to `c` keeps the images consistent.
    fn fits(&self, other: &MultiDag<Tree>, pm: &Vec<usize>, c: usize) -> (r: bool)
        requires
            self.len() == other.len(),
            partial_ok(*self, *other, pm@),
            pm@.len() < self.len(),
        ensures
            r == partial_ok(*self, *other, pm@.push(c)),
    {
        let n = other.nodes.len();
        let i = pm.len();
        let ghost q = pm@.push(c);
        if c >= n {
            assert(!injective_into(q, other.len())) by {
                assert(q[i as int] == c);
            }
            return false;
        }
        if i == self.root && c != other.root {
            assert(q[self.root as int] == c);
            return false;
        }
        let mut u: usize = 0;
        while u < i
            invariant
                n == other.len(),
                i == pm@.len(),
                i < self.len(),
                c < n,
                q == pm@.push(c),
                partial_ok(*self, *other, pm@),
                0 <= u <= i,
                forall|k: int| 0 <= k < u ==> #[trigger] pm@[k] != c,
                forall|w: usize| w < u ==> #[trigger] count_of(kids(*self, w), i as usize) == count_of(kids(*other, pm@[w as int]), c)
                    && count_of(kids(*self, i as usize), w) == count_of(kids(*other, c), pm@[w as int]),
            decreases i - u,
        {
            let pu = pm[u];
            if pu == c {
                assert(q[u as int] == q[i as int]);
                return false;
            }
            if self.kids_count(u, i) != other.kids_count(pu, c) {
                assert(q[u as int] == pu && q[i as int] == c);
                assert(count_of(kids(*self, u), i) != count_of(kids(*other, q[u as int]), q[i as int]));
                return false;
            }
            if self.kids_count(i, u) != other.kids_count(c, pu) {
                assert(q[u as int] == pu && q[i as int] == c);
                assert(count_of(kids(*self, i), u) != count_of(kids(*other, q[i as int]), q[u as int]));
                return false;
            }
            u = u + 1;
        }
        if self.kids_count(i, i) != other.kids_count(c, c) {
            assert(q[i as int] == c);
            assert(count_of(kids(*self, i), i) != count_of(kids(*other, q[i as int]), q[i as int]));
            return false;
        }
        proof {
            assert forall|a: int| 0 <= a < q.len() implies #[trigger] q[a] < other.len() by {
                if a < i {
                    assert(q[a] == pm@[a]);
                }
            }
            assert forall|a: int, b: int| 0 <= a < b < q.len() implies q[a] != q[b] by {
                if b < i {
                    assert(q[a] == pm@[a] && q[b] == pm@[b]);
                } else {
                    assert(q[a] == pm@[a] && q[b] == c);
                }
            }
            assert forall|x: usize, y: usize| x < q.len() && y < q.len() implies #[trigger] count_of(kids(*self, x), y)
                == count_of(kids(*other, q[x as int]), q[y as int]) by {
                if x < i && y < i {
                    assert(q[x as int] == pm@[x as int] && q[y as int] == pm@[y as int]);
                    assert(count_of(kids(*self, x), y) == count_of(kids(*other, pm@[x as int]), pm@[y as int]));
                } else if x < i {
                    assert(y == i);
                    assert(q[x as int] == pm@[x as int] && q[y as int] == c);
                    assert(count_of(kids(*self, x), i as usize) == count_of(kids(*other, pm@[x as int]), c));
                } else if y < i {
                    assert(x == i);
                    assert(q[y as int] == pm@[y as int] && q[x as int] == c);
                    assert(count_of(kids(*self, y), i as usize) == count_of(kids(*other, pm@[y as int]), c));
                    assert(count_of(kids(*self, i as usize), y) == count_of(kids(*other, c), pm@[y as int]));
                } else {
                    assert(x == i && y == i && q[x as int] == c);
                }
            }
            if self.root < q.len() {
                if self.root < i {
                    assert(q[self.root as int] == pm@[self.root as int]);
                } else {
                    assert(q[self.root as int] == c);
                }
            }
        }
        true
    }

    /// Whether some isomorphism onto `other` begins with the images `pm`, trying
    /// every image in turn for the next vertex.
    fn search_iso(&self, other: &MultiDag<Tree>, pm: &mut Vec<usize>) -> (r: bool)
        requires
            self.len() == other.len(),
            closed(*self),
            closed(*other),
            partial_ok(*self, *other, old(pm)@),
        ensures
            final(pm)@ == old(pm)@,
            r == iso_extends(*self, *other, old(pm)@),
        decreases self.len() - old(pm)@.len(),
    {
        let ghost p0 = pm@;
        let n = self.nodes.len();
        let i = pm.len();
        if i == n {
            proof {
                assert(is_isomorphism(*self, *other, p0));
                assert(p0.take(p0.len() as int) =~= p0);
            }
            return true;
        }
        let mut c: usize = 0;
        while c < n
            invariant
                n == self.len(),
                n == other.len(),
                i == p0.len(),
                i < n,
                p0 == old(pm)@,
                pm@ == p0,
                closed(*self),
                closed(*other),
                partial_ok(*self, *other, p0),
                0 <= c <= n,
                forall|c2: usize| c2 < c ==> !#[trigger] iso_extends(*self, *other, p0.push(c2)),
            decreases n - c,
        {
            if self.fits(other, pm, c) {
                pm.push(c);
                assert(pm@.len() == i + 1);
                let found = self.search_iso(other, pm);
                pm.pop();
                assert(pm@ =~= p0);
                if found {
                    proof {
                        let phi = choose|phi: Seq<usize>| #[trigger] is_isomorphism(*self, *other, phi) && phi.take(
                            i + 1,
                        ) == p0.push(c);
                        assert(phi.take(i as int) =~= p0);
                    }
                    assert(pm@ == p0);
                    return true;
                }
            } else {
                proof {
                    if iso_extends(*self, *other, p0.push(c)) {
                        let phi = choose|phi: Seq<usize>| #[trigger] is_isomorphism(*self, *other, phi) && phi.take(
                            i + 1,
                        ) == p0.push(c);
                        lemma_iso_prefix_ok(*self, *other, phi, i + 1);
                    }
                }
            }
            c = c + 1;
        }
        proof {
            if iso_extends(*self, *other, p0) {
                let phi = choose|phi: Seq<usize>| #[trigger] is_isomorphism(*self, *other, phi) && phi.take(i as int) == p0;
                let c0 = phi[i as int];
                assert(c0 < n);
                assert(phi.take(i + 1) =~= p0.push(c0));
                assert(iso_extends(*self, *other, p0.push(c0)));
            }
        }
        false
    }
}

impl PartialEq for MultiDag<Tree> {
    /// Two DAGs are equal when they are the same graph: some one-to-one map of the
    /// vertices sends root to root and keeps the number of edges between any two
    /// vertices (see `dag_iso`).
    fn eq(&self, other: &Self) -> (r: bool) {
        if self.nodes.len() != other.nodes.len() {
            return false;
        }
        if !self.check_closed() || !other.check_closed() {
            return false;
        }
        let mut pm: Vec<usize> = Vec::new();
        assert(partial_ok(*self, *other, pm@));
        let r = self.search_iso(other, &mut pm);
        proof {
            if dag_iso(*self, *other) {
                let phi = choose|phi: Seq<usize>| #[trigger] is_isomorphism(*self, *other, phi);
                assert(phi.take(0) =~= Seq::<usize>::empty());
                assert(iso_extends(*self, *other, Seq::<usize>::empty()));
            }
        }
        r
    }
}

/// The identity map on the vertices `0..n`.
pub open spec fn identity_map(n: nat) -> Seq<usize> {
    Seq::new(n, |i: int| i as usize)
}

/// A DAG whose root and edges stay among its vertices is equal to itself.
pub proof fn lemma_dag_iso_reflexive(d: MultiDag<Tree>)
    requires
        closed(d),
        d.len() <= usize::MAX,
    ensures
        dag_iso(d, d),
{
    let phi = identity_map(d.len());
    assert forall|u: usize, v: usize| u < phi.len() && v < phi.len() implies #[trigger] count_of(kids(d, u), v)
        == count_of(kids(d, phi[u as int]), phi[v as int]) by {
        assert(phi[u as int] == u && phi[v as int] == v);
    }
    assert(phi[d.root as int] == d.root);
    assert(is_isomorphism(d, d, phi));
}

/// A reduction DAG numbered as `from_tree` numbers it is closed, and its children
/// lists are those of the edge map.
pub(crate) proof fn lemma_built_closed(d: MultiDag<Tree>, s: Shape)
    requires
        d.is_built_from(s),
    ensures
        closed(d),
        forall|u: usize| u < d.len() ==> #[trigger] kids(d, u) == d.out(u),
{
    assert forall|u: usize, j: int| u < d.len() && 0 <= j < kids(d, u).len() implies #[trigger] kids(d, u)[j] < d.len() by {
        assert(d.edges@.contains_key(u));
        assert(kids(d, u) == d.out(u));
        assert(d.out(u)[j] < d.len());
    }
    assert forall|u: usize| u < d.len() implies #[trigger] kids(d, u) == d.out(u) by {
        assert(d.edges@.contains_key(u));
    }
}

/// The reduction DAGs of two trees of the same shape are equal under `==`; in
/// particular the reduction DAG of a tree equals itself.
pub proof fn lemma_reduction_dags_equal(d1: MultiDag<Tree>, d2: MultiDag<Tree>, s: Shape)
    requires
        d1.is_built_from(s),
        d2.is_built_from(s),
        d1.len() <= usize::MAX,
        d2.len() <= usize::MAX,
    ensures
        d1.eq_spec(&d2),
{
    MultiDag::<Tree>::lemma_built_unique(d1, d2, s);
    lemma_built_closed(d1, s);
    lemma_built_closed(d2, s);
    let phi = identity_map(d1.len());
    assert forall|u: usize, v: usize| u < phi.len() && v < phi.len() implies #[trigger] count_of(kids(d1, u), v)
        == count_of(kids(d2, phi[u as int]), phi[v as int]) by {
        assert(phi[u as int] == u && phi[v as int] == v);
        assert(kids(d1, u) == kids(d2, u));
    }
    assert(is_isomorphism(d1, d2, phi));
}

/// `==` on the reduction DAGs of two shapes, numbered as `from_tree` numbers them,
/// does not depend on which such DAGs are compared: it is a function of the shapes.
pub proof fn lemma_built_eq_determined(
    d1: MultiDag<Tree>,
    d2: MultiDag<Tree>,
    e1: MultiDag<Tree>,
    e2: MultiDag<Tree>,
    a: Shape,
    b: Shape,
)
    requires
        d1.is_built_from(a),
        e1.is_built_from(a),
        d2.is_built_from(b),
        e2.is_built_from(b),
        d1.len() <= usize::MAX,
        e1.len() <= usize::MAX,
        d2.len() <= usize::MAX,
        e2.len() <= usize::MAX,
    ensures
        d1.eq_spec(&d2) == e1.eq_spec(&e2),
{
    MultiDag::<Tree>::lemma_built_unique(d1, e1, a);
    MultiDag::<Tree>::lemma_built_unique(d2, e2, b);
    lemma_built_closed(d1, a);
    lemma_built_closed(e1, a);
    lemma_built_closed(d2, b);
    lemma_built_closed(e2, b);
    assert forall|u: usize| u < d1.len() implies #[trigger] kids(d1, u) == kids(e1, u) by {
        assert(kids(d1, u) == d1.out(u) && kids(e1, u) == e1.out(u));
    }
    assert forall|u: usize| u < d2.len() implies #[trigger] kids(d2, u) == kids(e2, u) by {
        assert(kids(d2, u) == d2.out(u) && kids(e2, u) == e2.out(u));
    }
    assert forall|u: usize| u < e1.len() implies #[trigger] kids(e1, u) == kids(d1, u) by {
        assert(kids(d1, u) == kids(e1, u));
    }
    assert forall|u: usize| u < e2.len() implies #[trigger] kids(e2, u) == kids(d2, u) by {
        assert(kids(d2, u) == kids(e2, u));
    }
    assert forall|phi: Seq<usize>| #[trigger] is_isomorphism(d1, d2, phi) implies is_isomorphism(e1, e2, phi) by {
        lemma_iso_same_kids(d1, d2, e1, e2, phi);
    }
    assert forall|phi: Seq<usize>| #[trigger] is_isomorphism(e1, e2, phi) implies is_isomorphism(d1, d2, phi) by {
        lemma_iso_same_kids(e1, e2, d1, d2, phi);
    }
    if dag_iso(d1, d2) {
        let phi = choose|phi: Seq<usize>| #[trigger] is_isomorphism(d1, d2, phi);
        assert(is_isomorphism(e1, e2, phi));
    }
    if dag_iso(e1, e2) {
        let phi = choose|phi: Seq<usize>| #[trigger] is_isomorphism(e1, e2, phi);
        assert(is_isomorphism(d1, d2, phi));
    }
}

/// An isomorphism stays one when both DAGs are replaced by DAGs with the same
/// number of vertices, the same root and the same children lists.
proof fn lemma_iso_same_kids(
    d1: MultiDag<Tree>,
    d2: MultiDag<Tree>,
    e1: MultiDag<Tree>,
    e2: MultiDag<Tree>,
    phi: Seq<usize>,
)
    requires
        is_isomorphism(d1, d2, phi),
        e1.len() == d1.len(),
        e2.len() == d2.len(),
        e1.root == d1.root,
        e2.root == d2.root,
        forall|u: usize| u < d1.len() ==> #[trigger] kids(d1, u) == kids(e1, u),
        forall|u: usize| u < d2.len() ==> #[trigger] kids(d2, u) == kids(e2, u),
    ensures
        is_isomorphism(e1, e2, phi),
{
    assert forall|u: usize, j: int| u < e1.len() && 0 <= j < kids(e1, u).len() implies #[trigger] kids(e1, u)[j] < e1.len() by {
        assert(kids(d1, u) == kids(e1, u));
        assert(kids(d1, u)[j] < d1.len());
    }
    assert forall|u: usize, j: int| u < e2.len() && 0 <= j < kids(e2, u).len() implies #[trigger] kids(e2, u)[j] < e2.len() by {
        assert(kids(d2, u) == kids(e2, u));
        assert(kids(d2, u)[j] < d2.len());
    }
    assert forall|u: usize, v: usize| u < phi.len() && v < phi.len() implies #[trigger] count_of(kids(e1, u), v)
        == count_of(kids(e2, phi[u as int]), phi[v as int]) by {
        assert(kids(d1, u) == kids(e1, u));
        assert(phi[u as int] < d2.len());
        assert(kids(d2, phi[u as int]) == kids(e2, phi[u as int]));
        assert(count_of(kids(d1, u), v) == count_of(kids(d2, phi[u as int]), phi[v as int]));
    }
}

impl vstd::std_specs::cmp::PartialEqSpecImpl for MultiDag<Tree> {
    open spec fn obeys_eq_spec() -> bool {
        true
    }

    open spec fn eq_spec(&self, other: &Self) -> bool {
        dag_iso(*self, *other)
    }
}

} // verus!
