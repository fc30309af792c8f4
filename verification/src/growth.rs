use vstd::prelude::*;

use crate::enumerate::{grown, kids, parents_ok};
use crate::tree::{Shape, edges, forest_size, lemma_edges_size, size};

verus! {

/// `v` is `j` or an ancestor of `j`, when vertex `i >= 1` hangs below `p[i - 1]`.
pub open spec fn anc(p: Seq<usize>, j: nat, v: nat) -> bool
    decreases j,
{
    if j == v {
        true
    } else if j == 0 || j > p.len() || p[j - 1] >= j {
        false
    } else {
        anc(p, p[j - 1] as nat, v)
    }
}

/// The number of vertices of `ks` that `w` descends from (or is).
pub open spec fn count_anc(p: Seq<usize>, w: nat, ks: Seq<usize>) -> nat
    decreases ks.len(),
{
    if ks.len() == 0 {
        0
    } else {
        count_anc(p, w, ks.drop_last()) + if anc(p, w, ks.last() as nat) {
            1nat
        } else {
            0nat
        }
    }
}

/// The total size of the trees grown from the vertices of `ks`.
pub open spec fn sum_sizes(p: Seq<usize>, ks: Seq<usize>) -> nat
    decreases ks.len(),
{
    if ks.len() == 0 {
        0
    } else {
        sum_sizes(p, ks.drop_last()) + size(grown(p, ks.last() as nat))
    }
}

proof fn lemma_kids_prefix(p: Seq<usize>, m: nat, v: nat, k: nat)
    requires
        k <= m <= p.len(),
    ensures
        kids(p.take(m as int), v, k) == kids(p, v, k),
    decreases k,
{
    if k > 0 {
        lemma_kids_prefix(p, m, v, (k - 1) as nat);
        assert(p.take(m as int)[k - 1] == p[k - 1]);
    }
}

proof fn lemma_anc_prefix(p: Seq<usize>, m: nat, j: nat, v: nat)
    requires
        j <= m <= p.len(),
    ensures
        anc(p.take(m as int), j, v) == anc(p, j, v),
    decreases j,
{
    if j != v && j != 0 && j <= m {
        assert(p.take(m as int)[j - 1] == p[j - 1]);
        if p[j - 1] < j {
            lemma_anc_prefix(p, m, p[j - 1] as nat, v);
        }
    }
}

proof fn lemma_anc_le(p: Seq<usize>, j: nat, v: nat)
    requires
        anc(p, j, v),
    ensures
        v <= j,
    decreases j,
{
    if j != v {
        lemma_anc_le(p, p[j - 1] as nat, v);
    }
}

/// The ancestors of a vertex form a chain.
proof fn lemma_anc_linear(p: Seq<usize>, a: nat, b: nat, c: nat)
    requires
        anc(p, a, b),
        anc(p, a, c),
        b >= c,
    ensures
        anc(p, b, c),
    decreases a,
{
    if a != b {
        if a == c {
            lemma_anc_le(p, a, b);
        } else {
            lemma_anc_linear(p, p[a - 1] as nat, b, c);
        }
    }
}

/// A proper descendant of `v` descends from a vertex that hangs below `v`.
proof fn lemma_anc_via_kid(p: Seq<usize>, w: nat, v: nat) -> (c: nat)
    requires
        anc(p, w, v),
        w != v,
    ensures
        1 <= c <= w,
        c <= p.len(),
        p[c - 1] == v,
        anc(p, w, c),
    decreases w,
{
    let u = p[w - 1] as nat;
    if u == v {
        w
    } else {
        let c = lemma_anc_via_kid(p, u, v);
        lemma_anc_le(p, u, c);
        c
    }
}

/// Every vertex descends from the root.
proof fn lemma_anc_root(p: Seq<usize>, j: nat)
    requires
        parents_ok(p),
        j <= p.len(),
    ensures
        anc(p, j, 0),
    decreases j,
{
    if j > 0 {
        let i = j - 1;
        assert(p[i] <= i);
        lemma_anc_root(p, p[i] as nat);
    }
}

proof fn lemma_kids_facts(p: Seq<usize>, v: nat, k: nat)
    requires
        k <= p.len(),
        parents_ok(p),
    ensures
        forall|i: int, j: int| 0 <= i < j < kids(p, v, k).len() ==> kids(p, v, k)[i] < kids(p, v, k)[j],
        forall|i: int| 0 <= i < kids(p, v, k).len() ==> v < #[trigger] kids(p, v, k)[i] <= k,
        forall|i: int| 0 <= i < kids(p, v, k).len() ==> p[kids(p, v, k)[i] - 1] == v,
        forall|c: nat| 1 <= c <= k && #[trigger] p[c - 1] == v ==> kids(p, v, k).contains(c as usize),
    decreases k,
{
    if k > 0 {
        lemma_kids_facts(p, v, (k - 1) as nat);
        let a = kids(p, v, (k - 1) as nat);
        let b = kids(p, v, k);
        let i0 = k - 1;
        assert(p[i0] <= i0);
        assert forall|i: int| 0 <= i < b.len() implies v < #[trigger] b[i] <= k && p[b[i] - 1] == v by {
            if i < a.len() {
                assert(b[i] == a[i]);
            }
        }
        assert forall|i: int, j: int| 0 <= i < j < b.len() implies b[i] < b[j] by {
            if j < a.len() {
                assert(b[i] == a[i] && b[j] == a[j]);
            } else {
                assert(b[i] == a[i]);
            }
        }
        assert forall|c: nat| 1 <= c <= k && #[trigger] p[c - 1] == v implies b.contains(c as usize) by {
            if c < k {
                let q = choose|q: int| 0 <= q < a.len() && a[q] == c as usize;
                assert(b[q] == c as usize);
            } else {
                assert(b[b.len() - 1] == k as usize);
            }
        }
    }
}

proof fn lemma_count_unique(p: Seq<usize>, w: nat, ks: Seq<usize>)
    requires
        forall|i: int, j: int| 0 <= i < j < ks.len() ==> ks[i] < ks[j],
        forall|a: int, b: int|
            0 <= a < ks.len() && 0 <= b < ks.len() && anc(p, w, ks[a] as nat) && anc(p, w, ks[b] as nat) ==> a == b,
    ensures
        count_anc(p, w, ks) == if exists|a: int| 0 <= a < ks.len() && anc(p, w, #[trigger] ks[a] as nat) {
            1nat
        } else {
            0nat
        },
    decreases ks.len(),
{
    if ks.len() > 0 {
        let d = ks.drop_last();
        lemma_count_unique(p, w, d);
        if exists|a: int| 0 <= a < d.len() && anc(p, w, #[trigger] d[a] as nat) {
            let a = choose|a: int| 0 <= a < d.len() && anc(p, w, #[trigger] d[a] as nat);
            assert(ks[a] == d[a]);
            if anc(p, w, ks.last() as nat) {
                assert(a == ks.len() - 1);
            }
        } else {
            assert forall|a: int| 0 <= a < ks.len() - 1 implies !anc(p, w, #[trigger] ks[a] as nat) by {
                assert(ks[a] == d[a]);
            }
        }
    }
}

/// The tree grown from `v` has as children the trees grown from the vertices below it.
proof fn lemma_grown_size(p: Seq<usize>, v: nat)
    requires
        parents_ok(p),
        v <= p.len(),
    ensures
        size(grown(p, v)) == 1 + sum_sizes(p, kids(p, v, p.len())),
{
    let ks = kids(p, v, p.len());
    lemma_kids_facts(p, v, p.len());
    let cs = grown(p, v).children;
    assert forall|m: nat| m <= ks.len() implies #[trigger] forest_size(cs.take(m as int)) == sum_sizes(p, ks.take(m as int)) by {
        lemma_prefix_sizes(p, v, m);
    }
    assert(cs.take(ks.len() as int) =~= cs);
    assert(ks.take(ks.len() as int) =~= ks);
    assert(forest_size(cs.take(ks.len() as int)) == sum_sizes(p, ks.take(ks.len() as int)));
}

proof fn lemma_prefix_sizes(p: Seq<usize>, v: nat, m: nat)
    requires
        parents_ok(p),
        v <= p.len(),
        m <= kids(p, v, p.len()).len(),
    ensures
        forest_size(grown(p, v).children.take(m as int)) == sum_sizes(p, kids(p, v, p.len()).take(m as int)),
    decreases m,
{
    let ks = kids(p, v, p.len());
    let cs = grown(p, v).children;
    lemma_kids_facts(p, v, p.len());
    if m > 0 {
        lemma_prefix_sizes(p, v, (m - 1) as nat);
        assert(cs.take(m as int).drop_last() =~= cs.take(m - 1));
        assert(ks.take(m as int).drop_last() =~= ks.take(m - 1));
        assert(v < ks[m - 1] <= p.len());
        assert(cs.take(m as int).last() == grown(p, ks[m - 1] as nat));
    } else {
        assert(cs.take(0) =~= Seq::<Shape>::empty());
        assert(ks.take(0) =~= Seq::<usize>::empty());
    }
}

/// Attaching vertex `k + 1` adds one node to the tree grown from each of its
/// ancestors, and none to the others.
proof fn lemma_attach(p: Seq<usize>, k: nat, v: nat)
    requires
        parents_ok(p),
        k < p.len(),
        v <= k,
    ensures
        size(grown(p.take(k + 1int), v)) == size(grown(p.take(k as int), v)) + if anc(p, k + 1, v) {
            1nat
        } else {
            0nat
        },
    decreases k - v, 1nat, 0nat,
{
    let big = p.take(k + 1int);
    let small = p.take(k as int);
    let w = k + 1;
    let q = p[k as int] as nat;
    assert(parents_ok(big));
    assert(parents_ok(small));
    assert(p[k as int] <= k);
    let kb = kids(big, v, k + 1);
    let ks = kids(small, v, k);
    lemma_kids_prefix(p, k + 1, v, k);
    lemma_kids_prefix(p, k, v, k);
    assert(big[k as int] == p[k as int]);
    assert(kb == ks + if q == v {
        seq![w as usize]
    } else {
        Seq::<usize>::empty()
    });
    lemma_grown_size(big, v);
    lemma_grown_size(small, v);
    lemma_kids_facts(small, v, k);
    lemma_sum_attach(p, k, v, ks);
    if q == v {
        assert(kb.drop_last() =~= ks);
        assert(kb.last() == w as usize);
        lemma_grown_size(big, w);
        lemma_kids_facts(big, w, k + 1);
        assert(kids(big, w, k + 1) =~= Seq::<usize>::empty()) by {
            if kids(big, w, k + 1).len() > 0 {
                assert(w < kids(big, w, k + 1)[0] <= k + 1);
            }
        }
        assert(sum_sizes(big, kb) == sum_sizes(big, ks) + 1);
        assert forall|a: int| 0 <= a < ks.len() implies !anc(p, w, #[trigger] ks[a] as nat) by {
            assert(v < ks[a] <= k);
            if anc(p, w, ks[a] as nat) {
                assert(anc(p, q, ks[a] as nat));
                lemma_anc_le(p, q, ks[a] as nat);
            }
        }
        lemma_count_unique(p, w, ks);
        assert(count_anc(p, w, ks) == 0);
        assert(anc(p, q, v));
        assert(anc(p, w, v));
    } else {
        assert(kb =~= ks);
        assert forall|a: int, b: int|
            0 <= a < ks.len() && 0 <= b < ks.len() && anc(p, w, ks[a] as nat) && anc(p, w, ks[b] as nat) implies a == b by {
            if a != b {
                let (x, y) = if ks[a] >= ks[b] { (ks[a] as nat, ks[b] as nat) } else { (ks[b] as nat, ks[a] as nat) };
                lemma_anc_linear(p, w, x, y);
                assert(small[x - 1] == p[x - 1]);
                assert(p[x - 1] == v);
                assert(x != y);
                assert(anc(p, v, y));
                lemma_anc_le(p, v, y);
            }
        }
        lemma_count_unique(p, w, ks);
        if anc(p, w, v) {
            let c = lemma_anc_via_kid(p, w, v);
            assert(c != w);
            lemma_kids_prefix(p, k, v, k);
            assert(small[c - 1] == p[c - 1]);
            assert(ks.contains(c as usize));
            let a = choose|a: int| 0 <= a < ks.len() && ks[a] == c as usize;
            assert(anc(p, w, ks[a] as nat));
            assert(count_anc(p, w, ks) == 1);
        } else {
            assert forall|a: int| 0 <= a < ks.len() implies !anc(p, w, #[trigger] ks[a] as nat) by {
                if anc(p, w, ks[a] as nat) {
                    assert(small[ks[a] - 1] == p[ks[a] - 1]);
                    assert(p[ks[a] - 1] == v);
                    assert(anc(p, v, v));
                    assert(anc(p, ks[a] as nat, v));
                    lemma_anc_trans(p, w, ks[a] as nat, v);
                }
            }
            assert(count_anc(p, w, ks) == 0);
        }
    }
}

proof fn lemma_anc_trans(p: Seq<usize>, a: nat, b: nat, c: nat)
    requires
        anc(p, a, b),
        anc(p, b, c),
    ensures
        anc(p, a, c),
    decreases a,
{
    if a != b {
        lemma_anc_trans(p, p[a - 1] as nat, b, c);
    }
}

/// Growing the vertices of `ks` (all between `v` and `k`) with vertex `k + 1`
/// attached adds one node for each of them that `k + 1` descends from.
proof fn lemma_sum_attach(p: Seq<usize>, k: nat, v: nat, ks: Seq<usize>)
    requires
        parents_ok(p),
        k < p.len(),
        v <= k,
        forall|i: int| 0 <= i < ks.len() ==> v < #[trigger] ks[i] <= k,
    ensures
        sum_sizes(p.take(k + 1int), ks) == sum_sizes(p.take(k as int), ks) + count_anc(p, k + 1, ks),
    decreases k - v, 0nat, ks.len(),
{
    if ks.len() > 0 {
        lemma_sum_attach(p, k, v, ks.drop_last());
        let c = ks.last();
        assert(v < c <= k);
        lemma_attach(p, k, c as nat);
    }
}

/// The tree grown from `p` has one edge per attached vertex.
pub proof fn lemma_grown_edges(p: Seq<usize>)
    requires
        parents_ok(p),
    ensures
        edges(grown(p, 0)) == p.len(),
{
    lemma_grown_prefix_size(p, p.len());
    assert(p.take(p.len() as int) =~= p);
    lemma_edges_size(grown(p, 0));
}

proof fn lemma_grown_prefix_size(p: Seq<usize>, k: nat)
    requires
        parents_ok(p),
        k <= p.len(),
    ensures
        size(grown(p.take(k as int), 0)) == k + 1,
    decreases k,
{
    if k == 0 {
        let e = p.take(0);
        assert(e =~= Seq::<usize>::empty());
        assert(parents_ok(e));
        lemma_grown_size(e, 0);
        assert(kids(e, 0, 0) =~= Seq::<usize>::empty());
    } else {
        lemma_grown_prefix_size(p, (k - 1) as nat);
        lemma_anc_root(p, k);
        lemma_attach(p, (k - 1) as nat, 0);
    }
}

} // verus!
