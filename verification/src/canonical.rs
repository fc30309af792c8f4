use vstd::prelude::*;

use crate::tree::{
    Shape, Tree, edges, forest_edges, forest_size, lemma_forest_size_append, lemma_forest_size_single, size,
};

verus! {

/// The order of trees that `derive(Ord)` gives `Tree`: children compared
/// lexicographically, a missing child before any child. Gives -1, 0 or 1.
pub open spec fn shape_order(a: Shape, b: Shape) -> int
    decreases a, 1nat, 0nat,
{
    order_from(a, b, 0)
}

/// Compares the children of `a` and `b` from position `i` on.
pub open spec fn order_from(a: Shape, b: Shape, i: nat) -> int
    decreases a, 0nat, a.children.len() - i,
{
    if i >= a.children.len() {
        if i >= b.children.len() {
            0
        } else {
            -1
        }
    } else if i >= b.children.len() {
        1
    } else {
        let c = shape_order(a.children[i as int], b.children[i as int]);
        if c != 0 {
            c
        } else {
            order_from(a, b, i + 1)
        }
    }
}

/// `x` inserted into `ys` after the last element (from the end) not greater than it.
pub open spec fn insert_shape(ys: Seq<Shape>, x: Shape) -> Seq<Shape>
    decreases ys.len(),
{
    if ys.len() == 0 {
        seq![x]
    } else if shape_order(ys.last(), x) <= 0 {
        ys.push(x)
    } else {
        insert_shape(ys.drop_last(), x).push(ys.last())
    }
}

/// `xs` sorted by insertion, in increasing order of `shape_order` (stable).
pub open spec fn sort_shapes(xs: Seq<Shape>) -> Seq<Shape>
    decreases xs.len(),
{
    if xs.len() == 0 {
        Seq::empty()
    } else {
        insert_shape(sort_shapes(xs.drop_last()), xs.last())
    }
}

/// The canonical form of `s`: its children put in canonical form, then sorted.
pub open spec fn canon(s: Shape) -> Shape
    decreases s, 1nat,
{
    Shape { children: sort_shapes(canon_children(s)) }
}

/// The canonical forms of the children of `s`, in order.
pub open spec fn canon_children(s: Shape) -> Seq<Shape>
    decreases s, 0nat,
{
    Seq::new(
        s.children.len(),
        |i: int|
            if 0 <= i < s.children.len() {
                canon(s.children[i])
            } else {
                s
            },
    )
}

/// The text of `s` as an identity term: `I` for a leaf, and `(t₁ (t₂ … (tₙ I)…))`
/// for children `t₁ … tₙ`.
pub open spec fn to_i_spec(s: Shape) -> Seq<char>
    decreases s, 1nat, 0nat,
{
    to_i_from(s, 0)
}

/// The identity term of the children of `s` from position `i` on, ending in `I`.
pub open spec fn to_i_from(s: Shape, i: nat) -> Seq<char>
    decreases s, 0nat, s.children.len() - i,
{
    if i >= s.children.len() {
        seq!['I']
    } else {
        seq!['('] + to_i_spec(s.children[i as int]) + seq![' '] + to_i_from(s, i + 1) + seq![')']
    }
}

/// Number of times `c` occurs in `w`.
pub open spec fn char_count(w: Seq<char>, c: char) -> nat
    decreases w.len(),
{
    if w.len() == 0 {
        0
    } else {
        char_count(w.drop_last(), c) + if w.last() == c {
            1nat
        } else {
            0nat
        }
    }
}

/// Counting over a concatenation adds up.
pub proof fn lemma_char_count_concat(a: Seq<char>, b: Seq<char>, c: char)
    ensures
        char_count(a + b, c) == char_count(a, c) + char_count(b, c),
    decreases b.len(),
{
    if b.len() == 0 {
        assert(a + b =~= a);
    } else {
        lemma_char_count_concat(a, b.drop_last(), c);
        assert((a + b).drop_last() =~= a + b.drop_last());
    }
}

/// Counting in a one-character text.
pub(crate) proof fn lemma_char_count_one(x: char, c: char)
    ensures
        char_count(seq![x], c) == if x == c {
            1nat
        } else {
            0nat
        },
{
    assert(seq![x].drop_last() =~= Seq::<char>::empty());
    assert(char_count(Seq::<char>::empty(), c) == 0);
    assert(seq![x].last() == x);
}

/// The identity term of a tree has one `I` per node and one application (one
/// opening parenthesis) per edge: every child is applied, none is dropped.
pub proof fn lemma_to_i_counts(s: Shape)
    ensures
        char_count(to_i_spec(s), 'I') == size(s),
        char_count(to_i_spec(s), '(') == edges(s),
    decreases s, 1nat,
{
    lemma_to_i_from_counts(s, 0);
    assert(s.children.skip(0) =~= s.children);
}

/// The counts for the children of `s` from position `i` on.
proof fn lemma_to_i_from_counts(s: Shape, i: nat)
    requires
        i <= s.children.len(),
    ensures
        char_count(to_i_from(s, i), 'I') == 1 + forest_size(s.children.skip(i as int)),
        char_count(to_i_from(s, i), '(') == (s.children.len() - i) + forest_edges(s.children.skip(i as int)),
    decreases s, 0nat, s.children.len() - i,
{
    let cs = s.children;
    lemma_char_count_one('I', 'I');
    lemma_char_count_one('I', '(');
    lemma_char_count_one('(', 'I');
    lemma_char_count_one('(', '(');
    lemma_char_count_one(' ', 'I');
    lemma_char_count_one(' ', '(');
    lemma_char_count_one(')', 'I');
    lemma_char_count_one(')', '(');
    if i >= cs.len() {
        assert(cs.skip(i as int) =~= Seq::<Shape>::empty());
    } else {
        let c = cs[i as int];
        lemma_to_i_counts(c);
        lemma_to_i_from_counts(s, i + 1);
        let a = to_i_spec(c);
        let b = to_i_from(s, i + 1);
        assert(to_i_from(s, i) == seq!['('] + a + seq![' '] + b + seq![')']);
        lemma_char_count_concat(seq!['('], a, 'I');
        lemma_char_count_concat(seq!['('] + a, seq![' '], 'I');
        lemma_char_count_concat(seq!['('] + a + seq![' '], b, 'I');
        lemma_char_count_concat(seq!['('] + a + seq![' '] + b, seq![')'], 'I');
        lemma_char_count_concat(seq!['('], a, '(');
        lemma_char_count_concat(seq!['('] + a, seq![' '], '(');
        lemma_char_count_concat(seq!['('] + a + seq![' '], b, '(');
        lemma_char_count_concat(seq!['('] + a + seq![' '] + b, seq![')'], '(');
        assert(cs.skip(i as int) =~= seq![c] + cs.skip(i + 1 as int));
        lemma_forest_size_append(seq![c], cs.skip(i + 1 as int));
        lemma_forest_size_single(c);
    }
}

/// The shapes of a list of trees.
pub open spec fn shape_list(v: Seq<&Tree>) -> Seq<Shape> {
    v.map_values(|t: &Tree| t@)
}

/// A shape and all its subtrees, in pre-order.
pub open spec fn preorder(s: Shape) -> Seq<Shape>
    decreases s, 1nat,
{
    seq![s] + forest_preorder(s.children)
}

/// The pre-orders of the shapes of `cs`, one after the other.
pub open spec fn forest_preorder(cs: Seq<Shape>) -> Seq<Shape>
    decreases cs, 0nat,
{
    if cs.len() == 0 {
        Seq::empty()
    } else {
        forest_preorder(cs.drop_last()) + preorder(cs.last())
    }
}

/// Calls `f` on the trees of `v` from position `start` on, in order.
fn call_each<F: FnMut(&Tree)>(v: &Vec<&Tree>, start: usize, f: &mut F)
    requires
        start <= v@.len(),
        forall|g: F, t: &Tree| call_requires(g, (t,)),
    ensures
        exists|fs: Seq<F>, ts: Seq<&Tree>|
            #![trigger fs.len(), ts.len()]
            fs.len() == ts.len() + 1 && ts == v@.skip(start as int) && fs[0] == *old(f) && fs.last() == *final(f)
                && forall|i: int| 0 <= i < ts.len() ==> call_ensures(#[trigger] fs[i], (ts[i],), ()),
{
    let n = v.len();
    let mut i: usize = start;
    let ghost mut fs: Seq<F> = seq![*f];
    while i < n
        invariant
            n == v@.len(),
            start <= i <= n,
            forall|g: F, t: &Tree| call_requires(g, (t,)),
            fs.len() == i - start + 1,
            fs[0] == *old(f),
            fs.last() == *f,
            forall|k: int| 0 <= k < i - start ==> call_ensures(#[trigger] fs[k], (v@[start + k],), ()),
        decreases n - i,
    {
        let t = v[i];
        let ghost before = *f;
        f(t);
        proof {
            fs = fs.push(*f);
            assert forall|k: int| 0 <= k < i + 1 - start implies call_ensures(#[trigger] fs[k], (v@[start + k],), ()) by {
                if k == i - start {
                    assert(fs[k] == before);
                }
            }
        }
        i = i + 1;
    }
    let ghost ts = v@.skip(start as int);
    assert forall|k: int| 0 <= k < ts.len() implies call_ensures(#[trigger] fs[k], (ts[k],), ()) by {
        assert(ts[k] == v@[start + k]);
    }
    assert(fs.len() == ts.len() + 1);
}

/// `shape_order` gives -1, 0 or 1, is 0 only on equal shapes, and swaps sign when
/// its arguments are swapped.
pub proof fn lemma_order_basics(a: Shape, b: Shape)
    ensures
        -1 <= shape_order(a, b) <= 1,
        shape_order(a, b) == 0 <==> a == b,
        shape_order(b, a) == -shape_order(a, b),
    decreases a, 1nat, 0nat,
{
    lemma_order_from_basics(a, b, 0);
    if shape_order(a, b) == 0 {
        assert(a.children =~= b.children);
    }
}

proof fn lemma_order_from_basics(a: Shape, b: Shape, i: nat)
    requires
        i <= a.children.len(),
        i <= b.children.len(),
    ensures
        -1 <= order_from(a, b, i) <= 1,
        order_from(b, a, i) == -order_from(a, b, i),
        order_from(a, b, i) == 0 ==> a.children.len() == b.children.len() && forall|j: int|
            i <= j < a.children.len() ==> a.children[j] == b.children[j],
        a.children.len() == b.children.len() && (forall|j: int| i <= j < a.children.len() ==> a.children[j] == b.children[j])
            ==> order_from(a, b, i) == 0,
    decreases a, 0nat, a.children.len() - i,
{
    if i < a.children.len() && i < b.children.len() {
        lemma_order_basics(a.children[i as int], b.children[i as int]);
        lemma_order_from_basics(a, b, i + 1);
        if order_from(a, b, i) == 0 {
            assert forall|j: int| i <= j < a.children.len() implies a.children[j] == b.children[j] by {
                if j > i {
                    assert(order_from(a, b, i + 1) == 0);
                }
            }
        }
    }
}

/// `shape_order` is transitive.
pub proof fn lemma_order_transitive(a: Shape, b: Shape, c: Shape)
    requires
        shape_order(a, b) <= 0,
        shape_order(b, c) <= 0,
    ensures
        shape_order(a, c) <= 0,
    decreases a, 1nat, 0nat,
{
    lemma_order_from_transitive(a, b, c, 0);
}

proof fn lemma_order_from_transitive(a: Shape, b: Shape, c: Shape, i: nat)
    requires
        order_from(a, b, i) <= 0,
        order_from(b, c, i) <= 0,
    ensures
        order_from(a, c, i) <= 0,
    decreases a, 0nat, a.children.len() - i,
{
    if i < a.children.len() && i < b.children.len() && i < c.children.len() {
        let x = a.children[i as int];
        let y = b.children[i as int];
        let z = c.children[i as int];
        lemma_order_basics(x, y);
        lemma_order_basics(y, z);
        lemma_order_basics(x, z);
        if shape_order(x, y) == 0 && shape_order(y, z) == 0 {
            lemma_order_from_transitive(a, b, c, i + 1);
        } else if shape_order(x, y) == 0 {
            assert(x == y);
        } else if shape_order(y, z) == 0 {
            assert(y == z);
        } else {
            lemma_order_transitive(x, y, z);
        }
    }
}

/// The shapes of `xs` are in increasing order.
pub open spec fn sorted_shapes(xs: Seq<Shape>) -> bool {
    forall|i: int, j: int| 0 <= i < j < xs.len() ==> shape_order(xs[i], xs[j]) <= 0
}

proof fn lemma_insert_sorted(ys: Seq<Shape>, x: Shape)
    requires
        sorted_shapes(ys),
    ensures
        sorted_shapes(insert_shape(ys, x)),
        insert_shape(ys, x).to_multiset() == ys.to_multiset().insert(x),
    decreases ys.len(),
{
    broadcast use vstd::seq_lib::group_to_multiset_ensures;

    if ys.len() == 0 {
        assert(seq![x] =~= Seq::<Shape>::empty().push(x));
    } else if shape_order(ys.last(), x) <= 0 {
        let r = ys.push(x);
        assert forall|i: int, j: int| 0 <= i < j < r.len() implies shape_order(r[i], r[j]) <= 0 by {
            if j == r.len() - 1 && i < ys.len() - 1 {
                lemma_order_transitive(ys[i], ys.last(), x);
            }
        }
    } else {
        let d = ys.drop_last();
        lemma_insert_sorted(d, x);
        let m = insert_shape(d, x);
        let r = m.push(ys.last());
        lemma_order_basics(ys.last(), x);
        assert forall|i: int, j: int| 0 <= i < j < r.len() implies shape_order(r[i], r[j]) <= 0 by {
            if j == r.len() - 1 {
                assert(m.to_multiset().contains(m[i]));
                assert(d.to_multiset().insert(x).contains(m[i]));
                if m[i] != x {
                    assert(d.to_multiset().contains(m[i]));
                    assert(d.contains(m[i]));
                    let k = choose|k: int| 0 <= k < d.len() && d[k] == m[i];
                    assert(ys[k] == m[i]);
                }
            }
        }
        assert(ys =~= d.push(ys.last()));
    }
}

/// Sorting gives the same shapes in increasing order.
pub proof fn lemma_sort_shapes(xs: Seq<Shape>)
    ensures
        sorted_shapes(sort_shapes(xs)),
        sort_shapes(xs).to_multiset() == xs.to_multiset(),
    decreases xs.len(),
{
    broadcast use vstd::seq_lib::group_to_multiset_ensures;

    if xs.len() > 0 {
        lemma_sort_shapes(xs.drop_last());
        lemma_insert_sorted(sort_shapes(xs.drop_last()), xs.last());
        assert(xs =~= xs.drop_last().push(xs.last()));
    }
}

/// Sorting shapes that are already in order changes nothing.
proof fn lemma_sort_sorted(xs: Seq<Shape>)
    requires
        sorted_shapes(xs),
    ensures
        sort_shapes(xs) == xs,
    decreases xs.len(),
{
    if xs.len() > 0 {
        let d = xs.drop_last();
        assert(sorted_shapes(d));
        lemma_sort_sorted(d);
        if d.len() > 0 {
            assert(shape_order(d.last(), xs.last()) <= 0);
        }
        assert(xs =~= d.push(xs.last()));
    }
}

/// The canonical form is canonical: putting it in canonical form again changes nothing.
pub proof fn lemma_canon_idempotent(s: Shape)
    ensures
        canon(canon(s)) == canon(s),
    decreases s,
{
    broadcast use vstd::seq_lib::group_to_multiset_ensures;

    let cc = canon_children(s);
    let sc = sort_shapes(cc);
    lemma_sort_shapes(cc);
    let c = canon(s);
    assert(c.children == sc);
    let cc2 = canon_children(c);
    assert forall|i: int| 0 <= i < sc.len() implies #[trigger] cc2[i] == sc[i] by {
        assert(sc.to_multiset().contains(sc[i]));
        assert(cc.contains(sc[i]));
        let k = choose|k: int| 0 <= k < cc.len() && cc[k] == sc[i];
        lemma_canon_idempotent(s.children[k]);
    }
    assert(cc2 =~= sc);
    lemma_sort_sorted(sc);
    assert(canon(c).children =~= c.children);
    assert(canon(c) =~= c);
}

/// At every node the children are in increasing order.
pub open spec fn children_sorted(s: Shape) -> bool
    decreases s,
{
    &&& sorted_shapes(s.children)
    &&& forall|i: int| 0 <= i < s.children.len() ==> children_sorted(#[trigger] s.children[i])
}

/// The canonical form has the children of every node sorted.
pub proof fn lemma_canon_sorted(s: Shape)
    ensures
        children_sorted(canon(s)),
    decreases s,
{
    broadcast use vstd::seq_lib::group_to_multiset_ensures;

    let cc = canon_children(s);
    let sc = sort_shapes(cc);
    lemma_sort_shapes(cc);
    let c = canon(s);
    assert(c.children == sc);
    assert forall|i: int| 0 <= i < sc.len() implies children_sorted(#[trigger] sc[i]) by {
        assert(sc.to_multiset().contains(sc[i]));
        assert(cc.contains(sc[i]));
        let k = choose|k: int| 0 <= k < cc.len() && cc[k] == sc[i];
        lemma_canon_sorted(s.children[k]);
    }
}

/// Compares two trees as `derive(Ord)` does: -1, 0 or 1.
pub fn compare_trees(a: &Tree, b: &Tree) -> (r: i8)
    ensures
        r == shape_order(a@, b@),
    decreases a,
{
    let na = a.children.len();
    let nb = b.children.len();
    let mut i: usize = 0;
    while i < na && i < nb
        invariant
            na == a@.children.len(),
            nb == b@.children.len(),
            0 <= i <= na,
            i <= nb,
            shape_order(a@, b@) == order_from(a@, b@, i as nat),
        decreases na - i,
    {
        assert(a@.children[i as int] == a.children@[i as int]@);
        assert(b@.children[i as int] == b.children@[i as int]@);
        let c = compare_trees(&a.children[i], &b.children[i]);
        if c != 0 {
            return c;
        }
        i = i + 1;
    }
    if i >= na {
        if i >= nb {
            0
        } else {
            -1
        }
    } else {
        1
    }
}

/// Inserts `x` into `out` after the last element (from the end) not greater than it.
fn insert_sorted(out: &mut Vec<Tree>, x: Tree)
    ensures
        final(out)@.map_values(|t: Tree| t@) == insert_shape(old(out)@.map_values(|t: Tree| t@), x@),
{
    let ghost ys = old(out)@.map_values(|t: Tree| t@);
    let mut pos = out.len();
    assert(ys.take(pos as int) =~= ys);
    assert(ys.skip(pos as int) =~= Seq::<Shape>::empty());
    assert(insert_shape(ys, x@) =~= insert_shape(ys.take(pos as int), x@) + ys.skip(pos as int));
    while pos > 0 && compare_trees(&out[pos - 1], &x) > 0
        invariant
            out@ == old(out)@,
            ys == out@.map_values(|t: Tree| t@),
            0 <= pos <= out@.len(),
            insert_shape(ys, x@) == insert_shape(ys.take(pos as int), x@) + ys.skip(pos as int),
        decreases pos,
    {
        proof {
            let p = pos as int;
            assert(ys.take(p).last() == ys[p - 1]);
            assert(ys.take(p).drop_last() =~= ys.take(p - 1));
            assert(ys.skip(p - 1) =~= seq![ys[p - 1]] + ys.skip(p));
            assert(insert_shape(ys.take(p), x@) == insert_shape(ys.take(p - 1), x@).push(ys[p - 1]));
            assert(insert_shape(ys.take(p - 1), x@).push(ys[p - 1]) + ys.skip(p) =~= insert_shape(ys.take(p - 1), x@)
                + ys.skip(p - 1));
        }
        pos = pos - 1;
    }
    proof {
        let p = pos as int;
        if p > 0 {
            assert(ys.take(p).last() == ys[p - 1]);
            assert(insert_shape(ys.take(p), x@) == ys.take(p).push(x@));
        } else {
            assert(ys.take(0) =~= Seq::<Shape>::empty());
        }
    }
    let ghost xv = x@;
    out.insert(pos, x);
    proof {
        let p = pos as int;
        assert(out@.map_values(|t: Tree| t@) =~= ys.take(p).push(xv) + ys.skip(p));
        if p == 0 {
            assert(insert_shape(ys.take(0), xv) =~= seq![xv]);
            assert(ys.take(p).push(xv) =~= seq![xv]);
        }
    }
}

impl Tree {
    /// The tree as an identity term: `I` for a leaf, and `(t₁ (t₂ … (tₙ I)…))` for
    /// children `t₁ … tₙ`.
    pub fn to_i(&self) -> (r: String)
        ensures
            r@ == to_i_spec(self@),
            char_count(r@, 'I') == size(self@),
            char_count(r@, '(') == edges(self@),
        decreases self,
    {
        proof {
            lemma_to_i_counts(self@);
        }
        proof {
            reveal_strlit("I");
            reveal_strlit("(");
            reveal_strlit(" ");
            reveal_strlit(")");
            assert("I"@ =~= seq!['I']);
            assert("("@ =~= seq!['(']);
            assert(" "@ =~= seq![' ']);
            assert(")"@ =~= seq![')']);
        }
        let n = self.children.len();
        let mut s = String::from_str("I");
        let mut k = n;
        while k > 0
            invariant
                n == self@.children.len(),
                0 <= k <= n,
                s@ == to_i_from(self@, k as nat),
            decreases k,
        {
            k = k - 1;
            assert(self@.children[k as int] == self.children@[k as int]@);
            let c = self.children[k].to_i();
            proof {
                reveal_strlit("(");
                reveal_strlit(" ");
                reveal_strlit(")");
                assert("("@ =~= seq!['(']);
                assert(" "@ =~= seq![' ']);
                assert(")"@ =~= seq![')']);
            }
            let mut t = String::new();
            t.append("(");
            t.append(c.as_str());
            t.append(" ");
            t.append(s.as_str());
            t.append(")");
            assert(t@ =~= to_i_from(self@, k as nat));
            s = t;
        }
        s
    }

    /// The tree and all its subtrees in pre-order: parents before children,
    /// children from first to last.
    pub fn subtrees(&self) -> (r: Vec<&Tree>)
        ensures
            shape_list(r@) == preorder(self@),
    {
        let mut out: Vec<&Tree> = Vec::new();
        assert(shape_list(out@) =~= Seq::<Shape>::empty());
        self.collect_subtrees(&mut out);
        assert(Seq::<Shape>::empty() + preorder(self@) =~= preorder(self@));
        out
    }

    fn collect_subtrees<'a>(&'a self, out: &mut Vec<&'a Tree>)
        ensures
            shape_list(final(out)@) == shape_list(old(out)@) + preorder(self@),
        decreases self,
    {
        let ghost o0 = shape_list(out@);
        out.push(self);
        assert(shape_list(out@) =~= o0 + seq![self@]);
        let n = self.children.len();
        let mut i: usize = 0;
        assert(self@.children.take(0) =~= Seq::<Shape>::empty());
        assert(o0 + seq![self@] + forest_preorder(self@.children.take(0)) =~= o0 + seq![self@]);
        while i < n
            invariant
                n == self@.children.len(),
                0 <= i <= n,
                shape_list(out@) == o0 + seq![self@] + forest_preorder(self@.children.take(i as int)),
            decreases n - i,
        {
            let ghost before = shape_list(out@);
            assert(self@.children[i as int] == self.children@[i as int]@);
            self.children[i].collect_subtrees(out);
            assert(self@.children.take(i + 1).drop_last() =~= self@.children.take(i as int));
            assert(self@.children.take(i + 1).last() == self@.children[i as int]);
            assert(shape_list(out@) =~= o0 + seq![self@] + forest_preorder(self@.children.take(i + 1)));
            i = i + 1;
        }
        assert(self@.children.take(n as int) =~= self@.children);
        assert(o0 + seq![self@] + forest_preorder(self@.children) =~= o0 + preorder(self@));
    }

    /// Calls `f` on the tree, then on each subtree, in pre-order (parents before
    /// children, children from first to last): `f` goes through the states `fs`,
    /// and its call in state `fs[i]` is on the `i`-th subtree of `subtrees`.
    pub fn for_each<F: FnMut(&Tree)>(&self, f: &mut F)
        requires
            forall|g: F, t: &Tree| call_requires(g, (t,)),
        ensures
            exists|fs: Seq<F>, ts: Seq<&Tree>|
                #![trigger fs.len(), ts.len()]
                fs.len() == ts.len() + 1 && shape_list(ts) == preorder(self@) && fs[0] == *old(f) && fs.last()
                    == *final(f) && forall|i: int| 0 <= i < ts.len() ==> call_ensures(#[trigger] fs[i], (ts[i],), ()),
    {
        let subs = self.subtrees();
        call_each(&subs, 0, f);
        assert(subs@.skip(0) =~= subs@);
    }

    /// Calls `f` on each proper subtree in pre-order, in the same way as `for_each`.
    pub fn for_each_strict<F: FnMut(&Tree)>(&self, f: &mut F)
        requires
            forall|g: F, t: &Tree| call_requires(g, (t,)),
        ensures
            exists|fs: Seq<F>, ts: Seq<&Tree>|
                #![trigger fs.len(), ts.len()]
                fs.len() == ts.len() + 1 && shape_list(ts) == forest_preorder(self@.children) && fs[0] == *old(f)
                    && fs.last() == *final(f) && forall|i: int| 0 <= i < ts.len() ==> call_ensures(
                    #[trigger] fs[i],
                    (ts[i],),
                    (),
                ),
    {
        let subs = self.subtrees();
        proof {
            assert(preorder(self@) == seq![self@] + forest_preorder(self@.children));
            assert(shape_list(subs@.skip(1)) =~= shape_list(subs@).skip(1));
            assert((seq![self@] + forest_preorder(self@.children)).skip(1) =~= forest_preorder(self@.children));
            assert(shape_list(subs@.skip(1)) =~= forest_preorder(self@.children));
        }
        call_each(&subs, 1, f);
    }
    /// Puts the tree in canonical form: each child in canonical form, then the
    /// children sorted in increasing order (see `shape_order`).
    pub fn to_canonical(&mut self)
        ensures
            final(self)@ == canon(old(self)@),
    {
        let mut t = Tree::leaf();
        std::mem::swap(&mut t, self);
        *self = canonical_of(t);
    }
}

/// The canonical form of `t` (see `canon`).
fn canonical_of(t: Tree) -> (r: Tree)
    ensures
        r@ == canon(t@),
    decreases t@,
{
    let ghost s0 = t@;
    let mut children = t.children;
    let ghost c0 = children@;
    assert(s0.children =~= c0.map_values(|t: Tree| t@));
    let n = children.len();
    let mut rev: Vec<Tree> = Vec::new();
    while children.len() > 0
        invariant
            children@ == c0.take(children@.len() as int),
            rev@.len() + children@.len() == n,
            n == c0.len(),
            forall|j: int| 0 <= j < rev@.len() ==> #[trigger] rev@[j] == c0[n - 1 - j],
        decreases children.len(),
    {
        let x = children.pop().unwrap();
        rev.push(x);
        assert(children@ =~= c0.take(children@.len() as int));
    }
    let ghost canon_cs = canon_children(s0);
    let mut out: Vec<Tree> = Vec::new();
    let mut k: usize = 0;
    assert(canon_cs.take(0) =~= Seq::<Shape>::empty());
    assert(out@.map_values(|t: Tree| t@) =~= Seq::<Shape>::empty());
    while k < n
        invariant
            s0 == t@,
            n == c0.len(),
            n == s0.children.len(),
            canon_cs.len() == n,
            forall|i: int| 0 <= i < n ==> #[trigger] canon_cs[i] == canon(s0.children[i]),
            s0.children == c0.map_values(|t: Tree| t@),
            rev@.len() + k == n,
            forall|j: int| 0 <= j < rev@.len() ==> #[trigger] rev@[j] == c0[n - 1 - j],
            0 <= k <= n,
            out@.map_values(|t: Tree| t@) == sort_shapes(canon_cs.take(k as int)),
        decreases n - k,
    {
        assert(rev@[rev@.len() - 1] == c0[k as int]);
        let x = rev.pop().unwrap();
        assert(x@ == s0.children[k as int]);
        assert(decreases_to!(s0 => s0.children[k as int]));
        let y = canonical_of(x);
        assert(y@ == canon_cs[k as int]);
        insert_sorted(&mut out, y);
        assert(canon_cs.take(k + 1).drop_last() =~= canon_cs.take(k as int));
        assert(canon_cs.take(k + 1).last() == canon_cs[k as int]);
        k = k + 1;
    }
    assert(canon_cs.take(n as int) =~= canon_cs);
    let r = Tree { children: out };
    assert(r@.children =~= out@.map_values(|t: Tree| t@));
    assert(r@.children =~= canon(s0).children);
    assert(r@ =~= canon(s0));
    r
}

} // verus!
