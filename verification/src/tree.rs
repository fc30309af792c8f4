use vstd::prelude::*;

verus! {

/// The mathematical shape of an ordered rooted tree: the ordered sequence
/// of the shapes of its children.
#[verifier::ext_equal]
pub struct Shape {
    pub children: Seq<Shape>,
}

/// An unlabelled rooted tree with ordered children.
#[derive(Debug, Eq, Hash, PartialOrd, Ord)]
pub struct Tree {
    pub children: Vec<Tree>,
}

impl View for Tree {
    type V = Shape;

    open spec fn view(&self) -> Shape
        decreases self,
    {
        Shape {
            children: Seq::new(
                self.children@.len(),
                |i: int|
                    if 0 <= i < self.children@.len() {
                        self.children@[i].view()
                    } else {
                        Shape { children: Seq::empty() }
                    },
            ),
        }
    }
}

/// The shapes of the trees of `v`, in order.
pub open spec fn shapes_of(v: Seq<Tree>) -> Seq<Shape> {
    v.map_values(|t: Tree| t@)
}

/// A shape with no children.
pub open spec fn leaf_shape() -> Shape {
    Shape { children: Seq::empty() }
}

/// Whether a shape is a leaf.
pub open spec fn is_leaf_shape(s: Shape) -> bool {
    s.children.len() == 0
}

/// Number of nodes of a shape.
pub open spec fn size(s: Shape) -> nat
    decreases s, 1nat,
{
    1 + forest_size(s.children)
}

/// Total number of nodes of a sequence of shapes.
pub open spec fn forest_size(cs: Seq<Shape>) -> nat
    decreases cs, 0nat,
{
    if cs.len() == 0 {
        0
    } else {
        forest_size(cs.drop_last()) + size(cs.last())
    }
}


/// Number of edges of a shape: its out-degree plus the edges of its children.
pub open spec fn edges(s: Shape) -> nat
    decreases s, 1nat,
{
    s.children.len() + forest_edges(s.children)
}

/// Total number of edges of a sequence of shapes.
pub open spec fn forest_edges(cs: Seq<Shape>) -> nat
    decreases cs, 0nat,
{
    if cs.len() == 0 {
        0
    } else {
        forest_edges(cs.drop_last()) + edges(cs.last())
    }
}

pub proof fn lemma_forest_size_append(a: Seq<Shape>, b: Seq<Shape>)
    ensures
        forest_size(a + b) == forest_size(a) + forest_size(b),
        forest_edges(a + b) == forest_edges(a) + forest_edges(b),
    decreases b.len(),
{
    if b.len() == 0 {
        assert(a + b =~= a);
    } else {
        lemma_forest_size_append(a, b.drop_last());
        assert((a + b).drop_last() =~= a + b.drop_last());
    }
}

pub proof fn lemma_forest_size_single(c: Shape)
    ensures
        forest_size(seq![c]) == size(c),
        forest_edges(seq![c]) == edges(c),
{
    assert(seq![c].drop_last() =~= Seq::<Shape>::empty());
    assert(forest_size(Seq::<Shape>::empty()) == 0);
    assert(forest_edges(Seq::<Shape>::empty()) == 0);
    assert(seq![c].last() == c);
}

/// Splits a forest around its `i`-th element.
pub proof fn lemma_forest_split(cs: Seq<Shape>, i: int)
    requires
        0 <= i < cs.len(),
    ensures
        forest_size(cs) == forest_size(cs.take(i)) + size(cs[i]) + forest_size(cs.skip(i + 1)),
        forest_edges(cs) == forest_edges(cs.take(i)) + edges(cs[i]) + forest_edges(cs.skip(i + 1)),
        forest_size(cs.take(i + 1)) == forest_size(cs.take(i)) + size(cs[i]),
        forest_edges(cs.take(i + 1)) == forest_edges(cs.take(i)) + edges(cs[i]),
{
    assert(cs =~= cs.take(i) + seq![cs[i]] + cs.skip(i + 1));
    assert(cs.take(i + 1) =~= cs.take(i) + seq![cs[i]]);
    lemma_forest_size_append(cs.take(i) + seq![cs[i]], cs.skip(i + 1));
    lemma_forest_size_append(cs.take(i), seq![cs[i]]);
    lemma_forest_size_single(cs[i]);
}

/// Every tree has exactly one edge fewer than it has nodes.
pub proof fn lemma_edges_size(s: Shape)
    ensures
        edges(s) + 1 == size(s),
    decreases s, 1nat,
{
    lemma_forest_edges_size(s.children);
}

pub proof fn lemma_forest_edges_size(cs: Seq<Shape>)
    ensures
        forest_edges(cs) + cs.len() == forest_size(cs),
    decreases cs, 0nat,
{
    if cs.len() > 0 {
        lemma_forest_edges_size(cs.drop_last());
        lemma_edges_size(cs.last());
    }
}

/// Length of the longest path from the root of `s` down to a leaf.
pub open spec fn depth(s: Shape) -> nat
    decreases s,
{
    if s.children.len() == 0 {
        0
    } else {
        1 + max_depth(s, s.children.len())
    }
}

/// The greatest depth among the first `k` children of `s`.
pub open spec fn max_depth(s: Shape, k: nat) -> nat
    decreases s, k,
{
    if k == 0 || k > s.children.len() {
        0
    } else {
        let d = depth(s.children[k - 1]);
        let m = max_depth(s, (k - 1) as nat);
        if d > m {
            d
        } else {
            m
        }
    }
}

/// Every child of `s` is at least one level less deep than `s`.
pub proof fn lemma_child_depth(s: Shape, i: int)
    requires
        0 <= i < s.children.len(),
    ensures
        depth(s.children[i]) + 1 <= depth(s),
{
    lemma_max_depth_ge(s, s.children.len(), i);
}

pub proof fn lemma_max_depth_ge(s: Shape, k: nat, i: int)
    requires
        0 <= i < k <= s.children.len(),
    ensures
        depth(s.children[i]) <= max_depth(s, k),
    decreases k,
{
    if i < k - 1 {
        lemma_max_depth_ge(s, (k - 1) as nat, i);
    }
}

/// A shape whose children all lie at least one level above `d` has depth at most `d`.
pub proof fn lemma_depth_at_most(s: Shape, d: nat)
    requires
        forall|i: int| 0 <= i < s.children.len() ==> depth(#[trigger] s.children[i]) + 1 <= d,
    ensures
        depth(s) <= d,
{
    if s.children.len() > 0 {
        lemma_max_depth_le(s, s.children.len(), d);
    }
}

proof fn lemma_max_depth_le(s: Shape, k: nat, d: nat)
    requires
        k <= s.children.len(),
        forall|i: int| 0 <= i < s.children.len() ==> depth(#[trigger] s.children[i]) + 1 <= d,
    ensures
        max_depth(s, k) + 1 <= d || k == 0,
    decreases k,
{
    if k > 0 {
        lemma_max_depth_le(s, (k - 1) as nat, d);
        assert(depth(s.children[k - 1]) + 1 <= d);
    }
}

/// Why a leaf deletion was refused.
#[derive(Debug, Clone, PartialEq, Eq, Structural)]
pub enum TreeEditError {
    /// The path is empty: the root cannot be deleted.
    EmptyPath,
    /// The child index `index` does not exist at depth `depth`.
    InvalidIndex { depth: usize, index: usize },
    /// The node that the path designates is not a leaf.
    TargetNotLeaf,
}

/// The paths (sequences of child indices from the root) to all non-root
/// leaves, in depth-first, left-to-right order.
pub open spec fn leaf_paths(s: Shape) -> Seq<Seq<usize>>
    decreases s, 1nat,
{
    forest_leaf_paths(s.children)
}

/// The leaf paths of a node whose children are `cs`.
pub open spec fn forest_leaf_paths(cs: Seq<Shape>) -> Seq<Seq<usize>>
    decreases cs, 0nat,
{
    if cs.len() == 0 {
        Seq::empty()
    } else {
        forest_leaf_paths(cs.drop_last()) + child_leaf_paths(cs.last(), (cs.len() - 1) as usize)
    }
}

/// The leaf paths that go through child number `i`, whose shape is `c`.
pub open spec fn child_leaf_paths(c: Shape, i: usize) -> Seq<Seq<usize>>
    decreases c, 2nat,
{
    if is_leaf_shape(c) {
        seq![seq![i]]
    } else {
        leaf_paths(c).map_values(|p: Seq<usize>| seq![i] + p)
    }
}

/// Deletion of the leaf that `path` designates, reading the path from
/// position `depth` on (`depth` is reported in errors).
pub open spec fn delete_at(s: Shape, path: Seq<usize>, depth: nat) -> Result<Shape, TreeEditError>
    decreases path.len() - depth,
{
    if depth >= path.len() {
        Err(TreeEditError::EmptyPath)
    } else {
        let first = path[depth as int];
        if first >= s.children.len() {
            Err(TreeEditError::InvalidIndex { depth: depth as usize, index: first })
        } else if depth + 1 == path.len() {
            if !is_leaf_shape(s.children[first as int]) {
                Err(TreeEditError::TargetNotLeaf)
            } else {
                Ok(Shape { children: s.children.remove(first as int) })
            }
        } else {
            match delete_at(s.children[first as int], path, depth + 1) {
                Ok(c) => Ok(Shape { children: s.children.update(first as int, c) }),
                Err(e) => Err(e),
            }
        }
    }
}

/// Deletion of the non-root leaf designated by `path`.
pub open spec fn delete_leaf_spec(s: Shape, path: Seq<usize>) -> Result<Shape, TreeEditError> {
    delete_at(s, path, 0)
}

/// The parenthesised text of a shape: `(` then its children, then `)`.
pub open spec fn enc(s: Shape) -> Seq<char>
    decreases s, 1nat,
{
    seq!['('] + forest_enc(s.children) + seq![')']
}

/// The concatenated text of a sequence of shapes.
pub open spec fn forest_enc(cs: Seq<Shape>) -> Seq<char>
    decreases cs, 0nat,
{
    if cs.len() == 0 {
        Seq::empty()
    } else {
        forest_enc(cs.drop_last()) + enc(cs.last())
    }
}

/// Every out-degree in the shape fits a machine index (true of every tree's shape).
pub open spec fn bounded(s: Shape) -> bool
    decreases s,
{
    &&& s.children.len() <= usize::MAX
    &&& forall|i: int| 0 <= i < s.children.len() ==> bounded(#[trigger] s.children[i])
}

pub proof fn lemma_tree_bounded(t: &Tree)
    ensures
        bounded(t@),
    decreases t,
{
    assert(t.children.len() <= usize::MAX);
    assert forall|i: int| 0 <= i < t@.children.len() implies bounded(#[trigger] t@.children[i]) by {
        assert(decreases_to!(t => t.children@[i]));
        lemma_tree_bounded(&t.children@[i]);
    }
}

/// Reading a path one step further down gives the same deletion.
pub proof fn lemma_delete_shift(c: Shape, x: usize, q: Seq<usize>, d: nat)
    ensures
        delete_at(c, seq![x] + q, d + 1) is Ok <==> delete_at(c, q, d) is Ok,
        delete_at(c, q, d) is Ok ==> delete_at(c, seq![x] + q, d + 1) == delete_at(c, q, d),
    decreases q.len() - d,
{
    let p = seq![x] + q;
    if d < q.len() {
        assert(p[d + 1 as int] == q[d as int]);
        let first = q[d as int];
        if first < c.children.len() && d + 1 != q.len() {
            lemma_delete_shift(c.children[first as int], x, q, d + 1);
        }
    }
}

/// Where a member of `forest_leaf_paths(cs)` leads: a leaf child, or a leaf path inside a child.
pub proof fn lemma_forest_path_member(cs: Seq<Shape>, k: int) -> (r: (int, Seq<usize>))
    requires
        0 <= k < forest_leaf_paths(cs).len(),
        cs.len() <= usize::MAX,
    ensures
        0 <= r.0 < cs.len(),
        is_leaf_shape(cs[r.0]) ==> forest_leaf_paths(cs)[k] == seq![r.0 as usize],
        !is_leaf_shape(cs[r.0]) ==> leaf_paths(cs[r.0]).contains(r.1) && forest_leaf_paths(cs)[k]
            == seq![r.0 as usize] + r.1,
    decreases cs.len(),
{
    let prev = forest_leaf_paths(cs.drop_last());
    let i = cs.len() - 1;
    let c = cs.last();
    let added = child_leaf_paths(c, i as usize);
    assert(forest_leaf_paths(cs) == prev + added);
    if k < prev.len() {
        let r = lemma_forest_path_member(cs.drop_last(), k);
        assert(cs.drop_last()[r.0] == cs[r.0]);
        r
    } else {
        let j = k - prev.len();
        assert(forest_leaf_paths(cs)[k] == added[j]);
        if is_leaf_shape(c) {
            (i, Seq::empty())
        } else {
            let lp = leaf_paths(c);
            assert(j < lp.len());
            assert(lp.contains(lp[j]));
            (i, lp[j])
        }
    }
}

/// Deleting the leaf at a leaf path always succeeds and removes exactly one node.
pub proof fn lemma_leaf_path_deletes(s: Shape, p: Seq<usize>)
    requires
        bounded(s),
        leaf_paths(s).contains(p),
    ensures
        delete_leaf_spec(s, p) is Ok,
        size(delete_leaf_spec(s, p)->Ok_0) + 1 == size(s),
        bounded(delete_leaf_spec(s, p)->Ok_0),
    decreases s,
{
    let cs = s.children;
    let k = choose|k: int| 0 <= k < leaf_paths(s).len() && leaf_paths(s)[k] == p;
    let (i, q) = lemma_forest_path_member(cs, k);
    let c = cs[i];
    lemma_forest_split(cs, i);
    if is_leaf_shape(c) {
        assert(p[0] == i);
        let rest = cs.remove(i);
        assert(rest =~= cs.take(i) + cs.skip(i + 1));
        lemma_forest_size_append(cs.take(i), cs.skip(i + 1));
        assert(forest_size(c.children) == 0);
        assert forall|j: int| 0 <= j < rest.len() implies bounded(#[trigger] rest[j]) by {
            if j < i { assert(rest[j] == cs[j]); } else { assert(rest[j] == cs[j + 1]); }
        }
    } else {
        assert(p[0] == i);
        assert(p.len() > 1) by {
            assert(leaf_paths(c).len() > 0 ==> true);
            let kk = choose|kk: int| 0 <= kk < leaf_paths(c).len() && leaf_paths(c)[kk] == q;
            lemma_paths_nonempty(c, kk);
        }
        lemma_leaf_path_deletes(c, q);
        lemma_delete_shift(c, i as usize, q, 0);
        assert(p == seq![i as usize] + q);
        let c2 = delete_leaf_spec(c, q)->Ok_0;
        let rest = cs.update(i, c2);
        assert(rest =~= cs.take(i) + seq![c2] + cs.skip(i + 1));
        lemma_forest_size_append(cs.take(i) + seq![c2], cs.skip(i + 1));
        lemma_forest_size_append(cs.take(i), seq![c2]);
        lemma_forest_size_single(c2);
        assert forall|j: int| 0 <= j < rest.len() implies bounded(#[trigger] rest[j]) by {
            if j != i { assert(rest[j] == cs[j]); }
        }
    }
}

/// Leaf paths are never empty.
pub proof fn lemma_paths_nonempty(s: Shape, k: int)
    requires
        0 <= k < leaf_paths(s).len(),
        bounded(s),
    ensures
        leaf_paths(s)[k].len() >= 1,
{
    let (i, q) = lemma_forest_path_member(s.children, k);
    if !is_leaf_shape(s.children[i]) {
        assert((seq![i as usize] + q).len() >= 1);
    }
}

/// The tree that deleting the leaf at `p` leaves (the tree itself where `p` is no leaf path).
pub open spec fn reduce_at(s: Shape, p: Seq<usize>) -> Shape {
    match delete_leaf_spec(s, p) {
        Ok(r) => r,
        Err(_) => s,
    }
}

/// All immediate reductions of a shape, one per non-root leaf, in leaf-path order
/// (with repetitions where two deletions give the same shape).
pub open spec fn reductions(s: Shape) -> Seq<Shape> {
    leaf_paths(s).map_values(|p: Seq<usize>| reduce_at(s, p))
}

/// Every immediate reduction of a shape has exactly one node fewer.
pub proof fn lemma_reductions_size(s: Shape)
    requires
        bounded(s),
    ensures
        forall|k: int| 0 <= k < reductions(s).len() ==> size(#[trigger] reductions(s)[k]) + 1 == size(s)
            && bounded(reductions(s)[k]),
{
    assert forall|k: int| 0 <= k < reductions(s).len() implies size(#[trigger] reductions(s)[k]) + 1 == size(s)
        && bounded(reductions(s)[k]) by {
        let p = leaf_paths(s)[k];
        assert(leaf_paths(s).contains(p));
        lemma_leaf_path_deletes(s, p);
    }
}

impl Tree {
    /// Creates a leaf `()`.
    pub fn leaf() -> (r: Tree)
        ensures
            r@ == leaf_shape(),
    {
        let r = Tree { children: Vec::new() };
        assert(r@.children =~= Seq::<Shape>::empty());
        r
    }

    /// Whether the tree is a leaf.
    pub fn is_leaf(&self) -> (r: bool)
        ensures
            r == is_leaf_shape(self@),
    {
        self.children.len() == 0
    }

    /// Number of nodes.
    pub fn node_count(&self) -> (r: usize)
        requires
            size(self@) <= usize::MAX,
        ensures
            r == size(self@),
        decreases self,
    {
        let n = self.children.len();
        let mut total: usize = 1;
        let mut i: usize = 0;
        while i < n
            invariant
                n == self.children@.len(),
                0 <= i <= n,
                size(self@) <= usize::MAX,
                total == 1 + forest_size(self@.children.take(i as int)),
            decreases n - i,
        {
            proof {
                lemma_forest_split(self@.children, i as int);
                lemma_forest_size_append(self@.children.take(i + 1), self@.children.skip(i + 1));
                assert(self@.children =~= self@.children.take(i + 1) + self@.children.skip(i + 1));
            }
            assert(decreases_to!(self => self.children@[i as int]));
            let c = self.children[i].node_count();
            total = total + c;
            i = i + 1;
        }
        assert(self@.children.take(n as int) =~= self@.children);
        total
    }

    /// Number of edges.
    pub fn edge_count(&self) -> (r: usize)
        requires
            edges(self@) <= usize::MAX,
        ensures
            r == edges(self@),
        decreases self,
    {
        let n = self.children.len();
        let mut total: usize = n;
        let mut i: usize = 0;
        while i < n
            invariant
                n == self.children@.len(),
                0 <= i <= n,
                edges(self@) <= usize::MAX,
                total == n + forest_edges(self@.children.take(i as int)),
            decreases n - i,
        {
            proof {
                lemma_forest_split(self@.children, i as int);
                lemma_forest_size_append(self@.children.take(i + 1), self@.children.skip(i + 1));
                assert(self@.children =~= self@.children.take(i + 1) + self@.children.skip(i + 1));
            }
            assert(decreases_to!(self => self.children@[i as int]));
            let c = self.children[i].edge_count();
            total = total + c;
            i = i + 1;
        }
        assert(self@.children.take(n as int) =~= self@.children);
        total
    }

    /// Lists the paths to all non-root leaves (depth first, left to right).
    pub fn non_root_leaf_paths(&self) -> (r: Vec<Vec<usize>>)
        ensures
            r.deep_view() == leaf_paths(self@),
    {
        let mut out: Vec<Vec<usize>> = Vec::new();
        let mut prefix: Vec<usize> = Vec::new();
        self.collect_non_root_leaf_paths(&mut prefix, &mut out);
        assert(leaf_paths(self@).map_values(|p: Seq<usize>| Seq::<usize>::empty() + p) =~= leaf_paths(self@));
        assert(out.deep_view() =~= leaf_paths(self@));
        out
    }

    fn collect_non_root_leaf_paths(&self, prefix: &mut Vec<usize>, out: &mut Vec<Vec<usize>>)
        ensures
            final(prefix)@ == old(prefix)@,
            final(out).deep_view() == old(out).deep_view() + leaf_paths(self@).map_values(
                |p: Seq<usize>| old(prefix)@ + p,
            ),
        decreases self,
    {
        let ghost pre = prefix@;
        let ghost out0 = out.deep_view();
        let ghost cs = self@.children;
        let n = self.children.len();
        let mut i: usize = 0;
        assert(cs.take(0) =~= Seq::<Shape>::empty());
        assert(forest_leaf_paths(Seq::<Shape>::empty()) =~= Seq::<Seq<usize>>::empty());
        assert(out.deep_view() =~= out0 + forest_leaf_paths(cs.take(0)).map_values(|p: Seq<usize>| pre + p));
        while i < n
            invariant
                n == self.children@.len(),
                cs == self@.children,
                0 <= i <= n,
                prefix@ == pre,
                out.deep_view() == out0 + forest_leaf_paths(cs.take(i as int)).map_values(
                    |p: Seq<usize>| pre + p,
                ),
            decreases n - i,
        {
            let ghost before = out.deep_view();
            assert(cs.take(i + 1).drop_last() =~= cs.take(i as int));
            assert(cs.take(i + 1).last() == cs[i as int]);
            let ghost added = child_leaf_paths(cs[i as int], i);
            assert(forest_leaf_paths(cs.take(i + 1)) == forest_leaf_paths(cs.take(i as int)) + added);
            prefix.push(i);
            if self.children[i].is_leaf() {
                let p = prefix.clone();
                assert(p@ =~= prefix@);
                assert(p.deep_view() =~= p@);
                assert(pre + seq![i] =~= prefix@);
                out.push(p);
                assert(added =~= seq![seq![i]]);
                assert(out.deep_view() =~= before.push(pre + seq![i]));
                assert(out.deep_view() =~= before + added.map_values(|p: Seq<usize>| pre + p));
            } else {
                assert(decreases_to!(self => self.children@[i as int]));
                let ghost pre_i = prefix@;
                self.children[i].collect_non_root_leaf_paths(prefix, out);
                assert(added == leaf_paths(cs[i as int]).map_values(|p: Seq<usize>| seq![i] + p));
                assert(pre_i =~= pre + seq![i]);
                let ghost lp = leaf_paths(cs[i as int]);
                assert forall|k: int| 0 <= k < lp.len() implies
                    pre_i + #[trigger] lp[k] == pre + (seq![i] + lp[k]) by {
                    assert(pre_i + lp[k] =~= pre + (seq![i] + lp[k]));
                }
                assert(leaf_paths(cs[i as int]).map_values(|p: Seq<usize>| pre_i + p)
                    =~= added.map_values(|p: Seq<usize>| pre + p));
                assert(out.deep_view() =~= before + added.map_values(|p: Seq<usize>| pre + p));
            }
            prefix.pop();
            assert(prefix@ =~= pre);
            assert((forest_leaf_paths(cs.take(i as int)) + added).map_values(|p: Seq<usize>| pre + p)
                =~= forest_leaf_paths(cs.take(i as int)).map_values(|p: Seq<usize>| pre + p)
                    + added.map_values(|p: Seq<usize>| pre + p));
            i = i + 1;
        }
        assert(cs.take(n as int) =~= cs);
    }

    /// Deletes the non-root leaf designated by `path` and returns the new tree.
    pub fn delete_leaf(&self, path: &[usize]) -> (r: Result<Tree, TreeEditError>)
        ensures
            match r {
                Ok(t) => delete_leaf_spec(self@, path@) == Ok::<Shape, TreeEditError>(t@),
                Err(e) => delete_leaf_spec(self@, path@) == Err::<Shape, TreeEditError>(e),
            },
    {
        if path.len() == 0 {
            return Err(TreeEditError::EmptyPath);
        }
        let mut new = self.duplicate();
        match new.delete_leaf_in_place(path, 0) {
            Ok(()) => Ok(new),
            Err(e) => Err(e),
        }
    }

    fn delete_leaf_in_place(&mut self, path: &[usize], depth: usize) -> (r: Result<(), TreeEditError>)
        requires
            depth < path@.len(),
        ensures
            match r {
                Ok(_) => delete_at(old(self)@, path@, depth as nat) == Ok::<Shape, TreeEditError>(final(self)@),
                Err(e) => delete_at(old(self)@, path@, depth as nat) == Err::<Shape, TreeEditError>(e)
                    && final(self)@ == old(self)@,
            },
        decreases path@.len() - depth,
    {
        let first = path[depth];
        if first >= self.children.len() {
            return Err(TreeEditError::InvalidIndex { depth, index: first });
        }
        if depth + 1 == path.len() {
            if !self.children[first].is_leaf() {
                return Err(TreeEditError::TargetNotLeaf);
            }
            let ghost old_cs = self@.children;
            self.children.remove(first);
            assert(self@.children =~= old_cs.remove(first as int));
            return Ok(());
        }
        let ghost old_cs = self@.children;
        let ghost old_child = self.children@[first as int];
        let r = self.children[first].delete_leaf_in_place(path, depth + 1);
        assert(self@.children =~= old_cs.update(first as int, self.children@[first as int]@)) by {
            assert forall|j: int| 0 <= j < old_cs.len() && j != first implies self@.children[j] == old_cs[j] by {}
        }
        match r {
            Ok(()) => Ok(()),
            Err(e) => {
                assert(self@.children =~= old_cs);
                assert(self@ =~= old(self)@);
                Err(e)
            },
        }
    }

    /// The parenthesised text of the tree, e.g. `(()(()))`.
    pub fn to_string(&self) -> (r: String)
        ensures
            r@ == enc(self@),
    {
        let mut s = String::new();
        self.write_into(&mut s);
        s
    }

    fn write_into(&self, out: &mut String)
        ensures
            final(out)@ == old(out)@ + enc(self@),
        decreases self,
    {
        let ghost start = out@;
        let ghost cs = self@.children;
        proof {
            reveal_strlit("(");
            reveal_strlit(")");
        }
        out.append("(");
        let n = self.children.len();
        let mut i: usize = 0;
        assert(cs.take(0) =~= Seq::<Shape>::empty());
        assert(out@ =~= start + seq!['('] + forest_enc(cs.take(0)));
        while i < n
            invariant
                n == self.children@.len(),
                cs == self@.children,
                0 <= i <= n,
                out@ == start + seq!['('] + forest_enc(cs.take(i as int)),
            decreases n - i,
        {
            assert(cs.take(i + 1).drop_last() =~= cs.take(i as int));
            assert(cs.take(i + 1).last() == cs[i as int]);
            assert(decreases_to!(self => self.children@[i as int]));
            self.children[i].write_into(out);
            assert(out@ =~= start + seq!['('] + forest_enc(cs.take(i + 1)));
            i = i + 1;
        }
        assert(cs.take(n as int) =~= cs);
        out.append(")");
        assert(out@ =~= start + enc(self@));
    }

    /// Whether two trees have the same shape.
    pub fn same_shape(&self, other: &Tree) -> (r: bool)
        ensures
            r == (self@ == other@),
        decreases self,
    {
        let n = self.children.len();
        if n != other.children.len() {
            assert(self@.children.len() != other@.children.len());
            return false;
        }
        let mut i: usize = 0;
        while i < n
            invariant
                n == self.children@.len(),
                n == other.children@.len(),
                0 <= i <= n,
                forall|j: int| 0 <= j < i ==> self.children@[j]@ == other.children@[j]@,
            decreases n - i,
        {
            assert(decreases_to!(self => self.children@[i as int]));
            if !self.children[i].same_shape(&other.children[i]) {
                assert(self@.children[i as int] != other@.children[i as int]);
                return false;
            }
            i = i + 1;
        }
        assert(self@.children =~= other@.children);
        true
    }
}

impl Tree {
    /// A copy of the tree, node by node.
    pub fn duplicate(&self) -> (r: Tree)
        ensures
            r@ == self@,
        decreases self,
    {
        let n = self.children.len();
        let mut children: Vec<Tree> = Vec::new();
        let mut i: usize = 0;
        while i < n
            invariant
                n == self.children@.len(),
                0 <= i <= n,
                children@.len() == i,
                forall|j: int| 0 <= j < i ==> children@[j]@ == self.children@[j]@,
            decreases n - i,
        {
            assert(decreases_to!(self => self.children@[i as int]));
            let c = self.children[i].duplicate();
            children.push(c);
            i = i + 1;
        }
        let r = Tree { children };
        assert(r@.children =~= self@.children);
        r
    }
}

impl Clone for Tree {
    fn clone(&self) -> (r: Tree)
        ensures
            r@ == self@,
    {
        self.duplicate()
    }
}

impl PartialEq for Tree {
    fn eq(&self, other: &Tree) -> (r: bool) {
        self.same_shape(other)
    }
}

impl vstd::std_specs::cmp::PartialEqSpecImpl for Tree {
    open spec fn obeys_eq_spec() -> bool {
        true
    }

    open spec fn eq_spec(&self, other: &Tree) -> bool {
        self@ == other@
    }
}

} // verus!
