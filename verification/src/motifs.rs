use vstd::prelude::*;
use vstd::string::StrSliceExecFns;

use crate::enumerate::dedup_trees;
use crate::parse::lemma_text_roundtrip;
use crate::reduction::immediate_reductions;
use crate::tree::{Shape, Tree, enc, reductions, shapes_of};

verus! {

/// A "diamond3": three distinct immediate reductions of `top` that all reduce to
/// `bottom` in one more step. The trees are given by their texts.
#[derive(Clone, Debug, PartialEq, Eq)]
pub struct Diamond3Witness {
    pub top: String,
    pub middle: [String; 3],
    pub bottom: String,
}

/// The order of texts (`String`'s order): lexicographic, a prefix first.
pub open spec fn text_lt(a: Seq<char>, b: Seq<char>) -> bool
    decreases a.len(),
{
    if a.len() == 0 {
        b.len() > 0
    } else if b.len() == 0 {
        false
    } else if a[0] == b[0] {
        text_lt(a.drop_first(), b.drop_first())
    } else {
        (a[0] as int) < (b[0] as int)
    }
}

pub proof fn lemma_text_lt_irreflexive(a: Seq<char>)
    ensures
        !text_lt(a, a),
    decreases a.len(),
{
    if a.len() > 0 {
        lemma_text_lt_irreflexive(a.drop_first());
    }
}

pub proof fn lemma_text_lt_transitive(a: Seq<char>, b: Seq<char>, c: Seq<char>)
    requires
        text_lt(a, b),
        text_lt(b, c),
    ensures
        text_lt(a, c),
    decreases a.len(),
{
    if a.len() > 0 && b.len() > 0 && c.len() > 0 {
        if a[0] == b[0] && b[0] == c[0] {
            lemma_text_lt_transitive(a.drop_first(), b.drop_first(), c.drop_first());
        }
    }
}

pub proof fn lemma_text_lt_total(a: Seq<char>, b: Seq<char>)
    requires
        a != b,
    ensures
        text_lt(a, b) || text_lt(b, a),
    decreases a.len(),
{
    if a.len() > 0 && b.len() > 0 {
        if a[0] == b[0] {
            if a.drop_first() == b.drop_first() {
                assert(a =~= seq![a[0]] + a.drop_first());
                assert(b =~= seq![b[0]] + b.drop_first());
            }
            lemma_text_lt_total(a.drop_first(), b.drop_first());
        } else {
            assert((a[0] as int) != (b[0] as int));
        }
    } else if a.len() == 0 && b.len() == 0 {
        assert(a =~= b);
    }
}

/// Distinct trees have distinct texts.
pub proof fn lemma_enc_injective(s1: Shape, s2: Shape)
    requires
        enc(s1) == enc(s2),
    ensures
        s1 == s2,
{
    lemma_text_roundtrip(s1);
    lemma_text_roundtrip(s2);
}

/// Whether `a` comes before `b` in the order of texts.
fn text_less(a: &String, b: &String) -> (r: bool)
    ensures
        r == text_lt(a@, b@),
{
    let sa = a.as_str();
    let sb = b.as_str();
    let la = sa.unicode_len();
    let lb = sb.unicode_len();
    let mut i: usize = 0;
    assert(a@.skip(0) =~= a@);
    assert(b@.skip(0) =~= b@);
    while i < la && i < lb
        invariant
            la == a@.len(),
            lb == b@.len(),
            sa@ == a@,
            sb@ == b@,
            0 <= i <= la,
            i <= lb,
            text_lt(a@, b@) == text_lt(a@.skip(i as int), b@.skip(i as int)),
        decreases la - i,
    {
        let ca = sa.get_char(i);
        let cb = sb.get_char(i);
        assert(a@.skip(i as int)[0] == ca);
        assert(b@.skip(i as int)[0] == cb);
        if ca != cb {
            return (ca as u32) < (cb as u32);
        }
        assert(a@.skip(i as int).drop_first() =~= a@.skip(i + 1));
        assert(b@.skip(i as int).drop_first() =~= b@.skip(i + 1));
        i = i + 1;
    }
    la == i && i < lb
}

/// `m` is an immediate reduction of `top`, and `b` one of `m`.
pub open spec fn two_step(top: Shape, m: Shape, b: Shape) -> bool {
    reductions(top).contains(m) && reductions(m).contains(b)
}

/// Three distinct immediate reductions of `top` reduce to `b` in one more step.
pub open spec fn is_diamond3_bottom(top: Shape, b: Shape) -> bool {
    exists|m0: Shape, m1: Shape, m2: Shape|
        #![trigger two_step(top, m0, b), two_step(top, m1, b), two_step(top, m2, b)]
        m0 != m1 && m0 != m2 && m1 != m2 && two_step(top, m0, b) && two_step(top, m1, b) && two_step(top, m2, b)
}

/// `w` describes, for the tree `top`, the bottom `b` whose text comes first among
/// the diamond3 bottoms of `top`, with the three middles whose texts come first,
/// in increasing order of text.
pub open spec fn is_first_diamond3(top: Shape, w: Diamond3Witness) -> bool {
    exists|b: Shape, m0: Shape, m1: Shape, m2: Shape|
        #![trigger two_step(top, m0, b), two_step(top, m1, b), two_step(top, m2, b)]
        {
            &&& w.top@ == enc(top)
            &&& w.bottom@ == enc(b)
            &&& w.middle@[0]@ == enc(m0)
            &&& w.middle@[1]@ == enc(m1)
            &&& w.middle@[2]@ == enc(m2)
            &&& two_step(top, m0, b) && two_step(top, m1, b) && two_step(top, m2, b)
            &&& text_lt(enc(m0), enc(m1)) && text_lt(enc(m1), enc(m2))
            &&& forall|m: Shape| #[trigger] two_step(top, m, b) && m != m0 && m != m1 && m != m2 ==> text_lt(enc(m2), enc(m))
            &&& forall|b2: Shape| #[trigger] is_diamond3_bottom(top, b2) && b2 != b ==> text_lt(enc(b), enc(b2))
        }
}

/// Whether a tree with the shape of `t` is in `v`.
fn listed(v: &Vec<Tree>, t: &Tree) -> (r: bool)
    ensures
        r == shapes_of(v@).contains(t@),
{
    let n = v.len();
    let mut i: usize = 0;
    while i < n
        invariant
            n == v@.len(),
            0 <= i <= n,
            forall|j: int| 0 <= j < i ==> v@[j]@ != t@,
        decreases n - i,
    {
        if v[i].same_shape(t) {
            assert(shapes_of(v@)[i as int] == t@);
            return true;
        }
        i = i + 1;
    }
    proof {
        if shapes_of(v@).contains(t@) {
            let j = choose|j: int| 0 <= j < shapes_of(v@).len() && shapes_of(v@)[j] == t@;
            assert(v@[j]@ == t@);
        }
    }
    false
}

/// The positions `j` (in increasing order) at which `bots[j]` lists the shape of `t`.
fn lists_holding(bots: &Vec<Vec<Tree>>, t: &Tree) -> (r: Vec<usize>)
    ensures
        forall|a: int, b: int| 0 <= a < b < r@.len() ==> r@[a] < r@[b],
        forall|a: int| 0 <= a < r@.len() ==> #[trigger] r@[a] < bots@.len(),
        forall|j: int| 0 <= j < bots@.len() ==> (r@.contains(j as usize) <==> shapes_of(bots@[j]@).contains(t@)),
{
    let n = bots.len();
    let mut r: Vec<usize> = Vec::new();
    let mut j: usize = 0;
    while j < n
        invariant
            n == bots@.len(),
            0 <= j <= n,
            forall|a: int, b: int| 0 <= a < b < r@.len() ==> r@[a] < r@[b],
            forall|a: int| 0 <= a < r@.len() ==> #[trigger] r@[a] < j,
            forall|k: int| 0 <= k < j ==> (r@.contains(k as usize) <==> shapes_of(bots@[k]@).contains(t@)),
        decreases n - j,
    {
        let ghost r0 = r@;
        if listed(&bots[j], t) {
            r.push(j);
        }
        proof {
            assert forall|k: int| 0 <= k < j + 1 implies (r@.contains(k as usize) <==> shapes_of(bots@[k]@).contains(t@)) by {
                if k < j {
                    if r0.contains(k as usize) {
                        let a = choose|a: int| 0 <= a < r0.len() && r0[a] == k as usize;
                        assert(r@[a] == k as usize);
                    }
                    if r@.contains(k as usize) {
                        let a = choose|a: int| 0 <= a < r@.len() && r@[a] == k as usize;
                        if a < r0.len() {
                            assert(r0[a] == k as usize);
                        }
                    }
                } else {
                    if r@.contains(k as usize) {
                        let a = choose|a: int| 0 <= a < r@.len() && r@[a] == k as usize;
                        if a < r0.len() {
                            assert(r0[a] < j);
                        }
                    }
                    if shapes_of(bots@[k]@).contains(t@) {
                        assert(r@[r@.len() - 1] == j);
                    }
                }
            }
        }
        j = j + 1;
    }
    r
}

/// A sequence that holds three distinct values has at least three items.
proof fn lemma_three_listed(r: Seq<usize>, x: usize, y: usize, z: usize)
    requires
        r.contains(x),
        r.contains(y),
        r.contains(z),
        x != y && x != z && y != z,
    ensures
        r.len() >= 3,
{
    let a = choose|a: int| 0 <= a < r.len() && r[a] == x;
    let b = choose|b: int| 0 <= b < r.len() && r[b] == y;
    let c = choose|c: int| 0 <= c < r.len() && r[c] == z;
}

/// The position, not among `skip`, of the text of `ts` that comes first.
fn first_text_except(ts: &Vec<String>, skip: &Vec<usize>) -> (r: usize)
    requires
        ts@.len() >= 3,
        skip@.len() <= 2,
        forall|a: int, b: int| 0 <= a < b < ts@.len() ==> ts@[a]@ != ts@[b]@,
    ensures
        r < ts@.len(),
        !skip@.contains(r),
        forall|k: int| 0 <= k < ts@.len() && !skip@.contains(k as usize) && k != r ==> text_lt(ts@[r as int]@, ts@[k]@),
{
    let n = ts.len();
    let mut best: Option<usize> = None;
    let mut k: usize = 0;
    while k < n
        invariant
            n == ts@.len(),
            n >= 3,
            skip@.len() <= 2,
            forall|a: int, b: int| 0 <= a < b < ts@.len() ==> ts@[a]@ != ts@[b]@,
            0 <= k <= n,
            best matches Some(b) ==> b < k && !skip@.contains(b) && forall|q: int|
                0 <= q < k && !skip@.contains(q as usize) && q != b ==> text_lt(ts@[b as int]@, ts@[q]@),
            best is None ==> forall|q: usize| q < k ==> #[trigger] skip@.contains(q),
        decreases n - k,
    {
        let mut skipped = false;
        let m = skip.len();
        let mut z: usize = 0;
        while z < m
            invariant
                m == skip@.len(),
                0 <= z <= m,
                skipped == exists|w: int| 0 <= w < z && skip@[w] == k,
            decreases m - z,
        {
            if skip[z] == k {
                skipped = true;
            }
            z = z + 1;
        }
        assert(skipped == skip@.contains(k));
        if !skipped {
            match best {
                None => {
                    best = Some(k);
                },
                Some(b) => {
                    if text_less(&ts[k], &ts[b]) {
                        proof {
                            assert forall|q: int| 0 <= q < k + 1 && !skip@.contains(q as usize) && q != k implies text_lt(ts@[k as int]@, ts@[q]@) by {
                                if q != b {
                                    lemma_text_lt_transitive(ts@[k as int]@, ts@[b as int]@, ts@[q]@);
                                }
                            }
                        }
                        best = Some(k);
                    } else {
                        proof {
                            lemma_text_lt_total(ts@[k as int]@, ts@[b as int]@);
                        }
                    }
                },
            }
        }
        k = k + 1;
    }
    match best {
        Some(b) => b,
        None => {
            proof {
                assert(skip@.contains(0usize) && skip@.contains(1usize) && skip@.contains(2usize));
                lemma_three_listed(skip@, 0, 1, 2);
            }
            0
        },
    }
}

/// The tables that `find_diamond3` works with: the distinct immediate reductions
/// `mv` of `top`; for each, its distinct immediate reductions `bots[j]` and its
/// text `texts[j]`.
#[verifier::opaque]
spec fn tables_ok(top: Shape, mv: Seq<Shape>, bots: Seq<Vec<Tree>>, texts: Seq<String>) -> bool {
    &&& mv.len() <= usize::MAX
    &&& mv.no_duplicates()
    &&& forall|m: Shape| mv.contains(m) <==> #[trigger] reductions(top).contains(m)
    &&& bots.len() == mv.len()
    &&& texts.len() == mv.len()
    &&& forall|j: int, x: Shape|
        #![trigger shapes_of(bots[j]@).contains(x)]
        #![trigger reductions(mv[j]).contains(x)]
        0 <= j < mv.len() ==> (shapes_of(bots[j]@).contains(x) <==> reductions(mv[j]).contains(x))
    &&& forall|j: int| 0 <= j < mv.len() ==> #[trigger] texts[j]@ == enc(mv[j])
}

/// `js` lists, in increasing order, the positions `j` at which `mv[j]` reduces to `x`.
spec fn holders(mv: Seq<Shape>, js: Seq<usize>, x: Shape) -> bool {
    &&& forall|a: int, b: int| 0 <= a < b < js.len() ==> js[a] < js[b]
    &&& forall|a: int| 0 <= a < js.len() ==> #[trigger] js[a] < mv.len()
    &&& forall|j: int| 0 <= j < mv.len() ==> (js.contains(j as usize) <==> reductions(mv[j]).contains(x))
}

/// A tree is a diamond3 bottom exactly when at least three listed middles reduce to it.
proof fn lemma_holders_count(top: Shape, mv: Seq<Shape>, bots: Seq<Vec<Tree>>, texts: Seq<String>, js: Seq<usize>, x: Shape)
    requires
        tables_ok(top, mv, bots, texts),
        holders(mv, js, x),
    ensures
        js.len() >= 3 <==> is_diamond3_bottom(top, x),
{
    reveal(tables_ok);
    if is_diamond3_bottom(top, x) {
        let (m0, m1, m2) = choose|m0: Shape, m1: Shape, m2: Shape|
            #![trigger two_step(top, m0, x), two_step(top, m1, x), two_step(top, m2, x)]
            m0 != m1 && m0 != m2 && m1 != m2 && two_step(top, m0, x) && two_step(top, m1, x) && two_step(top, m2, x);
        assert(mv.contains(m0) && mv.contains(m1) && mv.contains(m2));
        let a0 = choose|a: int| 0 <= a < mv.len() && mv[a] == m0;
        let a1 = choose|a: int| 0 <= a < mv.len() && mv[a] == m1;
        let a2 = choose|a: int| 0 <= a < mv.len() && mv[a] == m2;
        assert(js.contains(a0 as usize) && js.contains(a1 as usize) && js.contains(a2 as usize));
        lemma_three_listed(js, a0 as usize, a1 as usize, a2 as usize);
    }
    if js.len() >= 3 {
        let j0 = js[0] as int;
        let j1 = js[1] as int;
        let j2 = js[2] as int;
        assert(js.contains(js[0]) && js.contains(js[1]) && js.contains(js[2]));
        assert(mv.contains(mv[j0]) && mv.contains(mv[j1]) && mv.contains(mv[j2]));
        assert(two_step(top, mv[j0], x) && two_step(top, mv[j1], x) && two_step(top, mv[j2], x));
        assert(mv[j0] != mv[j1] && mv[j0] != mv[j2] && mv[j1] != mv[j2]);
    }
}

/// Every diamond3 bottom is among the listed reductions of some listed middle.
proof fn lemma_bottom_listed(top: Shape, mv: Seq<Shape>, bots: Seq<Vec<Tree>>, texts: Seq<String>, x: Shape) -> (j: int)
    requires
        tables_ok(top, mv, bots, texts),
        is_diamond3_bottom(top, x),
    ensures
        0 <= j < mv.len(),
        shapes_of(bots[j]@).contains(x),
        reductions(mv[j]).contains(x),
{
    reveal(tables_ok);
    let (m0, m1, m2) = choose|m0: Shape, m1: Shape, m2: Shape|
        #![trigger two_step(top, m0, x), two_step(top, m1, x), two_step(top, m2, x)]
        m0 != m1 && m0 != m2 && m1 != m2 && two_step(top, m0, x) && two_step(top, m1, x) && two_step(top, m2, x);
    assert(mv.contains(m0));
    let a0 = choose|a: int| 0 <= a < mv.len() && mv[a] == m0;
    a0
}

/// With fewer than three distinct immediate reductions there is no diamond3.
#[verifier::spinoff_prover]
#[verifier::rlimit(40)]
proof fn lemma_few_middles(top: Shape, mv: Seq<Shape>)
    requires
        mv.len() < 3,
        forall|m: Shape| mv.contains(m) <==> #[trigger] reductions(top).contains(m),
    ensures
        forall|b: Shape| !#[trigger] is_diamond3_bottom(top, b),
{
    assert forall|b: Shape| !#[trigger] is_diamond3_bottom(top, b) by {
        if is_diamond3_bottom(top, b) {
            let (m0, m1, m2) = choose|m0: Shape, m1: Shape, m2: Shape|
                #![trigger two_step(top, m0, b), two_step(top, m1, b), two_step(top, m2, b)]
                m0 != m1 && m0 != m2 && m1 != m2 && two_step(top, m0, b) && two_step(top, m1, b) && two_step(top, m2, b);
            assert(mv.contains(m0) && mv.contains(m1) && mv.contains(m2));
            let a0 = choose|a: int| 0 <= a < mv.len() && mv[a] == m0;
            let a1 = choose|a: int| 0 <= a < mv.len() && mv[a] == m1;
            let a2 = choose|a: int| 0 <= a < mv.len() && mv[a] == m2;
        }
    }
}

/// The search state holds a diamond3 bottom `shape`, with its text and the
/// positions of the middles that reduce to it.
spec fn best_ok(top: Shape, mv: Seq<Shape>, best: Option<(String, Vec<usize>)>, shape: Shape) -> bool {
    best matches Some((bt, js)) ==> {
        &&& bt@ == enc(shape)
        &&& is_diamond3_bottom(top, shape)
        &&& holders(mv, js@, shape)
        &&& js@.len() >= 3
    }
}

/// A bottom has been found and `x` does not come before it.
spec fn dominated(best: Option<(String, Vec<usize>)>, shape: Shape, x: Shape) -> bool {
    best is Some && !text_lt(enc(x), enc(shape))
}

/// Considers the candidate bottom `t`: it replaces the current one when it is a
/// diamond3 bottom whose text comes first.
fn consider(
    t: &Tree,
    bots: &Vec<Vec<Tree>>,
    best: &mut Option<(String, Vec<usize>)>,
    Ghost(top): Ghost<Shape>,
    Ghost(mv): Ghost<Seq<Shape>>,
    Ghost(texts): Ghost<Seq<String>>,
    Ghost(shape): Ghost<Shape>,
) -> (r: Ghost<Shape>)
    requires
        tables_ok(top, mv, bots@, texts),
        best_ok(top, mv, *old(best), shape),
    ensures
        best_ok(top, mv, *final(best), r@),
        is_diamond3_bottom(top, t@) ==> dominated(*final(best), r@, t@),
        forall|x: Shape| dominated(*old(best), shape, x) ==> #[trigger] dominated(*final(best), r@, x),
{
    let js = lists_holding(bots, t);
    let ghost tv = t@;
    proof {
        reveal(tables_ok);
        assert(holders(mv, js@, tv));
        lemma_holders_count(top, mv, bots@, texts, js@, tv);
    }
    if js.len() >= 3 {
        let tx = t.to_string();
        let better = match &*best {
            None => true,
            Some((bt, _)) => text_less(&tx, bt),
        };
        if better {
            proof {
                lemma_text_lt_irreflexive(enc(tv));
                assert forall|x: Shape| dominated(*old(best), shape, x) implies #[trigger] dominated(Some((tx, js)), tv, x) by {
                    if text_lt(enc(x), enc(tv)) {
                        lemma_text_lt_transitive(enc(x), enc(tv), enc(shape));
                    }
                }
            }
            *best = Some((tx, js));
            return Ghost(tv);
        }
    }
    Ghost(shape)
}

/// The diamond3 bottom whose text comes first, with the positions of the
/// middles that reduce to it, if there is a diamond3 bottom.
fn first_bottom(bots: &Vec<Vec<Tree>>, Ghost(top): Ghost<Shape>, Ghost(mv): Ghost<Seq<Shape>>, Ghost(texts): Ghost<Seq<String>>) -> (r: (Option<(String, Vec<usize>)>, Ghost<Shape>))
    requires
        tables_ok(top, mv, bots@, texts),
    ensures
        r.0 is None ==> forall|x: Shape| !#[trigger] is_diamond3_bottom(top, x),
        r.0 matches Some((bt, js)) ==> {
            &&& bt@ == enc(r.1@)
            &&& is_diamond3_bottom(top, r.1@)
            &&& holders(mv, js@, r.1@)
            &&& js@.len() >= 3
            &&& forall|x: Shape| #[trigger] is_diamond3_bottom(top, x) ==> !text_lt(enc(x), enc(r.1@))
        },
{
    let ghost mut best_shape: Shape = top;
    let mut best: Option<(String, Vec<usize>)> = None;
    let nm = bots.len();
    proof {
        reveal(tables_ok);
    }
    let mut i: usize = 0;
    while i < nm
        invariant
            nm == bots@.len(),
            nm == mv.len(),
            tables_ok(top, mv, bots@, texts),
            0 <= i <= nm,
            best_ok(top, mv, best, best_shape),
            forall|j: int, x: Shape|
                0 <= j < i && #[trigger] shapes_of(bots@[j]@).contains(x) && is_diamond3_bottom(top, x) ==> dominated(
                    best,
                    best_shape,
                    x,
                ),
        decreases nm - i,
    {
        let nb = bots[i].len();
        let mut q: usize = 0;
        while q < nb
            invariant
                nm == bots@.len(),
                tables_ok(top, mv, bots@, texts),
                0 <= i < nm,
                nb == bots@[i as int]@.len(),
                0 <= q <= nb,
                best_ok(top, mv, best, best_shape),
                forall|j: int, x: Shape|
                    0 <= j < i && #[trigger] shapes_of(bots@[j]@).contains(x) && is_diamond3_bottom(top, x) ==> dominated(
                        best,
                        best_shape,
                        x,
                    ),
                forall|u: int|
                    0 <= u < q && is_diamond3_bottom(top, #[trigger] bots@[i as int]@[u]@) ==> dominated(
                        best,
                        best_shape,
                        bots@[i as int]@[u]@,
                    ),
            decreases nb - q,
        {
            let ghost b0 = best;
            let ghost s0 = best_shape;
            let Ghost(ns) = consider(&bots[i][q], bots, &mut best, Ghost(top), Ghost(mv), Ghost(texts), Ghost(best_shape));
            proof {
                best_shape = ns;
                assert forall|j: int, x: Shape|
                    0 <= j < i && #[trigger] shapes_of(bots@[j]@).contains(x) && is_diamond3_bottom(top, x) implies dominated(
                        best,
                        best_shape,
                        x,
                    ) by {
                    assert(dominated(b0, s0, x));
                }
                assert forall|u: int|
                    0 <= u < q + 1 && is_diamond3_bottom(top, #[trigger] bots@[i as int]@[u]@) implies dominated(
                        best,
                        best_shape,
                        bots@[i as int]@[u]@,
                    ) by {
                    if u < q {
                        assert(dominated(b0, s0, bots@[i as int]@[u]@));
                    }
                }
            }
            q = q + 1;
        }
        proof {
            assert forall|j: int, x: Shape|
                0 <= j < i + 1 && #[trigger] shapes_of(bots@[j]@).contains(x) && is_diamond3_bottom(top, x) implies dominated(
                    best,
                    best_shape,
                    x,
                ) by {
                if j == i {
                    let u = choose|u: int| 0 <= u < shapes_of(bots@[i as int]@).len() && shapes_of(bots@[i as int]@)[u] == x;
                    assert(bots@[i as int]@[u]@ == x);
                }
            }
        }
        i = i + 1;
    }
    proof {
        assert forall|x: Shape| #[trigger] is_diamond3_bottom(top, x) implies dominated(best, best_shape, x) by {
            let j = lemma_bottom_listed(top, mv, bots@, texts, x);
            assert(shapes_of(bots@[j]@).contains(x));
        }
    }
    (best, Ghost(best_shape))
}

/// For each tree of `mids`: its distinct immediate reductions and its text.
fn build_tables(mids: &Vec<Tree>, Ghost(top): Ghost<Shape>) -> (r: (Vec<Vec<Tree>>, Vec<String>))
    requires
        shapes_of(mids@).no_duplicates(),
        forall|m: Shape| shapes_of(mids@).contains(m) <==> #[trigger] reductions(top).contains(m),
    ensures
        tables_ok(top, shapes_of(mids@), r.0@, r.1@),
{
    let ghost mv = shapes_of(mids@);
    let nm = mids.len();
    let mut bots: Vec<Vec<Tree>> = Vec::new();
    let mut texts: Vec<String> = Vec::new();
    let mut i: usize = 0;
    while i < nm
        invariant
            nm == mids@.len(),
            mv == shapes_of(mids@),
            0 <= i <= nm,
            bots@.len() == i,
            texts@.len() == i,
            forall|j: int, x: Shape|
                #![trigger shapes_of(bots@[j]@).contains(x)]
                #![trigger reductions(mv[j]).contains(x)]
                0 <= j < i ==> (shapes_of(bots@[j]@).contains(x) <==> reductions(mv[j]).contains(x)),
            forall|j: int| 0 <= j < i ==> #[trigger] texts@[j]@ == enc(mv[j]),
        decreases nm - i,
    {
        let reds_i = immediate_reductions(&mids[i]);
        assert(shapes_of(reds_i@) == reductions(mv[i as int]));
        let b = dedup_trees(reds_i);
        bots.push(b);
        texts.push(mids[i].to_string());
        i = i + 1;
    }
    proof {
        reveal(tables_ok);
    }
    (bots, texts)
}

/// The witness for the bottom `b` (with text `bt`), reached from the middles at
/// the positions `js`: the three middles whose texts come first.
fn make_witness(
    top_canon: String,
    texts: &Vec<String>,
    js: &Vec<usize>,
    bt: String,
    Ghost(top): Ghost<Shape>,
    Ghost(mv): Ghost<Seq<Shape>>,
    Ghost(bots): Ghost<Seq<Vec<Tree>>>,
    Ghost(b): Ghost<Shape>,
) -> (w: Diamond3Witness)
    requires
        tables_ok(top, mv, bots, texts@),
        top_canon@ == enc(top),
        bt@ == enc(b),
        is_diamond3_bottom(top, b),
        holders(mv, js@, b),
        js@.len() >= 3,
        forall|x: Shape| #[trigger] is_diamond3_bottom(top, x) ==> !text_lt(enc(x), enc(b)),
    ensures
        is_first_diamond3(top, w),
{
    proof {
        reveal(tables_ok);
    }
    let nm = texts.len();
    let nj = js.len();
    let mut sel: Vec<String> = Vec::new();
    let mut k: usize = 0;
    while k < nj
        invariant
            nj == js@.len(),
            nm == mv.len(),
            forall|a: int| 0 <= a < js@.len() ==> #[trigger] js@[a] < nm,
            texts@.len() == nm,
            0 <= k <= nj,
            sel@.len() == k,
            forall|a: int| 0 <= a < k ==> #[trigger] sel@[a]@ == texts@[js@[a] as int]@,
        decreases nj - k,
    {
        sel.push(texts[js[k]].clone());
        k = k + 1;
    }
    proof {
        assert forall|a: int, c: int| 0 <= a < c < sel@.len() implies sel@[a]@ != sel@[c]@ by {
            assert(js@[a] < js@[c]);
            assert(sel@[a]@ == enc(mv[js@[a] as int]));
            assert(sel@[c]@ == enc(mv[js@[c] as int]));
            if sel@[a]@ == sel@[c]@ {
                lemma_enc_injective(mv[js@[a] as int], mv[js@[c] as int]);
            }
        }
    }
    let mut skip: Vec<usize> = Vec::new();
    let r0 = first_text_except(&sel, &skip);
    skip.push(r0);
    let r1 = first_text_except(&sel, &skip);
    skip.push(r1);
    let r2 = first_text_except(&sel, &skip);
    let w = Diamond3Witness { top: top_canon, middle: [sel[r0].clone(), sel[r1].clone(), sel[r2].clone()], bottom: bt };
    proof {
        assert(skip@[0] == r0 && skip@[1] == r1);
        assert(skip@.contains(r0) && skip@.contains(r1));
        let m0 = mv[js@[r0 as int] as int];
        let m1 = mv[js@[r1 as int] as int];
        let m2 = mv[js@[r2 as int] as int];
        assert(sel@[r0 as int]@ == enc(m0));
        assert(sel@[r1 as int]@ == enc(m1));
        assert(sel@[r2 as int]@ == enc(m2));
        assert(js@.contains(js@[r0 as int]) && js@.contains(js@[r1 as int]) && js@.contains(js@[r2 as int]));
        assert(mv.contains(m0) && mv.contains(m1) && mv.contains(m2));
        assert(two_step(top, m0, b) && two_step(top, m1, b) && two_step(top, m2, b));
        assert(text_lt(enc(m0), enc(m1)));
        assert(!skip@.drop_last().contains(r2)) by {
            assert(skip@.drop_last() =~= seq![r0]);
        }
        assert(text_lt(enc(m1), enc(m2)));
        assert forall|m: Shape| #[trigger] two_step(top, m, b) && m != m0 && m != m1 && m != m2 implies text_lt(enc(m2), enc(m)) by {
            let a = choose|a: int| 0 <= a < mv.len() && mv[a] == m;
            assert(js@.contains(a as usize));
            let p = choose|p: int| 0 <= p < js@.len() && js@[p] == a as usize;
            assert(p != r0 && p != r1 && p != r2);
            assert(!skip@.contains(p as usize));
            assert(sel@[p]@ == enc(m));
        }
        assert forall|b2: Shape| #[trigger] is_diamond3_bottom(top, b2) && b2 != b implies text_lt(enc(b), enc(b2)) by {
            assert(!text_lt(enc(b2), enc(b)));
            if enc(b2) == enc(b) {
                lemma_enc_injective(b2, b);
            }
            lemma_text_lt_total(enc(b2), enc(b));
        }
        assert(w.middle@[0]@ == enc(m0));
        assert(w.middle@[1]@ == enc(m1));
        assert(w.middle@[2]@ == enc(m2));
    }
    w
}

/// Whether some three distinct immediate reductions of `top` all reduce, in one
/// more step, to one tree (a "diamond3"); if so, the bottom whose text comes
/// first, with the three middles whose texts come first (see
/// `is_first_diamond3`). Trees are merged by shape.
pub fn find_diamond3(top: &Tree) -> (r: Option<Diamond3Witness>)
    ensures
        r is None <==> forall|b: Shape| !#[trigger] is_diamond3_bottom(top@, b),
        r matches Some(w) ==> is_first_diamond3(top@, w),
{
    let top_canon = top.to_string();
    let reds = immediate_reductions(top);
    let ghost rv = shapes_of(reds@);
    assert(rv == reductions(top@));
    let mids = dedup_trees(reds);
    let ghost mv = shapes_of(mids@);
    let nm = mids.len();
    assert(forall|m: Shape| mv.contains(m) <==> #[trigger] reductions(top@).contains(m));
    if nm < 3 {
        proof {
            lemma_few_middles(top@, mv);
        }
        return None;
    }
    let (bots, texts) = build_tables(&mids, Ghost(top@));
    let (best, Ghost(b)) = first_bottom(&bots, Ghost(top@), Ghost(mv), Ghost(texts@));
    match best {
        None => None,
        Some((bt, js)) => {
            let w = make_witness(top_canon, &texts, &js, bt, Ghost(top@), Ghost(mv), Ghost(bots@), Ghost(b));
            Some(w)
        },
    }
}

} // verus!
