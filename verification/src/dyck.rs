//! Balanced strings of parentheses and the texts of forests.

use vstd::prelude::*;

use crate::enumerate::{forests, lemma_forests_size, words_of};
use crate::listing::{lemma_forests_complete, lemma_forests_distinct};
use crate::parse::{lemma_benc_injective, lemma_text_roundtrip};
use crate::tree::{Shape, enc, forest_enc, forest_size, size};

verus! {

/// The balance of the first `k` characters of `w`: one up for each `(`, one down
/// for anything else.
pub open spec fn bal(w: Seq<char>, k: int) -> int
    decreases k,
{
    if k <= 0 {
        0
    } else {
        bal(w, k - 1) + if w[k - 1] == '(' {
            1int
        } else {
            -1int
        }
    }
}

/// `w` is a balanced string of `n` pairs of parentheses: `2n` characters, each `(`
/// or `)`, no prefix with more `)` than `(`, and as many of each in all.
pub open spec fn is_dyck(w: Seq<char>, n: nat) -> bool {
    &&& w.len() == 2 * n
    &&& forall|i: int| 0 <= i < w.len() ==> #[trigger] w[i] == '(' || w[i] == ')'
    &&& forall|k: int| 0 <= k <= w.len() ==> #[trigger] bal(w, k) >= 0
    &&& bal(w, w.len() as int) == 0
}

/// The balance of a single character.
proof fn lemma_bal_one(c: char)
    ensures
        bal(seq![c], 1) == if c == '(' {
            1int
        } else {
            -1int
        },
{
    assert(bal(seq![c], 0) == 0);
    assert(seq![c][0] == c);
}

/// The balance over a concatenation.
proof fn lemma_bal_concat(a: Seq<char>, b: Seq<char>, k: int)
    requires
        0 <= k <= b.len(),
    ensures
        bal(a + b, a.len() + k) == bal(a, a.len() as int) + bal(b, k),
    decreases k,
{
    if k == 0 {
        lemma_bal_prefix(a, b, a.len() as int);
    } else {
        lemma_bal_concat(a, b, k - 1);
        assert((a + b)[a.len() + k - 1] == b[k - 1]);
    }
}

/// The balance of a prefix does not look past it.
proof fn lemma_bal_prefix(a: Seq<char>, b: Seq<char>, k: int)
    requires
        0 <= k <= a.len(),
    ensures
        bal(a + b, k) == bal(a, k),
    decreases k,
{
    if k > 0 {
        lemma_bal_prefix(a, b, k - 1);
        assert((a + b)[k - 1] == a[k - 1]);
    }
}

/// The balance inside a stretch of `w`.
proof fn lemma_bal_sub(w: Seq<char>, a: int, b: int, k: int)
    requires
        0 <= a <= b <= w.len(),
        0 <= k <= b - a,
    ensures
        bal(w.subrange(a, b), k) == bal(w, a + k) - bal(w, a),
    decreases k,
{
    if k > 0 {
        lemma_bal_sub(w, a, b, k - 1);
        assert(w.subrange(a, b)[k - 1] == w[a + k - 1]);
    }
}

/// The balance and the length have the same parity.
proof fn lemma_bal_parity(w: Seq<char>, k: int)
    requires
        0 <= k,
    ensures
        (bal(w, k) + k) % 2 == 0,
    decreases k,
{
    if k > 0 {
        lemma_bal_parity(w, k - 1);
    }
}

/// The text of a tree is a balanced string with as many pairs as the tree has
/// nodes; that of a forest, as many as the forest has nodes.
proof fn lemma_enc_dyck(s: Shape)
    ensures
        is_dyck(enc(s), size(s)),
    decreases s, 1nat,
{
    let inner = forest_enc(s.children);
    lemma_forest_enc_dyck(s.children);
    let w = enc(s);
    assert(w == seq!['('] + inner + seq![')']);
    let x = seq!['('] + inner;
    assert forall|k: int| 0 <= k <= x.len() implies #[trigger] bal(x, k) >= 1 || k == 0 by {
        if k > 0 {
            lemma_bal_concat(seq!['('], inner, k - 1);
            lemma_bal_one('(');
        }
    }
    assert forall|k: int| 0 <= k <= w.len() implies #[trigger] bal(w, k) >= 0 by {
        if k <= x.len() {
            lemma_bal_prefix(x, seq![')'], k);
            assert(bal(x, k) >= 1 || k == 0);
        } else {
            lemma_bal_concat(x, seq![')'], 1);
            lemma_bal_concat(seq!['('], inner, inner.len() as int);
            lemma_bal_one('(');
            lemma_bal_one(')');
        }
    }
    lemma_bal_concat(x, seq![')'], 1);
    lemma_bal_concat(seq!['('], inner, inner.len() as int);
    lemma_bal_one('(');
    lemma_bal_one(')');
    assert forall|i: int| 0 <= i < w.len() implies #[trigger] w[i] == '(' || w[i] == ')' by {
        if 0 < i < w.len() - 1 {
            assert(w[i] == inner[i - 1]);
        }
    }
}

/// See `lemma_enc_dyck`.
proof fn lemma_forest_enc_dyck(cs: Seq<Shape>)
    ensures
        is_dyck(forest_enc(cs), forest_size(cs)),
    decreases cs, 0nat,
{
    if cs.len() > 0 {
        let d = cs.drop_last();
        let c = cs.last();
        lemma_forest_enc_dyck(d);
        lemma_enc_dyck(c);
        let a = forest_enc(d);
        let b = enc(c);
        let w = forest_enc(cs);
        assert(w == a + b);
        assert forall|k: int| 0 <= k <= w.len() implies #[trigger] bal(w, k) >= 0 by {
            if k <= a.len() {
                lemma_bal_prefix(a, b, k);
            } else {
                lemma_bal_concat(a, b, k - a.len());
                assert(bal(b, k - a.len()) >= 0);
            }
        }
        lemma_bal_concat(a, b, b.len() as int);
        assert forall|i: int| 0 <= i < w.len() implies #[trigger] w[i] == '(' || w[i] == ')' by {
            if i < a.len() {
                assert(w[i] == a[i]);
            } else {
                assert(w[i] == b[i - a.len()]);
            }
        }
    } else {
        assert(forest_enc(cs) =~= Seq::<char>::empty());
    }
}

/// The last place, up to `k`, where the balance of `w` is 0.
proof fn last_zero(w: Seq<char>, k: int) -> (j: int)
    requires
        0 <= k,
    ensures
        0 <= j <= k,
        bal(w, j) == 0,
        forall|m: int| j < m <= k ==> #[trigger] bal(w, m) != 0,
    decreases k,
{
    if k == 0 || bal(w, k) == 0 {
        k
    } else {
        last_zero(w, k - 1)
    }
}

/// Every balanced string of `n` pairs is the text of a forest with `n` nodes.
proof fn lemma_dyck_is_forest(w: Seq<char>, n: nat)
    requires
        is_dyck(w, n),
    ensures
        exists|f: Seq<Shape>| forest_size(f) == n && #[trigger] forest_enc(f) == w,
    decreases n,
{
    if n == 0 {
        let f = Seq::<Shape>::empty();
        assert(forest_enc(f) =~= w);
    } else {
        let len = w.len() as int;
        let j = last_zero(w, len - 1);
        assert(bal(w, j + 1) >= 0);
        assert(w[j] == '(' || w[j] == ')');
        assert(w[j] == '(');
        assert(j + 1 < len);
        assert(bal(w, len - 1) != 0 && bal(w, len - 1) >= 0);
        assert(w[len - 1] == '(' || w[len - 1] == ')');
        assert(w[len - 1] == ')');
        let v = w.subrange(0, j);
        let u = w.subrange(j + 1, len - 1);
        lemma_bal_parity(w, j);
        lemma_bal_parity(u, u.len() as int);
        let m1 = (j / 2) as nat;
        assert forall|k: int| 0 <= k <= v.len() implies #[trigger] bal(v, k) >= 0 by {
            lemma_bal_sub(w, 0, j, k);
        }
        lemma_bal_sub(w, 0, j, j);
        assert forall|i: int| 0 <= i < v.len() implies #[trigger] v[i] == '(' || v[i] == ')' by {
            assert(v[i] == w[i]);
        }
        assert(is_dyck(v, m1));
        assert forall|k: int| 0 <= k <= u.len() implies #[trigger] bal(u, k) >= 0 by {
            lemma_bal_sub(w, j + 1, len - 1, k);
            assert(bal(w, j + 1 + k) != 0);
            assert(bal(w, j + 1 + k) >= 0);
        }
        lemma_bal_sub(w, j + 1, len - 1, u.len() as int);
        assert forall|i: int| 0 <= i < u.len() implies #[trigger] u[i] == '(' || u[i] == ')' by {
            assert(u[i] == w[j + 1 + i]);
        }
        let m2 = (u.len() / 2) as nat;
        assert(is_dyck(u, m2));
        lemma_dyck_is_forest(v, m1);
        lemma_dyck_is_forest(u, m2);
        let fv = choose|f: Seq<Shape>| forest_size(f) == m1 && #[trigger] forest_enc(f) == v;
        let fu = choose|f: Seq<Shape>| forest_size(f) == m2 && #[trigger] forest_enc(f) == u;
        let node = Shape { children: fu };
        let f = fv.push(node);
        assert(f.drop_last() =~= fv);
        assert(f.last() == node);
        assert(forest_enc(f) == v + enc(node));
        assert(enc(node) == seq!['('] + u + seq![')']);
        assert(w =~= v + (seq!['('] + u + seq![')']));
        assert(forest_size(f) == m1 + size(node));
        assert(size(node) == 1 + m2);
    }
}

/// The Dyck words of `p` pairs, as `get_dyck_words` lists them (`words_of`), are
/// balanced strings of `p` pairs, each at most once, and every such string is among
/// them.
pub proof fn lemma_dyck_words(v: Seq<String>, p: nat)
    requires
        words_of(v, p),
    ensures
        forall|i: int| 0 <= i < v.len() ==> is_dyck(#[trigger] v[i]@, p),
        forall|w: Seq<char>| is_dyck(w, p) ==> exists|i: int| 0 <= i < v.len() && #[trigger] v[i]@ == w,
        forall|i: int, k: int| 0 <= i < k < v.len() ==> #[trigger] v[i]@ != #[trigger] v[k]@,
{
    lemma_forests_size(p);
    assert forall|i: int| 0 <= i < v.len() implies is_dyck(#[trigger] v[i]@, p) by {
        let f = forests(p)[i];
        assert(forests(p).contains(f));
        lemma_forest_enc_dyck(f);
    }
    assert forall|w: Seq<char>| is_dyck(w, p) implies exists|i: int| 0 <= i < v.len() && #[trigger] v[i]@ == w by {
        lemma_dyck_is_forest(w, p);
        let f = choose|f: Seq<Shape>| forest_size(f) == p && #[trigger] forest_enc(f) == w;
        lemma_forests_complete(f);
        let i = choose|i: int| 0 <= i < forests(p).len() && forests(p)[i] == f;
        assert(v[i]@ == w);
    }
    lemma_forests_distinct(p);
    assert forall|i: int, k: int| 0 <= i < k < v.len() implies #[trigger] v[i]@ != #[trigger] v[k]@ by {
        let f1 = forests(p)[i];
        let f2 = forests(p)[k];
        assert(f1 != f2);
        if v[i]@ == v[k]@ {
            let s1 = Shape { children: f1 };
            let s2 = Shape { children: f2 };
            assert(enc(s1) == enc(s2));
            lemma_text_roundtrip(s1);
            lemma_text_roundtrip(s2);
            lemma_benc_injective(s1, s2);
        }
    }
}

} // verus!
