use vstd::prelude::*;
use vstd::std_specs::iter::IteratorSpec;

use crate::counting::multiplicities;
use crate::dag::{DagNode, MultiDag};
use crate::canonical::{char_count, lemma_char_count_concat, lemma_char_count_one};
use crate::equivalence::{lemma_mult_list_len, lemma_mult_list_unique, mult_list};
use crate::tree::{Tree, enc};

verus! {

broadcast use vstd::std_specs::hash::group_hash_axioms;

/// How a label shows in the DOT format: a text and extra node attributes.
pub trait DotLabel {
    /// The text shown for the label.
    spec fn text_spec(&self) -> Seq<char>;

    /// The extra DOT attributes of the node (such as `color=red`).
    spec fn meta_spec(&self) -> Seq<char>;

    fn get_text(&self) -> (r: String)
        ensures
            r@ == self.text_spec(),
    ;

    fn get_meta(&self) -> (r: String)
        ensures
            r@ == self.meta_spec(),
    ;
}

impl DotLabel for Tree {
    open spec fn text_spec(&self) -> Seq<char> {
        enc(self@)
    }

    open spec fn meta_spec(&self) -> Seq<char> {
        Seq::empty()
    }

    fn get_text(&self) -> (r: String) {
        self.to_string()
    }

    fn get_meta(&self) -> (r: String) {
        String::new()
    }
}

impl DotLabel for bool {
    open spec fn text_spec(&self) -> Seq<char> {
        Seq::empty()
    }

    open spec fn meta_spec(&self) -> Seq<char> {
        if *self {
            "color=red"@
        } else {
            Seq::empty()
        }
    }

    fn get_text(&self) -> (r: String) {
        String::new()
    }

    fn get_meta(&self) -> (r: String) {
        if *self {
            String::from_str("color=red")
        } else {
            String::new()
        }
    }
}

impl<T: DotLabel, U: DotLabel> DotLabel for (T, U) {
    open spec fn text_spec(&self) -> Seq<char> {
        self.0.text_spec()
    }

    open spec fn meta_spec(&self) -> Seq<char> {
        self.1.meta_spec()
    }

    fn get_text(&self) -> (r: String) {
        self.0.get_text()
    }

    fn get_meta(&self) -> (r: String) {
        self.1.get_meta()
    }
}

/// The decimal digit `d`.
pub open spec fn digit(d: nat) -> char {
    if d == 0 {
        '0'
    } else if d == 1 {
        '1'
    } else if d == 2 {
        '2'
    } else if d == 3 {
        '3'
    } else if d == 4 {
        '4'
    } else if d == 5 {
        '5'
    } else if d == 6 {
        '6'
    } else if d == 7 {
        '7'
    } else if d == 8 {
        '8'
    } else {
        '9'
    }
}

/// The decimal numeral of `n`, without leading zeros.
pub open spec fn dec(n: nat) -> Seq<char>
    decreases n,
{
    if n < 10 {
        seq![digit(n)]
    } else {
        dec(n / 10) + seq![digit(n % 10)]
    }
}

/// `s` with each backslash and each double quote preceded by a backslash.
pub open spec fn escape(s: Seq<char>) -> Seq<char>
    decreases s.len(),
{
    if s.len() == 0 {
        Seq::empty()
    } else {
        escape(s.drop_last()) + if s.last() == '\\' {
            seq!['\\', '\\']
        } else if s.last() == '"' {
            seq!['\\', '"']
        } else {
            seq![s.last()]
        }
    }
}

/// The DOT line of a node.
pub open spec fn node_line<T: DotLabel>(n: DagNode<T>) -> Seq<char> {
    "  n"@ + dec(n.id as nat) + " [label=\""@ + escape(n.label.text_spec()) + "\", "@ + escape(n.label.meta_spec())
        + "];\n"@
}

/// The DOT lines of the nodes of `ns`, in order.
pub open spec fn node_lines<T: DotLabel>(ns: Seq<DagNode<T>>) -> Seq<char>
    decreases ns.len(),
{
    if ns.len() == 0 {
        Seq::empty()
    } else {
        node_lines(ns.drop_last()) + node_line(ns.last())
    }
}

/// The DOT line of the edges from `from` to `to`, `mult` of them; the number is
/// shown when `show_mult` and there are several.
pub open spec fn edge_line(from: usize, to: usize, mult: usize, show_mult: bool) -> Seq<char> {
    if show_mult && mult > 1 {
        "  n"@ + dec(from as nat) + " -> n"@ + dec(to as nat) + " [label=\""@ + dec(mult as nat) + "\"];\n"@
    } else {
        "  n"@ + dec(from as nat) + " -> n"@ + dec(to as nat) + ";\n"@
    }
}

/// The DOT lines of the edges from `from`, one per child, given its multiplicity list.
pub open spec fn edge_lines(from: usize, m: Seq<(usize, usize)>, show_mult: bool) -> Seq<char>
    decreases m.len(),
{
    if m.len() == 0 {
        Seq::empty()
    } else {
        edge_lines(from, m.drop_last(), show_mult) + edge_line(from, m.last().0, m.last().1, show_mult)
    }
}

/// The DOT lines of the edges out of the vertices of `ks`, in that order.
pub open spec fn edges_text<T>(dag: MultiDag<T>, ks: Seq<usize>, show_mult: bool) -> Seq<char>
    decreases ks.len(),
{
    if ks.len() == 0 {
        Seq::empty()
    } else {
        edges_text(dag, ks.drop_last(), show_mult) + edge_lines(ks.last(), mult_list(dag.out(ks.last())), show_mult)
    }
}

/// The number of distinct children of the vertices of `ks`, together.
pub open spec fn distinct_children<T>(dag: MultiDag<T>, ks: Seq<usize>) -> nat
    decreases ks.len(),
{
    if ks.len() == 0 {
        0
    } else {
        distinct_children(dag, ks.drop_last()) + dag.out(ks.last()).to_set().len()
    }
}

/// A text in which `c` does not occur.
proof fn lemma_char_count_absent(w: Seq<char>, c: char)
    requires
        forall|i: int| 0 <= i < w.len() ==> w[i] != c,
    ensures
        char_count(w, c) == 0,
    decreases w.len(),
{
    if w.len() > 0 {
        lemma_char_count_absent(w.drop_last(), c);
        assert(w.last() == w[w.len() - 1]);
    }
}

/// A numeral has no line end.
proof fn lemma_dec_one_line(n: nat)
    ensures
        char_count(dec(n), '\n') == 0,
    decreases n,
{
    if n < 10 {
        lemma_char_count_one(digit(n), '\n');
    } else {
        lemma_dec_one_line(n / 10);
        lemma_char_count_one(digit(n % 10), '\n');
        lemma_char_count_concat(dec(n / 10), seq![digit(n % 10)], '\n');
    }
}

/// An edge line is one line.
proof fn lemma_edge_line_one(from: usize, to: usize, mult: usize, show_mult: bool)
    ensures
        char_count(edge_line(from, to, mult, show_mult), '\n') == 1,
{
    reveal_strlit("  n");
    reveal_strlit(" -> n");
    reveal_strlit(" [label=\"");
    reveal_strlit("\"];\n");
    reveal_strlit(";\n");
    let a = "  n"@;
    let b = " -> n"@;
    lemma_char_count_absent(a, '\n');
    lemma_char_count_absent(b, '\n');
    lemma_dec_one_line(from as nat);
    lemma_dec_one_line(to as nat);
    lemma_dec_one_line(mult as nat);
    let head = a + dec(from as nat) + b + dec(to as nat);
    lemma_char_count_concat(a, dec(from as nat), '\n');
    lemma_char_count_concat(a + dec(from as nat), b, '\n');
    lemma_char_count_concat(a + dec(from as nat) + b, dec(to as nat), '\n');
    assert(";\n"@ =~= seq![';'] + seq!['\n']);
    lemma_char_count_one(';', '\n');
    lemma_char_count_one('\n', '\n');
    lemma_char_count_concat(seq![';'], seq!['\n'], '\n');
    if show_mult && mult > 1 {
        let l = " [label=\""@;
        lemma_char_count_absent(l, '\n');
        let e = "\"];\n"@;
        assert(e =~= seq!['"', ']', ';'] + seq!['\n']);
        lemma_char_count_absent(seq!['"', ']', ';'], '\n');
        lemma_char_count_concat(seq!['"', ']', ';'], seq!['\n'], '\n');
        lemma_char_count_concat(head, l, '\n');
        lemma_char_count_concat(head + l, dec(mult as nat), '\n');
        lemma_char_count_concat(head + l + dec(mult as nat), e, '\n');
    } else {
        lemma_char_count_concat(head, ";\n"@, '\n');
    }
}

/// Without `show_mult`, an edge line carries no label: no `[` in it.
proof fn lemma_edge_line_plain(from: usize, to: usize, mult: usize)
    ensures
        char_count(edge_line(from, to, mult, false), '[') == 0,
{
    reveal_strlit("  n");
    reveal_strlit(" -> n");
    reveal_strlit(";\n");
    let w = edge_line(from, to, mult, false);
    lemma_dec_digits(from as nat);
    lemma_dec_digits(to as nat);
    assert(w == "  n"@ + dec(from as nat) + " -> n"@ + dec(to as nat) + ";\n"@);
    assert forall|i: int| 0 <= i < w.len() implies w[i] != '[' by {
        let a = "  n"@;
        let b = dec(from as nat);
        let c = " -> n"@;
        let d = dec(to as nat);
        if i < a.len() {
            assert(w[i] == a[i]);
        } else if i < a.len() + b.len() {
            assert(w[i] == b[i - a.len()]);
        } else if i < a.len() + b.len() + c.len() {
            assert(w[i] == c[i - a.len() - b.len()]);
        } else if i < a.len() + b.len() + c.len() + d.len() {
            assert(w[i] == d[i - a.len() - b.len() - c.len()]);
        } else {
            assert(w[i] == ";\n"@[i - a.len() - b.len() - c.len() - d.len()]);
        }
    }
    lemma_char_count_absent(w, '[');
}

/// A numeral is made of digits only.
proof fn lemma_dec_digits(n: nat)
    ensures
        forall|i: int| 0 <= i < dec(n).len() ==> '0' <= #[trigger] dec(n)[i] <= '9',
    decreases n,
{
    if n >= 10 {
        lemma_dec_digits(n / 10);
        let a = dec(n / 10);
        assert forall|i: int| 0 <= i < dec(n).len() implies '0' <= #[trigger] dec(n)[i] <= '9' by {
            if i < a.len() {
                assert(dec(n)[i] == a[i]);
            }
        }
    }
}

/// Without `show_mult`, the edge part of the DOT text carries no multiplicity labels.
pub proof fn lemma_edges_text_plain<T>(dag: MultiDag<T>, ks: Seq<usize>)
    ensures
        char_count(edges_text(dag, ks, false), '[') == 0,
    decreases ks.len(),
{
    if ks.len() > 0 {
        lemma_edges_text_plain(dag, ks.drop_last());
        let k = ks.last();
        lemma_edge_lines_plain(k, mult_list(dag.out(k)));
        lemma_char_count_concat(edges_text(dag, ks.drop_last(), false), edge_lines(k, mult_list(dag.out(k)), false), '[');
    } else {
        lemma_char_count_absent(edges_text(dag, ks, false), '[');
    }
}

/// Without `show_mult`, the edge lines of one vertex carry no labels.
proof fn lemma_edge_lines_plain(from: usize, m: Seq<(usize, usize)>)
    ensures
        char_count(edge_lines(from, m, false), '[') == 0,
    decreases m.len(),
{
    if m.len() > 0 {
        lemma_edge_lines_plain(from, m.drop_last());
        lemma_edge_line_plain(from, m.last().0, m.last().1);
        lemma_char_count_concat(edge_lines(from, m.drop_last(), false), edge_line(from, m.last().0, m.last().1, false), '[');
    } else {
        lemma_char_count_absent(edge_lines(from, m, false), '[');
    }
}

/// The edge lines of one vertex: one line per entry of the list.
proof fn lemma_edge_lines_count(from: usize, m: Seq<(usize, usize)>, show_mult: bool)
    ensures
        char_count(edge_lines(from, m, show_mult), '\n') == m.len(),
    decreases m.len(),
{
    if m.len() > 0 {
        lemma_edge_lines_count(from, m.drop_last(), show_mult);
        lemma_edge_line_one(from, m.last().0, m.last().1, show_mult);
        lemma_char_count_concat(
            edge_lines(from, m.drop_last(), show_mult),
            edge_line(from, m.last().0, m.last().1, show_mult),
            '\n',
        );
    } else {
        lemma_char_count_absent(edge_lines(from, m, show_mult), '\n');
    }
}

/// One line per pair of adjacent vertices: the edge part of the DOT text of the
/// vertices of `ks` has as many lines as these vertices have distinct children
/// (multi-edges give one line), whether or not multiplicities are shown.
pub proof fn lemma_edges_text_lines<T>(dag: MultiDag<T>, ks: Seq<usize>, show_mult: bool)
    requires
        forall|i: int| 0 <= i < ks.len() ==> (#[trigger] dag.out(ks[i])).len() <= usize::MAX,
    ensures
        char_count(edges_text(dag, ks, show_mult), '\n') == distinct_children(dag, ks),
    decreases ks.len(),
{
    if ks.len() > 0 {
        let k = ks.last();
        assert(dag.out(ks[ks.len() - 1]).len() <= usize::MAX);
        assert forall|i: int| 0 <= i < ks.drop_last().len() implies (#[trigger] dag.out(ks.drop_last()[i])).len()
            <= usize::MAX by {
            assert(ks.drop_last()[i] == ks[i]);
        }
        lemma_edges_text_lines(dag, ks.drop_last(), show_mult);
        lemma_mult_list_len(dag.out(k));
        lemma_edge_lines_count(k, mult_list(dag.out(k)), show_mult);
        lemma_char_count_concat(
            edges_text(dag, ks.drop_last(), show_mult),
            edge_lines(k, mult_list(dag.out(k)), show_mult),
            '\n',
        );
    } else {
        lemma_char_count_absent(edges_text(dag, ks, show_mult), '\n');
    }
}

/// The DOT text of `dag`, listing the edges of the vertices in the order `ks`.
pub open spec fn dot_text<T: DotLabel>(dag: MultiDag<T>, ks: Seq<usize>, show_mult: bool) -> Seq<char> {
    "digraph G {\n  rankdir=TB;\n  node [shape=box];\n"@ + node_lines(dag.nodes@) + edges_text(dag, ks, show_mult)
        + "}\n"@
}

/// The literal text of the digit `d`.
fn digit_str(d: usize) -> (r: &'static str)
    requires
        d < 10,
    ensures
        r@ == seq![digit(d as nat)],
{
    proof {
        reveal_strlit("0");
        reveal_strlit("1");
        reveal_strlit("2");
        reveal_strlit("3");
        reveal_strlit("4");
        reveal_strlit("5");
        reveal_strlit("6");
        reveal_strlit("7");
        reveal_strlit("8");
        reveal_strlit("9");
    }
    if d == 0 {
        "0"
    } else if d == 1 {
        "1"
    } else if d == 2 {
        "2"
    } else if d == 3 {
        "3"
    } else if d == 4 {
        "4"
    } else if d == 5 {
        "5"
    } else if d == 6 {
        "6"
    } else if d == 7 {
        "7"
    } else if d == 8 {
        "8"
    } else {
        "9"
    }
}

/// Appends the decimal numeral of `n` to `out`.
fn write_dec(n: usize, out: &mut String)
    ensures
        final(out)@ == old(out)@ + dec(n as nat),
    decreases n,
{
    if n >= 10 {
        write_dec(n / 10, out);
    }
    out.append(digit_str(n % 10));
    proof {
        if n < 10 {
            assert(n % 10 == n);
        }
    }
}

/// `s` with each backslash and each double quote preceded by a backslash.
fn escape_dot(s: &str) -> (r: String)
    ensures
        r@ == escape(s@),
{
    let n = s.unicode_len();
    let mut out = String::new();
    let mut start: usize = 0;
    let mut i: usize = 0;
    assert(s@.take(0) =~= Seq::<char>::empty());
    while i < n
        invariant
            n == s@.len(),
            0 <= start <= i <= n,
            out@ + s@.subrange(start as int, i as int) == escape(s@.take(i as int)),
        decreases n - i,
    {
        let c = s.get_char(i);
        assert(s@.take(i + 1).drop_last() =~= s@.take(i as int));
        assert(s@.take(i + 1).last() == c);
        if c == '\\' || c == '"' {
            let chunk = s.substring_char(start, i);
            let ghost o0 = out@;
            out.append(chunk);
            if c == '\\' {
                proof {
                    reveal_strlit("\\\\");
                }
                assert("\\\\"@.len() == 2);
                assert("\\\\"@[0] == '\\');
                assert("\\\\"@ =~= seq!['\\', '\\']);
                out.append("\\\\");
            } else {
                proof {
                    reveal_strlit("\\\"");
                }
                assert("\\\""@.len() == 2);
                assert("\\\""@[0] == '\\');
                assert("\\\""@ =~= seq!['\\', '"']);
                out.append("\\\"");
            }
            start = i + 1;
            assert(s@.subrange(start as int, i + 1) =~= Seq::<char>::empty());
            assert(escape(s@.take(i + 1)) == escape(s@.take(i as int)) + (if c == '\\' {
                seq!['\\', '\\']
            } else {
                seq!['\\', '"']
            }));
            assert(out@ =~= o0 + chunk@ + (if c == '\\' {
                seq!['\\', '\\']
            } else {
                seq!['\\', '"']
            }));
            assert(out@ + s@.subrange(start as int, i + 1) =~= escape(s@.take(i + 1)));
        } else {
            assert(s@.subrange(start as int, i + 1) =~= s@.subrange(start as int, i as int).push(c));
            assert(out@ + s@.subrange(start as int, i + 1) =~= escape(s@.take(i + 1)));
        }
        i = i + 1;
    }
    let chunk = s.substring_char(start, n);
    out.append(chunk);
    assert(s@.take(n as int) =~= s@);
    out
}

/// The Graphviz DOT text of `dag`: one node per vertex, with its label's text
/// (escaped) and attributes, then one edge line per pair of adjacent vertices,
/// showing the number of edges when `show_mult` and there are several. The
/// vertices' edge lines come in the order in which the edge map is walked.
pub fn to_dot<T: DotLabel>(dag: &MultiDag<T>, show_mult: bool) -> (r: String)
    ensures
        exists|ks: Seq<usize>|
            ks.no_duplicates() && ks.to_set() == dag.edges@.dom() && r@ == dot_text(*dag, ks, show_mult) && char_count(
                edges_text(*dag, ks, show_mult),
                '\n',
            ) == distinct_children(*dag, ks) && (!show_mult ==> char_count(edges_text(*dag, ks, show_mult), '[') == 0),
{
    proof {
        reveal_strlit("digraph G {\n  rankdir=TB;\n  node [shape=box];\n");
        reveal_strlit("  n");
        reveal_strlit(" [label=\"");
        reveal_strlit("\", ");
        reveal_strlit("];\n");
        reveal_strlit(" -> n");
        reveal_strlit("\"];\n");
        reveal_strlit(";\n");
        reveal_strlit("}\n");
    }
    let mut s = String::new();
    s.append("digraph G {\n  rankdir=TB;\n  node [shape=box];\n");
    let ghost head = s@;
    let nn = dag.nodes.len();
    let mut i: usize = 0;
    while i < nn
        invariant
            nn == dag.nodes@.len(),
            0 <= i <= nn,
            s@ == head + node_lines(dag.nodes@.take(i as int)),
        decreases nn - i,
    {
        let node = &dag.nodes[i];
        let text = node.label.get_text();
        let meta = node.label.get_meta();
        let et = escape_dot(text.as_str());
        let em = escape_dot(meta.as_str());
        let ghost before = s@;
        s.append("  n");
        write_dec(node.id, &mut s);
        s.append(" [label=\"");
        s.append(et.as_str());
        s.append("\", ");
        s.append(em.as_str());
        s.append("];\n");
        proof {
            assert(dag.nodes@.take(i + 1).drop_last() =~= dag.nodes@.take(i as int));
            assert(dag.nodes@.take(i + 1).last() == dag.nodes@[i as int]);
            assert(s@ =~= before + node_line(dag.nodes@[i as int]));
        }
        i = i + 1;
    }
    assert(dag.nodes@.take(nn as int) =~= dag.nodes@);
    let ghost mid = s@;
    let ghost mut ks: Seq<usize> = Seq::empty();
    let keys = dag.edges.keys();
    let ghost all = IteratorSpec::remaining(&keys);
    proof {
        assert(all.unref().to_set() == dag.edges@.dom());
        assert(all.no_duplicates());
    }
    for from in it: keys
        invariant
            s@ == mid + edges_text(*dag, ks, show_mult),
            it.seq() == all,
            all.unref().to_set() == dag.edges@.dom(),
            all.no_duplicates(),
            ks == all.take(it.index()).map_values(|k: &usize| *k),
            forall|i: int| 0 <= i < ks.len() ==> (#[trigger] dag.out(ks[i])).len() <= usize::MAX,
    {
        proof {
            assert(dag.edges@.contains_key(*from));
        }
        let v = dag.edges.get(from).unwrap();
        // reading the length shows that it fits in a `usize`
        let _nv = v.len();
        let m = multiplicities(v);
        proof {
            lemma_mult_list_unique(m@, mult_list(dag.out(*from)), dag.out(*from));
        }
        let ghost before = s@;
        let nm = m.len();
        let mut j: usize = 0;
        while j < nm
            invariant
                nm == m@.len(),
                0 <= j <= nm,
                s@ == before + edge_lines(*from, m@.take(j as int), show_mult),
            decreases nm - j,
        {
            let (to, mult) = m[j];
            let ghost b2 = s@;
            s.append("  n");
            write_dec(*from, &mut s);
            s.append(" -> n");
            write_dec(to, &mut s);
            if show_mult && mult > 1 {
                s.append(" [label=\"");
                write_dec(mult, &mut s);
                s.append("\"];\n");
            } else {
                s.append(";\n");
            }
            proof {
                assert(m@.take(j + 1).drop_last() =~= m@.take(j as int));
                assert(m@.take(j + 1).last() == m@[j as int]);
                assert(s@ =~= b2 + edge_line(*from, to, mult, show_mult));
            }
            j = j + 1;
        }
        proof {
            assert(m@.take(nm as int) =~= m@);
            let ks2 = ks.push(*from);
            assert(ks2.drop_last() =~= ks);
            assert(v@ == dag.out(*from));
            assert forall|i: int| 0 <= i < ks2.len() implies (#[trigger] dag.out(ks2[i])).len() <= usize::MAX by {
                if i < ks.len() {
                    assert(ks2[i] == ks[i]);
                } else {
                    assert(ks2[i] == *from);
                }
            }
            assert(s@ =~= mid + edges_text(*dag, ks2, show_mult));
            ks = ks2;
        }
    }
    proof {
        assert(ks =~= all.unref());
        assert(ks.no_duplicates()) by {
            assert forall|a: int, b: int| 0 <= a < ks.len() && 0 <= b < ks.len() && a != b implies ks[a] != ks[b] by {
                assert(all[a] != all[b]);
            }
        }
    }
    s.append("}\n");
    assert(s@ =~= dot_text(*dag, ks, show_mult));
    proof {
        lemma_edges_text_lines(*dag, ks, show_mult);
        lemma_edges_text_plain(*dag, ks);
    }
    s
}

} // verus!
