use std::str::FromStr;

use vstd::prelude::*;
use vstd::string::StringSliceAdditionalSpecFns;
use vstd::utf8::{encode_utf8, is_ascii_chars, is_ascii_chars_encode_utf8};

use crate::tree::{Shape, Tree, enc, forest_enc};

verus! {

/// Why a text is not a tree.
#[derive(Debug, Clone, PartialEq, Eq, Structural)]
pub enum TreeParseError {
    /// A `(` was expected at byte `at`, the first byte of the text that is not
    /// white space.
    ExpectedOpenParen { at: usize },
    /// A `(` or `)` was expected at byte `at`.
    ExpectedCloseParen { at: usize },
    /// The text ended before the tree was closed.
    UnexpectedEof,
    /// Something other than white space follows the tree, at byte `at`.
    TrailingCharacters { at: usize },
}

/// Byte `(`.
pub const OPEN: u8 = 0x28u8;

/// Byte `)`.
pub const CLOSE: u8 = 0x29u8;

/// ASCII white space: space, tab, line feed, form feed, carriage return.
pub open spec fn is_ws(b: u8) -> bool {
    b == 0x20u8 || b == 0x09u8 || b == 0x0Au8 || b == 0x0Cu8 || b == 0x0Du8
}

/// The state of a left-to-right reading of a text.
pub enum ScanState {
    /// Nothing but white space read so far.
    Start,
    /// Inside the tree: for each open node, from the root down, the children
    /// read so far.
    Open(Seq<Seq<Shape>>),
    /// The tree is complete.
    Done(Shape),
    /// The text was refused.
    Failed(TreeParseError),
}

/// Reading byte `b`, found at offset `pos`.
pub open spec fn step(st: ScanState, b: u8, pos: nat) -> ScanState {
    match st {
        ScanState::Start => {
            if is_ws(b) {
                ScanState::Start
            } else if b == OPEN {
                ScanState::Open(seq![Seq::empty()])
            } else {
                ScanState::Failed(TreeParseError::ExpectedOpenParen { at: pos as usize })
            }
        },
        ScanState::Open(st) => {
            if is_ws(b) {
                ScanState::Open(st)
            } else if b == OPEN {
                ScanState::Open(st.push(Seq::empty()))
            } else if b == CLOSE {
                let node = Shape { children: st.last() };
                if st.len() <= 1 {
                    ScanState::Done(node)
                } else {
                    let rest = st.drop_last();
                    ScanState::Open(rest.update(rest.len() - 1, rest.last().push(node)))
                }
            } else {
                ScanState::Failed(TreeParseError::ExpectedCloseParen { at: pos as usize })
            }
        },
        ScanState::Done(t) => {
            if is_ws(b) {
                ScanState::Done(t)
            } else {
                ScanState::Failed(TreeParseError::TrailingCharacters { at: pos as usize })
            }
        },
        ScanState::Failed(e) => ScanState::Failed(e),
    }
}

/// Reading the bytes `b`, the first of which is at offset `off`, from state `st`.
pub open spec fn run(st: ScanState, b: Seq<u8>, off: nat) -> ScanState
    decreases b.len(),
{
    if b.len() == 0 {
        st
    } else {
        step(run(st, b.drop_last(), off), b.last(), (off + b.len() - 1) as nat)
    }
}

/// What parsing the bytes `b` gives: the tree, or the first error met.
pub open spec fn parse_spec(b: Seq<u8>) -> Result<Shape, TreeParseError> {
    match run(ScanState::Start, b, 0) {
        ScanState::Done(t) => Ok(t),
        ScanState::Failed(e) => Err(e),
        _ => Err(TreeParseError::UnexpectedEof),
    }
}

/// The bytes of `b` that are not white space.
pub open spec fn tokens(b: Seq<u8>) -> Seq<u8>
    decreases b.len(),
{
    if b.len() == 0 {
        Seq::empty()
    } else {
        tokens(b.drop_last()) + if is_ws(b.last()) {
            Seq::<u8>::empty()
        } else {
            seq![b.last()]
        }
    }
}

/// The parenthesised bytes of a shape.
pub open spec fn benc(s: Shape) -> Seq<u8>
    decreases s, 1nat,
{
    seq![OPEN] + forest_benc(s.children) + seq![CLOSE]
}

/// The concatenated bytes of a sequence of shapes.
pub open spec fn forest_benc(cs: Seq<Shape>) -> Seq<u8>
    decreases cs, 0nat,
{
    if cs.len() == 0 {
        Seq::empty()
    } else {
        forest_benc(cs.drop_last()) + benc(cs.last())
    }
}

/// The bytes read so far when the open nodes hold the children `st`.
pub open spec fn stack_benc(st: Seq<Seq<Shape>>) -> Seq<u8>
    decreases st.len(),
{
    if st.len() == 0 {
        Seq::empty()
    } else {
        stack_benc(st.drop_last()) + seq![OPEN] + forest_benc(st.last())
    }
}

/// Reading a concatenation is reading one part, then the other.
pub proof fn lemma_run_append(st: ScanState, a: Seq<u8>, b: Seq<u8>, off: nat)
    ensures
        run(st, a + b, off) == run(run(st, a, off), b, off + a.len()),
    decreases b.len(),
{
    if b.len() == 0 {
        assert(a + b =~= a);
    } else {
        lemma_run_append(st, a, b.drop_last(), off);
        assert((a + b).drop_last() =~= a + b.drop_last());
    }
}

/// A refusal is final.
pub proof fn lemma_run_failed(e: TreeParseError, b: Seq<u8>, off: nat)
    ensures
        run(ScanState::Failed(e), b, off) == ScanState::Failed(e),
    decreases b.len(),
{
    if b.len() > 0 {
        lemma_run_failed(e, b.drop_last(), off);
    }
}

proof fn lemma_run_one(st: ScanState, b: u8, off: nat)
    ensures
        run(st, seq![b], off) == step(st, b, off),
{
    assert(seq![b].drop_last() =~= Seq::<u8>::empty());
    assert(run(st, Seq::<u8>::empty(), off) == st);
    assert(seq![b].last() == b);
}

proof fn lemma_tokens_append(a: Seq<u8>, b: Seq<u8>)
    ensures
        tokens(a + b) == tokens(a) + tokens(b),
    decreases b.len(),
{
    if b.len() == 0 {
        assert(a + b =~= a);
        assert(tokens(a) + tokens(b) =~= tokens(a));
    } else {
        lemma_tokens_append(a, b.drop_last());
        assert((a + b).drop_last() =~= a + b.drop_last());
    }
}

/// Reading the text of a shape inside an open node appends the shape to that node's children.
proof fn lemma_run_benc(st: Seq<Seq<Shape>>, s: Shape, off: nat)
    requires
        st.len() >= 1,
    ensures
        run(ScanState::Open(st), benc(s), off) == ScanState::Open(
            st.update(st.len() - 1, st.last().push(s)),
        ),
    decreases s, 1nat,
{
    let inner = st.push(Seq::<Shape>::empty());
    lemma_run_one(ScanState::Open(st), OPEN, off);
    lemma_run_forest(inner, Seq::empty(), s.children, off + 1);
    assert(Seq::<Shape>::empty() + s.children =~= s.children);
    assert(inner.update(inner.len() - 1, s.children) =~= st.push(s.children));
    lemma_run_append(ScanState::Open(st), seq![OPEN], forest_benc(s.children), off);
    let mid = seq![OPEN] + forest_benc(s.children);
    lemma_run_append(ScanState::Open(st), mid, seq![CLOSE], off);
    lemma_run_one(ScanState::Open(st.push(s.children)), CLOSE, off + mid.len());
    assert(benc(s) == mid + seq![CLOSE]);
    assert(st.push(s.children).drop_last() =~= st);
}

/// Reading the texts of a sequence of shapes appends them all to the innermost open node.
proof fn lemma_run_forest(st: Seq<Seq<Shape>>, prefix: Seq<Shape>, cs: Seq<Shape>, off: nat)
    requires
        st.len() >= 1,
        st.last() == prefix,
    ensures
        run(ScanState::Open(st), forest_benc(cs), off) == ScanState::Open(
            st.update(st.len() - 1, prefix + cs),
        ),
    decreases cs, 0nat,
{
    if cs.len() == 0 {
        assert(prefix + cs =~= prefix);
        assert(st.update(st.len() - 1, prefix + cs) =~= st);
    } else {
        let init = cs.drop_last();
        lemma_run_forest(st, prefix, init, off);
        let st2 = st.update(st.len() - 1, prefix + init);
        lemma_run_append(ScanState::Open(st), forest_benc(init), benc(cs.last()), off);
        lemma_run_benc(st2, cs.last(), off + forest_benc(init).len());
        assert(st2.update(st2.len() - 1, st2.last().push(cs.last())) =~= st.update(
            st.len() - 1,
            prefix + cs,
        )) by {
            assert((prefix + init).push(cs.last()) =~= prefix + cs);
        }
    }
}

/// Parsing the text of a tree gives the tree back.
pub proof fn lemma_parse_benc(s: Shape)
    ensures
        parse_spec(benc(s)) == Ok::<Shape, TreeParseError>(s),
{
    let b = benc(s);
    lemma_run_one(ScanState::Start, OPEN, 0);
    let st = seq![Seq::<Shape>::empty()];
    lemma_run_forest(st, Seq::empty(), s.children, 1);
    assert(Seq::<Shape>::empty() + s.children =~= s.children);
    assert(st.update(0, s.children) =~= seq![s.children]);
    let mid = seq![OPEN] + forest_benc(s.children);
    lemma_run_append(ScanState::Start, seq![OPEN], forest_benc(s.children), 0);
    lemma_run_append(ScanState::Start, mid, seq![CLOSE], 0);
    lemma_run_one(ScanState::Open(seq![s.children]), CLOSE, mid.len());
    assert(b == mid + seq![CLOSE]);
    assert(seq![s.children].last() == s.children);
    assert(Shape { children: s.children } == s);
}

/// Two trees with the same text are the same tree.
pub proof fn lemma_benc_injective(s1: Shape, s2: Shape)
    requires
        benc(s1) == benc(s2),
    ensures
        s1 == s2,
{
    lemma_parse_benc(s1);
    lemma_parse_benc(s2);
}

/// A character of a tree's text and the byte that encodes it.
pub open spec fn paren_pair(c: char, b: u8) -> bool {
    (c == '(' && b == OPEN) || (c == ')' && b == CLOSE)
}

proof fn lemma_enc_benc(s: Shape)
    ensures
        enc(s).len() == benc(s).len(),
        forall|i: int| 0 <= i < enc(s).len() ==> paren_pair(#[trigger] enc(s)[i], benc(s)[i]),
    decreases s, 1nat,
{
    lemma_forest_enc_benc(s.children);
    let a = seq!['('] + forest_enc(s.children);
    let b = seq![OPEN] + forest_benc(s.children);
    assert forall|i: int| 0 <= i < enc(s).len() implies paren_pair(#[trigger] enc(s)[i], benc(s)[i]) by {
        if i == 0 {
        } else if i < a.len() {
            assert(enc(s)[i] == forest_enc(s.children)[i - 1]);
            assert(benc(s)[i] == forest_benc(s.children)[i - 1]);
        } else {
            assert(enc(s)[i] == ')');
            assert(benc(s)[i] == CLOSE);
        }
    }
}

proof fn lemma_forest_enc_benc(cs: Seq<Shape>)
    ensures
        forest_enc(cs).len() == forest_benc(cs).len(),
        forall|i: int| 0 <= i < forest_enc(cs).len() ==> paren_pair(#[trigger] forest_enc(cs)[i], forest_benc(cs)[i]),
    decreases cs, 0nat,
{
    if cs.len() > 0 {
        lemma_forest_enc_benc(cs.drop_last());
        lemma_enc_benc(cs.last());
        let k = forest_enc(cs.drop_last()).len();
        assert forall|i: int| 0 <= i < forest_enc(cs).len() implies paren_pair(
            #[trigger] forest_enc(cs)[i],
            forest_benc(cs)[i],
        ) by {
            if i < k {
                assert(forest_enc(cs)[i] == forest_enc(cs.drop_last())[i]);
                assert(forest_benc(cs)[i] == forest_benc(cs.drop_last())[i]);
            } else {
                assert(forest_enc(cs)[i] == enc(cs.last())[i - k]);
                assert(forest_benc(cs)[i] == benc(cs.last())[i - k]);
            }
        }
    }
}

/// The UTF-8 bytes of a tree's text are its parenthesised bytes, and parsing them
/// gives the tree back.
pub proof fn lemma_text_roundtrip(s: Shape)
    ensures
        encode_utf8(enc(s)) == benc(s),
        parse_spec(encode_utf8(enc(s))) == Ok::<Shape, TreeParseError>(s),
{
    lemma_enc_benc(s);
    let e = enc(s);
    assert(is_ascii_chars(e)) by {
        assert forall|i: int| 0 <= i < e.len() implies '\0' <= #[trigger] e[i] <= '\u{7f}' by {
            assert(paren_pair(e[i], benc(s)[i]));
        }
    }
    is_ascii_chars_encode_utf8(e);
    assert forall|i: int| 0 <= i < e.len() implies #[trigger] encode_utf8(e)[i] == benc(s)[i] by {
        assert(paren_pair(e[i], benc(s)[i]));
        assert(e[i] as u8 == encode_utf8(e)[i]);
    }
    assert(encode_utf8(e) =~= benc(s));
    lemma_parse_benc(s);
}

/// White space changes nothing in a reading.
proof fn lemma_step_ws(st: ScanState, b: u8, pos: nat)
    requires
        is_ws(b),
    ensures
        step(st, b, pos) == st,
{
}

/// Reading one more byte of a text.
proof fn lemma_run_take_succ(b: Seq<u8>, p: int)
    requires
        0 <= p < b.len(),
    ensures
        run(ScanState::Start, b.take(p + 1), 0) == step(run(ScanState::Start, b.take(p), 0), b[p], p as nat),
{
    assert(b.take(p + 1).drop_last() =~= b.take(p));
    assert(b.take(p + 1).last() == b[p]);
}

/// A stretch of white space changes nothing in a reading.
proof fn lemma_run_ws_stretch(b: Seq<u8>, p: int, q: int)
    requires
        0 <= p <= q <= b.len(),
        forall|i: int| p <= i < q ==> is_ws(#[trigger] b[i]),
    ensures
        run(ScanState::Start, b.take(q), 0) == run(ScanState::Start, b.take(p), 0),
    decreases q - p,
{
    if p < q {
        lemma_run_ws_stretch(b, p, q - 1);
        lemma_run_take_succ(b, q - 1);
        lemma_step_ws(run(ScanState::Start, b.take(q - 1), 0), b[q - 1], (q - 1) as nat);
    }
}

/// Once refused at some prefix, the whole text is refused with the same error.
proof fn lemma_run_failed_prefix(b: Seq<u8>, p: int, e: TreeParseError)
    requires
        0 <= p <= b.len(),
        run(ScanState::Start, b.take(p), 0) == ScanState::Failed(e),
    ensures
        parse_spec(b) == Err::<Shape, TreeParseError>(e),
{
    lemma_run_append(ScanState::Start, b.take(p), b.skip(p), 0);
    assert(b.take(p) + b.skip(p) =~= b);
    lemma_run_failed(e, b.skip(p), p as nat);
}

/// The state after reading the bytes of `b` from offset `s0` up to offset `x`.
pub open spec fn read(b: Seq<u8>, s0: int, x: int) -> ScanState {
    run(ScanState::Start, b.subrange(s0, x), s0 as nat)
}

proof fn lemma_read_succ(b: Seq<u8>, s0: int, p: int)
    requires
        0 <= s0 <= p < b.len(),
    ensures
        read(b, s0, p + 1) == step(read(b, s0, p), b[p], p as nat),
{
    assert(b.subrange(s0, p + 1).drop_last() =~= b.subrange(s0, p));
    assert(b.subrange(s0, p + 1).last() == b[p]);
}

proof fn lemma_read_ws(b: Seq<u8>, s0: int, p: int, q: int)
    requires
        0 <= s0 <= p <= q <= b.len(),
        forall|i: int| p <= i < q ==> is_ws(#[trigger] b[i]),
    ensures
        read(b, s0, q) == read(b, s0, p),
    decreases q - p,
{
    if p < q {
        lemma_read_ws(b, s0, p, q - 1);
        lemma_read_succ(b, s0, q - 1);
        lemma_step_ws(read(b, s0, q - 1), b[q - 1], (q - 1) as nat);
    }
}

proof fn lemma_read_from_start(b: Seq<u8>, x: int)
    requires
        0 <= x <= b.len(),
    ensures
        read(b, 0, x) == run(ScanState::Start, b.take(x), 0),
{
    assert(b.subrange(0, x) =~= b.take(x));
}

/// The tree that closing every open node of `st` gives.
pub open spec fn close_all(st: Seq<Seq<Shape>>) -> Shape
    decreases st.len(),
{
    if st.len() <= 1 {
        Shape { children: st.last() }
    } else {
        let rest = st.drop_last();
        close_all(rest.update(rest.len() - 1, rest.last().push(Shape { children: st.last() })))
    }
}

/// `k` closing parentheses.
pub open spec fn closes(k: nat) -> Seq<u8> {
    Seq::new(k, |i: int| CLOSE)
}

/// `x` is the beginning, and not the whole, of some tree's text.
pub open spec fn proper_prefix_of_tree(x: Seq<u8>) -> bool {
    exists|s: Shape| #[trigger] benc(s).len() > x.len() && benc(s).take(x.len() as int) == x
}

proof fn lemma_close_all(st: Seq<Seq<Shape>>)
    requires
        st.len() >= 1,
    ensures
        benc(close_all(st)) == stack_benc(st) + closes(st.len()),
    decreases st.len(),
{
    let node = Shape { children: st.last() };
    if st.len() == 1 {
        assert(st.drop_last() =~= Seq::<Seq<Shape>>::empty());
        assert(stack_benc(st.drop_last()) == Seq::<u8>::empty());
        assert(stack_benc(st) == stack_benc(st.drop_last()) + seq![OPEN] + forest_benc(st.last()));
        assert(stack_benc(st) =~= seq![OPEN] + forest_benc(st.last()));
        assert(closes(1) =~= seq![CLOSE]);
    } else {
        let rest = st.drop_last();
        let st2 = rest.update(rest.len() - 1, rest.last().push(node));
        lemma_stack_benc_push(rest, node);
        lemma_close_all(st2);
        assert(stack_benc(st) == stack_benc(rest) + seq![OPEN] + forest_benc(st.last()));
        assert(stack_benc(st2) =~= stack_benc(st) + seq![CLOSE]);
        assert(seq![CLOSE] + closes((st.len() - 1) as nat) =~= closes(st.len()));
        assert(stack_benc(st2) + closes((st.len() - 1) as nat) =~= stack_benc(st) + closes(st.len()));
    }
}

proof fn lemma_open_prefix(st: Seq<Seq<Shape>>)
    requires
        st.len() >= 1,
    ensures
        proper_prefix_of_tree(stack_benc(st)),
{
    lemma_close_all(st);
    let s = close_all(st);
    assert(benc(s).take(stack_benc(st).len() as int) =~= stack_benc(st));
    assert(benc(s).len() > stack_benc(st).len());
}

/// How the tokens read so far relate to a reading state.
pub open spec fn tokens_agree(st: ScanState, toks: Seq<u8>) -> bool {
    match st {
        ScanState::Start => toks.len() == 0,
        ScanState::Open(stack) => stack.len() >= 1 && toks == stack_benc(stack),
        ScanState::Done(t) => toks == benc(t),
        ScanState::Failed(_) => true,
    }
}

proof fn lemma_stack_benc_push(st: Seq<Seq<Shape>>, s: Shape)
    requires
        st.len() >= 1,
    ensures
        stack_benc(st.update(st.len() - 1, st.last().push(s))) == stack_benc(st) + benc(s),
{
    let st2 = st.update(st.len() - 1, st.last().push(s));
    assert(st2.drop_last() =~= st.drop_last());
    assert(st.last().push(s).drop_last() =~= st.last());
    assert(forest_benc(st.last().push(s)) == forest_benc(st.last()) + benc(s));
}

proof fn lemma_tokens_agree(b: Seq<u8>, off: nat)
    ensures
        tokens_agree(run(ScanState::Start, b, off), tokens(b)),
    decreases b.len(),
{
    if b.len() > 0 {
        let init = b.drop_last();
        let x = b.last();
        lemma_tokens_agree(init, off);
        let st = run(ScanState::Start, init, off);
        let t0 = tokens(init);
        assert(tokens(b) == t0 + if is_ws(x) {
            Seq::<u8>::empty()
        } else {
            seq![x]
        });
        assert(run(ScanState::Start, b, off) == step(st, x, (off + b.len() - 1) as nat));
        if is_ws(x) {
            assert(tokens(b) =~= t0);
        } else {
            match st {
                ScanState::Start => {
                    if x == OPEN {
                        let s1 = seq![Seq::<Shape>::empty()];
                        assert(s1.drop_last() =~= Seq::<Seq<Shape>>::empty());
                        assert(forest_benc(Seq::<Shape>::empty()) =~= Seq::<u8>::empty());
                        assert(stack_benc(s1.drop_last()) =~= Seq::<u8>::empty());
                        assert(stack_benc(s1) =~= t0 + seq![x]);
                    }
                },
                ScanState::Open(stack) => {
                    if x == OPEN {
                        let s2 = stack.push(Seq::<Shape>::empty());
                        assert(s2.drop_last() =~= stack);
                        assert(forest_benc(Seq::<Shape>::empty()) =~= Seq::<u8>::empty());
                        assert(stack_benc(s2) =~= t0 + seq![x]);
                    } else if x == CLOSE {
                        let node = Shape { children: stack.last() };
                        assert(stack_benc(stack) == stack_benc(stack.drop_last()) + seq![OPEN]
                            + forest_benc(stack.last()));
                        if stack.len() <= 1 {
                            assert(stack.drop_last().len() == 0);
                            assert(stack_benc(stack.drop_last()) =~= Seq::<u8>::empty());
                            assert(benc(node) =~= t0 + seq![x]);
                        } else {
                            let rest = stack.drop_last();
                            lemma_stack_benc_push(rest, node);
                            assert(stack_benc(rest) + benc(node) =~= t0 + seq![x]);
                        }
                    }
                },
                _ => {},
            }
        }
    }
}

/// A tree read from a text is the one whose canonical text is the text
/// without its white space.
pub proof fn lemma_parse_tokens(b: Seq<u8>)
    ensures
        parse_spec(b) is Ok ==> benc(parse_spec(b)->Ok_0) == tokens(b),
{
    lemma_tokens_agree(b, 0);
}

/// Two reading states that are equal, or both failed (with any error).
pub open spec fn alike(x: ScanState, y: ScanState) -> bool {
    match (x, y) {
        (ScanState::Failed(_), ScanState::Failed(_)) => true,
        _ => x == y,
    }
}

/// Reading a byte keeps two alike states alike, wherever the byte is.
proof fn lemma_step_alike(x: ScanState, y: ScanState, c: u8, p1: nat, p2: nat)
    requires
        alike(x, y),
    ensures
        alike(step(x, c, p1), step(y, c, p2)),
{
}

/// Reading a text and reading only its bytes that are not white space end in
/// alike states.
proof fn lemma_run_tokens(st: ScanState, b: Seq<u8>, o1: nat, o2: nat)
    ensures
        alike(run(st, b, o1), run(st, tokens(b), o2)),
    decreases b.len(),
{
    if b.len() == 0 {
        assert(tokens(b) =~= Seq::<u8>::empty());
        match st {
            ScanState::Failed(_) => {},
            _ => {},
        }
    } else {
        let dl = b.drop_last();
        let c = b.last();
        lemma_run_tokens(st, dl, o1, o2);
        if is_ws(c) {
            lemma_step_ws(run(st, dl, o1), c, (o1 + b.len() - 1) as nat);
            assert(tokens(b) =~= tokens(dl));
        } else {
            let tk = tokens(dl);
            assert(tokens(b) =~= tk.push(c));
            assert(tk.push(c).drop_last() =~= tk);
            lemma_step_alike(
                run(st, dl, o1),
                run(st, tk, o2),
                c,
                (o1 + b.len() - 1) as nat,
                (o2 + tk.push(c).len() - 1) as nat,
            );
        }
    }
}

/// A text parses to the tree `t` exactly when its bytes other than white space
/// are the text of `t`.
pub proof fn lemma_parse_iff_tokens(b: Seq<u8>, t: Shape)
    ensures
        parse_spec(b) == Ok::<Shape, TreeParseError>(t) <==> tokens(b) == benc(t),
{
    lemma_parse_tokens(b);
    if tokens(b) == benc(t) {
        lemma_parse_benc(t);
        lemma_run_tokens(ScanState::Start, b, 0, 0);
    }
    if parse_spec(b) == Ok::<Shape, TreeParseError>(t) {
        assert(benc(t) == tokens(b));
    }
}

/// The shapes of a stack of children vectors.
pub open spec fn stack_view(st: Seq<Vec<Tree>>) -> Seq<Seq<Shape>> {
    st.map_values(|v: Vec<Tree>| v@.map_values(|t: Tree| t@))
}

/// A cursor over the bytes of a text.
struct Parser<'a> {
    bytes: &'a [u8],
    pos: usize,
}

impl<'a> Parser<'a> {
    fn new(s: &'a str) -> (r: Self)
        ensures
            r.bytes@ == s.spec_bytes(),
            r.pos == 0,
    {
        Parser { bytes: s.as_bytes(), pos: 0 }
    }

    fn pos_if_remaining(&self) -> (r: Option<usize>)
        ensures
            r == if self.pos < self.bytes@.len() {
                Some(self.pos)
            } else {
                None::<usize>
            },
    {
        if self.pos < self.bytes.len() {
            Some(self.pos)
        } else {
            None
        }
    }

    fn skip_ws(&mut self)
        requires
            old(self).pos <= old(self).bytes@.len(),
        ensures
            final(self).bytes == old(self).bytes,
            old(self).pos <= final(self).pos <= final(self).bytes@.len(),
            forall|i: int| old(self).pos <= i < final(self).pos ==> is_ws(#[trigger] final(self).bytes@[i]),
            final(self).pos < final(self).bytes@.len() ==> !is_ws(final(self).bytes@[final(self).pos as int]),
    {
        let ghost p0 = self.pos;
        while self.pos < self.bytes.len() && is_ascii_whitespace(self.bytes[self.pos])
            invariant
                self.bytes == old(self).bytes,
                p0 == old(self).pos,
                p0 <= self.pos <= self.bytes@.len(),
                forall|i: int| p0 <= i < self.pos ==> is_ws(#[trigger] self.bytes@[i]),
            decreases self.bytes@.len() - self.pos,
        {
            self.pos = self.pos + 1;
        }
    }

    fn peek(&mut self) -> (r: Option<u8>)
        requires
            old(self).pos <= old(self).bytes@.len(),
        ensures
            final(self).bytes == old(self).bytes,
            old(self).pos <= final(self).pos <= final(self).bytes@.len(),
            forall|i: int| old(self).pos <= i < final(self).pos ==> is_ws(#[trigger] final(self).bytes@[i]),
            r == if final(self).pos < final(self).bytes@.len() {
                Some(final(self).bytes@[final(self).pos as int])
            } else {
                None::<u8>
            },
            r matches Some(b) ==> !is_ws(b),
    {
        self.skip_ws();
        if self.pos < self.bytes.len() {
            Some(self.bytes[self.pos])
        } else {
            None
        }
    }

    fn bump(&mut self) -> (r: Option<u8>)
        requires
            old(self).pos <= old(self).bytes@.len(),
        ensures
            final(self).bytes == old(self).bytes,
            final(self).pos <= final(self).bytes@.len(),
            match r {
                Some(b) => {
                    &&& old(self).pos < final(self).pos
                    &&& b == final(self).bytes@[final(self).pos - 1]
                    &&& !is_ws(b)
                    &&& forall|i: int| old(self).pos <= i < final(self).pos - 1 ==> is_ws(#[trigger] final(self).bytes@[i])
                },
                None => {
                    &&& final(self).pos == final(self).bytes@.len()
                    &&& forall|i: int| old(self).pos <= i < final(self).pos ==> is_ws(#[trigger] final(self).bytes@[i])
                },
            },
    {
        self.skip_ws();
        if self.pos < self.bytes.len() {
            let b = self.bytes[self.pos];
            self.pos = self.pos + 1;
            Some(b)
        } else {
            None
        }
    }

    /// Reads one tree from the current position on.
    #[verifier::spinoff_prover]
    #[verifier::rlimit(40)]
    fn parse_tree(&mut self) -> (r: Result<Tree, TreeParseError>)
        requires
            old(self).pos <= old(self).bytes@.len(),
        ensures
            final(self).bytes == old(self).bytes,
            old(self).pos <= final(self).pos <= final(self).bytes@.len(),
            match r {
                Ok(t) => {
                    &&& read(final(self).bytes@, old(self).pos as int, final(self).pos as int) == ScanState::Done(t@)
                    &&& final(self).pos >= 1
                    &&& final(self).bytes@[final(self).pos - 1] == CLOSE
                    &&& tokens(final(self).bytes@.subrange(old(self).pos as int, final(self).pos as int)) == benc(t@)
                },
                Err(e) => {
                    &&& e != TreeParseError::UnexpectedEof ==> read(final(self).bytes@, old(self).pos as int, final(self).pos as int)
                        == ScanState::Failed(e)
                    &&& e == TreeParseError::UnexpectedEof ==> final(self).pos == final(self).bytes@.len() && (read(
                        final(self).bytes@,
                        old(self).pos as int,
                        final(self).pos as int,
                    ) is Start || read(final(self).bytes@, old(self).pos as int, final(self).pos as int) is Open)
                        && proper_prefix_of_tree(tokens(final(self).bytes@.subrange(old(self).pos as int, final(self).bytes@.len() as int)))
                },
            },
    {
        let ghost b = self.bytes@;
        let ghost s0 = self.pos as int;
        assert(b.subrange(s0, s0) =~= Seq::<u8>::empty());
        match self.bump() {
            Some(c) => {
                proof {
                    lemma_read_ws(b, s0, s0, self.pos - 1);
                    lemma_read_succ(b, s0, self.pos - 1);
                }
                if c != OPEN {
                    let at = self.pos - 1;
                    return Err(TreeParseError::ExpectedOpenParen { at });
                }
            },
            None => {
                proof {
                    lemma_read_ws(b, s0, s0, self.pos as int);
                    lemma_tokens_agree(b.subrange(s0, self.pos as int), s0 as nat);
                    let leaf = Shape { children: Seq::empty() };
                    assert(forest_benc(leaf.children) =~= Seq::<u8>::empty());
                    assert(benc(leaf).take(0) =~= tokens(b.subrange(s0, b.len() as int)));
                }
                return Err(TreeParseError::UnexpectedEof);
            },
        }
        let n = self.bytes.len();
        let mut stack: Vec<Vec<Tree>> = Vec::new();
        stack.push(Vec::new());
        assert(stack_view(stack@)[0] =~= Seq::<Shape>::empty());
        assert(stack_view(stack@) =~= seq![Seq::<Shape>::empty()]);
        loop
            invariant
                self.bytes == old(self).bytes,
                n == b.len(),
                self.bytes@ == b,
                s0 == old(self).pos,
                s0 <= self.pos <= b.len(),
                stack@.len() >= 1,
                read(b, s0, self.pos as int) == ScanState::Open(stack_view(stack@)),
            decreases b.len() - self.pos,
        {
            let ghost p0 = self.pos;
            let next = self.peek();
            proof {
                lemma_read_ws(b, s0, p0 as int, self.pos as int);
            }
            match next {
                Some(c) => {
                    let ghost sv = stack_view(stack@);
                    proof {
                        lemma_read_succ(b, s0, self.pos as int);
                    }
                    if c == CLOSE {
                        self.pos = self.pos + 1;
                        let children = stack.pop().unwrap();
                        let t = Tree { children };
                        assert(t@.children =~= sv.last());
                        if stack.len() == 0 {
                            proof {
                                lemma_tokens_agree(b.subrange(s0, self.pos as int), s0 as nat);
                            }
                            return Ok(t);
                        }
                        let ghost tv = t@;
                        let mut top = stack.pop().unwrap();
                        assert(top@.map_values(|x: Tree| x@) =~= sv.drop_last().last());
                        top.push(t);
                        assert(top@.map_values(|x: Tree| x@) =~= sv.drop_last().last().push(tv));
                        stack.push(top);
                        assert(stack_view(stack@)[stack@.len() - 1] =~= sv.drop_last().last().push(tv));
                        assert(stack_view(stack@) =~= sv.drop_last().update(
                            sv.drop_last().len() - 1,
                            sv.drop_last().last().push(t@),
                        ));
                    } else if c == OPEN {
                        self.pos = self.pos + 1;
                        stack.push(Vec::new());
                        assert(stack_view(stack@)[stack@.len() - 1] =~= Seq::<Shape>::empty());
                        assert(stack_view(stack@) =~= sv.push(Seq::<Shape>::empty()));
                    } else {
                        let at = self.pos;
                        self.pos = self.pos + 1;
                        return Err(TreeParseError::ExpectedCloseParen { at });
                    }
                },
                None => {
                    proof {
                        lemma_tokens_agree(b.subrange(s0, self.pos as int), s0 as nat);
                        lemma_open_prefix(stack_view(stack@));
                    }
                    return Err(TreeParseError::UnexpectedEof);
                },
            }
        }
    }
}

/// Whether a byte is ASCII white space.
fn is_ascii_whitespace(b: u8) -> (r: bool)
    ensures
        r == is_ws(b),
{
    b == 0x20u8 || b == 0x09u8 || b == 0x0Au8 || b == 0x0Cu8 || b == 0x0Du8
}

/// Parses a tree from its parenthesised text `()` / `( ... )`, ignoring ASCII white space.
pub fn parse_tree(s: &str) -> (r: Result<Tree, TreeParseError>)
    ensures
        match r {
            Ok(t) => parse_spec(s.spec_bytes()) == Ok::<Shape, TreeParseError>(t@),
            Err(e) => parse_spec(s.spec_bytes()) == Err::<Shape, TreeParseError>(e),
        },
        r == Err::<Tree, TreeParseError>(TreeParseError::UnexpectedEof) ==> proper_prefix_of_tree(tokens(s.spec_bytes())),
        forall|t: Shape| #![trigger benc(t)] (r matches Ok(x) && x@ == t) <==> tokens(s.spec_bytes()) == benc(t),
{
    proof {
        assert forall|t: Shape| #![trigger benc(t)] parse_spec(s.spec_bytes()) == Ok::<Shape, TreeParseError>(t)
            <==> tokens(s.spec_bytes()) == benc(t) by {
            lemma_parse_iff_tokens(s.spec_bytes(), t);
        }
    }
    let mut parser = Parser::new(s);
    let ghost b = parser.bytes@;
    let tree = match parser.parse_tree() {
        Ok(t) => t,
        Err(e) => {
            proof {
                lemma_read_from_start(b, parser.pos as int);
                assert(b.subrange(0, b.len() as int) =~= b);
                if e != TreeParseError::UnexpectedEof {
                    lemma_run_failed_prefix(b, parser.pos as int, e);
                } else {
                    assert(b.take(parser.pos as int) =~= b);
                }
            }
            return Err(e);
        },
    };
    let ghost q = parser.pos;
    proof {
        lemma_read_from_start(b, q as int);
    }
    parser.skip_ws();
    proof {
        lemma_run_ws_stretch(b, q as int, parser.pos as int);
    }
    match parser.pos_if_remaining() {
        Some(at) => {
            proof {
                lemma_run_take_succ(b, at as int);
                lemma_run_failed_prefix(b, at + 1, TreeParseError::TrailingCharacters { at });
            }
            return Err(TreeParseError::TrailingCharacters { at });
        },
        None => {},
    }
    assert(b.take(parser.pos as int) =~= b);
    Ok(tree)
}

impl FromStr for Tree {
    type Err = TreeParseError;

    fn from_str(s: &str) -> Result<Tree, TreeParseError> {
        parse_tree(s)
    }
}

} // verus!
