//! The parse tree spells its input: the leaves of the tree that the
//! recursive-descent parser builds, read left to right and the empty leaves
//! `ε` left out, are the kinds of the tokens it consumed, in order, and the
//! next token is the end marker `#`.
use vstd::prelude::*;
use crate::lexer::TokenView;
use crate::rd_rules::{
    Halt, RState, RStep, add_node, arith_power, compares, enter, epsilon, grown, logic_power, look,
    r_assign, r_block, r_bool_atom, r_bool_bp, r_bool_expr, r_bool_rest, r_decl, r_expr,
    r_expr_atom, r_expr_bp, r_expr_rest, r_if, r_program, r_relation, r_statement, r_stmt_list,
    r_stmt_list_rest, r_terminal, r_variable, r_while, spec_rd_parse, start_state, starts_stmt,
};
use crate::symbol::{Terminal, terminal_text};
use crate::syntax_tree::{
    RdNodeView, forest, leaves, lemma_forest_prefix, lemma_leaves_prefix, prefix_of,
};

verus! {

/// The printed kinds of the tokens.
pub open spec fn texts(ts: Seq<TokenView>) -> Seq<Seq<char>> {
    ts.map_values(|t: TokenView| terminal_text(t.kind))
}

/// The step kept the nodes it found, and (as long as the node count fits in
/// a `usize`) the leaves of the node it built spell the tokens from `a` up
/// to where it stopped.
pub open spec fn spans(toks: Seq<TokenView>, a: int, st: RState, s: RStep<usize>) -> bool {
    s matches Ok((st1, id)) ==> {
        &&& st.pos <= st1.pos <= toks.len()
        &&& prefix_of(st.nodes, st1.nodes)
        &&& (st1.nodes.len() <= usize::MAX ==> id < st1.nodes.len() && leaves(
            st1.nodes,
            id as int,
        ) == texts(toks.subrange(a, st1.pos)))
    }
}

/// The node `id` of `st` spells the tokens from `a` up to the position of
/// `st` (as long as the node count fits in a `usize`).
pub open spec fn built(toks: Seq<TokenView>, a: int, st: RState, id: usize) -> bool {
    st.nodes.len() <= usize::MAX ==> id < st.nodes.len() && leaves(st.nodes, id as int) == texts(
        toks.subrange(a, st.pos),
    )
}

proof fn lemma_texts_concat(toks: Seq<TokenView>, a: int, b: int, c: int)
    requires
        0 <= a <= b <= c <= toks.len(),
    ensures
        texts(toks.subrange(a, b)) + texts(toks.subrange(b, c)) == texts(toks.subrange(a, c)),
{
    assert(texts(toks.subrange(a, b)) + texts(toks.subrange(b, c)) =~= texts(
        toks.subrange(a, c),
    ));
}

proof fn lemma_terminal_text_not_epsilon(k: Terminal)
    ensures
        terminal_text(k) != "ε"@,
{
    reveal_strlit("ε");
    assert("ε"@ =~= seq!['ε']);
    match k {
        Terminal::Id => {
            reveal_strlit("id");
            assert(terminal_text(k).len() == 2);
        },
        Terminal::Num => {
            reveal_strlit("num");
            assert(terminal_text(k).len() == 3);
        },
        Terminal::Let => {
            reveal_strlit("let");
            assert(terminal_text(k).len() == 3);
        },
        Terminal::True => {
            reveal_strlit("true");
            assert(terminal_text(k).len() == 4);
        },
        Terminal::False => {
            reveal_strlit("false");
            assert(terminal_text(k).len() == 5);
        },
        Terminal::If => {
            reveal_strlit("if");
            assert(terminal_text(k).len() == 2);
        },
        Terminal::Else => {
            reveal_strlit("else");
            assert(terminal_text(k).len() == 4);
        },
        Terminal::While => {
            reveal_strlit("while");
            assert(terminal_text(k).len() == 5);
        },
        Terminal::And => {
            reveal_strlit("and");
            assert(terminal_text(k).len() == 3);
        },
        Terminal::Or => {
            reveal_strlit("or");
            assert(terminal_text(k).len() == 2);
        },
        Terminal::Not => {
            reveal_strlit("not");
            assert(terminal_text(k).len() == 3);
        },
        Terminal::Plus => {
            reveal_strlit("+");
            assert(terminal_text(k)[0] == '+');
        },
        Terminal::Minus => {
            reveal_strlit("-");
            assert(terminal_text(k)[0] == '-');
        },
        Terminal::Star => {
            reveal_strlit("*");
            assert(terminal_text(k)[0] == '*');
        },
        Terminal::Slash => {
            reveal_strlit("/");
            assert(terminal_text(k)[0] == '/');
        },
        Terminal::Assign => {
            reveal_strlit("=");
            assert(terminal_text(k)[0] == '=');
        },
        Terminal::Eq => {
            reveal_strlit("==");
            assert(terminal_text(k).len() == 2);
        },
        Terminal::Ne => {
            reveal_strlit("!=");
            assert(terminal_text(k).len() == 2);
        },
        Terminal::Lt => {
            reveal_strlit("<");
            assert(terminal_text(k)[0] == '<');
        },
        Terminal::Le => {
            reveal_strlit("<=");
            assert(terminal_text(k).len() == 2);
        },
        Terminal::Gt => {
            reveal_strlit(">");
            assert(terminal_text(k)[0] == '>');
        },
        Terminal::Ge => {
            reveal_strlit(">=");
            assert(terminal_text(k).len() == 2);
        },
        Terminal::LParen => {
            reveal_strlit("(");
            assert(terminal_text(k)[0] == '(');
        },
        Terminal::RParen => {
            reveal_strlit(")");
            assert(terminal_text(k)[0] == ')');
        },
        Terminal::LBrace => {
            reveal_strlit("{");
            assert(terminal_text(k)[0] == '{');
        },
        Terminal::RBrace => {
            reveal_strlit("}");
            assert(terminal_text(k)[0] == '}');
        },
        Terminal::Semicolon => {
            reveal_strlit(";");
            assert(terminal_text(k)[0] == ';');
        },
        Terminal::End => {
            reveal_strlit("#");
            assert(terminal_text(k)[0] == '#');
        },
    }
}

/// Children whose spans follow one another spell the tokens from the start
/// of the first span to the end of the last.
proof fn lemma_forest_chain(
    nodes: Seq<RdNodeView>,
    ch: Seq<usize>,
    ps: Seq<int>,
    toks: Seq<TokenView>,
    bound: int,
)
    requires
        ps.len() == ch.len() + 1,
        0 <= ps[0],
        ps[ch.len() as int] <= toks.len(),
        forall|i: int| 0 <= i < ch.len() ==> #[trigger] ps[i] <= ps[i + 1],
        forall|i: int|
            0 <= i < ch.len() ==> (#[trigger] ch[i] as int) < bound && leaves(nodes, ch[i] as int)
                == texts(toks.subrange(ps[i], ps[i + 1])),
    ensures
        ps[0] <= ps[ch.len() as int],
        forest(nodes, ch, bound) == texts(toks.subrange(ps[0], ps[ch.len() as int])),
    decreases ch.len(),
{
    if ch.len() == 0 {
        assert(texts(toks.subrange(ps[0], ps[0])) =~= Seq::<Seq<char>>::empty());
    } else {
        let m = ch.len() - 1;
        let ps2 = ps.take(m + 1);
        assert(ps2[m] <= ps[m + 1]);
        lemma_forest_chain(nodes, ch.drop_last(), ps2, toks, bound);
        assert(ch.last() == ch[m]);
        lemma_texts_concat(toks, ps[0], ps[m], ps[m + 1]);
    }
}

/// A node over children whose spans follow one another spells the tokens of
/// all of them.
proof fn lemma_add_node(
    nodes: Seq<RdNodeView>,
    label: Seq<char>,
    ch: Seq<usize>,
    ps: Seq<int>,
    toks: Seq<TokenView>,
)
    requires
        ch.len() >= 1,
        ps.len() == ch.len() + 1,
        0 <= ps[0],
        ps[ch.len() as int] <= toks.len(),
        forall|i: int| 0 <= i < ch.len() ==> #[trigger] ps[i] <= ps[i + 1],
        forall|i: int|
            0 <= i < ch.len() ==> (#[trigger] ch[i] as int) < nodes.len() && leaves(
                nodes,
                ch[i] as int,
            ) == texts(toks.subrange(ps[i], ps[i + 1])),
    ensures
        prefix_of(nodes, nodes.push(RdNodeView { label, children: ch })),
        leaves(nodes.push(RdNodeView { label, children: ch }), nodes.len() as int) == texts(
            toks.subrange(ps[0], ps[ch.len() as int]),
        ),
        ps[0] <= ps[ch.len() as int],
{
    let b = nodes.push(RdNodeView { label, children: ch });
    assert(prefix_of(nodes, b));
    lemma_forest_prefix(nodes, b, ch, nodes.len() as int);
    lemma_forest_chain(nodes, ch, ps, toks, nodes.len() as int);
}

/// Nodes added later do not change the leaves under `id`.
proof fn lemma_keep(a: Seq<RdNodeView>, b: Seq<RdNodeView>, id: usize)
    requires
        prefix_of(a, b),
        id < a.len(),
    ensures
        id < b.len(),
        leaves(b, id as int) == leaves(a, id as int),
{
    lemma_leaves_prefix(a, b, id as int);
}

proof fn lemma_terminal(toks: Seq<TokenView>, st: RState, kind: Terminal)
    requires
        0 <= st.pos <= toks.len(),
    ensures
        spans(toks, st.pos, st, r_terminal(toks, st, kind)),
{
    if let Ok((st1, id)) = r_terminal(toks, st, kind) {
        lemma_terminal_text_not_epsilon(kind);
        assert(prefix_of(st.nodes, st1.nodes));
        if st1.nodes.len() <= usize::MAX {
            assert(st1.nodes[id as int].children.len() == 0);
            assert(texts(toks.subrange(st.pos, st1.pos)) =~= seq![terminal_text(kind)]);
        }
    }
}

proof fn lemma_epsilon(toks: Seq<TokenView>, st: RState)
    requires
        0 <= st.pos <= toks.len(),
    ensures
        spans(toks, st.pos, st, Ok(epsilon(st))),
{
    let (st1, id) = epsilon(st);
    assert(prefix_of(st.nodes, st1.nodes));
    assert(texts(toks.subrange(st.pos, st.pos)) =~= Seq::<Seq<char>>::empty());
}

/// One child spanning the tokens from `a` to the position of `st`.
proof fn lemma_node1(toks: Seq<TokenView>, st: RState, label: Seq<char>, a: int, c: usize)
    requires
        0 <= a <= st.pos <= toks.len(),
        built(toks, a, st, c),
    ensures
        spans(toks, a, st, Ok(add_node(st, label, seq![c]))),
{
    let (st1, id) = add_node(st, label, seq![c]);
    if st.nodes.len() < usize::MAX {
        lemma_add_node(st.nodes, label, seq![c], seq![a, st.pos], toks);
    }
    assert(prefix_of(st.nodes, st1.nodes));
}

/// Two children, spanning the tokens from `a` to `s1.pos` and from
/// `s1.pos` to the position of `st`.
proof fn lemma_node2(
    toks: Seq<TokenView>,
    st: RState,
    label: Seq<char>,
    a: int,
    s1: RState,
    c1: usize,
    c2: usize,
)
    requires
        0 <= a <= s1.pos <= st.pos <= toks.len(),
        prefix_of(s1.nodes, st.nodes),
        built(toks, a, s1, c1),
        built(toks, s1.pos, st, c2),
    ensures
        spans(toks, a, st, Ok(add_node(st, label, seq![c1, c2]))),
{
    let (st1, id) = add_node(st, label, seq![c1, c2]);
    if st.nodes.len() < usize::MAX {
        lemma_keep(s1.nodes, st.nodes, c1);
        lemma_add_node(st.nodes, label, seq![c1, c2], seq![a, s1.pos, st.pos], toks);
    }
    assert(prefix_of(st.nodes, st1.nodes));
}

/// Three children, spanning the tokens from `a` to `s1.pos`, from there to
/// `s2.pos`, and from there to the position of `st`.
proof fn lemma_node3(
    toks: Seq<TokenView>,
    st: RState,
    label: Seq<char>,
    a: int,
    s1: RState,
    c1: usize,
    s2: RState,
    c2: usize,
    c3: usize,
)
    requires
        0 <= a <= s1.pos <= s2.pos <= st.pos <= toks.len(),
        prefix_of(s1.nodes, s2.nodes),
        prefix_of(s2.nodes, st.nodes),
        built(toks, a, s1, c1),
        built(toks, s1.pos, s2, c2),
        built(toks, s2.pos, st, c3),
    ensures
        spans(toks, a, st, Ok(add_node(st, label, seq![c1, c2, c3]))),
{
    let (st1, id) = add_node(st, label, seq![c1, c2, c3]);
    if st.nodes.len() < usize::MAX {
        lemma_keep(s1.nodes, st.nodes, c1);
        lemma_keep(s2.nodes, st.nodes, c2);
        lemma_add_node(
            st.nodes,
            label,
            seq![c1, c2, c3],
            seq![a, s1.pos, s2.pos, st.pos],
            toks,
        );
    }
    assert(prefix_of(st.nodes, st1.nodes));
}

/// 4 children, one after another, spanning the tokens from `a` to the
/// position of `st`.
proof fn lemma_node4(
    toks: Seq<TokenView>,
    st: RState,
    label: Seq<char>,
    a: int,
    s1: RState,
    c1: usize,
    s2: RState,
    c2: usize,
    s3: RState,
    c3: usize,
    c4: usize,
)
    requires
        0 <= a <= s1.pos <= s2.pos <= s3.pos <= st.pos <= toks.len(),
        prefix_of(s1.nodes, s2.nodes),
        prefix_of(s2.nodes, s3.nodes),
        prefix_of(s3.nodes, st.nodes),
        built(toks, a, s1, c1),
        built(toks, s1.pos, s2, c2),
        built(toks, s2.pos, s3, c3),
        built(toks, s3.pos, st, c4),
    ensures
        spans(toks, a, st, Ok(add_node(st, label, seq![c1, c2, c3, c4]))),
{
    let (st1, id) = add_node(st, label, seq![c1, c2, c3, c4]);
    if st.nodes.len() < usize::MAX {
        lemma_keep(s1.nodes, st.nodes, c1);
        lemma_keep(s2.nodes, st.nodes, c2);
        lemma_keep(s3.nodes, st.nodes, c3);
        lemma_add_node(st.nodes, label, seq![c1, c2, c3, c4], seq![a, s1.pos, s2.pos, s3.pos, st.pos], toks);
    }
    assert(prefix_of(st.nodes, st1.nodes));
}

/// 5 children, one after another, spanning the tokens from `a` to the
/// position of `st`.
proof fn lemma_node5(
    toks: Seq<TokenView>,
    st: RState,
    label: Seq<char>,
    a: int,
    s1: RState,
    c1: usize,
    s2: RState,
    c2: usize,
    s3: RState,
    c3: usize,
    s4: RState,
    c4: usize,
    c5: usize,
)
    requires
        0 <= a <= s1.pos <= s2.pos <= s3.pos <= s4.pos <= st.pos <= toks.len(),
        prefix_of(s1.nodes, s2.nodes),
        prefix_of(s2.nodes, s3.nodes),
        prefix_of(s3.nodes, s4.nodes),
        prefix_of(s4.nodes, st.nodes),
        built(toks, a, s1, c1),
        built(toks, s1.pos, s2, c2),
        built(toks, s2.pos, s3, c3),
        built(toks, s3.pos, s4, c4),
        built(toks, s4.pos, st, c5),
    ensures
        spans(toks, a, st, Ok(add_node(st, label, seq![c1, c2, c3, c4, c5]))),
{
    let (st1, id) = add_node(st, label, seq![c1, c2, c3, c4, c5]);
    if st.nodes.len() < usize::MAX {
        lemma_keep(s1.nodes, st.nodes, c1);
        lemma_keep(s2.nodes, st.nodes, c2);
        lemma_keep(s3.nodes, st.nodes, c3);
        lemma_keep(s4.nodes, st.nodes, c4);
        lemma_add_node(st.nodes, label, seq![c1, c2, c3, c4, c5], seq![a, s1.pos, s2.pos, s3.pos, s4.pos, st.pos], toks);
    }
    assert(prefix_of(st.nodes, st1.nodes));
}

/// 6 children, one after another, spanning the tokens from `a` to the
/// position of `st`.
proof fn lemma_node6(
    toks: Seq<TokenView>,
    st: RState,
    label: Seq<char>,
    a: int,
    s1: RState,
    c1: usize,
    s2: RState,
    c2: usize,
    s3: RState,
    c3: usize,
    s4: RState,
    c4: usize,
    s5: RState,
    c5: usize,
    c6: usize,
)
    requires
        0 <= a <= s1.pos <= s2.pos <= s3.pos <= s4.pos <= s5.pos <= st.pos <= toks.len(),
        prefix_of(s1.nodes, s2.nodes),
        prefix_of(s2.nodes, s3.nodes),
        prefix_of(s3.nodes, s4.nodes),
        prefix_of(s4.nodes, s5.nodes),
        prefix_of(s5.nodes, st.nodes),
        built(toks, a, s1, c1),
        built(toks, s1.pos, s2, c2),
        built(toks, s2.pos, s3, c3),
        built(toks, s3.pos, s4, c4),
        built(toks, s4.pos, s5, c5),
        built(toks, s5.pos, st, c6),
    ensures
        spans(toks, a, st, Ok(add_node(st, label, seq![c1, c2, c3, c4, c5, c6]))),
{
    let (st1, id) = add_node(st, label, seq![c1, c2, c3, c4, c5, c6]);
    if st.nodes.len() < usize::MAX {
        lemma_keep(s1.nodes, st.nodes, c1);
        lemma_keep(s2.nodes, st.nodes, c2);
        lemma_keep(s3.nodes, st.nodes, c3);
        lemma_keep(s4.nodes, st.nodes, c4);
        lemma_keep(s5.nodes, st.nodes, c5);
        lemma_add_node(st.nodes, label, seq![c1, c2, c3, c4, c5, c6], seq![a, s1.pos, s2.pos, s3.pos, s4.pos, s5.pos, st.pos], toks);
    }
    assert(prefix_of(st.nodes, st1.nodes));
}

/// 7 children, one after another, spanning the tokens from `a` to the
/// position of `st`.
proof fn lemma_node7(
    toks: Seq<TokenView>,
    st: RState,
    label: Seq<char>,
    a: int,
    s1: RState,
    c1: usize,
    s2: RState,
    c2: usize,
    s3: RState,
    c3: usize,
    s4: RState,
    c4: usize,
    s5: RState,
    c5: usize,
    s6: RState,
    c6: usize,
    c7: usize,
)
    requires
        0 <= a <= s1.pos <= s2.pos <= s3.pos <= s4.pos <= s5.pos <= s6.pos <= st.pos <= toks.len(),
        prefix_of(s1.nodes, s2.nodes),
        prefix_of(s2.nodes, s3.nodes),
        prefix_of(s3.nodes, s4.nodes),
        prefix_of(s4.nodes, s5.nodes),
        prefix_of(s5.nodes, s6.nodes),
        prefix_of(s6.nodes, st.nodes),
        built(toks, a, s1, c1),
        built(toks, s1.pos, s2, c2),
        built(toks, s2.pos, s3, c3),
        built(toks, s3.pos, s4, c4),
        built(toks, s4.pos, s5, c5),
        built(toks, s5.pos, s6, c6),
        built(toks, s6.pos, st, c7),
    ensures
        spans(toks, a, st, Ok(add_node(st, label, seq![c1, c2, c3, c4, c5, c6, c7]))),
{
    let (st1, id) = add_node(st, label, seq![c1, c2, c3, c4, c5, c6, c7]);
    if st.nodes.len() < usize::MAX {
        lemma_keep(s1.nodes, st.nodes, c1);
        lemma_keep(s2.nodes, st.nodes, c2);
        lemma_keep(s3.nodes, st.nodes, c3);
        lemma_keep(s4.nodes, st.nodes, c4);
        lemma_keep(s5.nodes, st.nodes, c5);
        lemma_keep(s6.nodes, st.nodes, c6);
        lemma_add_node(st.nodes, label, seq![c1, c2, c3, c4, c5, c6, c7], seq![a, s1.pos, s2.pos, s3.pos, s4.pos, s5.pos, s6.pos, st.pos], toks);
    }
    assert(prefix_of(st.nodes, st1.nodes));
}

proof fn lemma_variable(toks: Seq<TokenView>, st: RState)
    requires
        0 <= st.pos <= toks.len(),
    ensures
        spans(toks, st.pos, st, r_variable(toks, st)),
{
    let st0 = enter(st, "parse_variable"@);
    lemma_terminal(toks, st0, Terminal::Id);
    if let Ok((st1, id)) = r_terminal(toks, st0, Terminal::Id) {
        lemma_node1(toks, st1, "Variable"@, st.pos, id);
    }
}

proof fn lemma_expr(toks: Seq<TokenView>, st: RState)
    requires
        0 <= st.pos <= toks.len(),
    ensures
        spans(toks, st.pos, st, r_expr(toks, st)),
    decreases toks.len() - st.pos, 3int,
{
    let st0 = enter(st, "parse_expr"@);
    lemma_expr_bp(toks, st0, 0);
    if let Ok((st1, e)) = r_expr_bp(toks, st0, 0) {
        lemma_node1(toks, st1, "Expr"@, st.pos, e);
    }
}

proof fn lemma_expr_bp(toks: Seq<TokenView>, st: RState, min_bp: u8)
    requires
        0 <= st.pos <= toks.len(),
    ensures
        spans(toks, st.pos, st, r_expr_bp(toks, st, min_bp)),
    decreases toks.len() - st.pos, 2int,
{
    lemma_expr_atom(toks, st);
    if let Ok((st1, left)) = r_expr_atom(toks, st) {
        if grown(toks, st, st1) {
            lemma_expr_rest(toks, st.pos, st1, left, min_bp);
        }
    }
}

proof fn lemma_expr_rest(toks: Seq<TokenView>, a: int, st: RState, left: usize, min_bp: u8)
    requires
        0 <= a <= st.pos <= toks.len(),
        built(toks, a, st, left),
    ensures
        spans(toks, a, st, r_expr_rest(toks, st, left, min_bp)),
    decreases toks.len() - st.pos, 0int,
{
    if let Some(t) = look(toks, st.pos) {
        if let Some((lbp, rbp)) = arith_power(t.kind) {
            if lbp >= min_bp {
                lemma_terminal(toks, st, t.kind);
                if let Ok((st1, op)) = r_terminal(toks, st, t.kind) {
                    if grown(toks, st, st1) {
                        lemma_expr_bp(toks, st1, rbp);
                        if let Ok((st2, right)) = r_expr_bp(toks, st1, rbp) {
                            if grown(toks, st, st2) {
                                lemma_node3(
                                    toks,
                                    st2,
                                    "BinaryExpr"@,
                                    a,
                                    st,
                                    left,
                                    st1,
                                    op,
                                    right,
                                );
                                let (st3, node) = add_node(
                                    st2,
                                    "BinaryExpr"@,
                                    seq![left, op, right],
                                );
                                lemma_expr_rest(toks, a, st3, node, min_bp);
                            }
                        }
                    }
                }
            }
        }
    }
}

proof fn lemma_expr_atom(toks: Seq<TokenView>, st: RState)
    requires
        0 <= st.pos <= toks.len(),
    ensures
        spans(toks, st.pos, st, r_expr_atom(toks, st)),
    decreases toks.len() - st.pos, 1int,
{
    if let Some(t) = look(toks, st.pos) {
        if t.kind == Terminal::Id {
            lemma_variable(toks, st);
        } else if t.kind == Terminal::Num {
            lemma_terminal(toks, st, Terminal::Num);
            if let Ok((st1, num)) = r_terminal(toks, st, Terminal::Num) {
                lemma_node1(toks, st1, "Number"@, st.pos, num);
            }
        } else if t.kind == Terminal::LParen {
            lemma_terminal(toks, st, Terminal::LParen);
            if let Ok((st1, lp)) = r_terminal(toks, st, Terminal::LParen) {
                if grown(toks, st, st1) {
                    lemma_expr(toks, st1);
                    if let Ok((st2, e)) = r_expr(toks, st1) {
                        lemma_terminal(toks, st2, Terminal::RParen);
                        if let Ok((st3, rp)) = r_terminal(toks, st2, Terminal::RParen) {
                            lemma_node3(toks, st3, "GroupedExpr"@, st.pos, st1, lp, st2, e, rp);
                        }
                    }
                }
            }
        }
    }
}

proof fn lemma_bool_expr(toks: Seq<TokenView>, st: RState)
    requires
        0 <= st.pos <= toks.len(),
    ensures
        spans(toks, st.pos, st, r_bool_expr(toks, st)),
    decreases toks.len() - st.pos, 4int,
{
    let st0 = enter(st, "parse_bool_expr"@);
    lemma_bool_bp(toks, st0, 0);
    if let Ok((st1, e)) = r_bool_bp(toks, st0, 0) {
        lemma_node1(toks, st1, "BoolExpr"@, st.pos, e);
    }
}

proof fn lemma_bool_bp(toks: Seq<TokenView>, st: RState, min_bp: u8)
    requires
        0 <= st.pos <= toks.len(),
    ensures
        spans(toks, st.pos, st, r_bool_bp(toks, st, min_bp)),
    decreases toks.len() - st.pos, 3int,
{
    if let Some(t) = look(toks, st.pos) {
        if t.kind == Terminal::Not {
            lemma_terminal(toks, st, Terminal::Not);
            if let Ok((st1, kw)) = r_terminal(toks, st, Terminal::Not) {
                if grown(toks, st, st1) {
                    lemma_bool_bp(toks, st1, 5);
                    if let Ok((st2, e)) = r_bool_bp(toks, st1, 5) {
                        lemma_node2(toks, st2, "NotExpr"@, st.pos, st1, kw, e);
                        let (st3, node) = add_node(st2, "NotExpr"@, seq![kw, e]);
                        if grown(toks, st, st3) {
                            lemma_bool_rest(toks, st.pos, st3, node, min_bp);
                        }
                    }
                }
            }
        } else {
            lemma_bool_atom(toks, st);
            if let Ok((st1, left)) = r_bool_atom(toks, st) {
                if grown(toks, st, st1) {
                    lemma_bool_rest(toks, st.pos, st1, left, min_bp);
                }
            }
        }
    }
}

proof fn lemma_bool_rest(toks: Seq<TokenView>, a: int, st: RState, left: usize, min_bp: u8)
    requires
        0 <= a <= st.pos <= toks.len(),
        built(toks, a, st, left),
    ensures
        spans(toks, a, st, r_bool_rest(toks, st, left, min_bp)),
    decreases toks.len() - st.pos, 0int,
{
    if let Some(t) = look(toks, st.pos) {
        if let Some((lbp, rbp)) = logic_power(t.kind) {
            if lbp >= min_bp {
                lemma_terminal(toks, st, t.kind);
                if let Ok((st1, op)) = r_terminal(toks, st, t.kind) {
                    if grown(toks, st, st1) {
                        lemma_bool_bp(toks, st1, rbp);
                        if let Ok((st2, right)) = r_bool_bp(toks, st1, rbp) {
                            if grown(toks, st, st2) {
                                lemma_node3(
                                    toks,
                                    st2,
                                    "LogicalExpr"@,
                                    a,
                                    st,
                                    left,
                                    st1,
                                    op,
                                    right,
                                );
                                let (st3, node) = add_node(
                                    st2,
                                    "LogicalExpr"@,
                                    seq![left, op, right],
                                );
                                lemma_bool_rest(toks, a, st3, node, min_bp);
                            }
                        }
                    }
                }
            }
        }
    }
}

proof fn lemma_bool_atom(toks: Seq<TokenView>, st: RState)
    requires
        0 <= st.pos <= toks.len(),
    ensures
        spans(toks, st.pos, st, r_bool_atom(toks, st)),
    decreases toks.len() - st.pos, 2int,
{
    if let Some(t) = look(toks, st.pos) {
        if t.kind == Terminal::True || t.kind == Terminal::False {
            lemma_terminal(toks, st, t.kind);
            if let Ok((st1, lit)) = r_terminal(toks, st, t.kind) {
                lemma_node1(toks, st1, "BoolLiteral"@, st.pos, lit);
            }
        } else if t.kind == Terminal::LParen {
            lemma_terminal(toks, st, Terminal::LParen);
            if let Ok((st1, lp)) = r_terminal(toks, st, Terminal::LParen) {
                if grown(toks, st, st1) {
                    lemma_bool_expr(toks, st1);
                    if let Ok((st2, e)) = r_bool_expr(toks, st1) {
                        lemma_terminal(toks, st2, Terminal::RParen);
                        if let Ok((st3, rp)) = r_terminal(toks, st2, Terminal::RParen) {
                            lemma_node3(
                                toks,
                                st3,
                                "GroupedBoolExpr"@,
                                st.pos,
                                st1,
                                lp,
                                st2,
                                e,
                                rp,
                            );
                        }
                    }
                }
            }
        } else if t.kind == Terminal::Id || t.kind == Terminal::Num {
            lemma_relation(toks, st);
        }
    }
}

proof fn lemma_relation(toks: Seq<TokenView>, st: RState)
    requires
        0 <= st.pos <= toks.len(),
    ensures
        spans(toks, st.pos, st, r_relation(toks, st)),
{
    if let Some(t) = look(toks, st.pos) {
        let left = if t.kind == Terminal::Id {
            lemma_variable(toks, st);
            r_variable(toks, st)
        } else if t.kind == Terminal::Num {
            lemma_terminal(toks, st, Terminal::Num);
            match r_terminal(toks, st, Terminal::Num) {
                Err(h) => Err(h),
                Ok((st1, num)) => {
                    lemma_node1(toks, st1, "Number"@, st.pos, num);
                    Ok(add_node(st1, "Number"@, seq![num]))
                },
            }
        } else {
            Err(Halt::Error(Seq::empty()))
        };
        if let Ok((st1, l)) = left {
            if let Some(t1) = look(toks, st1.pos) {
                if compares(t1.kind) {
                    lemma_terminal(toks, st1, t1.kind);
                    if let Ok((st2, op)) = r_terminal(toks, st1, t1.kind) {
                        lemma_expr(toks, st2);
                        if let Ok((st3, right)) = r_expr(toks, st2) {
                            lemma_node3(toks, st3, "Relation"@, st.pos, st1, l, st2, op, right);
                        }
                    }
                }
            }
        }
    }
}

/// Widening the bound past every index does not change a forest.
proof fn lemma_forest_bound(nodes: Seq<RdNodeView>, ids: Seq<usize>, b1: int, b2: int)
    requires
        b1 <= b2,
        forall|k: int| 0 <= k < ids.len() ==> (#[trigger] ids[k] as int) < b1,
    ensures
        forest(nodes, ids, b1) == forest(nodes, ids, b2),
    decreases ids.len(),
{
    if ids.len() > 0 {
        lemma_forest_bound(nodes, ids.drop_last(), b1, b2);
        assert(ids.last() == ids[ids.len() - 1]);
    }
}

proof fn lemma_stmt_list(toks: Seq<TokenView>, st: RState)
    requires
        0 <= st.pos <= toks.len(),
    ensures
        spans(toks, st.pos, st, r_stmt_list(toks, st)),
    decreases toks.len() - st.pos, 3int,
{
    let st0 = enter(st, "parse_stmt_list"@);
    lemma_statement(toks, st0);
    if let Ok((st1, first)) = r_statement(toks, st0) {
        if grown(toks, st, st1) {
            let items = seq![first];
            if st1.nodes.len() <= usize::MAX {
                let l1 = st1.nodes.len() as int;
                assert(items.drop_last() =~= Seq::<usize>::empty());
                assert(items.last() == first);
                assert(forest(st1.nodes, Seq::<usize>::empty(), l1) == Seq::<Seq<char>>::empty());
                assert(Seq::<Seq<char>>::empty() + leaves(st1.nodes, first as int) =~= leaves(
                    st1.nodes,
                    first as int,
                ));
                assert(forest(st1.nodes, items, st1.nodes.len() as int) == leaves(
                    st1.nodes,
                    first as int,
                ));
            }
            lemma_stmt_list_rest(toks, st.pos, st1, items);
        }
    }
}

proof fn lemma_stmt_list_rest(toks: Seq<TokenView>, a: int, st: RState, items: Seq<usize>)
    requires
        0 <= a <= st.pos <= toks.len(),
        items.len() >= 1,
        st.nodes.len() <= usize::MAX ==> {
            &&& forall|k: int| 0 <= k < items.len() ==> (#[trigger] items[k] as int) < st.nodes.len()
            &&& forest(st.nodes, items, st.nodes.len() as int) == texts(toks.subrange(a, st.pos))
        },
    ensures
        spans(toks, a, st, r_stmt_list_rest(toks, st, items)),
    decreases toks.len() - st.pos, 3int,
{
    if let Some(t) = look(toks, st.pos) {
        if starts_stmt(t.kind) {
            lemma_statement(toks, st);
            if let Ok((st1, s)) = r_statement(toks, st) {
                if grown(toks, st, st1) {
                    let more = items.push(s);
                    if st1.nodes.len() <= usize::MAX {
                        let l0 = st.nodes.len() as int;
                        let l1 = st1.nodes.len() as int;
                        assert(more.drop_last() =~= items);
                        assert(more.last() == s);
                        lemma_forest_bound(st1.nodes, items, l0, l1);
                        lemma_forest_prefix(st.nodes, st1.nodes, items, l0);
                        lemma_texts_concat(toks, a, st.pos, st1.pos);
                        assert forall|k: int| 0 <= k < more.len() implies (#[trigger] more[k] as int)
                            < l1 by {
                            if k < items.len() {
                                assert(more[k] == items[k]);
                            }
                        }
                    }
                    lemma_stmt_list_rest(toks, a, st1, more);
                }
            }
        } else {
            let (st1, id) = add_node(st, "StmtList"@, items);
            assert(prefix_of(st.nodes, st1.nodes));
            if st1.nodes.len() <= usize::MAX {
                lemma_forest_prefix(st.nodes, st1.nodes, items, st.nodes.len() as int);
            }
        }
    }
}

proof fn lemma_statement(toks: Seq<TokenView>, st: RState)
    requires
        0 <= st.pos <= toks.len(),
    ensures
        spans(toks, st.pos, st, r_statement(toks, st)),
    decreases toks.len() - st.pos, 2int,
{
    let st1 = enter(st, "parse_statement"@);
    if let Some(t) = look(toks, st1.pos) {
        if t.kind == Terminal::Let || t.kind == Terminal::Id {
            let simple = if t.kind == Terminal::Let {
                lemma_decl(toks, st1);
                r_decl(toks, st1)
            } else {
                lemma_assign(toks, st1);
                r_assign(toks, st1)
            };
            if let Ok((st2, s)) = simple {
                lemma_terminal(toks, st2, Terminal::Semicolon);
                if let Ok((st3, semi)) = r_terminal(toks, st2, Terminal::Semicolon) {
                    lemma_node2(toks, st3, "Statement"@, st.pos, st2, s, semi);
                }
            }
        } else if t.kind == Terminal::If || t.kind == Terminal::While || t.kind
            == Terminal::LBrace {
            let inner = if t.kind == Terminal::If {
                lemma_if(toks, st1);
                r_if(toks, st1)
            } else if t.kind == Terminal::While {
                lemma_while(toks, st1);
                r_while(toks, st1)
            } else {
                lemma_block(toks, st1);
                r_block(toks, st1)
            };
            if let Ok((st2, s)) = inner {
                lemma_node1(toks, st2, "Statement"@, st.pos, s);
            }
        }
    }
}

proof fn lemma_block(toks: Seq<TokenView>, st: RState)
    requires
        0 <= st.pos <= toks.len(),
    ensures
        spans(toks, st.pos, st, r_block(toks, st)),
    decreases toks.len() - st.pos, 1int,
{
    let st0 = enter(st, "parse_block"@);
    lemma_terminal(toks, st0, Terminal::LBrace);
    if let Ok((st1, lb)) = r_terminal(toks, st0, Terminal::LBrace) {
        if let Some(t) = look(toks, st1.pos) {
            let body = if starts_stmt(t.kind) {
                lemma_stmt_list(toks, st1);
                r_stmt_list(toks, st1)
            } else {
                lemma_epsilon(toks, st1);
                Ok(epsilon(st1))
            };
            if let Ok((st2, b)) = body {
                lemma_terminal(toks, st2, Terminal::RBrace);
                if let Ok((st3, rb)) = r_terminal(toks, st2, Terminal::RBrace) {
                    lemma_node3(toks, st3, "Block"@, st.pos, st1, lb, st2, b, rb);
                }
            }
        }
    }
}

proof fn lemma_decl(toks: Seq<TokenView>, st: RState)
    requires
        0 <= st.pos <= toks.len(),
    ensures
        spans(toks, st.pos, st, r_decl(toks, st)),
{
    let st0 = enter(st, "parse_decl_stmt"@);
    lemma_terminal(toks, st0, Terminal::Let);
    if let Ok((st1, kw)) = r_terminal(toks, st0, Terminal::Let) {
        lemma_variable(toks, st1);
        if let Ok((st2, var)) = r_variable(toks, st1) {
            if let Some(t) = look(toks, st2.pos) {
                if t.kind == Terminal::Assign {
                    lemma_terminal(toks, st2, Terminal::Assign);
                    if let Ok((st3, eq)) = r_terminal(toks, st2, Terminal::Assign) {
                        lemma_expr(toks, st3);
                        if let Ok((st4, e)) = r_expr(toks, st3) {
                            lemma_node4(toks, st4, "DeclStmt"@, st.pos, st1, kw, st2, var, st3, eq, e);
                        }
                    }
                } else {
                    lemma_epsilon(toks, st2);
                    let (st3, eps) = epsilon(st2);
                    lemma_node3(toks, st3, "DeclStmt"@, st.pos, st1, kw, st2, var, eps);
                }
            }
        }
    }
}

proof fn lemma_assign(toks: Seq<TokenView>, st: RState)
    requires
        0 <= st.pos <= toks.len(),
    ensures
        spans(toks, st.pos, st, r_assign(toks, st)),
{
    let st0 = enter(st, "parse_assign_stmt"@);
    lemma_variable(toks, st0);
    if let Ok((st1, var)) = r_variable(toks, st0) {
        lemma_terminal(toks, st1, Terminal::Assign);
        if let Ok((st2, eq)) = r_terminal(toks, st1, Terminal::Assign) {
            lemma_expr(toks, st2);
            if let Ok((st3, e)) = r_expr(toks, st2) {
                lemma_node3(toks, st3, "AssignStmt"@, st.pos, st1, var, st2, eq, e);
            }
        }
    }
}

proof fn lemma_if(toks: Seq<TokenView>, st: RState)
    requires
        0 <= st.pos <= toks.len(),
    ensures
        spans(toks, st.pos, st, r_if(toks, st)),
    decreases toks.len() - st.pos, 1int,
{
    let st0 = enter(st, "parse_if_stmt"@);
    lemma_terminal(toks, st0, Terminal::If);
    if let Ok((st1, kw)) = r_terminal(toks, st0, Terminal::If) {
        lemma_terminal(toks, st1, Terminal::LParen);
        if let Ok((st2, lp)) = r_terminal(toks, st1, Terminal::LParen) {
            lemma_bool_expr(toks, st2);
            if let Ok((st3, cond)) = r_bool_expr(toks, st2) {
                lemma_terminal(toks, st3, Terminal::RParen);
                if let Ok((st4, rp)) = r_terminal(toks, st3, Terminal::RParen) {
                    if grown(toks, st, st4) {
                        lemma_block(toks, st4);
                        if let Ok((st5, then_block)) = r_block(toks, st4) {
                            if let Some(t) = look(toks, st5.pos) {
                                if t.kind == Terminal::Else {
                                    lemma_terminal(toks, st5, Terminal::Else);
                                    if let Ok((st6, ekw)) = r_terminal(toks, st5, Terminal::Else) {
                                        if let Some(t2) = look(toks, st6.pos) {
                                            if grown(toks, st, st6) {
                                                let body = if t2.kind == Terminal::If {
                                                    lemma_if(toks, st6);
                                                    r_if(toks, st6)
                                                } else {
                                                    lemma_block(toks, st6);
                                                    r_block(toks, st6)
                                                };
                                                if let Ok((st7, b)) = body {
                                                    lemma_node7(
                                                        toks,
                                                        st7,
                                                        "IfStmt"@,
                                                        st.pos,
                                                        st1,
                                                        kw,
                                                        st2,
                                                        lp,
                                                        st3,
                                                        cond,
                                                        st4,
                                                        rp,
                                                        st5,
                                                        then_block,
                                                        st6,
                                                        ekw,
                                                        b,
                                                    );
                                                }
                                            }
                                        }
                                    }
                                } else {
                                    lemma_epsilon(toks, st5);
                                    let (st6, eps) = epsilon(st5);
                                    lemma_node6(
                                        toks,
                                        st6,
                                        "IfStmt"@,
                                        st.pos,
                                        st1,
                                        kw,
                                        st2,
                                        lp,
                                        st3,
                                        cond,
                                        st4,
                                        rp,
                                        st5,
                                        then_block,
                                        eps,
                                    );
                                }
                            }
                        }
                    }
                }
            }
        }
    }
}

proof fn lemma_while(toks: Seq<TokenView>, st: RState)
    requires
        0 <= st.pos <= toks.len(),
    ensures
        spans(toks, st.pos, st, r_while(toks, st)),
    decreases toks.len() - st.pos, 1int,
{
    let st0 = enter(st, "parse_while_stmt"@);
    lemma_terminal(toks, st0, Terminal::While);
    if let Ok((st1, kw)) = r_terminal(toks, st0, Terminal::While) {
        lemma_terminal(toks, st1, Terminal::LParen);
        if let Ok((st2, lp)) = r_terminal(toks, st1, Terminal::LParen) {
            lemma_bool_expr(toks, st2);
            if let Ok((st3, cond)) = r_bool_expr(toks, st2) {
                lemma_terminal(toks, st3, Terminal::RParen);
                if let Ok((st4, rp)) = r_terminal(toks, st3, Terminal::RParen) {
                    if grown(toks, st, st4) {
                        lemma_block(toks, st4);
                        if let Ok((st5, body)) = r_block(toks, st4) {
                            lemma_node5(
                                toks,
                                st5,
                                "WhileStmt"@,
                                st.pos,
                                st1,
                                kw,
                                st2,
                                lp,
                                st3,
                                cond,
                                st4,
                                rp,
                                body,
                            );
                        }
                    }
                }
            }
        }
    }
}

/// The tree of a successful recursive-descent parse spells its input: its
/// leaves, read left to right and the empty leaves `ε` left out, are the
/// kinds of the tokens before the end marker `#` that closed the parse
/// (for a tree whose node count fits in a `usize`).
pub proof fn lemma_tree_spells_tokens(toks: Seq<TokenView>)
    ensures
        spec_rd_parse(toks) matches Ok((root, nodes, trace)) ==> (nodes.len() <= usize::MAX ==> {
            let n = leaves(nodes, root as int).len() as int;
            &&& n < toks.len()
            &&& toks[n].kind == Terminal::End
            &&& leaves(nodes, root as int) == texts(toks.take(n))
        }),
{
    if toks.len() > 0 {
        let st = start_state();
        let st0 = enter(st, "parse_program"@);
        lemma_stmt_list(toks, st0);
        if let Ok((st1, list)) = r_stmt_list(toks, st0) {
            if let Some(t) = look(toks, st1.pos) {
                if t.kind == Terminal::End {
                    lemma_node1(toks, st1, "Program"@, 0, list);
                    let (st2, root) = add_node(st1, "Program"@, seq![list]);
                    assert(r_program(toks, st) == Ok::<(RState, usize), Halt>((st2, root)));
                    if st2.nodes.len() <= usize::MAX {
                        assert(toks.take(st1.pos) =~= toks.subrange(0, st1.pos));
                    }
                }
            }
        }
    }
}

} // verus!
