//! Every phrase that a translation step reads has balanced parentheses, and
//! the scan that tells a parenthesized operand from a parenthesized boolean
//! expression passes over such a phrase without stopping.
use vstd::prelude::*;
use crate::lexer::TokenView;
use crate::symbol::Terminal;
use crate::translation::{
    PState, advance, binop, emit, group_then_operator, is_arith_kind, is_relop_kind, new_temp,
    peek, s_and, s_and_loop, s_bool_atom, s_expr, s_expr_atom, s_expr_bp, s_expr_loop, s_not,
    s_or, s_or_loop, s_relation, s_relop,
};

verus! {

/// How a token changes the nesting depth of parentheses.
pub open spec fn paren_delta(k: Terminal) -> int {
    if k == Terminal::LParen {
        1
    } else if k == Terminal::RParen {
        -1
    } else {
        0
    }
}

/// The change of nesting depth over the tokens `i .. j`.
pub open spec fn depth_between(t: Seq<TokenView>, i: int, j: int) -> int
    decreases j - i,
{
    if j <= i {
        0
    } else {
        paren_delta(t[i].kind) + depth_between(t, i + 1, j)
    }
}

/// The tokens `i .. j` close every parenthesis they open, never one they
/// did not open, and hold no end marker.
pub open spec fn balanced(t: Seq<TokenView>, i: int, j: int) -> bool {
    &&& 0 <= i <= j <= t.len()
    &&& depth_between(t, i, j) == 0
    &&& forall|m: int| i <= m <= j ==> #[trigger] depth_between(t, i, m) >= 0
    &&& forall|m: int| i <= m < j ==> (#[trigger] t[m]).kind != Terminal::End
}

pub(crate) proof fn lemma_depth_split(t: Seq<TokenView>, i: int, j: int, m: int)
    requires
        i <= j <= m,
    ensures
        depth_between(t, i, m) == depth_between(t, i, j) + depth_between(t, j, m),
    decreases j - i,
{
    if i < j {
        lemma_depth_split(t, i + 1, j, m);
    }
}

pub(crate) proof fn lemma_concat(t: Seq<TokenView>, i: int, j: int, m: int)
    requires
        balanced(t, i, j),
        balanced(t, j, m),
    ensures
        balanced(t, i, m),
{
    lemma_depth_split(t, i, j, m);
    assert forall|k: int| i <= k <= m implies #[trigger] depth_between(t, i, k) >= 0 by {
        if k > j {
            lemma_depth_split(t, i, j, k);
            assert(depth_between(t, j, k) >= 0);
        }
    }
}

pub(crate) proof fn lemma_single(t: Seq<TokenView>, i: int)
    requires
        0 <= i < t.len(),
        t[i].kind != Terminal::LParen,
        t[i].kind != Terminal::RParen,
        t[i].kind != Terminal::End,
    ensures
        balanced(t, i, i + 1),
{
    assert(depth_between(t, i, i) == 0);
    assert(depth_between(t, i + 1, i + 1) == 0);
    assert(depth_between(t, i, i + 1) == 0);
}

pub(crate) proof fn lemma_empty(t: Seq<TokenView>, i: int)
    requires
        0 <= i <= t.len(),
    ensures
        balanced(t, i, i),
{
    assert(depth_between(t, i, i) == 0);
}

pub(crate) proof fn lemma_wrap(t: Seq<TokenView>, i: int, j: int)
    requires
        0 <= i,
        j < t.len(),
        t[i].kind == Terminal::LParen,
        balanced(t, i + 1, j),
        t[j].kind == Terminal::RParen,
    ensures
        balanced(t, i, j + 1),
{
    lemma_depth_split(t, i + 1, j, j + 1);
    assert(depth_between(t, j + 1, j + 1) == 0);
    assert forall|k: int| i <= k <= j + 1 implies #[trigger] depth_between(t, i, k) >= 0 by {
        if k == j + 1 {
        } else if k > i {
            assert(depth_between(t, i + 1, k) >= 0);
        } else {
            assert(depth_between(t, i, i) == 0);
        }
    }
}

pub(crate) proof fn lemma_expr_atom_balanced(t: Seq<TokenView>, st: PState)
    requires
        0 <= st.pos <= t.len(),
        s_expr_atom(t, st) is Ok,
    ensures
        balanced(t, st.pos, s_expr_atom(t, st)->Ok_0.0.pos),
    decreases t.len() - st.pos, 1int,
{
    let tok = peek(t, st.pos)->Ok_0;
    if tok.kind == Terminal::LParen {
        lemma_bp_balanced(t, advance(st), 0);
        let st2 = s_expr(t, advance(st))->Ok_0.0;
        lemma_wrap(t, st.pos, st2.pos);
    } else {
        lemma_single(t, st.pos);
    }
}

pub(crate) proof fn lemma_bp_balanced(t: Seq<TokenView>, st: PState, min_bp: u8)
    requires
        0 <= st.pos <= t.len(),
        s_expr_bp(t, st, min_bp) is Ok,
    ensures
        balanced(t, st.pos, s_expr_bp(t, st, min_bp)->Ok_0.0.pos),
    decreases t.len() - st.pos, 2int,
{
    lemma_expr_atom_balanced(t, st);
    let (st1, left) = s_expr_atom(t, st)->Ok_0;
    lemma_expr_loop_balanced(t, st1, left, min_bp);
    lemma_concat(t, st.pos, st1.pos, s_expr_bp(t, st, min_bp)->Ok_0.0.pos);
}

pub(crate) proof fn lemma_expr_loop_balanced(
    t: Seq<TokenView>,
    st: PState,
    left: crate::codegen::OperandView,
    min_bp: u8,
)
    requires
        0 <= st.pos <= t.len(),
        s_expr_loop(t, st, left, min_bp) is Ok,
    ensures
        balanced(t, st.pos, s_expr_loop(t, st, left, min_bp)->Ok_0.0.pos),
    decreases t.len() - st.pos, 0int,
{
    let tok = peek(t, st.pos)->Ok_0;
    if let Some((lbp, rbp, op)) = binop(tok.kind) {
        if lbp >= min_bp {
            let st1 = advance(st);
            lemma_single(t, st.pos);
            lemma_bp_balanced(t, st1, rbp);
            let (st2, right) = s_expr_bp(t, st1, rbp)->Ok_0;
            let (st3, temp) = new_temp(st2);
            let (st4, _) = emit(st3, crate::codegen::QuadView::Binary { op, left, right, dest: temp });
            lemma_expr_loop_balanced(t, st4, temp, min_bp);
            let end = s_expr_loop(t, st, left, min_bp)->Ok_0.0.pos;
            lemma_concat(t, st.pos, st1.pos, st2.pos);
            lemma_concat(t, st.pos, st2.pos, end);
        } else {
            lemma_empty(t, st.pos);
        }
    } else {
        lemma_empty(t, st.pos);
    }
}

pub(crate) proof fn lemma_relation_balanced(t: Seq<TokenView>, st: PState)
    requires
        0 <= st.pos <= t.len(),
        s_relation(t, st) is Ok,
    ensures
        balanced(t, st.pos, s_relation(t, st)->Ok_0.0.pos),
{
    lemma_bp_balanced(t, st, 0);
    let st1 = s_expr(t, st)->Ok_0.0;
    lemma_single(t, st1.pos);
    let st2 = s_relop(t, st1)->Ok_0.0;
    lemma_bp_balanced(t, st2, 0);
    let st3 = s_expr(t, st2)->Ok_0.0;
    lemma_concat(t, st.pos, st1.pos, st2.pos);
    lemma_concat(t, st.pos, st2.pos, st3.pos);
}

pub(crate) proof fn lemma_bool_atom_balanced(t: Seq<TokenView>, st: PState)
    requires
        0 <= st.pos <= t.len(),
        s_bool_atom(t, st) is Ok,
    ensures
        balanced(t, st.pos, s_bool_atom(t, st)->Ok_0.0.pos),
    decreases t.len() - st.pos, 2int,
{
    let tok = peek(t, st.pos)->Ok_0;
    if tok.kind == Terminal::True || tok.kind == Terminal::False {
        lemma_single(t, st.pos);
    } else if tok.kind == Terminal::LParen && !group_then_operator(t, st.pos, 0) {
        lemma_or_balanced(t, advance(st));
        let st1 = s_or(t, advance(st))->Ok_0.0;
        lemma_wrap(t, st.pos, st1.pos);
    } else {
        lemma_relation_balanced(t, st);
    }
}

pub(crate) proof fn lemma_not_balanced(t: Seq<TokenView>, st: PState)
    requires
        0 <= st.pos <= t.len(),
        s_not(t, st) is Ok,
    ensures
        balanced(t, st.pos, s_not(t, st)->Ok_0.0.pos),
    decreases t.len() - st.pos, 3int,
{
    let tok = peek(t, st.pos)->Ok_0;
    if tok.kind == Terminal::Not {
        lemma_single(t, st.pos);
        lemma_not_balanced(t, advance(st));
        lemma_concat(t, st.pos, st.pos + 1, s_not(t, st)->Ok_0.0.pos);
    } else {
        lemma_bool_atom_balanced(t, st);
    }
}

pub(crate) proof fn lemma_and_balanced(t: Seq<TokenView>, st: PState)
    requires
        0 <= st.pos <= t.len(),
        s_and(t, st) is Ok,
    ensures
        balanced(t, st.pos, s_and(t, st)->Ok_0.0.pos),
    decreases t.len() - st.pos, 4int,
{
    lemma_not_balanced(t, st);
    let (st1, left) = s_not(t, st)->Ok_0;
    lemma_and_loop_balanced(t, st1, left);
    lemma_concat(t, st.pos, st1.pos, s_and(t, st)->Ok_0.0.pos);
}

pub(crate) proof fn lemma_and_loop_balanced(
    t: Seq<TokenView>,
    st: PState,
    left: crate::codegen::BoolAttrView,
)
    requires
        0 <= st.pos <= t.len(),
        s_and_loop(t, st, left) is Ok,
    ensures
        balanced(t, st.pos, s_and_loop(t, st, left)->Ok_0.0.pos),
    decreases t.len() - st.pos, 0int,
{
    let tok = peek(t, st.pos)->Ok_0;
    if tok.kind == Terminal::And {
        let st1 = advance(st);
        lemma_single(t, st.pos);
        let st2 = crate::translation::backpatch(
            st1,
            left.tc,
            crate::translation::next_quad(st1),
        )->Ok_0;
        lemma_not_balanced(t, st2);
        let (st3, right) = s_not(t, st2)->Ok_0;
        lemma_and_loop_balanced(
            t,
            st3,
            crate::codegen::BoolAttrView { tc: right.tc, fc: left.fc + right.fc },
        );
        lemma_concat(t, st.pos, st1.pos, st3.pos);
        lemma_concat(t, st.pos, st3.pos, s_and_loop(t, st, left)->Ok_0.0.pos);
    } else {
        lemma_empty(t, st.pos);
    }
}

pub(crate) proof fn lemma_or_balanced(t: Seq<TokenView>, st: PState)
    requires
        0 <= st.pos <= t.len(),
        s_or(t, st) is Ok,
    ensures
        balanced(t, st.pos, s_or(t, st)->Ok_0.0.pos),
    decreases t.len() - st.pos, 5int,
{
    lemma_and_balanced(t, st);
    let (st1, left) = s_and(t, st)->Ok_0;
    lemma_or_loop_balanced(t, st1, left);
    lemma_concat(t, st.pos, st1.pos, s_or(t, st)->Ok_0.0.pos);
}

pub(crate) proof fn lemma_or_loop_balanced(
    t: Seq<TokenView>,
    st: PState,
    left: crate::codegen::BoolAttrView,
)
    requires
        0 <= st.pos <= t.len(),
        s_or_loop(t, st, left) is Ok,
    ensures
        balanced(t, st.pos, s_or_loop(t, st, left)->Ok_0.0.pos),
    decreases t.len() - st.pos, 0int,
{
    let tok = peek(t, st.pos)->Ok_0;
    if tok.kind == Terminal::Or {
        let st1 = advance(st);
        lemma_single(t, st.pos);
        let st2 = crate::translation::backpatch(
            st1,
            left.fc,
            crate::translation::next_quad(st1),
        )->Ok_0;
        lemma_and_balanced(t, st2);
        let (st3, right) = s_and(t, st2)->Ok_0;
        lemma_or_loop_balanced(
            t,
            st3,
            crate::codegen::BoolAttrView { tc: left.tc + right.tc, fc: right.fc },
        );
        lemma_concat(t, st.pos, st1.pos, st3.pos);
        lemma_concat(t, st.pos, st3.pos, s_or_loop(t, st, left)->Ok_0.0.pos);
    } else {
        lemma_empty(t, st.pos);
    }
}

/// Scanning from depth `k >= 1` over tokens `i .. j` that never close the
/// scan's own group and hold no end marker, the scan goes on at `j`.
pub(crate) proof fn lemma_gto_skip(t: Seq<TokenView>, i: int, j: int, k: nat)
    requires
        0 <= i <= j <= t.len(),
        k >= 1,
        forall|m: int| i <= m <= j ==> k + #[trigger] depth_between(t, i, m) >= 1,
        forall|m: int| i <= m < j ==> (#[trigger] t[m]).kind != Terminal::End,
    ensures
        group_then_operator(t, i, k) == group_then_operator(t, j, (k + depth_between(t, i, j)) as nat),
    decreases j - i,
{
    if i < j {
        let kind = t[i].kind;
        assert(kind != Terminal::End);
        assert(k + depth_between(t, i, i + 1) >= 1);
        assert(depth_between(t, i + 1, i + 1) == 0);
        let k2: nat = (k + paren_delta(kind)) as nat;
        assert forall|m: int| i + 1 <= m <= j implies k2 + #[trigger] depth_between(t, i + 1, m) >= 1 by {
            assert(k + depth_between(t, i, m) >= 1);
        }
        lemma_gto_skip(t, i + 1, j, k2);
    }
}


/// A parenthesis group at `st` that a boolean operand reads, either as a
/// parenthesized boolean expression or as the first operand of a relation,
/// is closed at some `j`; the scan from `st` decides by the token after `j`.
pub(crate) proof fn lemma_group_close(t: Seq<TokenView>, st: PState) -> (j: int)
    requires
        0 <= st.pos < t.len(),
        t[st.pos].kind == Terminal::LParen,
        s_bool_atom(t, st) is Ok,
    ensures
        st.pos < j < t.len(),
        t[j].kind == Terminal::RParen,
        balanced(t, st.pos + 1, j),
        group_then_operator(t, st.pos, 0) == (j + 1 < t.len() && (is_relop_kind(t[j + 1].kind)
            || is_arith_kind(t[j + 1].kind))),
{
    let j: int = if !group_then_operator(t, st.pos, 0) {
        lemma_or_balanced(t, advance(st));
        s_or(t, advance(st))->Ok_0.0.pos
    } else {
        lemma_bp_balanced(t, advance(st), 0);
        s_expr(t, advance(st))->Ok_0.0.pos
    };
    lemma_gto_skip(t, st.pos + 1, j, 1);
    j
}

} // verus!
