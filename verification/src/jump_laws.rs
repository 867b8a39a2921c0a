//! Where the jumps of a translation go and what they compare: a `while`
//! loop's closing jump goes back to the loop's first quadruple, and the
//! conditional jump of a comparison carries the comparison's own operator.
use vstd::prelude::*;
use crate::code_shift::lemma_backpatch_len;
use crate::codegen::{
    BoolAttrView, JumpTarget, OperandView, QuadView, all_jumps, in_chain, lemma_backpatch_quads,
    patched,
};
use crate::lexer::TokenView;
use crate::symbol::Terminal;
use crate::translation::{
    PState, advance, backpatch, binop, emit, expect, group_then_operator, new_temp, next_quad,
    peek, s_and, s_and_loop, s_assignment_core, s_assignment_stmt, s_block, s_bool_atom, s_expr,
    s_expr_atom, s_expr_bp, s_expr_loop, s_if, s_not, s_or, s_or_loop, s_relation, s_relop,
    s_stmt, s_stmt_list, s_while, single,
};

verus! {

/// From `a` to `b` the reading went no backwards and the quadruples did not
/// shrink.
pub open spec fn no_shrink(a: PState, b: PState) -> bool {
    a.pos <= b.pos && a.cg.quads.len() <= b.cg.quads.len()
}

/// Every entry of both chains is an index emitted between `a` and `b`.
pub open spec fn chains_between(x: BoolAttrView, a: PState, b: PState) -> bool {
    &&& forall|k: int| 0 <= k < x.tc.len() ==> a.cg.quads.len() <= #[trigger] x.tc[k] < b.cg.quads.len()
    &&& forall|k: int| 0 <= k < x.fc.len() ==> a.cg.quads.len() <= #[trigger] x.fc[k] < b.cg.quads.len()
}

/// A comparison operator token.
pub open spec fn comparison(k: Terminal) -> bool {
    k == Terminal::Eq || k == Terminal::Ne || k == Terminal::Lt || k == Terminal::Le || k
        == Terminal::Gt || k == Terminal::Ge
}

/// The operator of a conditional jump.
pub open spec fn relop_of(q: QuadView) -> Option<Seq<char>> {
    match q {
        QuadView::JumpIf { relop, .. } => Some(relop),
        _ => None,
    }
}

proof fn lemma_emit_index(st: PState, q: QuadView)
    ensures
        emit(st, q).0.cg.quads.len() == st.cg.quads.len() + 1,
        emit(st, q).1 == st.cg.quads.len() as usize,
        emit(st, q).0.cg.quads[st.cg.quads.len() as int] == q,
{
}

proof fn lemma_backpatch_keeps_len(st: PState, list: Seq<usize>, target: usize)
    requires
        backpatch(st, list, target) is Ok,
    ensures
        backpatch(st, list, target)->Ok_0.cg.quads.len() == st.cg.quads.len(),
        backpatch(st, list, target)->Ok_0.pos == st.pos,
{
    lemma_backpatch_len(st.cg.quads, list, target);
}

proof fn lemma_atom_grows(t: Seq<TokenView>, st: PState)
    requires
        s_expr_atom(t, st) is Ok,
    ensures
        no_shrink(st, s_expr_atom(t, st)->Ok_0.0),
    decreases t.len() - st.pos, 1int,
{
    let tok = peek(t, st.pos)->Ok_0;
    if tok.kind == Terminal::LParen {
        lemma_bp_grows(t, advance(st), 0);
    }
}

proof fn lemma_bp_grows(t: Seq<TokenView>, st: PState, m: u8)
    requires
        s_expr_bp(t, st, m) is Ok,
    ensures
        no_shrink(st, s_expr_bp(t, st, m)->Ok_0.0),
    decreases t.len() - st.pos, 2int,
{
    lemma_atom_grows(t, st);
    let (s1, l) = s_expr_atom(t, st)->Ok_0;
    lemma_loop_grows(t, s1, l, m);
}

proof fn lemma_loop_grows(t: Seq<TokenView>, st: PState, left: OperandView, m: u8)
    requires
        s_expr_loop(t, st, left, m) is Ok,
    ensures
        no_shrink(st, s_expr_loop(t, st, left, m)->Ok_0.0),
    decreases t.len() - st.pos, 0int,
{
    let tok = peek(t, st.pos)->Ok_0;
    if let Some((lbp, rbp, op)) = binop(tok.kind) {
        if lbp >= m {
            lemma_bp_grows(t, advance(st), rbp);
            let (st2, right) = s_expr_bp(t, advance(st), rbp)->Ok_0;
            let (st3, temp) = new_temp(st2);
            let (st4, _) = emit(st3, QuadView::Binary { op, left, right, dest: temp });
            lemma_loop_grows(t, st4, temp, m);
        }
    }
}

proof fn lemma_relation_bounds(t: Seq<TokenView>, st: PState)
    requires
        s_relation(t, st) is Ok,
    ensures
        no_shrink(st, s_relation(t, st)->Ok_0.0),
        s_relation(t, st)->Ok_0.0.cg.quads.len() <= usize::MAX ==> chains_between(
            s_relation(t, st)->Ok_0.1,
            st,
            s_relation(t, st)->Ok_0.0,
        ),
{
    lemma_bp_grows(t, st, 0);
    let st1 = s_expr(t, st)->Ok_0.0;
    let st2 = s_relop(t, st1)->Ok_0.0;
    lemma_bp_grows(t, st2, 0);
}

proof fn lemma_bool_atom_bounds(t: Seq<TokenView>, st: PState)
    requires
        s_bool_atom(t, st) is Ok,
    ensures
        no_shrink(st, s_bool_atom(t, st)->Ok_0.0),
        s_bool_atom(t, st)->Ok_0.0.cg.quads.len() <= usize::MAX ==> chains_between(
            s_bool_atom(t, st)->Ok_0.1,
            st,
            s_bool_atom(t, st)->Ok_0.0,
        ),
    decreases t.len() - st.pos, 2int,
{
    let tok = peek(t, st.pos)->Ok_0;
    if tok.kind == Terminal::True || tok.kind == Terminal::False {
    } else if tok.kind == Terminal::LParen && !group_then_operator(t, st.pos, 0) {
        lemma_or_bounds(t, advance(st));
    } else {
        lemma_relation_bounds(t, st);
    }
}

proof fn lemma_not_bounds(t: Seq<TokenView>, st: PState)
    requires
        s_not(t, st) is Ok,
    ensures
        no_shrink(st, s_not(t, st)->Ok_0.0),
        s_not(t, st)->Ok_0.0.cg.quads.len() <= usize::MAX ==> chains_between(
            s_not(t, st)->Ok_0.1,
            st,
            s_not(t, st)->Ok_0.0,
        ),
    decreases t.len() - st.pos, 3int,
{
    let tok = peek(t, st.pos)->Ok_0;
    if tok.kind == Terminal::Not {
        lemma_not_bounds(t, advance(st));
    } else {
        lemma_bool_atom_bounds(t, st);
    }
}

proof fn lemma_and_bounds(t: Seq<TokenView>, st: PState)
    requires
        s_and(t, st) is Ok,
    ensures
        no_shrink(st, s_and(t, st)->Ok_0.0),
        s_and(t, st)->Ok_0.0.cg.quads.len() <= usize::MAX ==> chains_between(
            s_and(t, st)->Ok_0.1,
            st,
            s_and(t, st)->Ok_0.0,
        ),
    decreases t.len() - st.pos, 4int,
{
    lemma_not_bounds(t, st);
    let (st1, left) = s_not(t, st)->Ok_0;
    lemma_and_loop_bounds(t, st1, left, st);
}

proof fn lemma_and_loop_bounds(t: Seq<TokenView>, st: PState, left: BoolAttrView, base: PState)
    requires
        s_and_loop(t, st, left) is Ok,
        no_shrink(base, st),
        st.cg.quads.len() <= usize::MAX ==> chains_between(left, base, st),
    ensures
        no_shrink(st, s_and_loop(t, st, left)->Ok_0.0),
        s_and_loop(t, st, left)->Ok_0.0.cg.quads.len() <= usize::MAX ==> chains_between(
            s_and_loop(t, st, left)->Ok_0.1,
            base,
            s_and_loop(t, st, left)->Ok_0.0,
        ),
    decreases t.len() - st.pos, 0int,
{
    let tok = peek(t, st.pos)->Ok_0;
    if tok.kind == Terminal::And {
        let st1 = advance(st);
        lemma_backpatch_keeps_len(st1, left.tc, next_quad(st1));
        let st2 = backpatch(st1, left.tc, next_quad(st1))->Ok_0;
        lemma_not_bounds(t, st2);
        let (st3, right) = s_not(t, st2)->Ok_0;
        let nl = BoolAttrView { tc: right.tc, fc: left.fc + right.fc };
        if st3.cg.quads.len() <= usize::MAX {
            assert(chains_between(nl, base, st3)) by {
                assert forall|k: int| 0 <= k < nl.fc.len() implies base.cg.quads.len() <= #[trigger] nl.fc[k] < st3.cg.quads.len() by {
                    if k < left.fc.len() {
                        assert(nl.fc[k] == left.fc[k]);
                    } else {
                        assert(nl.fc[k] == right.fc[k - left.fc.len()]);
                    }
                }
            }
        }
        lemma_and_loop_bounds(t, st3, nl, base);
    }
}

proof fn lemma_or_bounds(t: Seq<TokenView>, st: PState)
    requires
        s_or(t, st) is Ok,
    ensures
        no_shrink(st, s_or(t, st)->Ok_0.0),
        s_or(t, st)->Ok_0.0.cg.quads.len() <= usize::MAX ==> chains_between(
            s_or(t, st)->Ok_0.1,
            st,
            s_or(t, st)->Ok_0.0,
        ),
    decreases t.len() - st.pos, 5int,
{
    lemma_and_bounds(t, st);
    let (st1, left) = s_and(t, st)->Ok_0;
    lemma_or_loop_bounds(t, st1, left, st);
}

proof fn lemma_or_loop_bounds(t: Seq<TokenView>, st: PState, left: BoolAttrView, base: PState)
    requires
        s_or_loop(t, st, left) is Ok,
        no_shrink(base, st),
        st.cg.quads.len() <= usize::MAX ==> chains_between(left, base, st),
    ensures
        no_shrink(st, s_or_loop(t, st, left)->Ok_0.0),
        s_or_loop(t, st, left)->Ok_0.0.cg.quads.len() <= usize::MAX ==> chains_between(
            s_or_loop(t, st, left)->Ok_0.1,
            base,
            s_or_loop(t, st, left)->Ok_0.0,
        ),
    decreases t.len() - st.pos, 0int,
{
    let tok = peek(t, st.pos)->Ok_0;
    if tok.kind == Terminal::Or {
        let st1 = advance(st);
        lemma_backpatch_keeps_len(st1, left.fc, next_quad(st1));
        let st2 = backpatch(st1, left.fc, next_quad(st1))->Ok_0;
        lemma_and_bounds(t, st2);
        let (st3, right) = s_and(t, st2)->Ok_0;
        let nl = BoolAttrView { tc: left.tc + right.tc, fc: right.fc };
        if st3.cg.quads.len() <= usize::MAX {
            assert(chains_between(nl, base, st3)) by {
                assert forall|k: int| 0 <= k < nl.tc.len() implies base.cg.quads.len() <= #[trigger] nl.tc[k] < st3.cg.quads.len() by {
                    if k < left.tc.len() {
                        assert(nl.tc[k] == left.tc[k]);
                    } else {
                        assert(nl.tc[k] == right.tc[k - left.tc.len()]);
                    }
                }
            }
        }
        lemma_or_loop_bounds(t, st3, nl, base);
    }
}

proof fn lemma_assignment_grows(t: Seq<TokenView>, st: PState)
    requires
        s_assignment_stmt(t, st) is Ok,
    ensures
        no_shrink(st, s_assignment_stmt(t, st)->Ok_0),
{
    let st1 = expect(t, st, Terminal::Id)->Ok_0.0;
    let st2 = expect(t, st1, Terminal::Assign)->Ok_0.0;
    lemma_bp_grows(t, st2, 0);
}

proof fn lemma_stmt_list_grows(t: Seq<TokenView>, st: PState)
    requires
        s_stmt_list(t, st) is Ok,
    ensures
        no_shrink(st, s_stmt_list(t, st)->Ok_0),
    decreases t.len() - st.pos, 3int,
{
    if crate::translation::can_start_stmt(t, st.pos) {
        lemma_stmt_grows(t, st);
        let st1 = s_stmt(t, st)->Ok_0;
        if crate::translation::progressed(t, st, st1) {
            lemma_stmt_list_grows(t, st1);
        }
    }
}

proof fn lemma_stmt_grows(t: Seq<TokenView>, st: PState)
    requires
        s_stmt(t, st) is Ok,
    ensures
        no_shrink(st, s_stmt(t, st)->Ok_0),
    decreases t.len() - st.pos, 2int,
{
    let tok = peek(t, st.pos)->Ok_0;
    if tok.kind == Terminal::Id {
        lemma_assignment_grows(t, st);
    } else if tok.kind == Terminal::LBrace {
        lemma_block_grows(t, st);
    } else if tok.kind == Terminal::If {
        lemma_if_grows(t, st);
    } else {
        lemma_while_grows(t, st);
    }
}

proof fn lemma_block_grows(t: Seq<TokenView>, st: PState)
    requires
        s_block(t, st) is Ok,
    ensures
        no_shrink(st, s_block(t, st)->Ok_0),
    decreases t.len() - st.pos, 1int,
{
    let st1 = expect(t, st, Terminal::LBrace)->Ok_0.0;
    lemma_stmt_list_grows(t, st1);
}

proof fn lemma_if_grows(t: Seq<TokenView>, st: PState)
    requires
        s_if(t, st) is Ok,
    ensures
        no_shrink(st, s_if(t, st)->Ok_0),
    decreases t.len() - st.pos, 1int,
{
    let st1 = expect(t, st, Terminal::If)->Ok_0.0;
    let st2 = expect(t, st1, Terminal::LParen)->Ok_0.0;
    lemma_or_bounds(t, st2);
    let (st3, attr) = s_or(t, st2)->Ok_0;
    let st4 = expect(t, st3, Terminal::RParen)->Ok_0.0;
    lemma_backpatch_keeps_len(st4, attr.tc, next_quad(st4));
    let st5 = backpatch(st4, attr.tc, next_quad(st4))->Ok_0;
    lemma_block_grows(t, st5);
    let st6 = s_block(t, st5)->Ok_0;
    let tok = peek(t, st6.pos)->Ok_0;
    if tok.kind == Terminal::Else {
        let (st7, jump) = emit(st6, QuadView::Jump { target: JumpTarget::Pending });
        let st8 = advance(st7);
        lemma_backpatch_keeps_len(st8, attr.fc, next_quad(st8));
        let st9 = backpatch(st8, attr.fc, next_quad(st8))->Ok_0;
        lemma_block_grows(t, st9);
        let st10 = s_block(t, st9)->Ok_0;
        lemma_backpatch_keeps_len(st10, single(jump), next_quad(st10));
    } else {
        lemma_backpatch_keeps_len(st6, attr.fc, next_quad(st6));
    }
}

proof fn lemma_while_grows(t: Seq<TokenView>, st: PState)
    requires
        s_while(t, st) is Ok,
    ensures
        no_shrink(st, s_while(t, st)->Ok_0),
    decreases t.len() - st.pos, 1int,
{
    let st1 = expect(t, st, Terminal::While)->Ok_0.0;
    let st2 = expect(t, st1, Terminal::LParen)->Ok_0.0;
    lemma_or_bounds(t, st2);
    let (st3, attr) = s_or(t, st2)->Ok_0;
    let st4 = expect(t, st3, Terminal::RParen)->Ok_0.0;
    lemma_backpatch_keeps_len(st4, attr.tc, next_quad(st4));
    let st5 = backpatch(st4, attr.tc, next_quad(st4))->Ok_0;
    lemma_block_grows(t, st5);
    let st6 = s_block(t, st5)->Ok_0;
    let j = QuadView::Jump { target: JumpTarget::Target(next_quad(st2)) };
    let st7 = emit(st6, j).0;
    lemma_backpatch_keeps_len(st7, attr.fc, next_quad(st7));
}

/// A `while` loop's code ends with an unconditional jump back to the loop's
/// first quadruple (the first of its condition): wherever the loop stands,
/// the jump targets the number of quadruples emitted before it.
pub proof fn lemma_while_jumps_back(t: Seq<TokenView>, st: PState)
    requires
        s_while(t, st) is Ok,
        s_while(t, st)->Ok_0.cg.quads.len() <= usize::MAX,
    ensures
        ({
            let r = s_while(t, st)->Ok_0;
            &&& st.cg.quads.len() < r.cg.quads.len()
            &&& r.cg.quads.last() == QuadView::Jump {
                target: JumpTarget::Target(st.cg.quads.len() as usize),
            }
        }),
{
    let st1 = expect(t, st, Terminal::While)->Ok_0.0;
    let st2 = expect(t, st1, Terminal::LParen)->Ok_0.0;
    lemma_or_bounds(t, st2);
    let (st3, attr) = s_or(t, st2)->Ok_0;
    let st4 = expect(t, st3, Terminal::RParen)->Ok_0.0;
    lemma_backpatch_keeps_len(st4, attr.tc, next_quad(st4));
    let st5 = backpatch(st4, attr.tc, next_quad(st4))->Ok_0;
    lemma_block_grows(t, st5);
    let st6 = s_block(t, st5)->Ok_0;
    let j = QuadView::Jump { target: JumpTarget::Target(next_quad(st2)) };
    let st7 = emit(st6, j).0;
    lemma_emit_index(st6, j);
    let c = st6.cg.quads.len() as int;
    let target = next_quad(st7);
    lemma_backpatch_quads(st7.cg.quads, attr.fc, target);
    assert(!in_chain(attr.fc, c)) by {
        if in_chain(attr.fc, c) {
            let k = choose|k: int| 0 <= k < attr.fc.len() && attr.fc[k] as int == c;
            assert(attr.fc[k] < st3.cg.quads.len());
        }
    }
    let st8 = backpatch(st7, attr.fc, target)->Ok_0;
    assert(st8.cg.quads == patched(st7.cg.quads, attr.fc, target));
    assert(st8.cg.quads[c] == j);
}

/// The conditional jump of a comparison `E1 relop E2` is the comparison's
/// next to last quadruple, and its operator is the text of the one
/// comparison token the phrase holds.
pub proof fn lemma_relation_operator(t: Seq<TokenView>, st: PState)
    requires
        s_relation(t, st) is Ok,
    ensures
        ({
            let r = s_relation(t, st)->Ok_0.0;
            let n = r.cg.quads.len();
            &&& n >= 2
            &&& exists|k: int|
                st.pos <= k < r.pos && comparison(#[trigger] t[k].kind) && relop_of(r.cg.quads[n - 2])
                    == Some(t[k].lexeme)
        }),
{
    let (st1, left) = s_expr(t, st)->Ok_0;
    let k = st1.pos;
    lemma_bp_grows(t, st, 0);
    let (st2, relop) = s_relop(t, st1)->Ok_0;
    let (st3, right) = s_expr(t, st2)->Ok_0;
    lemma_bp_grows(t, st2, 0);
    let r = s_relation(t, st)->Ok_0.0;
    let n = r.cg.quads.len();
    assert(comparison(t[k].kind) && relop_of(r.cg.quads[n - 2]) == Some(t[k].lexeme));
}

} // verus!
