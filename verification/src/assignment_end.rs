//! An assignment reads its tokens only as far as it goes: the translation
//! does not depend on what follows the place where it stops, so the closing
//! `;` of a single assignment is optional.
use vstd::prelude::*;
use crate::lexer::TokenView;
use crate::symbol::Terminal;
use crate::translation::{
    PState, binop, s_assignment_core, s_expr, s_expr_atom, s_expr_bp, s_expr_loop,
    spec_parse_assignment,
};

verus! {

/// A token kind that no step of an expression or an assignment can use:
/// not an operator, an operand, a parenthesis, `=` or a variable.
pub open spec fn stop_kind(k: Terminal) -> bool {
    &&& binop(k) is None
    &&& k != Terminal::Id
    &&& k != Terminal::Num
    &&& k != Terminal::LParen
    &&& k != Terminal::RParen
    &&& k != Terminal::Assign
}

/// `t1` and `t2` hold the same tokens before index `n`, and at `n` each
/// holds a token of a kind that stops an expression.
pub open spec fn agree_before(t1: Seq<TokenView>, t2: Seq<TokenView>, n: int) -> bool {
    &&& 0 <= n < t1.len()
    &&& n < t2.len()
    &&& forall|i: int| 0 <= i < n ==> #[trigger] t1[i] == t2[i]
    &&& stop_kind(t1[n].kind)
    &&& stop_kind(t2[n].kind)
}

proof fn lemma_atom_agree(t1: Seq<TokenView>, t2: Seq<TokenView>, n: int, st: PState)
    requires
        agree_before(t1, t2, n),
        0 <= st.pos <= n,
        s_expr_atom(t1, st) is Ok,
    ensures
        s_expr_atom(t2, st) == s_expr_atom(t1, st),
        s_expr_atom(t1, st)->Ok_0.0.pos <= n,
    decreases t1.len() - st.pos, 1int,
{
    if st.pos < n {
        assert(t1[st.pos] == t2[st.pos]);
        let t = t1[st.pos];
        if t.kind == Terminal::LParen {
            let st1 = crate::translation::advance(st);
            lemma_bp_agree(t1, t2, n, st1, 0);
            let st2 = s_expr(t1, st1)->Ok_0.0;
            if st2.pos < n {
                assert(t1[st2.pos] == t2[st2.pos]);
            }
        }
    }
}

proof fn lemma_bp_agree(t1: Seq<TokenView>, t2: Seq<TokenView>, n: int, st: PState, min_bp: u8)
    requires
        agree_before(t1, t2, n),
        0 <= st.pos <= n,
        s_expr_bp(t1, st, min_bp) is Ok,
    ensures
        s_expr_bp(t2, st, min_bp) == s_expr_bp(t1, st, min_bp),
        s_expr_bp(t1, st, min_bp)->Ok_0.0.pos <= n,
    decreases t1.len() - st.pos, 2int,
{
    lemma_atom_agree(t1, t2, n, st);
    let (st1, left) = s_expr_atom(t1, st)->Ok_0;
    lemma_loop_agree(t1, t2, n, st1, left, min_bp);
}

proof fn lemma_loop_agree(
    t1: Seq<TokenView>,
    t2: Seq<TokenView>,
    n: int,
    st: PState,
    left: crate::codegen::OperandView,
    min_bp: u8,
)
    requires
        agree_before(t1, t2, n),
        0 <= st.pos <= n,
        s_expr_loop(t1, st, left, min_bp) is Ok,
    ensures
        s_expr_loop(t2, st, left, min_bp) == s_expr_loop(t1, st, left, min_bp),
        s_expr_loop(t1, st, left, min_bp)->Ok_0.0.pos <= n,
    decreases t1.len() - st.pos, 0int,
{
    if st.pos < n {
        assert(t1[st.pos] == t2[st.pos]);
        let t = t1[st.pos];
        if let Some((lbp, rbp, op)) = binop(t.kind) {
            if lbp >= min_bp {
                let st1 = crate::translation::advance(st);
                lemma_bp_agree(t1, t2, n, st1, rbp);
                let (st2, right) = s_expr_bp(t1, st1, rbp)->Ok_0;
                let (st3, temp) = crate::translation::new_temp(st2);
                let (st4, _) = crate::translation::emit(
                    st3,
                    crate::codegen::QuadView::Binary { op, left, right, dest: temp },
                );
                lemma_loop_agree(t1, t2, n, st4, temp, min_bp);
            }
        }
    }
}

/// An assignment that succeeds reads the same on tokens that agree before
/// a stopping token, and stops at or before it.
proof fn lemma_core_agree(t1: Seq<TokenView>, t2: Seq<TokenView>, n: int, st: PState)
    requires
        agree_before(t1, t2, n),
        0 <= st.pos <= n,
        s_assignment_core(t1, st) is Ok,
    ensures
        s_assignment_core(t2, st) == s_assignment_core(t1, st),
        s_assignment_core(t1, st)->Ok_0.pos <= n,
{
    assert(st.pos < n);
    assert(t1[st.pos] == t2[st.pos]);
    assert(st.pos + 1 < n);
    assert(t1[st.pos + 1] == t2[st.pos + 1]);
    let st2 = crate::translation::advance(crate::translation::advance(st));
    lemma_bp_agree(t1, t2, n, st2, 0);
}

/// The closing `;` of a single assignment is optional: adding it after an
/// assignment that translates without one gives the same quadruples.
pub proof fn lemma_optional_semicolon(body: Seq<TokenView>, end1: TokenView, semi: TokenView, end2: TokenView)
    requires
        end1.kind == Terminal::End,
        end2.kind == Terminal::End,
        semi.kind == Terminal::Semicolon,
        forall|i: int| 0 <= i < body.len() ==> #[trigger] body[i].kind != Terminal::End,
        body.len() == 0 || body.last().kind != Terminal::Semicolon,
        spec_parse_assignment(body.push(end1)) is Ok,
    ensures
        spec_parse_assignment(body.push(semi).push(end2)) == spec_parse_assignment(body.push(end1)),
{
    let t1 = body.push(end1);
    let t2 = body.push(semi).push(end2);
    let n = body.len() as int;
    assert forall|i: int| 0 <= i < n implies #[trigger] t1[i] == t2[i] by {
        assert(t1[i] == body[i] && t2[i] == body[i]);
    }
    assert(t1[n] == end1 && t2[n] == semi && t2[n + 1] == end2);
    let st0 = crate::translation::initial_state();
    lemma_core_agree(t1, t2, n, st0);
    let st1 = s_assignment_core(t1, st0)->Ok_0;
    if st1.pos < n {
        assert(t1[st1.pos] == body[st1.pos]);
        if body[st1.pos].kind == Terminal::Semicolon && st1.pos + 1 < n {
            assert(t1[st1.pos + 1] == body[st1.pos + 1]);
        }
        if st1.pos + 1 == n {
            assert(body.last() == body[st1.pos]);
        }
    }
}

} // verus!
