//! Tokens placed in front of a phrase do not change how it is translated,
//! only where it is read. From this: `not not B` translates as `B`, `not`
//! before a single term or before `( B )` exchanges the chains and keeps the
//! quadruples, and braces around a program's statements leave its
//! quadruples as they are.
use vstd::prelude::*;
use crate::codegen::{BoolAttrView, OperandView, QuadView};
use crate::lexer::TokenView;
use crate::symbol::Terminal;
use crate::translation::{
    PState, Step, advance, backpatch, binop, emit, expect, group_then_operator, initial_state,
    new_temp, next_quad, peek, s_and, s_and_loop, s_bool_atom, s_expr, s_expr_atom,
    s_expr_bp, s_expr_loop, s_not, s_or, s_or_loop, s_relation, s_relop, spec_parse_bool,
    s_assignment_core, s_assignment_stmt, s_stmt_list, s_stmt, s_block, s_if, s_while,
    can_start_stmt, progressed, single, spec_parse_program,
};
use crate::codegen::JumpTarget;
use crate::error::ErrorView;
use crate::paren_balance::{balanced, depth_between, lemma_group_close, lemma_gto_skip};

verus! {

/// The same token as far as a translation can tell: same kind, same text.
pub open spec fn same_tok(a: TokenView, b: TokenView) -> bool {
    a.kind == b.kind && a.lexeme == b.lexeme
}

/// A closing bracket: `}` or `)`.
pub open spec fn closer(k: Terminal) -> bool {
    k == Terminal::RBrace || k == Terminal::RParen
}

/// `t2` holds `t1` from index `d` on, with `t1`'s end marker read as an end
/// marker, or as a `}` or `)` that more tokens may follow.
pub open spec fn corresp(t1: Seq<TokenView>, t2: Seq<TokenView>, d: int) -> bool {
    &&& d >= 0
    &&& t1.len() >= 1
    &&& forall|i: int| 0 <= i < t1.len() - 1 ==> same_tok(#[trigger] t2[i + d], t1[i])
    &&& t1[t1.len() - 1].kind == Terminal::End
    &&& {
        ||| t2.len() == t1.len() + d && t2[t1.len() - 1 + d].kind == Terminal::End
        ||| t2.len() >= t1.len() + d + 1 && closer(t2[t1.len() - 1 + d].kind)
    }
}

/// Tokens that a translation step treats alike: the same token, or the end
/// marker against an end marker or a closing bracket.
pub open spec fn tok_alike(b: TokenView, a: TokenView) -> bool {
    same_tok(b, a) || (a.kind == Terminal::End && (b.kind == Terminal::End || closer(b.kind)))
}

/// The state `st` read `d` tokens further on.
pub open spec fn sh(st: PState, d: int) -> PState {
    PState { pos: st.pos + d, cg: st.cg }
}

/// A successful step read `d` tokens further on.
pub open spec fn sh_ok<T>(r: Step<T>, d: int) -> Step<T> {
    match r {
        Ok((s, a)) => Ok((sh(s, d), a)),
        Err(e) => Err(e),
    }
}

proof fn lemma_peek_sh(t1: Seq<TokenView>, t2: Seq<TokenView>, d: int, pos: int)
    requires
        corresp(t1, t2, d),
        0 <= pos <= t1.len() - 1,
    ensures
        peek(t1, pos) is Ok,
        peek(t2, pos + d) is Ok,
        tok_alike(peek(t2, pos + d)->Ok_0, peek(t1, pos)->Ok_0),
        pos < t1.len() - 1 ==> same_tok(peek(t2, pos + d)->Ok_0, peek(t1, pos)->Ok_0),
        pos == t1.len() - 1 ==> peek(t1, pos)->Ok_0.kind == Terminal::End,
{
    if pos < t1.len() - 1 {
        assert(same_tok(t2[pos + d], t1[pos]));
    }
}

proof fn lemma_depth_sh(t1: Seq<TokenView>, t2: Seq<TokenView>, d: int, i: int, j: int)
    requires
        corresp(t1, t2, d),
        0 <= i <= j <= t1.len() - 1,
    ensures
        depth_between(t2, i + d, j + d) == depth_between(t1, i, j),
    decreases j - i,
{
    if i < j {
        assert(same_tok(t2[i + d], t1[i]));
        lemma_depth_sh(t1, t2, d, i + 1, j);
    }
}

proof fn lemma_balanced_sh(t1: Seq<TokenView>, t2: Seq<TokenView>, d: int, i: int, j: int)
    requires
        corresp(t1, t2, d),
        0 <= i <= j <= t1.len() - 1,
        balanced(t1, i, j),
    ensures
        balanced(t2, i + d, j + d),
{
    lemma_depth_sh(t1, t2, d, i, j);
    assert forall|m: int| i + d <= m <= j + d implies #[trigger] depth_between(t2, i + d, m) >= 0 by {
        lemma_depth_sh(t1, t2, d, i, m - d);
        assert(depth_between(t1, i, m - d) >= 0);
    }
    assert forall|m: int| i + d <= m < j + d implies (#[trigger] t2[m]).kind != Terminal::End by {
        assert(same_tok(t2[(m - d) + d], t1[m - d]));
        assert(t1[m - d].kind != Terminal::End);
    }
}

/// The scan that tells a parenthesized operand from a parenthesized
/// boolean expression gives the same answer in both token sequences.
proof fn lemma_gto_sh(t1: Seq<TokenView>, t2: Seq<TokenView>, d: int, st: PState)
    requires
        corresp(t1, t2, d),
        0 <= st.pos < t1.len() - 1,
        t1[st.pos].kind == Terminal::LParen,
        s_bool_atom(t1, st) is Ok,
    ensures
        group_then_operator(t2, st.pos + d, 0) == group_then_operator(t1, st.pos, 0),
{
    let n = t1.len() - 1;
    let j = lemma_group_close(t1, st);
    assert(j < n);
    lemma_balanced_sh(t1, t2, d, st.pos + 1, j);
    assert(same_tok(t2[st.pos + d], t1[st.pos]));
    assert(same_tok(t2[j + d], t1[j]));
    lemma_gto_skip(t2, st.pos + d + 1, j + d, 1);
    if j + 1 < n {
        assert(same_tok(t2[j + 1 + d], t1[j + 1]));
    }
}

proof fn lemma_expect_sh(t1: Seq<TokenView>, t2: Seq<TokenView>, d: int, st: PState, kind: Terminal)
    requires
        corresp(t1, t2, d),
        0 <= st.pos <= t1.len() - 1,
        kind != Terminal::End,
        expect(t1, st, kind) is Ok,
    ensures
        expect(t2, sh(st, d), kind) is Ok,
        expect(t2, sh(st, d), kind)->Ok_0.0 == sh(expect(t1, st, kind)->Ok_0.0, d),
        expect(t1, st, kind)->Ok_0.0.pos <= t1.len() - 1,
{
    lemma_peek_sh(t1, t2, d, st.pos);
}

proof fn lemma_expr_atom_sh(t1: Seq<TokenView>, t2: Seq<TokenView>, d: int, st: PState)
    requires
        corresp(t1, t2, d),
        0 <= st.pos <= t1.len() - 1,
        s_expr_atom(t1, st) is Ok,
    ensures
        s_expr_atom(t2, sh(st, d)) == sh_ok(s_expr_atom(t1, st), d),
        s_expr_atom(t1, st)->Ok_0.0.pos <= t1.len() - 1,
    decreases t1.len() - st.pos, 1int,
{
    lemma_peek_sh(t1, t2, d, st.pos);
    let t = peek(t1, st.pos)->Ok_0;
    if t.kind == Terminal::LParen {
        lemma_bp_sh(t1, t2, d, advance(st), 0);
        let st2 = s_expr(t1, advance(st))->Ok_0.0;
        lemma_expect_sh(t1, t2, d, st2, Terminal::RParen);
        assert(advance(sh(st, d)) == sh(advance(st), d));
    }
}

proof fn lemma_bp_sh(t1: Seq<TokenView>, t2: Seq<TokenView>, d: int, st: PState, min_bp: u8)
    requires
        corresp(t1, t2, d),
        0 <= st.pos <= t1.len() - 1,
        s_expr_bp(t1, st, min_bp) is Ok,
    ensures
        s_expr_bp(t2, sh(st, d), min_bp) == sh_ok(s_expr_bp(t1, st, min_bp), d),
        s_expr_bp(t1, st, min_bp)->Ok_0.0.pos <= t1.len() - 1,
    decreases t1.len() - st.pos, 2int,
{
    lemma_expr_atom_sh(t1, t2, d, st);
    let (st1, left) = s_expr_atom(t1, st)->Ok_0;
    lemma_expr_loop_sh(t1, t2, d, st1, left, min_bp);
}

proof fn lemma_expr_loop_sh(
    t1: Seq<TokenView>,
    t2: Seq<TokenView>,
    d: int,
    st: PState,
    left: OperandView,
    min_bp: u8,
)
    requires
        corresp(t1, t2, d),
        0 <= st.pos <= t1.len() - 1,
        s_expr_loop(t1, st, left, min_bp) is Ok,
    ensures
        s_expr_loop(t2, sh(st, d), left, min_bp) == sh_ok(s_expr_loop(t1, st, left, min_bp), d),
        s_expr_loop(t1, st, left, min_bp)->Ok_0.0.pos <= t1.len() - 1,
    decreases t1.len() - st.pos, 0int,
{
    lemma_peek_sh(t1, t2, d, st.pos);
    let t = peek(t1, st.pos)->Ok_0;
    if let Some((lbp, rbp, op)) = binop(t.kind) {
        if lbp >= min_bp {
            let st1 = advance(st);
            assert(advance(sh(st, d)) == sh(st1, d));
            lemma_bp_sh(t1, t2, d, st1, rbp);
            let (st2, right) = s_expr_bp(t1, st1, rbp)->Ok_0;
            let (st3, temp) = new_temp(st2);
            let (st4, _) = emit(st3, QuadView::Binary { op, left, right, dest: temp });
            assert(new_temp(sh(st2, d)) == (sh(st3, d), temp));
            assert(emit(sh(st3, d), QuadView::Binary { op, left, right, dest: temp }).0 == sh(st4, d));
            lemma_expr_loop_sh(t1, t2, d, st4, temp, min_bp);
        }
    }
}

proof fn lemma_relation_sh(t1: Seq<TokenView>, t2: Seq<TokenView>, d: int, st: PState)
    requires
        corresp(t1, t2, d),
        0 <= st.pos <= t1.len() - 1,
        s_relation(t1, st) is Ok,
    ensures
        s_relation(t2, sh(st, d)) == sh_ok(s_relation(t1, st), d),
        s_relation(t1, st)->Ok_0.0.pos <= t1.len() - 1,
{
    lemma_bp_sh(t1, t2, d, st, 0);
    let st1 = s_expr(t1, st)->Ok_0.0;
    lemma_peek_sh(t1, t2, d, st1.pos);
    assert(s_relop(t2, sh(st1, d)) == sh_ok(s_relop(t1, st1), d)) by {
        assert(advance(sh(st1, d)) == sh(advance(st1), d));
    }
    let st2 = s_relop(t1, st1)->Ok_0.0;
    lemma_bp_sh(t1, t2, d, st2, 0);
}

proof fn lemma_bool_atom_sh(t1: Seq<TokenView>, t2: Seq<TokenView>, d: int, st: PState)
    requires
        corresp(t1, t2, d),
        0 <= st.pos <= t1.len() - 1,
        s_bool_atom(t1, st) is Ok,
    ensures
        s_bool_atom(t2, sh(st, d)) == sh_ok(s_bool_atom(t1, st), d),
        s_bool_atom(t1, st)->Ok_0.0.pos <= t1.len() - 1,
    decreases t1.len() - st.pos, 2int,
{
    lemma_peek_sh(t1, t2, d, st.pos);
    let t = peek(t1, st.pos)->Ok_0;
    if t.kind == Terminal::LParen {
        lemma_gto_sh(t1, t2, d, st);
    }
    assert(advance(sh(st, d)) == sh(advance(st), d));
    if t.kind == Terminal::True || t.kind == Terminal::False {
    } else if t.kind == Terminal::LParen && !group_then_operator(t1, st.pos, 0) {
        lemma_or_sh(t1, t2, d, advance(st));
        let st1 = s_or(t1, advance(st))->Ok_0.0;
        lemma_expect_sh(t1, t2, d, st1, Terminal::RParen);
    } else {
        lemma_relation_sh(t1, t2, d, st);
    }
}

proof fn lemma_not_sh(t1: Seq<TokenView>, t2: Seq<TokenView>, d: int, st: PState)
    requires
        corresp(t1, t2, d),
        0 <= st.pos <= t1.len() - 1,
        s_not(t1, st) is Ok,
    ensures
        s_not(t2, sh(st, d)) == sh_ok(s_not(t1, st), d),
        s_not(t1, st)->Ok_0.0.pos <= t1.len() - 1,
    decreases t1.len() - st.pos, 3int,
{
    lemma_peek_sh(t1, t2, d, st.pos);
    let t = peek(t1, st.pos)->Ok_0;
    if t.kind == Terminal::Not {
        assert(advance(sh(st, d)) == sh(advance(st), d));
        lemma_not_sh(t1, t2, d, advance(st));
    } else {
        lemma_bool_atom_sh(t1, t2, d, st);
    }
}

proof fn lemma_and_sh(t1: Seq<TokenView>, t2: Seq<TokenView>, d: int, st: PState)
    requires
        corresp(t1, t2, d),
        0 <= st.pos <= t1.len() - 1,
        s_and(t1, st) is Ok,
    ensures
        s_and(t2, sh(st, d)) == sh_ok(s_and(t1, st), d),
        s_and(t1, st)->Ok_0.0.pos <= t1.len() - 1,
    decreases t1.len() - st.pos, 4int,
{
    lemma_not_sh(t1, t2, d, st);
    let (st1, left) = s_not(t1, st)->Ok_0;
    lemma_and_loop_sh(t1, t2, d, st1, left);
}

proof fn lemma_and_loop_sh(t1: Seq<TokenView>, t2: Seq<TokenView>, d: int, st: PState, left: BoolAttrView)
    requires
        corresp(t1, t2, d),
        0 <= st.pos <= t1.len() - 1,
        s_and_loop(t1, st, left) is Ok,
    ensures
        s_and_loop(t2, sh(st, d), left) == sh_ok(s_and_loop(t1, st, left), d),
        s_and_loop(t1, st, left)->Ok_0.0.pos <= t1.len() - 1,
    decreases t1.len() - st.pos, 0int,
{
    lemma_peek_sh(t1, t2, d, st.pos);
    let t = peek(t1, st.pos)->Ok_0;
    if t.kind == Terminal::And {
        let st1 = advance(st);
        assert(advance(sh(st, d)) == sh(st1, d));
        assert(next_quad(sh(st1, d)) == next_quad(st1));
        let st2 = backpatch(st1, left.tc, next_quad(st1))->Ok_0;
        assert(backpatch(sh(st1, d), left.tc, next_quad(st1)) == Ok::<PState, crate::error::ErrorView>(sh(st2, d)));
        lemma_not_sh(t1, t2, d, st2);
        let (st3, right) = s_not(t1, st2)->Ok_0;
        lemma_and_loop_sh(t1, t2, d, st3, BoolAttrView { tc: right.tc, fc: left.fc + right.fc });
    }
}

pub(crate) proof fn lemma_or_sh(t1: Seq<TokenView>, t2: Seq<TokenView>, d: int, st: PState)
    requires
        corresp(t1, t2, d),
        0 <= st.pos <= t1.len() - 1,
        s_or(t1, st) is Ok,
    ensures
        s_or(t2, sh(st, d)) == sh_ok(s_or(t1, st), d),
        s_or(t1, st)->Ok_0.0.pos <= t1.len() - 1,
    decreases t1.len() - st.pos, 5int,
{
    lemma_and_sh(t1, t2, d, st);
    let (st1, left) = s_and(t1, st)->Ok_0;
    lemma_or_loop_sh(t1, t2, d, st1, left);
}

proof fn lemma_or_loop_sh(t1: Seq<TokenView>, t2: Seq<TokenView>, d: int, st: PState, left: BoolAttrView)
    requires
        corresp(t1, t2, d),
        0 <= st.pos <= t1.len() - 1,
        s_or_loop(t1, st, left) is Ok,
    ensures
        s_or_loop(t2, sh(st, d), left) == sh_ok(s_or_loop(t1, st, left), d),
        s_or_loop(t1, st, left)->Ok_0.0.pos <= t1.len() - 1,
    decreases t1.len() - st.pos, 0int,
{
    lemma_peek_sh(t1, t2, d, st.pos);
    let t = peek(t1, st.pos)->Ok_0;
    if t.kind == Terminal::Or {
        let st1 = advance(st);
        assert(advance(sh(st, d)) == sh(st1, d));
        assert(next_quad(sh(st1, d)) == next_quad(st1));
        let st2 = backpatch(st1, left.fc, next_quad(st1))->Ok_0;
        assert(backpatch(sh(st1, d), left.fc, next_quad(st1)) == Ok::<PState, crate::error::ErrorView>(sh(st2, d)));
        lemma_and_sh(t1, t2, d, st2);
        let (st3, right) = s_and(t1, st2)->Ok_0;
        lemma_or_loop_sh(t1, t2, d, st3, BoolAttrView { tc: left.tc + right.tc, fc: right.fc });
    }
}

/// `not not B` translates as `B`: two `not`s in front of a boolean
/// expression leave its quadruples and its true and false chains as they
/// are.
pub proof fn lemma_double_negation(t1: Seq<TokenView>, t2: Seq<TokenView>)
    requires
        t2.len() == t1.len() + 2,
        t2[0].kind == Terminal::Not,
        t2[1].kind == Terminal::Not,
        forall|i: int| 0 <= i < t1.len() ==> same_tok(#[trigger] t2[i + 2], t1[i]),
        t1.last().kind == Terminal::End,
        spec_parse_bool(t1) is Ok,
    ensures
        spec_parse_bool(t2) == spec_parse_bool(t1),
{
    let st0 = initial_state();
    assert(same_tok(t2[t1.len() - 1 + 2], t1[t1.len() - 1]));
    assert(corresp(t1, t2, 2));
    // the first term
    lemma_not_sh(t1, t2, 2, st0);
    let (st1, a) = s_not(t1, st0)->Ok_0;
    assert(sh(st0, 2) == advance(advance(st0)));
    assert(s_not(t2, advance(st0)) == Ok::<(PState, BoolAttrView), crate::error::ErrorView>(
        (sh(st1, 2), BoolAttrView { tc: a.fc, fc: a.tc }),
    ));
    assert(s_not(t2, st0) == Ok::<(PState, BoolAttrView), crate::error::ErrorView>((sh(st1, 2), a)));
    // the `and` chain of the first term
    lemma_and_loop_sh(t1, t2, 2, st1, a);
    let (st2, b) = s_and(t1, st0)->Ok_0;
    assert(s_and(t2, st0) == Ok::<(PState, BoolAttrView), crate::error::ErrorView>((sh(st2, 2), b)));
    // the `or` chain
    lemma_or_loop_sh(t1, t2, 2, st2, b);
    let (st3, c) = s_or(t1, st0)->Ok_0;
    assert(s_or(t2, st0) == Ok::<(PState, BoolAttrView), crate::error::ErrorView>((sh(st3, 2), c)));
    lemma_peek_sh(t1, t2, 2, st3.pos);
    if st3.pos < t1.len() - 1 {
        assert(same_tok(t2[st3.pos + 2], t1[st3.pos]));
    }
    assert(advance(sh(st3, 2)) == sh(advance(st3), 2));
}

/// `not B`, for a `B` that is a single term (no `and` or `or` outside
/// parentheses), translates as `B` with its true and false chains
/// exchanged and the same quadruples.
pub proof fn lemma_negation(t1: Seq<TokenView>, t2: Seq<TokenView>)
    requires
        t2.len() == t1.len() + 1,
        t2[0].kind == Terminal::Not,
        forall|i: int| 0 <= i < t1.len() ==> same_tok(#[trigger] t2[i + 1], t1[i]),
        t1.last().kind == Terminal::End,
        spec_parse_bool(t1) is Ok,
        s_not(t1, initial_state())->Ok_0.0.pos == t1.len() - 1,
    ensures
        spec_parse_bool(t2) == match spec_parse_bool(t1) {
            Ok((cg, a)) => Ok::<(crate::codegen::CodeGenView, BoolAttrView), crate::error::ErrorView>(
                (cg, BoolAttrView { tc: a.fc, fc: a.tc }),
            ),
            Err(e) => Err(e),
        },
{
    let st0 = initial_state();
    assert(same_tok(t2[t1.len() - 1 + 1], t1[t1.len() - 1]));
    assert(corresp(t1, t2, 1));
    lemma_not_sh(t1, t2, 1, st0);
    let (st1, a) = s_not(t1, st0)->Ok_0;
    let na = BoolAttrView { tc: a.fc, fc: a.tc };
    assert(sh(st0, 1) == advance(st0));
    assert(s_not(t2, st0) == Ok::<(PState, BoolAttrView), crate::error::ErrorView>((sh(st1, 1), na)));
    // the term reaches the end marker, so no `and` or `or` follows it
    assert(t1[st1.pos].kind == Terminal::End) by {
        assert(s_and(t1, st0) is Ok);
    }
    assert(same_tok(t2[st1.pos + 1], t1[st1.pos]));
    assert(s_and(t2, st0) == Ok::<(PState, BoolAttrView), crate::error::ErrorView>((sh(st1, 1), na)));
    assert(s_or(t2, st0) == Ok::<(PState, BoolAttrView), crate::error::ErrorView>((sh(st1, 1), na)));
    assert(s_and(t1, st0) == Ok::<(PState, BoolAttrView), crate::error::ErrorView>((st1, a)));
    assert(s_or(t1, st0) == Ok::<(PState, BoolAttrView), crate::error::ErrorView>((st1, a)));
}


/// A statement step read `d` tokens further on.
pub open spec fn sh_res(r: Result<PState, ErrorView>, d: int) -> Result<PState, ErrorView> {
    match r {
        Ok(s) => Ok(sh(s, d)),
        Err(e) => Err(e),
    }
}

proof fn lemma_backpatch_sh(st: PState, list: Seq<usize>, target: usize, d: int)
    ensures
        backpatch(sh(st, d), list, target) == sh_res(backpatch(st, list, target), d),
        backpatch(st, list, target) matches Ok(s) ==> s.pos == st.pos,
{
}

proof fn lemma_assignment_core_sh(t1: Seq<TokenView>, t2: Seq<TokenView>, d: int, st: PState)
    requires
        corresp(t1, t2, d),
        0 <= st.pos <= t1.len() - 1,
        s_assignment_core(t1, st) is Ok,
    ensures
        s_assignment_core(t2, sh(st, d)) == sh_res(s_assignment_core(t1, st), d),
        s_assignment_core(t1, st)->Ok_0.pos <= t1.len() - 1,
{
    lemma_peek_sh(t1, t2, d, st.pos);
    lemma_expect_sh(t1, t2, d, st, Terminal::Id);
    let (st1, id) = expect(t1, st, Terminal::Id)->Ok_0;
    lemma_expect_sh(t1, t2, d, st1, Terminal::Assign);
    let st2 = expect(t1, st1, Terminal::Assign)->Ok_0.0;
    lemma_bp_sh(t1, t2, d, st2, 0);
    let (st3, place) = s_expr(t1, st2)->Ok_0;
    let q = QuadView::Assign { src: place, dest: OperandView::Name(id.lexeme) };
    assert(emit(sh(st3, d), q).0 == sh(emit(st3, q).0, d));
}

proof fn lemma_assignment_stmt_sh(t1: Seq<TokenView>, t2: Seq<TokenView>, d: int, st: PState)
    requires
        corresp(t1, t2, d),
        0 <= st.pos <= t1.len() - 1,
        s_assignment_stmt(t1, st) is Ok,
    ensures
        s_assignment_stmt(t2, sh(st, d)) == sh_res(s_assignment_stmt(t1, st), d),
        s_assignment_stmt(t1, st)->Ok_0.pos <= t1.len() - 1,
{
    lemma_assignment_core_sh(t1, t2, d, st);
    let st1 = s_assignment_core(t1, st)->Ok_0;
    lemma_expect_sh(t1, t2, d, st1, Terminal::Semicolon);
}

proof fn lemma_stmt_list_sh(t1: Seq<TokenView>, t2: Seq<TokenView>, d: int, st: PState)
    requires
        corresp(t1, t2, d),
        0 <= st.pos <= t1.len() - 1,
        s_stmt_list(t1, st) is Ok,
    ensures
        s_stmt_list(t2, sh(st, d)) == sh_res(s_stmt_list(t1, st), d),
        s_stmt_list(t1, st)->Ok_0.pos <= t1.len() - 1,
    decreases t1.len() - st.pos, 3int,
{
    lemma_peek_sh(t1, t2, d, st.pos);
    assert(can_start_stmt(t2, st.pos + d) == can_start_stmt(t1, st.pos));
    if can_start_stmt(t1, st.pos) {
        lemma_stmt_sh(t1, t2, d, st);
        let st1 = s_stmt(t1, st)->Ok_0;
        assert(progressed(t2, sh(st, d), sh(st1, d)) == progressed(t1, st, st1));
        if progressed(t1, st, st1) {
            lemma_stmt_list_sh(t1, t2, d, st1);
        }
    }
}

proof fn lemma_stmt_sh(t1: Seq<TokenView>, t2: Seq<TokenView>, d: int, st: PState)
    requires
        corresp(t1, t2, d),
        0 <= st.pos <= t1.len() - 1,
        s_stmt(t1, st) is Ok,
    ensures
        s_stmt(t2, sh(st, d)) == sh_res(s_stmt(t1, st), d),
        s_stmt(t1, st)->Ok_0.pos <= t1.len() - 1,
    decreases t1.len() - st.pos, 2int,
{
    lemma_peek_sh(t1, t2, d, st.pos);
    let t = peek(t1, st.pos)->Ok_0;
    if t.kind == Terminal::Id {
        lemma_assignment_stmt_sh(t1, t2, d, st);
    } else if t.kind == Terminal::LBrace {
        lemma_block_sh(t1, t2, d, st);
    } else if t.kind == Terminal::If {
        lemma_if_sh(t1, t2, d, st);
    } else {
        lemma_while_sh(t1, t2, d, st);
    }
}

proof fn lemma_block_sh(t1: Seq<TokenView>, t2: Seq<TokenView>, d: int, st: PState)
    requires
        corresp(t1, t2, d),
        0 <= st.pos <= t1.len() - 1,
        s_block(t1, st) is Ok,
    ensures
        s_block(t2, sh(st, d)) == sh_res(s_block(t1, st), d),
        s_block(t1, st)->Ok_0.pos <= t1.len() - 1,
    decreases t1.len() - st.pos, 1int,
{
    lemma_expect_sh(t1, t2, d, st, Terminal::LBrace);
    let st1 = expect(t1, st, Terminal::LBrace)->Ok_0.0;
    lemma_stmt_list_sh(t1, t2, d, st1);
    let st2 = s_stmt_list(t1, st1)->Ok_0;
    lemma_expect_sh(t1, t2, d, st2, Terminal::RBrace);
}

proof fn lemma_if_sh(t1: Seq<TokenView>, t2: Seq<TokenView>, d: int, st: PState)
    requires
        corresp(t1, t2, d),
        0 <= st.pos <= t1.len() - 1,
        s_if(t1, st) is Ok,
    ensures
        s_if(t2, sh(st, d)) == sh_res(s_if(t1, st), d),
        s_if(t1, st)->Ok_0.pos <= t1.len() - 1,
    decreases t1.len() - st.pos, 1int,
{
    lemma_expect_sh(t1, t2, d, st, Terminal::If);
    let st1 = expect(t1, st, Terminal::If)->Ok_0.0;
    lemma_expect_sh(t1, t2, d, st1, Terminal::LParen);
    let st2 = expect(t1, st1, Terminal::LParen)->Ok_0.0;
    lemma_or_sh(t1, t2, d, st2);
    let (st3, attr) = s_or(t1, st2)->Ok_0;
    lemma_expect_sh(t1, t2, d, st3, Terminal::RParen);
    let st4 = expect(t1, st3, Terminal::RParen)->Ok_0.0;
    assert(next_quad(sh(st4, d)) == next_quad(st4));
    lemma_backpatch_sh(st4, attr.tc, next_quad(st4), d);
    let st5 = backpatch(st4, attr.tc, next_quad(st4))->Ok_0;
    assert(progressed(t2, sh(st, d), sh(st5, d)) == progressed(t1, st, st5));
    lemma_block_sh(t1, t2, d, st5);
    let st6 = s_block(t1, st5)->Ok_0;
    lemma_peek_sh(t1, t2, d, st6.pos);
    let t = peek(t1, st6.pos)->Ok_0;
    assert(next_quad(sh(st6, d)) == next_quad(st6));
    if t.kind == Terminal::Else {
        let q = QuadView::Jump { target: JumpTarget::Pending };
        let (st7, jump) = emit(st6, q);
        assert(emit(sh(st6, d), q) == (sh(st7, d), jump));
        let st8 = advance(st7);
        assert(advance(sh(st7, d)) == sh(st8, d));
        assert(next_quad(sh(st8, d)) == next_quad(st8));
        lemma_backpatch_sh(st8, attr.fc, next_quad(st8), d);
        let st9 = backpatch(st8, attr.fc, next_quad(st8))->Ok_0;
        assert(progressed(t2, sh(st, d), sh(st9, d)) == progressed(t1, st, st9));
        lemma_block_sh(t1, t2, d, st9);
        let st10 = s_block(t1, st9)->Ok_0;
        assert(next_quad(sh(st10, d)) == next_quad(st10));
        lemma_backpatch_sh(st10, single(jump), next_quad(st10), d);
    } else {
        lemma_backpatch_sh(st6, attr.fc, next_quad(st6), d);
    }
}

proof fn lemma_while_sh(t1: Seq<TokenView>, t2: Seq<TokenView>, d: int, st: PState)
    requires
        corresp(t1, t2, d),
        0 <= st.pos <= t1.len() - 1,
        s_while(t1, st) is Ok,
    ensures
        s_while(t2, sh(st, d)) == sh_res(s_while(t1, st), d),
        s_while(t1, st)->Ok_0.pos <= t1.len() - 1,
    decreases t1.len() - st.pos, 1int,
{
    lemma_expect_sh(t1, t2, d, st, Terminal::While);
    let st1 = expect(t1, st, Terminal::While)->Ok_0.0;
    lemma_expect_sh(t1, t2, d, st1, Terminal::LParen);
    let st2 = expect(t1, st1, Terminal::LParen)->Ok_0.0;
    assert(next_quad(sh(st2, d)) == next_quad(st2));
    lemma_or_sh(t1, t2, d, st2);
    let (st3, attr) = s_or(t1, st2)->Ok_0;
    lemma_expect_sh(t1, t2, d, st3, Terminal::RParen);
    let st4 = expect(t1, st3, Terminal::RParen)->Ok_0.0;
    assert(next_quad(sh(st4, d)) == next_quad(st4));
    lemma_backpatch_sh(st4, attr.tc, next_quad(st4), d);
    let st5 = backpatch(st4, attr.tc, next_quad(st4))->Ok_0;
    assert(progressed(t2, sh(st, d), sh(st5, d)) == progressed(t1, st, st5));
    lemma_block_sh(t1, t2, d, st5);
    let st6 = s_block(t1, st5)->Ok_0;
    let q = QuadView::Jump { target: JumpTarget::Target(next_quad(st2)) };
    let st7 = emit(st6, q).0;
    assert(emit(sh(st6, d), q).0 == sh(st7, d));
    assert(next_quad(sh(st7, d)) == next_quad(st7));
    lemma_backpatch_sh(st7, attr.fc, next_quad(st7), d);
}

/// Braces around a program's statements change nothing: `{ S }` translates
/// to the same quadruples as `S`, since a block emits nothing of its own.
pub proof fn lemma_braces(t1: Seq<TokenView>, t2: Seq<TokenView>)
    requires
        t1.len() >= 1,
        t1.last().kind == Terminal::End,
        forall|k: int| 0 <= k < t1.len() - 1 ==> (#[trigger] t1[k]).kind != Terminal::End,
        t2.len() == t1.len() + 2,
        t2[0].kind == Terminal::LBrace,
        forall|i: int| 0 <= i < t1.len() - 1 ==> same_tok(#[trigger] t2[i + 1], t1[i]),
        t2[t1.len() as int].kind == Terminal::RBrace,
        t2[t1.len() as int + 1].kind == Terminal::End,
        spec_parse_program(t1) is Ok,
    ensures
        spec_parse_program(t2) == spec_parse_program(t1),
{
    let st0 = initial_state();
    let n = t1.len() as int;
    assert(corresp(t1, t2, 1));
    lemma_stmt_list_sh(t1, t2, 1, st0);
    let st1 = s_stmt_list(t1, st0)->Ok_0;
    assert(st1.pos == n - 1) by {
        if st1.pos < n - 1 {
            assert(t1[st1.pos].kind != Terminal::End);
        }
    }
    // the block
    assert(sh(st0, 1) == advance(st0));
    assert(can_start_stmt(t2, 0));
    let stb = PState { pos: n + 1, cg: st1.cg };
    assert(s_block(t2, st0) == Ok::<PState, ErrorView>(stb));
    assert(s_stmt(t2, st0) == Ok::<PState, ErrorView>(stb));
    assert(!can_start_stmt(t2, n + 1));
    assert(s_stmt_list(t2, stb) == Ok::<PState, ErrorView>(stb));
    assert(s_stmt_list(t2, st0) == Ok::<PState, ErrorView>(stb));
}


/// `not ( B )` translates as `B` with its true and false chains exchanged
/// and the same quadruples; so `not ( not ( B ) )` translates as `B`.
pub proof fn lemma_negated_group(t1: Seq<TokenView>, t2: Seq<TokenView>)
    requires
        t1.len() >= 1,
        t1.last().kind == Terminal::End,
        forall|k: int| 0 <= k < t1.len() - 1 ==> (#[trigger] t1[k]).kind != Terminal::End,
        t2.len() == t1.len() + 3,
        t2[0].kind == Terminal::Not,
        t2[1].kind == Terminal::LParen,
        forall|i: int| 0 <= i < t1.len() - 1 ==> same_tok(#[trigger] t2[i + 2], t1[i]),
        t2[t1.len() as int + 1].kind == Terminal::RParen,
        t2[t1.len() as int + 2].kind == Terminal::End,
        spec_parse_bool(t1) is Ok,
    ensures
        spec_parse_bool(t2) == match spec_parse_bool(t1) {
            Ok((cg, a)) => Ok::<(crate::codegen::CodeGenView, BoolAttrView), ErrorView>(
                (cg, BoolAttrView { tc: a.fc, fc: a.tc }),
            ),
            Err(e) => Err(e),
        },
{
    let n = t1.len() as int;
    let st0 = initial_state();
    assert(corresp(t1, t2, 2));
    lemma_or_sh(t1, t2, 2, st0);
    let (st1, a) = s_or(t1, st0)->Ok_0;
    assert(st1.pos == n - 1) by {
        if st1.pos < n - 1 {
            assert(t1[st1.pos].kind != Terminal::End);
        }
    }
    let na = BoolAttrView { tc: a.fc, fc: a.tc };
    // the group after `not` is a boolean expression, not an operand
    let p1 = advance(st0);
    let p2 = advance(p1);
    assert(p2 == sh(st0, 2));
    crate::paren_balance::lemma_or_balanced(t2, p2);
    assert forall|m: int| 2 <= m < n + 1 implies (#[trigger] t2[m]).kind != Terminal::End by {
        assert(same_tok(t2[(m - 2) + 2], t1[m - 2]));
    }
    crate::paren_balance::lemma_gto_skip(t2, 2, n + 1, 1);
    assert(!group_then_operator(t2, 1, 0));
    let pe = PState { pos: n + 2, cg: st1.cg };
    assert(s_bool_atom(t2, p1) == Ok::<(PState, BoolAttrView), ErrorView>((pe, a)));
    assert(s_not(t2, p1) == Ok::<(PState, BoolAttrView), ErrorView>((pe, a)));
    assert(s_not(t2, st0) == Ok::<(PState, BoolAttrView), ErrorView>((pe, na)));
    assert(s_and(t2, st0) == Ok::<(PState, BoolAttrView), ErrorView>((pe, na)));
    assert(s_or(t2, st0) == Ok::<(PState, BoolAttrView), ErrorView>((pe, na)));
}

} // verus!
