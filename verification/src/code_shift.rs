//! Translating a phrase after code that is already there gives the code it
//! gives alone, moved: every quadruple index, jump target and chain entry
//! goes up by the number of quadruples before it, and every temporary by
//! the number of temporaries before it.
use vstd::prelude::*;
use crate::codegen::{
    BoolAttrView, CodeGenView, JumpTarget, OperandView, QuadView, backpatch_quads, is_jump,
    patch_quad, temp_name,
};
use crate::error::ErrorView;
use crate::lexer::TokenView;
use crate::symbol::Terminal;
use crate::text::{decimal, digit_char};
use crate::translation::{
    PState, Step, advance, backpatch, binop, can_start_stmt, emit, expect, group_then_operator,
    new_temp, next_quad, peek, progressed, s_assignment_core, s_assignment_stmt, s_block, s_if,
    s_stmt, s_stmt_list, s_while,
    s_and, s_and_loop, s_bool_atom, s_expr, s_expr_atom, s_expr_bp, s_expr_loop, s_not, s_or,
    s_or_loop, s_relation, s_relop, single,
};

verus! {

/// Whether `s` names a temporary.
pub open spec fn is_temp_name(s: Seq<char>) -> bool {
    exists|k: nat| k >= 1 && s == temp_name(k)
}

/// The number of the temporary that `s` names.
pub open spec fn temp_index(s: Seq<char>) -> nat {
    choose|k: nat| k >= 1 && s == temp_name(k)
}

/// An operand with its temporary, if it is one, renumbered `m` places up.
pub open spec fn move_operand(o: OperandView, m: nat) -> OperandView {
    match o {
        OperandView::Name(s) => if is_temp_name(s) {
            OperandView::Name(temp_name(temp_index(s) + m))
        } else {
            o
        },
        OperandView::Empty => o,
    }
}

/// A jump target moved `n` quadruples on.
pub open spec fn move_target(t: JumpTarget, n: nat) -> JumpTarget {
    match t {
        JumpTarget::Pending => t,
        JumpTarget::Target(k) => JumpTarget::Target((k + n) as usize),
    }
}

/// A quadruple moved `n` quadruples on, its temporaries `m` places up.
pub open spec fn move_quad(q: QuadView, n: nat, m: nat) -> QuadView {
    match q {
        QuadView::Binary { op, left, right, dest } => QuadView::Binary {
            op,
            left: move_operand(left, m),
            right: move_operand(right, m),
            dest: move_operand(dest, m),
        },
        QuadView::Assign { src, dest } => QuadView::Assign {
            src: move_operand(src, m),
            dest: move_operand(dest, m),
        },
        QuadView::Jump { target } => QuadView::Jump { target: move_target(target, n) },
        QuadView::JumpIf { relop, left, right, target } => QuadView::JumpIf {
            relop,
            left: move_operand(left, m),
            right: move_operand(right, m),
            target: move_target(target, n),
        },
    }
}

/// Quadruples moved `n` quadruples on, their temporaries `m` places up.
pub open spec fn move_quads(qs: Seq<QuadView>, n: nat, m: nat) -> Seq<QuadView> {
    Seq::new(qs.len(), |i: int| move_quad(qs[i], n, m))
}

/// A chain moved `n` quadruples on.
pub open spec fn move_chain(c: Seq<usize>, n: nat) -> Seq<usize> {
    Seq::new(c.len(), |i: int| (c[i] + n) as usize)
}

/// Chains moved `n` quadruples on.
pub open spec fn move_attr(a: BoolAttrView, n: nat) -> BoolAttrView {
    BoolAttrView { tc: move_chain(a.tc, n), fc: move_chain(a.fc, n) }
}

/// The code `c` placed after the code `b`.
pub open spec fn after(b: CodeGenView, c: CodeGenView) -> CodeGenView {
    CodeGenView {
        quads: b.quads + move_quads(c.quads, b.quads.len(), b.temps),
        temps: b.temps + c.temps,
    }
}

/// A translation state placed after the code `b`.
pub open spec fn lift(b: CodeGenView, st: PState) -> PState {
    PState { pos: st.pos, cg: after(b, st.cg) }
}

/// An expression step placed after the code `b`.
pub open spec fn lift_operand_step(b: CodeGenView, r: Step<OperandView>) -> Step<OperandView> {
    match r {
        Ok((s, o)) => Ok((lift(b, s), move_operand(o, b.temps))),
        Err(e) => Err(e),
    }
}

/// A boolean step placed after the code `b`.
pub open spec fn lift_bool_step(b: CodeGenView, r: Step<BoolAttrView>) -> Step<BoolAttrView> {
    match r {
        Ok((s, a)) => Ok((lift(b, s), move_attr(a, b.quads.len()))),
        Err(e) => Err(e),
    }
}

/// No token is spelled like a temporary.
pub open spec fn no_temp_names(t: Seq<TokenView>) -> bool {
    forall|i: int| 0 <= i < t.len() ==> !is_temp_name(#[trigger] t[i].lexeme)
}

/// Room left in `usize` for the quadruples of `b`, of `st`, and two for
/// each token still to read.
pub open spec fn room(t: Seq<TokenView>, b: CodeGenView, st: PState) -> bool {
    &&& 0 <= st.pos <= t.len()
    &&& b.quads.len() + st.cg.quads.len() + 2 * (t.len() - st.pos) + 2 <= usize::MAX
}

/// A step emitted at most two quadruples for each token it read.
pub open spec fn thrifty(t: Seq<TokenView>, st: PState, s: PState) -> bool {
    &&& st.pos <= s.pos <= t.len()
    &&& s.cg.quads.len() + 2 * st.pos <= st.cg.quads.len() + 2 * s.pos
}

proof fn lemma_digit_injective(a: nat, b: nat)
    requires
        a < 10,
        b < 10,
        digit_char(a) == digit_char(b),
    ensures
        a == b,
{
}

proof fn lemma_decimal_len(n: nat)
    ensures
        decimal(n).len() >= 1,
        n >= 10 ==> decimal(n).len() >= 2,
    decreases n,
{
    if n >= 10 {
        lemma_decimal_len(n / 10);
    }
}

proof fn lemma_decimal_injective(a: nat, b: nat)
    requires
        decimal(a) == decimal(b),
    ensures
        a == b,
    decreases a,
{
    lemma_decimal_len(a);
    lemma_decimal_len(b);
    if a < 10 && b < 10 {
        assert(decimal(a)[0] == digit_char(a));
        assert(decimal(b)[0] == digit_char(b));
        lemma_digit_injective(a, b);
    } else if a >= 10 && b >= 10 {
        let da = decimal(a);
        assert(da.last() == digit_char(a % 10));
        assert(decimal(b).last() == digit_char(b % 10));
        lemma_digit_injective(a % 10, b % 10);
        assert(da.drop_last() == decimal(a / 10));
        assert(decimal(b).drop_last() == decimal(b / 10));
        lemma_decimal_injective(a / 10, b / 10);
    } else {
        assert(decimal(a).len() != decimal(b).len());
    }
}

/// Different temporaries have different names.
pub proof fn lemma_temp_name_injective(a: nat, b: nat)
    requires
        temp_name(a) == temp_name(b),
    ensures
        a == b,
{
    assert(temp_name(a).skip(1) == decimal(a)) by {
        assert("t"@.len() == 1) by {
            reveal_strlit("t");
        }
    }
    assert(temp_name(b).skip(1) == decimal(b)) by {
        assert("t"@.len() == 1) by {
            reveal_strlit("t");
        }
    }
    lemma_decimal_injective(a, b);
}

pub(crate) proof fn lemma_move_temp(k: nat, m: nat)
    requires
        k >= 1,
    ensures
        move_operand(OperandView::Name(temp_name(k)), m) == OperandView::Name(temp_name(k + m)),
{
    assert(is_temp_name(temp_name(k)));
    let j = temp_index(temp_name(k));
    lemma_temp_name_injective(j, k);
}

proof fn lemma_move_name(t: Seq<TokenView>, i: int, m: nat)
    requires
        no_temp_names(t),
        0 <= i < t.len(),
    ensures
        move_operand(OperandView::Name(t[i].lexeme), m) == OperandView::Name(t[i].lexeme),
{
    assert(!is_temp_name(t[i].lexeme));
}

proof fn lemma_emit_lift(b: CodeGenView, st: PState, q: QuadView)
    requires
        b.quads.len() + st.cg.quads.len() + 1 <= usize::MAX,
    ensures
        emit(lift(b, st), move_quad(q, b.quads.len(), b.temps)) == (
            lift(b, emit(st, q).0),
            (emit(st, q).1 + b.quads.len()) as usize,
        ),
{
    let n = b.quads.len();
    assert((b.quads + move_quads(st.cg.quads, n, b.temps)).push(move_quad(q, n, b.temps))
        =~= b.quads + move_quads(st.cg.quads.push(q), n, b.temps));
}

proof fn lemma_new_temp_lift(b: CodeGenView, st: PState)
    ensures
        new_temp(lift(b, st)) == (
            lift(b, new_temp(st).0),
            move_operand(new_temp(st).1, b.temps),
        ),
{
    lemma_move_temp(st.cg.temps + 1, b.temps);
    assert(b.temps + st.cg.temps + 1 == st.cg.temps + 1 + b.temps);
}

proof fn lemma_backpatch_quads_lift(
    bq: Seq<QuadView>,
    q: Seq<QuadView>,
    list: Seq<usize>,
    target: usize,
    m: nat,
)
    requires
        backpatch_quads(q, list, target).1 is Ok,
        bq.len() + q.len() <= usize::MAX,
        bq.len() + target <= usize::MAX,
    ensures
        backpatch_quads(
            bq + move_quads(q, bq.len(), m),
            move_chain(list, bq.len()),
            (target + bq.len()) as usize,
        ) == (bq + move_quads(backpatch_quads(q, list, target).0, bq.len(), m), Ok::<(), Seq<char>>(())),
    decreases list.len(),
{
    let n = bq.len();
    let ml = move_chain(list, n);
    if list.len() == 0 {
        assert(ml.len() == 0);
    } else {
        let i = list[0];
        let qi = q[i as int];
        let big = bq + move_quads(q, n, m);
        assert(ml[0] == (i + n) as usize);
        assert(big[(i + n) as int] == move_quad(qi, n, m));
        let q2 = q.update(i as int, patch_quad(qi, target));
        assert(big.update((i + n) as int, patch_quad(move_quad(qi, n, m), (target + n) as usize))
            =~= bq + move_quads(q2, n, m));
        assert(ml.drop_first() =~= move_chain(list.drop_first(), n));
        lemma_backpatch_quads_lift(bq, q2, list.drop_first(), target, m);
    }
}

proof fn lemma_backpatch_lift(b: CodeGenView, st: PState, list: Seq<usize>, target: usize)
    requires
        backpatch(st, list, target) is Ok,
        b.quads.len() + st.cg.quads.len() <= usize::MAX,
        b.quads.len() + target <= usize::MAX,
    ensures
        backpatch(lift(b, st), move_chain(list, b.quads.len()), (target + b.quads.len()) as usize)
            == Ok::<PState, ErrorView>(lift(b, backpatch(st, list, target)->Ok_0)),
        backpatch(st, list, target)->Ok_0.pos == st.pos,
        backpatch(st, list, target)->Ok_0.cg.quads.len() == st.cg.quads.len(),
{
    lemma_backpatch_quads_lift(b.quads, st.cg.quads, list, target, b.temps);
    lemma_backpatch_len(st.cg.quads, list, target);
}

pub(crate) proof fn lemma_backpatch_len(q: Seq<QuadView>, list: Seq<usize>, target: usize)
    ensures
        backpatch_quads(q, list, target).0.len() == q.len(),
    decreases list.len(),
{
    if list.len() > 0 && list[0] < q.len() && is_jump(q[list[0] as int]) {
        lemma_backpatch_len(q.update(list[0] as int, patch_quad(q[list[0] as int], target)), list.drop_first(), target);
    }
}

proof fn lemma_next_quad_lift(b: CodeGenView, st: PState)
    requires
        b.quads.len() + st.cg.quads.len() <= usize::MAX,
    ensures
        next_quad(lift(b, st)) == (next_quad(st) + b.quads.len()) as usize,
{
}

proof fn lemma_chain_concat(a: Seq<usize>, c: Seq<usize>, n: nat)
    ensures
        move_chain(a + c, n) == move_chain(a, n) + move_chain(c, n),
{
    assert(move_chain(a + c, n) =~= move_chain(a, n) + move_chain(c, n));
}


proof fn lemma_expr_atom_lift(t: Seq<TokenView>, b: CodeGenView, st: PState)
    requires
        no_temp_names(t),
        room(t, b, st),
        s_expr_atom(t, st) is Ok,
    ensures
        s_expr_atom(t, lift(b, st)) == lift_operand_step(b, s_expr_atom(t, st)),
        thrifty(t, st, s_expr_atom(t, st)->Ok_0.0),
    decreases t.len() - st.pos, 1int,
{
    let tok = peek(t, st.pos)->Ok_0;
    assert(advance(lift(b, st)) == lift(b, advance(st)));
    if tok.kind == Terminal::Id || tok.kind == Terminal::Num {
        lemma_move_name(t, st.pos, b.temps);
    } else {
        lemma_bp_lift(t, b, advance(st), 0);
        let st2 = s_expr(t, advance(st))->Ok_0.0;
        assert(advance(lift(b, st2)) == lift(b, advance(st2)));
    }
}

proof fn lemma_bp_lift(t: Seq<TokenView>, b: CodeGenView, st: PState, min_bp: u8)
    requires
        no_temp_names(t),
        room(t, b, st),
        s_expr_bp(t, st, min_bp) is Ok,
    ensures
        s_expr_bp(t, lift(b, st), min_bp) == lift_operand_step(b, s_expr_bp(t, st, min_bp)),
        thrifty(t, st, s_expr_bp(t, st, min_bp)->Ok_0.0),
    decreases t.len() - st.pos, 2int,
{
    lemma_expr_atom_lift(t, b, st);
    let (st1, left) = s_expr_atom(t, st)->Ok_0;
    lemma_expr_loop_lift(t, b, st1, left, min_bp);
}

proof fn lemma_expr_loop_lift(
    t: Seq<TokenView>,
    b: CodeGenView,
    st: PState,
    left: OperandView,
    min_bp: u8,
)
    requires
        no_temp_names(t),
        room(t, b, st),
        s_expr_loop(t, st, left, min_bp) is Ok,
    ensures
        s_expr_loop(t, lift(b, st), move_operand(left, b.temps), min_bp) == lift_operand_step(
            b,
            s_expr_loop(t, st, left, min_bp),
        ),
        thrifty(t, st, s_expr_loop(t, st, left, min_bp)->Ok_0.0),
    decreases t.len() - st.pos, 0int,
{
    let tok = peek(t, st.pos)->Ok_0;
    if let Some((lbp, rbp, op)) = binop(tok.kind) {
        if lbp >= min_bp {
            let st1 = advance(st);
            assert(advance(lift(b, st)) == lift(b, st1));
            lemma_bp_lift(t, b, st1, rbp);
            let (st2, right) = s_expr_bp(t, st1, rbp)->Ok_0;
            lemma_new_temp_lift(b, st2);
            let (st3, temp) = new_temp(st2);
            let q = QuadView::Binary { op, left, right, dest: temp };
            lemma_emit_lift(b, st3, q);
            let (st4, _) = emit(st3, q);
            lemma_expr_loop_lift(t, b, st4, temp, min_bp);
        }
    }
}

proof fn lemma_relation_lift(t: Seq<TokenView>, b: CodeGenView, st: PState)
    requires
        no_temp_names(t),
        room(t, b, st),
        s_relation(t, st) is Ok,
    ensures
        s_relation(t, lift(b, st)) == lift_bool_step(b, s_relation(t, st)),
        thrifty(t, st, s_relation(t, st)->Ok_0.0),
{
    lemma_bp_lift(t, b, st, 0);
    let (st1, left) = s_expr(t, st)->Ok_0;
    assert(advance(lift(b, st1)) == lift(b, advance(st1)));
    let (st2, relop) = s_relop(t, st1)->Ok_0;
    lemma_bp_lift(t, b, st2, 0);
    let (st3, right) = s_expr(t, st2)->Ok_0;
    let q1 = QuadView::JumpIf { relop, left, right, target: JumpTarget::Pending };
    lemma_emit_lift(b, st3, q1);
    let (st4, tj) = emit(st3, q1);
    let q2 = QuadView::Jump { target: JumpTarget::Pending };
    lemma_emit_lift(b, st4, q2);
    let (st5, fj) = emit(st4, q2);
    let n = b.quads.len();
    assert(move_chain(single(tj), n) =~= single((tj + n) as usize));
    assert(move_chain(single(fj), n) =~= single((fj + n) as usize));
}

proof fn lemma_bool_atom_lift(t: Seq<TokenView>, b: CodeGenView, st: PState)
    requires
        no_temp_names(t),
        room(t, b, st),
        s_bool_atom(t, st) is Ok,
    ensures
        s_bool_atom(t, lift(b, st)) == lift_bool_step(b, s_bool_atom(t, st)),
        thrifty(t, st, s_bool_atom(t, st)->Ok_0.0),
    decreases t.len() - st.pos, 2int,
{
    let tok = peek(t, st.pos)->Ok_0;
    let n = b.quads.len();
    assert(advance(lift(b, st)) == lift(b, advance(st)));
    if tok.kind == Terminal::True || tok.kind == Terminal::False {
        let q = QuadView::Jump { target: JumpTarget::Pending };
        lemma_emit_lift(b, advance(st), q);
        let j = emit(advance(st), q).1;
        assert(move_chain(single(j), n) =~= single((j + n) as usize));
        assert(move_chain(Seq::<usize>::empty(), n) =~= Seq::<usize>::empty());
    } else if tok.kind == Terminal::LParen && !group_then_operator(t, st.pos, 0) {
        lemma_or_lift(t, b, advance(st));
        let st1 = s_or(t, advance(st))->Ok_0.0;
        assert(advance(lift(b, st1)) == lift(b, advance(st1)));
    } else {
        lemma_relation_lift(t, b, st);
    }
}

proof fn lemma_not_lift(t: Seq<TokenView>, b: CodeGenView, st: PState)
    requires
        no_temp_names(t),
        room(t, b, st),
        s_not(t, st) is Ok,
    ensures
        s_not(t, lift(b, st)) == lift_bool_step(b, s_not(t, st)),
        thrifty(t, st, s_not(t, st)->Ok_0.0),
    decreases t.len() - st.pos, 3int,
{
    let tok = peek(t, st.pos)->Ok_0;
    if tok.kind == Terminal::Not {
        assert(advance(lift(b, st)) == lift(b, advance(st)));
        lemma_not_lift(t, b, advance(st));
    } else {
        lemma_bool_atom_lift(t, b, st);
    }
}

proof fn lemma_and_lift(t: Seq<TokenView>, b: CodeGenView, st: PState)
    requires
        no_temp_names(t),
        room(t, b, st),
        s_and(t, st) is Ok,
    ensures
        s_and(t, lift(b, st)) == lift_bool_step(b, s_and(t, st)),
        thrifty(t, st, s_and(t, st)->Ok_0.0),
    decreases t.len() - st.pos, 4int,
{
    lemma_not_lift(t, b, st);
    let (st1, left) = s_not(t, st)->Ok_0;
    lemma_and_loop_lift(t, b, st1, left);
}

proof fn lemma_and_loop_lift(t: Seq<TokenView>, b: CodeGenView, st: PState, left: BoolAttrView)
    requires
        no_temp_names(t),
        room(t, b, st),
        s_and_loop(t, st, left) is Ok,
    ensures
        s_and_loop(t, lift(b, st), move_attr(left, b.quads.len())) == lift_bool_step(
            b,
            s_and_loop(t, st, left),
        ),
        thrifty(t, st, s_and_loop(t, st, left)->Ok_0.0),
    decreases t.len() - st.pos, 0int,
{
    let n = b.quads.len();
    let tok = peek(t, st.pos)->Ok_0;
    if tok.kind == Terminal::And {
        let st1 = advance(st);
        assert(advance(lift(b, st)) == lift(b, st1));
        lemma_next_quad_lift(b, st1);
        lemma_backpatch_lift(b, st1, left.tc, next_quad(st1));
        let st2 = backpatch(st1, left.tc, next_quad(st1))->Ok_0;
        lemma_not_lift(t, b, st2);
        let (st3, right) = s_not(t, st2)->Ok_0;
        lemma_chain_concat(left.fc, right.fc, n);
        lemma_and_loop_lift(t, b, st3, BoolAttrView { tc: right.tc, fc: left.fc + right.fc });
    }
}

pub(crate) proof fn lemma_or_lift(t: Seq<TokenView>, b: CodeGenView, st: PState)
    requires
        no_temp_names(t),
        room(t, b, st),
        s_or(t, st) is Ok,
    ensures
        s_or(t, lift(b, st)) == lift_bool_step(b, s_or(t, st)),
        thrifty(t, st, s_or(t, st)->Ok_0.0),
    decreases t.len() - st.pos, 5int,
{
    lemma_and_lift(t, b, st);
    let (st1, left) = s_and(t, st)->Ok_0;
    lemma_or_loop_lift(t, b, st1, left);
}

proof fn lemma_or_loop_lift(t: Seq<TokenView>, b: CodeGenView, st: PState, left: BoolAttrView)
    requires
        no_temp_names(t),
        room(t, b, st),
        s_or_loop(t, st, left) is Ok,
    ensures
        s_or_loop(t, lift(b, st), move_attr(left, b.quads.len())) == lift_bool_step(
            b,
            s_or_loop(t, st, left),
        ),
        thrifty(t, st, s_or_loop(t, st, left)->Ok_0.0),
    decreases t.len() - st.pos, 0int,
{
    let n = b.quads.len();
    let tok = peek(t, st.pos)->Ok_0;
    if tok.kind == Terminal::Or {
        let st1 = advance(st);
        assert(advance(lift(b, st)) == lift(b, st1));
        lemma_next_quad_lift(b, st1);
        lemma_backpatch_lift(b, st1, left.fc, next_quad(st1));
        let st2 = backpatch(st1, left.fc, next_quad(st1))->Ok_0;
        lemma_and_lift(t, b, st2);
        let (st3, right) = s_and(t, st2)->Ok_0;
        lemma_chain_concat(left.tc, right.tc, n);
        lemma_or_loop_lift(t, b, st3, BoolAttrView { tc: left.tc + right.tc, fc: right.fc });
    }
}


// ---------------------------------------------------------------------
// Statements
// ---------------------------------------------------------------------

/// A statement step placed after the code `b`.
pub open spec fn lift_res(b: CodeGenView, r: Result<PState, ErrorView>) -> Result<PState, ErrorView> {
    match r {
        Ok(s) => Ok(lift(b, s)),
        Err(e) => Err(e),
    }
}

proof fn lemma_assignment_core_lift(t: Seq<TokenView>, b: CodeGenView, st: PState)
    requires
        no_temp_names(t),
        room(t, b, st),
        s_assignment_core(t, st) is Ok,
    ensures
        s_assignment_core(t, lift(b, st)) == lift_res(b, s_assignment_core(t, st)),
        thrifty(t, st, s_assignment_core(t, st)->Ok_0),
{
    let (st1, id) = expect(t, st, Terminal::Id)->Ok_0;
    assert(advance(lift(b, st)) == lift(b, st1));
    let st2 = expect(t, st1, Terminal::Assign)->Ok_0.0;
    assert(advance(lift(b, st1)) == lift(b, st2));
    lemma_bp_lift(t, b, st2, 0);
    let (st3, place) = s_expr(t, st2)->Ok_0;
    lemma_move_name(t, st.pos, b.temps);
    let q = QuadView::Assign { src: place, dest: OperandView::Name(id.lexeme) };
    lemma_emit_lift(b, st3, q);
}

proof fn lemma_assignment_stmt_lift(t: Seq<TokenView>, b: CodeGenView, st: PState)
    requires
        no_temp_names(t),
        room(t, b, st),
        s_assignment_stmt(t, st) is Ok,
    ensures
        s_assignment_stmt(t, lift(b, st)) == lift_res(b, s_assignment_stmt(t, st)),
        thrifty(t, st, s_assignment_stmt(t, st)->Ok_0),
{
    lemma_assignment_core_lift(t, b, st);
    let st1 = s_assignment_core(t, st)->Ok_0;
    assert(advance(lift(b, st1)) == lift(b, advance(st1)));
}

proof fn lemma_stmt_list_lift(t: Seq<TokenView>, b: CodeGenView, st: PState)
    requires
        no_temp_names(t),
        room(t, b, st),
        s_stmt_list(t, st) is Ok,
    ensures
        s_stmt_list(t, lift(b, st)) == lift_res(b, s_stmt_list(t, st)),
        thrifty(t, st, s_stmt_list(t, st)->Ok_0),
    decreases t.len() - st.pos, 3int,
{
    if can_start_stmt(t, st.pos) {
        lemma_stmt_lift(t, b, st);
        let st1 = s_stmt(t, st)->Ok_0;
        if progressed(t, st, st1) {
            lemma_stmt_list_lift(t, b, st1);
        }
    }
}

proof fn lemma_stmt_lift(t: Seq<TokenView>, b: CodeGenView, st: PState)
    requires
        no_temp_names(t),
        room(t, b, st),
        s_stmt(t, st) is Ok,
    ensures
        s_stmt(t, lift(b, st)) == lift_res(b, s_stmt(t, st)),
        thrifty(t, st, s_stmt(t, st)->Ok_0),
    decreases t.len() - st.pos, 2int,
{
    let tok = peek(t, st.pos)->Ok_0;
    if tok.kind == Terminal::Id {
        lemma_assignment_stmt_lift(t, b, st);
    } else if tok.kind == Terminal::LBrace {
        lemma_block_lift(t, b, st);
    } else if tok.kind == Terminal::If {
        lemma_if_lift(t, b, st);
    } else {
        lemma_while_lift(t, b, st);
    }
}

proof fn lemma_block_lift(t: Seq<TokenView>, b: CodeGenView, st: PState)
    requires
        no_temp_names(t),
        room(t, b, st),
        s_block(t, st) is Ok,
    ensures
        s_block(t, lift(b, st)) == lift_res(b, s_block(t, st)),
        thrifty(t, st, s_block(t, st)->Ok_0),
    decreases t.len() - st.pos, 1int,
{
    let st1 = expect(t, st, Terminal::LBrace)->Ok_0.0;
    assert(advance(lift(b, st)) == lift(b, st1));
    lemma_stmt_list_lift(t, b, st1);
    let st2 = s_stmt_list(t, st1)->Ok_0;
    assert(advance(lift(b, st2)) == lift(b, advance(st2)));
}

proof fn lemma_if_lift(t: Seq<TokenView>, b: CodeGenView, st: PState)
    requires
        no_temp_names(t),
        room(t, b, st),
        s_if(t, st) is Ok,
    ensures
        s_if(t, lift(b, st)) == lift_res(b, s_if(t, st)),
        thrifty(t, st, s_if(t, st)->Ok_0),
    decreases t.len() - st.pos, 1int,
{
    let n = b.quads.len();
    let st1 = expect(t, st, Terminal::If)->Ok_0.0;
    assert(advance(lift(b, st)) == lift(b, st1));
    let st2 = expect(t, st1, Terminal::LParen)->Ok_0.0;
    assert(advance(lift(b, st1)) == lift(b, st2));
    lemma_or_lift(t, b, st2);
    let (st3, attr) = s_or(t, st2)->Ok_0;
    let st4 = expect(t, st3, Terminal::RParen)->Ok_0.0;
    assert(advance(lift(b, st3)) == lift(b, st4));
    lemma_next_quad_lift(b, st4);
    lemma_backpatch_lift(b, st4, attr.tc, next_quad(st4));
    let st5 = backpatch(st4, attr.tc, next_quad(st4))->Ok_0;
    lemma_block_lift(t, b, st5);
    let st6 = s_block(t, st5)->Ok_0;
    let tok = peek(t, st6.pos)->Ok_0;
    lemma_next_quad_lift(b, st6);
    if tok.kind == Terminal::Else {
        let q = QuadView::Jump { target: JumpTarget::Pending };
        lemma_emit_lift(b, st6, q);
        let (st7, jump) = emit(st6, q);
        let st8 = advance(st7);
        assert(advance(lift(b, st7)) == lift(b, st8));
        lemma_next_quad_lift(b, st8);
        lemma_backpatch_lift(b, st8, attr.fc, next_quad(st8));
        let st9 = backpatch(st8, attr.fc, next_quad(st8))->Ok_0;
        lemma_block_lift(t, b, st9);
        let st10 = s_block(t, st9)->Ok_0;
        lemma_next_quad_lift(b, st10);
        assert(move_chain(single(jump), n) =~= single((jump + n) as usize));
        lemma_backpatch_lift(b, st10, single(jump), next_quad(st10));
    } else {
        lemma_backpatch_lift(b, st6, attr.fc, next_quad(st6));
    }
}

proof fn lemma_while_lift(t: Seq<TokenView>, b: CodeGenView, st: PState)
    requires
        no_temp_names(t),
        room(t, b, st),
        s_while(t, st) is Ok,
    ensures
        s_while(t, lift(b, st)) == lift_res(b, s_while(t, st)),
        thrifty(t, st, s_while(t, st)->Ok_0),
    decreases t.len() - st.pos, 1int,
{
    let st1 = expect(t, st, Terminal::While)->Ok_0.0;
    assert(advance(lift(b, st)) == lift(b, st1));
    let st2 = expect(t, st1, Terminal::LParen)->Ok_0.0;
    assert(advance(lift(b, st1)) == lift(b, st2));
    lemma_next_quad_lift(b, st2);
    lemma_or_lift(t, b, st2);
    let (st3, attr) = s_or(t, st2)->Ok_0;
    let st4 = expect(t, st3, Terminal::RParen)->Ok_0.0;
    assert(advance(lift(b, st3)) == lift(b, st4));
    lemma_next_quad_lift(b, st4);
    lemma_backpatch_lift(b, st4, attr.tc, next_quad(st4));
    let st5 = backpatch(st4, attr.tc, next_quad(st4))->Ok_0;
    lemma_block_lift(t, b, st5);
    let st6 = s_block(t, st5)->Ok_0;
    let q = QuadView::Jump { target: JumpTarget::Target(next_quad(st2)) };
    lemma_emit_lift(b, st6, q);
    let st7 = emit(st6, q).0;
    lemma_next_quad_lift(b, st7);
    lemma_backpatch_lift(b, st7, attr.fc, next_quad(st7));
}

/// Statements translated after any existing code `b` give the code they give
/// alone, moved past `b`: every jump target, including the one closing a
/// `while` loop, and every temporary are moved by what `b` holds.
pub proof fn lemma_statements_relocate(t: Seq<TokenView>, b: CodeGenView, st: PState)
    requires
        no_temp_names(t),
        room(t, b, st),
        s_stmt_list(t, st) is Ok,
    ensures
        s_stmt_list(t, lift(b, st)) == lift_res(b, s_stmt_list(t, st)),
{
    lemma_stmt_list_lift(t, b, st);
}

} // verus!
