//! What the jump code of a boolean expression decides: run from its first
//! quadruple, whatever each comparison gives, control leaves by a jump of
//! the true chain exactly when the expression holds, and by one of the
//! false chain otherwise, evaluating operands left to right and only as far
//! as needed.
use vstd::prelude::*;
use crate::chains::{chain_ok, keeps_prefix, lemma_in_chain_concat};
use crate::codegen::{BoolAttrView, JumpTarget, QuadView, in_chain, is_jump, is_pending_jump, patched};
use crate::lexer::TokenView;
use crate::symbol::Terminal;
use crate::translation::{
    PState, advance, backpatch, group_then_operator, initial_state, next_quad, peek, progressed, s_and,
    s_not, s_relation,
};

verus! {

/// A boolean formula over the comparisons of the code: `Rel(k)` is the
/// comparison of the conditional jump at index `k`.
pub enum Formula {
    Rel(int),
    Lit(bool),
    Not(Box<Formula>),
    And(Box<Formula>, Box<Formula>),
    Or(Box<Formula>, Box<Formula>),
}

/// Whether `f` holds when comparison `k` gives `o(k)`.
pub open spec fn holds(f: Formula, o: spec_fn(int) -> bool) -> bool
    decreases f,
{
    match f {
        Formula::Rel(k) => o(k),
        Formula::Lit(b) => b,
        Formula::Not(g) => !holds(*g, o),
        Formula::And(a, b) => holds(*a, o) && holds(*b, o),
        Formula::Or(a, b) => holds(*a, o) || holds(*b, o),
    }
}

/// Running the quadruples from `pc`, the conditional jump at `k` taken when
/// `o(k)` holds and every other quadruple falling through: the index of the
/// pending jump that control leaves by, if it gets to one by jumping only
/// forward.
pub open spec fn exit_of(qs: Seq<QuadView>, pc: int, o: spec_fn(int) -> bool) -> Option<int>
    decreases qs.len() - pc,
{
    if pc < 0 || pc >= qs.len() {
        None
    } else {
        let taken = match qs[pc] {
            QuadView::JumpIf { .. } => o(pc),
            QuadView::Jump { .. } => true,
            _ => false,
        };
        if !taken {
            exit_of(qs, pc + 1, o)
        } else {
            match crate::codegen::jump_target(qs[pc]) {
                JumpTarget::Pending => Some(pc),
                JumpTarget::Target(t) => if pc < t && t <= qs.len() {
                    exit_of(qs, t as int, o)
                } else {
                    None
                },
            }
        }
    }
}

/// From `begin`, whatever the comparisons give, control leaves by a jump of
/// the true chain exactly when `f` holds, and otherwise by one of the false
/// chain.
pub open spec fn decides(qs: Seq<QuadView>, begin: int, a: BoolAttrView, f: Formula) -> bool {
    forall|o: spec_fn(int) -> bool|
        #[trigger] exit_of(qs, begin, o) matches Some(k) && (in_chain(a.tc, k) <==> holds(f, o)) && (
        in_chain(a.tc, k) || in_chain(a.fc, k))
}

/// Quadruples added at the end change no exit that is reached.
pub proof fn lemma_exit_extend(q: Seq<QuadView>, q2: Seq<QuadView>, pc: int, o: spec_fn(int) -> bool)
    requires
        keeps_prefix(q, q2),
        exit_of(q, pc, o) is Some,
    ensures
        exit_of(q2, pc, o) == exit_of(q, pc, o),
    decreases q.len() - pc,
{
    assert(q2[pc] == q[pc]);
    let taken = match q[pc] {
        QuadView::JumpIf { .. } => o(pc),
        QuadView::Jump { .. } => true,
        _ => false,
    };
    if !taken {
        lemma_exit_extend(q, q2, pc + 1, o);
    } else {
        if let JumpTarget::Target(t) = crate::codegen::jump_target(q[pc]) {
            lemma_exit_extend(q, q2, t as int, o);
        }
    }
}

/// What a stretch of code decides stays so when quadruples are added.
pub proof fn lemma_decides_extend(q: Seq<QuadView>, q2: Seq<QuadView>, begin: int, a: BoolAttrView, f: Formula)
    requires
        decides(q, begin, a, f),
        keeps_prefix(q, q2),
    ensures
        decides(q2, begin, a, f),
{
    assert forall|o: spec_fn(int) -> bool| #[trigger] exit_of(q2, begin, o) matches Some(k) && (in_chain(a.tc, k) <==> holds(f, o)) && (
        in_chain(a.tc, k) || in_chain(a.fc, k)) by {
        assert(exit_of(q, begin, o) is Some);
        lemma_exit_extend(q, q2, begin, o);
    }
}

/// Every entry of the chain is a pending jump of `qs`.
pub open spec fn pending_chain(qs: Seq<QuadView>, list: Seq<usize>) -> bool {
    forall|j: int| #[trigger] in_chain(list, j) ==> 0 <= j < qs.len() && is_pending_jump(qs[j])
}

/// After the jumps of chain `list` are given the target `m` (the end of
/// `q0`) and code is added: an exit by a jump of the chain now goes on from
/// `m`, and every other exit stays.
proof fn lemma_exit_patch(
    q0: Seq<QuadView>,
    list: Seq<usize>,
    q2: Seq<QuadView>,
    pc: int,
    o: spec_fn(int) -> bool,
)
    requires
        pending_chain(q0, list),
        keeps_prefix(patched(q0, list, q0.len() as usize), q2),
        q0.len() <= usize::MAX,
        exit_of(q0, pc, o) is Some,
    ensures
        exit_of(q2, pc, o) == if in_chain(list, exit_of(q0, pc, o)->Some_0) {
            exit_of(q2, q0.len() as int, o)
        } else {
            exit_of(q0, pc, o)
        },
    decreases q0.len() - pc,
{
    let m = q0.len() as usize;
    let q1 = patched(q0, list, m);
    assert(q2[pc] == q1[pc]);
    let taken = match q0[pc] {
        QuadView::JumpIf { .. } => o(pc),
        QuadView::Jump { .. } => true,
        _ => false,
    };
    if in_chain(list, pc) {
        assert(is_pending_jump(q0[pc]));
        assert(q1[pc] == crate::codegen::patch_quad(q0[pc], m));
        if !taken {
            lemma_exit_patch(q0, list, q2, pc + 1, o);
        } else {
            assert(exit_of(q0, pc, o) == Some(pc));
        }
    } else {
        assert(q1[pc] == q0[pc]);
        if !taken {
            lemma_exit_patch(q0, list, q2, pc + 1, o);
        } else {
            if let JumpTarget::Target(t) = crate::codegen::jump_target(q0[pc]) {
                lemma_exit_patch(q0, list, q2, t as int, o);
            }
        }
    }
}

/// From `pc`, quadruples that are not jumps fall through to `j`.
proof fn lemma_fall_through(qs: Seq<QuadView>, pc: int, j: int, o: spec_fn(int) -> bool)
    requires
        0 <= pc <= j < qs.len(),
        forall|k: int| pc <= k < j ==> !is_jump(#[trigger] qs[k]),
    ensures
        exit_of(qs, pc, o) == exit_of(qs, j, o),
    decreases j - pc,
{
    if pc < j {
        assert(!is_jump(qs[pc]));
        lemma_fall_through(qs, pc + 1, j, o);
    }
}

/// The code of a comparison: operand code without jumps, then the
/// conditional jump into the true chain and the jump into the false chain.
pub proof fn lemma_relation_decides(qs: Seq<QuadView>, lo: int, tj: int)
    requires
        0 <= lo <= tj,
        qs.len() == tj + 2,
        tj + 1 <= usize::MAX,
        forall|k: int| lo <= k < tj ==> !is_jump(#[trigger] qs[k]),
        qs[tj] is JumpIf && is_pending_jump(qs[tj]),
        qs[tj + 1] is Jump && is_pending_jump(qs[tj + 1]),
    ensures
        decides(qs, lo, BoolAttrView { tc: seq![tj as usize], fc: seq![(tj + 1) as usize] }, Formula::Rel(tj)),
{
    let a = BoolAttrView { tc: seq![tj as usize], fc: seq![(tj + 1) as usize] };
    assert forall|o: spec_fn(int) -> bool| #[trigger] exit_of(qs, lo, o) matches Some(k) && (in_chain(a.tc, k) <==> holds(Formula::Rel(tj), o)) && (
        in_chain(a.tc, k) || in_chain(a.fc, k)) by {
        lemma_fall_through(qs, lo, tj, o);
        if o(tj) {
            assert(exit_of(qs, lo, o) == Some(tj));
            assert(a.tc[0] as int == tj);
        } else {
            assert(exit_of(qs, tj + 1, o) == Some(tj + 1));
            assert(a.fc[0] as int == tj + 1);
            if in_chain(a.tc, tj + 1) {
                let x = choose|x: int| 0 <= x < a.tc.len() && a.tc[x] as int == tj + 1;
            }
        }
    }
}

/// The code of `true` or `false`: one jump into the true or the false chain.
pub proof fn lemma_literal_decides(qs: Seq<QuadView>, lo: int, b: bool)
    requires
        0 <= lo,
        qs.len() == lo + 1,
        lo <= usize::MAX,
        qs[lo] is Jump && is_pending_jump(qs[lo]),
    ensures
        decides(
            qs,
            lo,
            if b {
                BoolAttrView { tc: seq![lo as usize], fc: Seq::empty() }
            } else {
                BoolAttrView { tc: Seq::empty(), fc: seq![lo as usize] }
            },
            Formula::Lit(b),
        ),
{
    let a = if b {
        BoolAttrView { tc: seq![lo as usize], fc: Seq::empty() }
    } else {
        BoolAttrView { tc: Seq::empty(), fc: seq![lo as usize] }
    };
    assert forall|o: spec_fn(int) -> bool| #[trigger] exit_of(qs, lo, o) matches Some(k) && (in_chain(a.tc, k) <==> holds(Formula::Lit(b), o)) && (
        in_chain(a.tc, k) || in_chain(a.fc, k)) by {
        assert(exit_of(qs, lo, o) == Some(lo));
        if b {
            assert(a.tc[0] as int == lo);
        } else {
            assert(a.fc[0] as int == lo);
        }
    }
}

/// `not B` decides the negation with the chains swapped.
pub proof fn lemma_not_decides(qs: Seq<QuadView>, lo: int, a: BoolAttrView, f: Formula)
    requires
        decides(qs, lo, a, f),
        forall|x: int, y: int| 0 <= x < a.tc.len() && 0 <= y < a.fc.len() ==> #[trigger] a.tc[x] != #[trigger] a.fc[y],
    ensures
        decides(qs, lo, BoolAttrView { tc: a.fc, fc: a.tc }, Formula::Not(Box::new(f))),
{
    let s = BoolAttrView { tc: a.fc, fc: a.tc };
    assert forall|o: spec_fn(int) -> bool| #[trigger] exit_of(qs, lo, o) matches Some(k) && (in_chain(s.tc, k) <==> holds(Formula::Not(Box::new(f)), o)) && (
        in_chain(s.tc, k) || in_chain(s.fc, k)) by {
        let k = exit_of(qs, lo, o)->Some_0;
        if in_chain(a.tc, k) && in_chain(a.fc, k) {
            let x = choose|x: int| 0 <= x < a.tc.len() && a.tc[x] as int == k;
            let y = choose|y: int| 0 <= y < a.fc.len() && a.fc[y] as int == k;
            assert(a.tc[x] != a.fc[y]);
        }
    }
}

/// `B1 and B2`: with B1's true chain sent to the start of B2, the code from
/// B1's start decides the conjunction; the false chains merge.
pub proof fn lemma_and_decides(
    q0: Seq<QuadView>,
    lo: int,
    left: BoolAttrView,
    lf: Formula,
    q2: Seq<QuadView>,
    right: BoolAttrView,
    rf: Formula,
)
    requires
        decides(q0, lo, left, lf),
        chain_ok(q0, lo, left.tc),
        chain_ok(q0, lo, left.fc),
        q0.len() <= usize::MAX,
        keeps_prefix(patched(q0, left.tc, q0.len() as usize), q2),
        decides(q2, q0.len() as int, right, rf),
        chain_ok(q2, q0.len() as int, right.tc),
        chain_ok(q2, q0.len() as int, right.fc),
    ensures
        decides(
            q2,
            lo,
            BoolAttrView { tc: right.tc, fc: left.fc + right.fc },
            Formula::And(Box::new(lf), Box::new(rf)),
        ),
{
    let m = q0.len() as int;
    let n = BoolAttrView { tc: right.tc, fc: left.fc + right.fc };
    let f = Formula::And(Box::new(lf), Box::new(rf));
    assert forall|j: int| #[trigger] in_chain(left.tc, j) implies 0 <= j < q0.len() && is_pending_jump(q0[j]) by {
        let x = choose|x: int| 0 <= x < left.tc.len() && left.tc[x] as int == j;
    }
    assert forall|o: spec_fn(int) -> bool| #[trigger] exit_of(q2, lo, o) matches Some(k) && (in_chain(n.tc, k) <==> holds(f, o)) && (
        in_chain(n.tc, k) || in_chain(n.fc, k)) by {
        assert(exit_of(q0, lo, o) is Some);
        let k0 = exit_of(q0, lo, o)->Some_0;
        lemma_exit_patch(q0, left.tc, q2, lo, o);
        if in_chain(left.tc, k0) {
            assert(exit_of(q2, m, o) is Some);
            let k = exit_of(q2, m, o)->Some_0;
            lemma_in_chain_concat(left.fc, right.fc, k);
            assert(k >= m) by {
                if in_chain(right.tc, k) {
                    let x = choose|x: int| 0 <= x < right.tc.len() && right.tc[x] as int == k;
                } else {
                    let x = choose|x: int| 0 <= x < right.fc.len() && right.fc[x] as int == k;
                }
            }
            if in_chain(left.fc, k) {
                let x = choose|x: int| 0 <= x < left.fc.len() && left.fc[x] as int == k;
            }
        } else {
            assert(in_chain(left.fc, k0));
            lemma_in_chain_concat(left.fc, right.fc, k0);
            let y = choose|y: int| 0 <= y < left.fc.len() && left.fc[y] as int == k0;
            if in_chain(right.tc, k0) {
                let x = choose|x: int| 0 <= x < right.tc.len() && right.tc[x] as int == k0;
            }
        }
    }
}

/// `B1 or B2`: with B1's false chain sent to the start of B2, the code from
/// B1's start decides the disjunction; the true chains merge.
pub proof fn lemma_or_decides(
    q0: Seq<QuadView>,
    lo: int,
    left: BoolAttrView,
    lf: Formula,
    q2: Seq<QuadView>,
    right: BoolAttrView,
    rf: Formula,
)
    requires
        decides(q0, lo, left, lf),
        chain_ok(q0, lo, left.tc),
        chain_ok(q0, lo, left.fc),
        q0.len() <= usize::MAX,
        keeps_prefix(patched(q0, left.fc, q0.len() as usize), q2),
        decides(q2, q0.len() as int, right, rf),
        chain_ok(q2, q0.len() as int, right.tc),
        chain_ok(q2, q0.len() as int, right.fc),
        forall|x: int, y: int|
            0 <= x < left.tc.len() && 0 <= y < left.fc.len() ==> #[trigger] left.tc[x] != #[trigger] left.fc[y],
    ensures
        decides(
            q2,
            lo,
            BoolAttrView { tc: left.tc + right.tc, fc: right.fc },
            Formula::Or(Box::new(lf), Box::new(rf)),
        ),
{
    let m = q0.len() as int;
    let n = BoolAttrView { tc: left.tc + right.tc, fc: right.fc };
    let f = Formula::Or(Box::new(lf), Box::new(rf));
    assert forall|j: int| #[trigger] in_chain(left.fc, j) implies 0 <= j < q0.len() && is_pending_jump(q0[j]) by {
        let x = choose|x: int| 0 <= x < left.fc.len() && left.fc[x] as int == j;
    }
    assert forall|o: spec_fn(int) -> bool| #[trigger] exit_of(q2, lo, o) matches Some(k) && (in_chain(n.tc, k) <==> holds(f, o)) && (
        in_chain(n.tc, k) || in_chain(n.fc, k)) by {
        assert(exit_of(q0, lo, o) is Some);
        let k0 = exit_of(q0, lo, o)->Some_0;
        lemma_exit_patch(q0, left.fc, q2, lo, o);
        if in_chain(left.fc, k0) {
            if in_chain(left.tc, k0) {
                let x = choose|x: int| 0 <= x < left.tc.len() && left.tc[x] as int == k0;
                let y = choose|y: int| 0 <= y < left.fc.len() && left.fc[y] as int == k0;
                assert(left.tc[x] != left.fc[y]);
            }
            assert(exit_of(q2, m, o) is Some);
            let k = exit_of(q2, m, o)->Some_0;
            lemma_in_chain_concat(left.tc, right.tc, k);
            assert(k >= m) by {
                if in_chain(right.tc, k) {
                    let x = choose|x: int| 0 <= x < right.tc.len() && right.tc[x] as int == k;
                } else {
                    let x = choose|x: int| 0 <= x < right.fc.len() && right.fc[x] as int == k;
                }
            }
            if in_chain(left.tc, k) {
                let x = choose|x: int| 0 <= x < left.tc.len() && left.tc[x] as int == k;
            }
        } else {
            assert(in_chain(left.tc, k0));
            lemma_in_chain_concat(left.tc, right.tc, k0);
            let y = choose|y: int| 0 <= y < left.tc.len() && left.tc[y] as int == k0;
            if in_chain(right.fc, k0) {
                let x = choose|x: int| 0 <= x < right.fc.len() && right.fc[x] as int == k0;
            }
        }
    }
}

/// The formula of `E1 relop E2`: its comparison.
pub open spec fn formula_relation(toks: Seq<TokenView>, st: PState) -> Formula {
    match s_relation(toks, st) {
        Ok((_, a)) => Formula::Rel(a.tc[0] as int),
        Err(_) => Formula::Lit(false),
    }
}

/// The formula of `true`, `false`, a parenthesized boolean expression, or a
/// relation.
pub open spec fn formula_atom(toks: Seq<TokenView>, st: PState) -> Formula
    decreases toks.len() - st.pos, 2int,
{
    match peek(toks, st.pos) {
        Err(_) => Formula::Lit(false),
        Ok(t) => if t.kind == Terminal::True {
            Formula::Lit(true)
        } else if t.kind == Terminal::False {
            Formula::Lit(false)
        } else if t.kind == Terminal::LParen && !group_then_operator(toks, st.pos, 0) {
            formula_or(toks, advance(st))
        } else {
            formula_relation(toks, st)
        },
    }
}

/// The formula of `not ... not B`.
pub open spec fn formula_not(toks: Seq<TokenView>, st: PState) -> Formula
    decreases toks.len() - st.pos, 3int,
{
    match peek(toks, st.pos) {
        Err(_) => Formula::Lit(false),
        Ok(t) => if t.kind == Terminal::Not {
            Formula::Not(Box::new(formula_not(toks, advance(st))))
        } else {
            formula_atom(toks, st)
        },
    }
}

/// The formula of `not`-terms joined by `and`, grouped from the left.
pub open spec fn formula_and(toks: Seq<TokenView>, st: PState) -> Formula
    decreases toks.len() - st.pos, 4int,
{
    match s_not(toks, st) {
        Err(_) => Formula::Lit(false),
        Ok((st1, left)) => if progressed(toks, st, st1) {
            formula_and_loop(toks, st1, left, formula_not(toks, st))
        } else {
            Formula::Lit(false)
        },
    }
}

/// The rest of an `and` chain after the terms read so far (formula `lf`,
/// chains `left`).
pub open spec fn formula_and_loop(toks: Seq<TokenView>, st: PState, left: BoolAttrView, lf: Formula) -> Formula
    decreases toks.len() - st.pos, 0int,
{
    match peek(toks, st.pos) {
        Err(_) => lf,
        Ok(t) => if t.kind == Terminal::And {
            let st1 = advance(st);
            match backpatch(st1, left.tc, next_quad(st1)) {
                Err(_) => lf,
                Ok(st2) => match s_not(toks, st2) {
                    Err(_) => lf,
                    Ok((st3, right)) => if progressed(toks, st, st3) {
                        formula_and_loop(
                            toks,
                            st3,
                            BoolAttrView { tc: right.tc, fc: left.fc + right.fc },
                            Formula::And(Box::new(lf), Box::new(formula_not(toks, st2))),
                        )
                    } else {
                        lf
                    },
                },
            }
        } else {
            lf
        },
    }
}

/// The formula of `and`-terms joined by `or`, grouped from the left.
pub open spec fn formula_or(toks: Seq<TokenView>, st: PState) -> Formula
    decreases toks.len() - st.pos, 5int,
{
    match s_and(toks, st) {
        Err(_) => Formula::Lit(false),
        Ok((st1, left)) => if progressed(toks, st, st1) {
            formula_or_loop(toks, st1, left, formula_and(toks, st))
        } else {
            Formula::Lit(false)
        },
    }
}

/// The rest of an `or` chain after the terms read so far (formula `lf`,
/// chains `left`).
pub open spec fn formula_or_loop(toks: Seq<TokenView>, st: PState, left: BoolAttrView, lf: Formula) -> Formula
    decreases toks.len() - st.pos, 0int,
{
    match peek(toks, st.pos) {
        Err(_) => lf,
        Ok(t) => if t.kind == Terminal::Or {
            let st1 = advance(st);
            match backpatch(st1, left.fc, next_quad(st1)) {
                Err(_) => lf,
                Ok(st2) => match s_and(toks, st2) {
                    Err(_) => lf,
                    Ok((st3, right)) => if progressed(toks, st, st3) {
                        formula_or_loop(
                            toks,
                            st3,
                            BoolAttrView { tc: left.tc + right.tc, fc: right.fc },
                            Formula::Or(Box::new(lf), Box::new(formula_and(toks, st2))),
                        )
                    } else {
                        lf
                    },
                },
            }
        } else {
            lf
        },
    }
}

/// The formula of a boolean expression: its comparisons (each named by the
/// index of its conditional jump) and literals combined by `not`, `and`
/// and `or`, `not` binding tightest and `or` loosest.
pub open spec fn bool_formula(toks: Seq<TokenView>) -> Formula {
    formula_or(toks, initial_state())
}

} // verus!
