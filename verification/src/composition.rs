//! `( B1 ) and ( B2 )` and `( B1 ) or ( B2 )` translate as the documented
//! composition of the translations of `B1` and `B2`: `B1`'s code, one of
//! its chains backpatched to where `B2`'s code begins, then `B2`'s code
//! moved after it.
use vstd::prelude::*;
use crate::code_shift::{
    after, lemma_or_lift, lift, move_attr, move_chain, no_temp_names, room, thrifty,
};
use crate::codegen::{BoolAttrView, CodeGenView, backpatch_quads};
use crate::error::ErrorView;
use crate::lexer::TokenView;
use crate::paren_balance::{lemma_gto_skip, lemma_or_balanced};
use crate::shifted_input::{corresp, lemma_or_sh, same_tok, sh};
use crate::symbol::Terminal;
use crate::translation::{
    PState, advance, backpatch, group_then_operator, initial_state, next_quad, s_and, s_and_loop,
    s_bool_atom, s_not, s_or, s_or_loop, spec_parse_bool,
};

verus! {

/// Tokens as the lexer ends them: the end marker last and nowhere else.
pub open spec fn ends_once(t: Seq<TokenView>) -> bool {
    &&& t.len() >= 1
    &&& t.last().kind == Terminal::End
    &&& forall|k: int| 0 <= k < t.len() - 1 ==> (#[trigger] t[k]).kind != Terminal::End
}

/// `t` is `( t1 ) op ( t2 )` followed by the end marker, where `t1` and
/// `t2` each lose their end marker.
pub open spec fn joined(t: Seq<TokenView>, t1: Seq<TokenView>, op: Terminal, t2: Seq<TokenView>) -> bool {
    let n1 = t1.len() as int;
    let n2 = t2.len() as int;
    &&& t.len() == n1 + n2 + 4
    &&& t[0].kind == Terminal::LParen
    &&& forall|i: int| 0 <= i < n1 - 1 ==> same_tok(#[trigger] t[i + 1], t1[i])
    &&& t[n1].kind == Terminal::RParen
    &&& t[n1 + 1].kind == op
    &&& t[n1 + 2].kind == Terminal::LParen
    &&& forall|i: int| 0 <= i < n2 - 1 ==> same_tok(#[trigger] t[i + n1 + 3], t2[i])
    &&& t[n1 + n2 + 2].kind == Terminal::RParen
    &&& t[n1 + n2 + 3].kind == Terminal::End
}

/// The translation of `( B1 ) and ( B2 )` from those of `B1` and `B2`:
/// `B1`'s true chain goes to where `B2`'s code begins; the true chain is
/// `B2`'s, the false chain `B1`'s followed by `B2`'s.
pub open spec fn and_of(o1: (CodeGenView, BoolAttrView), o2: (CodeGenView, BoolAttrView)) -> Result<
    (CodeGenView, BoolAttrView),
    ErrorView,
> {
    let (cg1, a1) = o1;
    let (cg2, a2) = o2;
    let n = cg1.quads.len();
    match backpatch_quads(cg1.quads, a1.tc, n as usize) {
        (q, Ok(())) => Ok(
            (
                after(CodeGenView { quads: q, temps: cg1.temps }, cg2),
                BoolAttrView { tc: move_chain(a2.tc, n), fc: a1.fc + move_chain(a2.fc, n) },
            ),
        ),
        (_, Err(m)) => Err(ErrorView::Codegen { message: m }),
    }
}

/// The translation of `( B1 ) or ( B2 )` from those of `B1` and `B2`:
/// `B1`'s false chain goes to where `B2`'s code begins; the true chain is
/// `B1`'s followed by `B2`'s, the false chain `B2`'s.
pub open spec fn or_of(o1: (CodeGenView, BoolAttrView), o2: (CodeGenView, BoolAttrView)) -> Result<
    (CodeGenView, BoolAttrView),
    ErrorView,
> {
    let (cg1, a1) = o1;
    let (cg2, a2) = o2;
    let n = cg1.quads.len();
    match backpatch_quads(cg1.quads, a1.fc, n as usize) {
        (q, Ok(())) => Ok(
            (
                after(CodeGenView { quads: q, temps: cg1.temps }, cg2),
                BoolAttrView { tc: a1.tc + move_chain(a2.tc, n), fc: move_chain(a2.fc, n) },
            ),
        ),
        (_, Err(m)) => Err(ErrorView::Codegen { message: m }),
    }
}

/// The first group: `( B1 )` read from the start, with nothing emitted
/// before it.
proof fn lemma_first_group(t: Seq<TokenView>, t1: Seq<TokenView>, op: Terminal, t2: Seq<TokenView>)
    requires
        ends_once(t1),
        ends_once(t2),
        joined(t, t1, op, t2),
        op == Terminal::And || op == Terminal::Or,
        spec_parse_bool(t1) is Ok,
        no_temp_names(t1),
        8 * (t1.len() + t2.len()) <= usize::MAX,
    ensures
        ({
            let (st1, a1) = s_or(t1, initial_state())->Ok_0;
            &&& s_bool_atom(t, initial_state()) == Ok::<(PState, BoolAttrView), ErrorView>(
                (PState { pos: t1.len() + 1int, cg: st1.cg }, a1),
            )
            &&& st1.pos == t1.len() - 1
            &&& spec_parse_bool(t1) == Ok::<(CodeGenView, BoolAttrView), ErrorView>((st1.cg, a1))
            &&& st1.cg.quads.len() <= 2 * t1.len()
        }),
{
    let n1 = t1.len() as int;
    let st0 = initial_state();
    assert(corresp(t1, t, 1));
    lemma_or_sh(t1, t, 1, st0);
    let (st1, a1) = s_or(t1, st0)->Ok_0;
    assert(st1.pos == n1 - 1) by {
        if st1.pos < n1 - 1 {
            assert(t1[st1.pos].kind != Terminal::End);
        }
    }
    assert(room(t1, st0.cg, st0));
    lemma_or_lift(t1, st0.cg, st0);
    assert(thrifty(t1, st0, st1));
    let p1 = advance(st0);
    assert(p1 == sh(st0, 1));
    lemma_or_balanced(t, p1);
    lemma_gto_skip(t, 1, n1, 1);
    assert(!group_then_operator(t, 0, 0));
}

/// The second group: `( B2 )` read after `B1`'s code, one chain of it
/// backpatched.
proof fn lemma_second_group(
    t: Seq<TokenView>,
    t1: Seq<TokenView>,
    op: Terminal,
    t2: Seq<TokenView>,
    cgp: CodeGenView,
)
    requires
        ends_once(t1),
        ends_once(t2),
        joined(t, t1, op, t2),
        op == Terminal::And || op == Terminal::Or,
        spec_parse_bool(t2) is Ok,
        no_temp_names(t),
        8 * (t1.len() + t2.len()) <= usize::MAX,
        cgp.quads.len() <= 2 * t1.len(),
    ensures
        ({
            let (st2, a2) = s_or(t2, initial_state())->Ok_0;
            let stp = PState { pos: t1.len() + 2int, cg: cgp };
            &&& s_bool_atom(t, stp) == Ok::<(PState, BoolAttrView), ErrorView>(
                (PState { pos: t1.len() + t2.len() + 3int, cg: after(cgp, st2.cg) }, move_attr(a2, cgp.quads.len())),
            )
            &&& spec_parse_bool(t2) == Ok::<(CodeGenView, BoolAttrView), ErrorView>((st2.cg, a2))
        }),
{
    let n1 = t1.len() as int;
    let n2 = t2.len() as int;
    let d = n1 + 3;
    let st0 = initial_state();
    assert forall|i: int| 0 <= i < n2 - 1 implies same_tok(#[trigger] t[i + d], t2[i]) by {
        assert(same_tok(t[i + n1 + 3], t2[i]));
    }
    assert(corresp(t2, t, d));
    lemma_or_sh(t2, t, d, st0);
    let (st2, a2) = s_or(t2, st0)->Ok_0;
    assert(st2.pos == n2 - 1) by {
        if st2.pos < n2 - 1 {
            assert(t2[st2.pos].kind != Terminal::End);
        }
    }
    let q0 = sh(st0, d);
    assert(lift(cgp, q0).cg == cgp) by {
        assert(after(cgp, st0.cg).quads =~= cgp.quads);
    }
    assert(room(t, cgp, q0));
    lemma_or_lift(t, cgp, q0);
    let stp = PState { pos: n1 + 2, cg: cgp };
    assert(advance(stp) == lift(cgp, q0));
    lemma_or_balanced(t, advance(stp));
    lemma_gto_skip(t, n1 + 3, n1 + n2 + 2, 1);
    assert(!group_then_operator(t, n1 + 2, 0));
}

/// `( B1 ) and ( B2 )` translates as `B1` followed by `B2` joined by a
/// short-circuit `and`: `B1`'s true chain is backpatched to the first
/// quadruple of `B2`, `B2`'s quadruples follow with their indices, jump
/// targets and chain entries moved past `B1`'s and their temporaries
/// renumbered past `B1`'s; the true chain is `B2`'s, the false chain
/// `B1`'s followed by `B2`'s.
pub proof fn lemma_and_composition(t: Seq<TokenView>, t1: Seq<TokenView>, t2: Seq<TokenView>)
    requires
        ends_once(t1),
        ends_once(t2),
        joined(t, t1, Terminal::And, t2),
        no_temp_names(t),
        no_temp_names(t1),
        8 * (t1.len() + t2.len()) <= usize::MAX,
        spec_parse_bool(t1) is Ok,
        spec_parse_bool(t2) is Ok,
    ensures
        spec_parse_bool(t) == and_of(spec_parse_bool(t1)->Ok_0, spec_parse_bool(t2)->Ok_0),
{
    let n1 = t1.len() as int;
    let n2 = t2.len() as int;
    let st0 = initial_state();
    lemma_first_group(t, t1, Terminal::And, t2);
    let (st1, a1) = s_or(t1, st0)->Ok_0;
    let cg1 = st1.cg;
    let e1 = PState { pos: n1 + 1, cg: cg1 };
    assert(s_not(t, st0) == Ok::<(PState, BoolAttrView), ErrorView>((e1, a1)));
    let sa = advance(e1);
    assert(next_quad(sa) == cg1.quads.len() as usize);
    match backpatch(sa, a1.tc, next_quad(sa)) {
        Err(e) => {
            assert(s_and_loop(t, e1, a1) == Err::<(PState, BoolAttrView), ErrorView>(e));
            assert(s_and(t, st0) == Err::<(PState, BoolAttrView), ErrorView>(e));
            assert(s_or(t, st0) == Err::<(PState, BoolAttrView), ErrorView>(e));
        },
        Ok(stp) => {
            let cgp = stp.cg;
            assert(stp.pos == n1 + 2);
            assert(cgp.quads.len() == cg1.quads.len()) by {
                crate::code_shift::lemma_backpatch_len(cg1.quads, a1.tc, next_quad(sa));
            }
            lemma_second_group(t, t1, Terminal::And, t2, cgp);
            let (st2, a2) = s_or(t2, st0)->Ok_0;
            let n = cgp.quads.len();
            let e2 = PState { pos: n1 + n2 + 3, cg: after(cgp, st2.cg) };
            let a2m = move_attr(a2, n);
            assert(s_not(t, stp) == Ok::<(PState, BoolAttrView), ErrorView>((e2, a2m)));
            let fin = BoolAttrView { tc: a2m.tc, fc: a1.fc + a2m.fc };
            assert(s_and_loop(t, e2, fin) == Ok::<(PState, BoolAttrView), ErrorView>((e2, fin)));
            assert(s_and_loop(t, e1, a1) == Ok::<(PState, BoolAttrView), ErrorView>((e2, fin)));
            assert(s_and(t, st0) == Ok::<(PState, BoolAttrView), ErrorView>((e2, fin)));
            assert(s_or_loop(t, e2, fin) == Ok::<(PState, BoolAttrView), ErrorView>((e2, fin)));
            assert(s_or(t, st0) == Ok::<(PState, BoolAttrView), ErrorView>((e2, fin)));
        },
    }
}

/// `( B1 ) or ( B2 )` translates as `B1` followed by `B2` joined by a
/// short-circuit `or`: `B1`'s false chain is backpatched to the first
/// quadruple of `B2`, `B2`'s quadruples follow with their indices, jump
/// targets and chain entries moved past `B1`'s and their temporaries
/// renumbered past `B1`'s; the true chain is `B1`'s followed by `B2`'s,
/// the false chain `B2`'s.
pub proof fn lemma_or_composition(t: Seq<TokenView>, t1: Seq<TokenView>, t2: Seq<TokenView>)
    requires
        ends_once(t1),
        ends_once(t2),
        joined(t, t1, Terminal::Or, t2),
        no_temp_names(t),
        no_temp_names(t1),
        8 * (t1.len() + t2.len()) <= usize::MAX,
        spec_parse_bool(t1) is Ok,
        spec_parse_bool(t2) is Ok,
    ensures
        spec_parse_bool(t) == or_of(spec_parse_bool(t1)->Ok_0, spec_parse_bool(t2)->Ok_0),
{
    let n1 = t1.len() as int;
    let n2 = t2.len() as int;
    let st0 = initial_state();
    lemma_first_group(t, t1, Terminal::Or, t2);
    let (st1, a1) = s_or(t1, st0)->Ok_0;
    let cg1 = st1.cg;
    let e1 = PState { pos: n1 + 1, cg: cg1 };
    assert(s_not(t, st0) == Ok::<(PState, BoolAttrView), ErrorView>((e1, a1)));
    assert(s_and(t, st0) == Ok::<(PState, BoolAttrView), ErrorView>((e1, a1)));
    let sa = advance(e1);
    assert(next_quad(sa) == cg1.quads.len() as usize);
    match backpatch(sa, a1.fc, next_quad(sa)) {
        Err(e) => {
            assert(s_or_loop(t, e1, a1) == Err::<(PState, BoolAttrView), ErrorView>(e));
            assert(s_or(t, st0) == Err::<(PState, BoolAttrView), ErrorView>(e));
        },
        Ok(stp) => {
            let cgp = stp.cg;
            assert(stp.pos == n1 + 2);
            assert(cgp.quads.len() == cg1.quads.len()) by {
                crate::code_shift::lemma_backpatch_len(cg1.quads, a1.fc, next_quad(sa));
            }
            lemma_second_group(t, t1, Terminal::Or, t2, cgp);
            let (st2, a2) = s_or(t2, st0)->Ok_0;
            let n = cgp.quads.len();
            let e2 = PState { pos: n1 + n2 + 3, cg: after(cgp, st2.cg) };
            let a2m = move_attr(a2, n);
            assert(s_not(t, stp) == Ok::<(PState, BoolAttrView), ErrorView>((e2, a2m)));
            assert(s_and_loop(t, e2, a2m) == Ok::<(PState, BoolAttrView), ErrorView>((e2, a2m)));
            assert(s_and(t, stp) == Ok::<(PState, BoolAttrView), ErrorView>((e2, a2m)));
            let fin = BoolAttrView { tc: a1.tc + a2m.tc, fc: a2m.fc };
            assert(s_or_loop(t, e2, fin) == Ok::<(PState, BoolAttrView), ErrorView>((e2, fin)));
            assert(s_or_loop(t, e1, a1) == Ok::<(PState, BoolAttrView), ErrorView>((e2, fin)));
            assert(s_or(t, st0) == Ok::<(PState, BoolAttrView), ErrorView>((e2, fin)));
        },
    }
}

} // verus!
