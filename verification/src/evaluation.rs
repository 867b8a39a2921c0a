//! What an assignment's quadruples compute. Run in order over a store of
//! integer values, they set the target to the value of the expression read
//! with the usual precedence: `*` and `/` bind tighter than `+` and `-`,
//! operators of one level group to the left, and parentheses group first.
use vstd::prelude::*;
use crate::code_shift::{is_temp_name, lemma_temp_name_injective, no_temp_names, temp_index};
use crate::codegen::{OperandView, QuadView, temp_name};
use crate::lexer::TokenView;
use crate::paren_balance::{
    balanced, depth_between, lemma_concat, lemma_depth_split, lemma_single, lemma_wrap,
};
use crate::symbol::Terminal;
use crate::translation::{
    PState, advance, binop, emit, expect, initial_state, new_temp, peek, s_assignment_core,
    s_expr, s_expr_atom, s_expr_bp, s_expr_loop, spec_parse_assignment,
};

verus! {

// ---------------------------------------------------------------------
// The value of an expression, read with the usual precedence
// ---------------------------------------------------------------------

/// `+` or `-`.
pub open spec fn is_add_kind(k: Terminal) -> bool {
    k == Terminal::Plus || k == Terminal::Minus
}

/// `*` or `/`.
pub open spec fn is_mul_kind(k: Terminal) -> bool {
    k == Terminal::Star || k == Terminal::Slash
}

/// An operator of the additive (`add`) or the multiplicative level.
pub open spec fn op_of_level(k: Terminal, add: bool) -> bool {
    if add {
        is_add_kind(k)
    } else {
        is_mul_kind(k)
    }
}

/// The last operator of the level among tokens `i .. j` that stands
/// outside every parenthesis opened there; `i - 1` when there is none.
pub open spec fn last_top(t: Seq<TokenView>, i: int, j: int, add: bool) -> int
    decreases j - i,
{
    if j <= i {
        i - 1
    } else if depth_between(t, i, j - 1) == 0 && op_of_level(t[j - 1].kind, add) {
        j - 1
    } else {
        last_top(t, i, j - 1, add)
    }
}

/// What an operator token does to two values (division by zero gives 0).
pub open spec fn apply_kind(k: Terminal, a: int, b: int) -> int {
    if k == Terminal::Plus {
        a + b
    } else if k == Terminal::Minus {
        a - b
    } else if k == Terminal::Star {
        a * b
    } else if b == 0 {
        0
    } else {
        a / b
    }
}

/// A string of decimal digits.
pub open spec fn is_numeral(s: Seq<char>) -> bool {
    s.len() > 0 && forall|i: int| 0 <= i < s.len() ==> '0' <= #[trigger] s[i] <= '9'
}

/// The number a string of decimal digits denotes.
pub open spec fn numeral_value(s: Seq<char>) -> int
    decreases s.len(),
{
    if s.len() == 0 {
        0
    } else {
        10 * numeral_value(s.drop_last()) + (s.last() as int - '0' as int)
    }
}

/// The value of an operand's text: a numeral's number, else the variable's
/// value in `env`.
pub open spec fn text_value(env: Map<Seq<char>, int>, s: Seq<char>) -> int {
    if is_numeral(s) {
        numeral_value(s)
    } else {
        env[s]
    }
}

/// The value of tokens `i .. j` read as a sum of terms (left to right).
pub open spec fn e_value(t: Seq<TokenView>, i: int, j: int, env: Map<Seq<char>, int>) -> int
    decreases j - i, 2int,
{
    let k = last_top(t, i, j, true);
    if i <= k < j {
        apply_kind(t[k].kind, e_value(t, i, k, env), t_value(t, k + 1, j, env))
    } else {
        t_value(t, i, j, env)
    }
}

/// The value of tokens `i .. j` read as a product of factors (left to
/// right).
pub open spec fn t_value(t: Seq<TokenView>, i: int, j: int, env: Map<Seq<char>, int>) -> int
    decreases j - i, 1int,
{
    let k = last_top(t, i, j, false);
    if i <= k < j {
        apply_kind(t[k].kind, t_value(t, i, k, env), f_value(t, k + 1, j, env))
    } else {
        f_value(t, i, j, env)
    }
}

/// The value of tokens `i .. j` read as a factor: a parenthesized sum, or
/// a variable or numeral.
pub open spec fn f_value(t: Seq<TokenView>, i: int, j: int, env: Map<Seq<char>, int>) -> int
    decreases j - i, 0int,
{
    if j - i >= 2 && t[i].kind == Terminal::LParen {
        e_value(t, i + 1, j - 1, env)
    } else {
        text_value(env, t[i].lexeme)
    }
}

// ---------------------------------------------------------------------
// Running quadruples
// ---------------------------------------------------------------------

/// What an operator's text does to two values.
pub open spec fn apply_text(op: Seq<char>, a: int, b: int) -> int {
    if op == "+"@ {
        a + b
    } else if op == "-"@ {
        a - b
    } else if op == "*"@ {
        a * b
    } else if b == 0 {
        0
    } else {
        a / b
    }
}

/// The value of an operand in `env`.
pub open spec fn operand_value(env: Map<Seq<char>, int>, o: OperandView) -> int {
    match o {
        OperandView::Name(s) => text_value(env, s),
        OperandView::Empty => 0,
    }
}

/// The store after one quadruple: an operation or a copy stores into its
/// destination; jumps store nothing.
pub open spec fn run_quad(env: Map<Seq<char>, int>, q: QuadView) -> Map<Seq<char>, int> {
    match q {
        QuadView::Binary { op, left, right, dest } => match dest {
            OperandView::Name(d) => env.insert(
                d,
                apply_text(op, operand_value(env, left), operand_value(env, right)),
            ),
            OperandView::Empty => env,
        },
        QuadView::Assign { src, dest } => match dest {
            OperandView::Name(d) => env.insert(d, operand_value(env, src)),
            OperandView::Empty => env,
        },
        _ => env,
    }
}

/// The store after running `qs` in order from `env`.
pub open spec fn run(env: Map<Seq<char>, int>, qs: Seq<QuadView>) -> Map<Seq<char>, int>
    decreases qs.len(),
{
    if qs.len() == 0 {
        env
    } else {
        run_quad(run(env, qs.drop_last()), qs.last())
    }
}

/// Where the expression of an assignment `id = E [;]` ends: before the
/// optional `;` that precedes the end marker.
pub open spec fn expression_end(t: Seq<TokenView>) -> int {
    if t.len() >= 2 && t[t.len() - 2].kind == Terminal::Semicolon {
        t.len() - 2
    } else {
        t.len() - 1
    }
}

// ---------------------------------------------------------------------
// Facts about the reading with precedence
// ---------------------------------------------------------------------

proof fn lemma_last_top_concat(t: Seq<TokenView>, i: int, k: int, j: int, add: bool)
    requires
        i <= k <= j,
        depth_between(t, i, k) == 0,
    ensures
        last_top(t, i, j, add) == if last_top(t, k, j, add) >= k {
            last_top(t, k, j, add)
        } else {
            last_top(t, i, k, add)
        },
    decreases j - k,
{
    if j > k {
        lemma_depth_split(t, i, k, j - 1);
        lemma_last_top_concat(t, i, k, j - 1, add);
    }
}

proof fn lemma_last_top_range(t: Seq<TokenView>, i: int, j: int, add: bool)
    requires
        i <= j,
    ensures
        i - 1 <= last_top(t, i, j, add) < j,
        last_top(t, i, j, add) >= i ==> op_of_level(t[last_top(t, i, j, add)].kind, add),
    decreases j - i,
{
    if j > i {
        lemma_last_top_range(t, i, j - 1, add);
    }
}

/// A single operand token has no operator outside parentheses.
proof fn lemma_single_no_top(t: Seq<TokenView>, i: int, add: bool)
    requires
        0 <= i < t.len(),
        !is_add_kind(t[i].kind),
        !is_mul_kind(t[i].kind),
    ensures
        last_top(t, i, i + 1, add) < i,
{
    assert(last_top(t, i, i, add) == i - 1);
}

/// A parenthesized phrase has no operator outside parentheses.
proof fn lemma_group_no_top(t: Seq<TokenView>, i: int, j: int, add: bool)
    requires
        0 <= i,
        i + 2 <= j <= t.len(),
        t[i].kind == Terminal::LParen,
        t[j - 1].kind == Terminal::RParen,
        balanced(t, i + 1, j - 1),
    ensures
        last_top(t, i, j, add) < i,
    decreases j - i,
{
    assert forall|p: int| i < p < j implies depth_between(t, i, p) >= 1 by {
        assert(depth_between(t, i + 1, p) >= 0) by {
            if p < j - 1 {
            } else {
                assert(depth_between(t, i + 1, j - 1) == 0);
            }
        }
    }
    assert(last_top(t, i, j, add) == last_top(t, i, j - 1, add));
    lemma_no_top_scan(t, i, j - 1, add);
    lemma_single_no_top(t, i, add);
}

proof fn lemma_no_top_scan(t: Seq<TokenView>, i: int, j: int, add: bool)
    requires
        0 <= i < j,
        forall|p: int| i < p < j ==> depth_between(t, i, p) >= 1,
    ensures
        last_top(t, i, j, add) == last_top(t, i, i + 1, add),
    decreases j - i,
{
    if j > i + 1 {
        assert(depth_between(t, i, j - 1) >= 1);
        lemma_no_top_scan(t, i, j - 1, add);
    }
}

proof fn lemma_apply_text(k: Terminal, a: int, b: int)
    requires
        binop(k) is Some,
    ensures
        apply_text(binop(k)->Some_0.2, a, b) == apply_kind(k, a, b),
{
    reveal_strlit("+");
    reveal_strlit("-");
    reveal_strlit("*");
    reveal_strlit("/");
    assert("-"@[0] != "+"@[0]);
    assert("*"@[0] != "+"@[0]);
    assert("/"@[0] != "+"@[0]);
    assert("*"@[0] != "-"@[0]);
    assert("/"@[0] != "-"@[0]);
    assert("/"@[0] != "*"@[0]);
}


// ---------------------------------------------------------------------
// What the expression code stores
// ---------------------------------------------------------------------

/// `s` names a temporary numbered above `c`.
pub open spec fn temp_above(s: Seq<char>, c: nat) -> bool {
    is_temp_name(s) && temp_index(s) > c
}

/// The quadruple is an operation storing into a temporary numbered above `c`.
pub open spec fn writes_above(q: QuadView, c: nat) -> bool {
    match q {
        QuadView::Binary { dest, .. } => match dest {
            OperandView::Name(d) => temp_above(d, c),
            OperandView::Empty => false,
        },
        _ => false,
    }
}

/// From index `lo` on, every quadruple stores into a temporary numbered
/// above `c`.
pub open spec fn fresh_from(qs: Seq<QuadView>, lo: int, c: nat) -> bool {
    forall|p: int| lo <= p < qs.len() ==> #[trigger] writes_above(qs[p], c)
}

/// No temporary numbered above `c` is the operand `o`.
pub open spec fn stable(o: OperandView, c: nat) -> bool {
    match o {
        OperandView::Name(s) => !temp_above(s, c),
        OperandView::Empty => true,
    }
}

/// From `st` to `s`, code was only added, each new quadruple storing into
/// a new temporary.
pub open spec fn grows(st: PState, s: PState) -> bool {
    &&& st.cg.quads.len() <= s.cg.quads.len()
    &&& s.cg.quads.take(st.cg.quads.len() as int) == st.cg.quads
    &&& fresh_from(s.cg.quads, st.cg.quads.len() as int, st.cg.temps)
    &&& st.cg.temps <= s.cg.temps
}

/// The level of the reading that a binding-power floor gives: 0 reads a
/// sum, 2 a product, 4 a factor.
pub open spec fn level_value(m: u8, t: Seq<TokenView>, i: int, j: int, env: Map<Seq<char>, int>) -> int {
    if m == 0 {
        e_value(t, i, j, env)
    } else if m == 2 {
        t_value(t, i, j, env)
    } else {
        f_value(t, i, j, env)
    }
}

/// Tokens `i .. j` have no operator outside parentheses that the level
/// excludes: a product no `+` or `-`, a factor no operator at all.
pub open spec fn level_ok(m: u8, t: Seq<TokenView>, i: int, j: int) -> bool {
    &&& (m == 0 || last_top(t, i, j, true) < i)
    &&& (m != 4 || last_top(t, i, j, false) < i)
}

/// The token at `j` ends a phrase of the level.
pub open spec fn stops(m: u8, t: Seq<TokenView>, j: int) -> bool {
    &&& 0 <= j < t.len()
    &&& match binop(t[j].kind) {
        None => true,
        Some((lbp, _, _)) => lbp < m,
    }
}

/// Tokens `i .. j` are a nonempty balanced phrase ending in an operand or
/// a `)`.
pub open spec fn phrase_ok(t: Seq<TokenView>, i: int, j: int) -> bool {
    &&& i < j
    &&& balanced(t, i, j)
    &&& (t[j - 1].kind == Terminal::Id || t[j - 1].kind == Terminal::Num || t[j - 1].kind
        == Terminal::RParen)
}

proof fn lemma_temp_index(k: nat)
    requires
        k >= 1,
    ensures
        is_temp_name(temp_name(k)),
        temp_index(temp_name(k)) == k,
        !is_numeral(temp_name(k)),
{
    assert(is_temp_name(temp_name(k)));
    lemma_temp_name_injective(temp_index(temp_name(k)), k);
    reveal_strlit("t");
    assert(temp_name(k)[0] == 't');
}

proof fn lemma_run_stable(env: Map<Seq<char>, int>, qs: Seq<QuadView>, lo: int, c: nat, o: OperandView)
    requires
        0 <= lo <= qs.len(),
        fresh_from(qs, lo, c),
        stable(o, c),
    ensures
        operand_value(run(env, qs), o) == operand_value(run(env, qs.take(lo)), o),
    decreases qs.len(),
{
    if qs.len() == lo {
        assert(qs.take(lo) =~= qs);
    } else {
        let q = qs.last();
        assert(writes_above(qs[qs.len() - 1], c));
        assert(qs.drop_last().take(lo) =~= qs.take(lo));
        lemma_run_stable(env, qs.drop_last(), lo, c, o);
    }
}

proof fn lemma_user_value(env: Map<Seq<char>, int>, qs: Seq<QuadView>, s: Seq<char>)
    requires
        fresh_from(qs, 0, 0),
        !is_temp_name(s),
    ensures
        text_value(run(env, qs), s) == text_value(env, s),
{
    lemma_run_stable(env, qs, 0, 0, OperandView::Name(s));
    assert(qs.take(0) =~= Seq::<QuadView>::empty());
}

proof fn lemma_grows_refl(st: PState)
    ensures
        grows(st, st),
{
    assert(st.cg.quads.take(st.cg.quads.len() as int) =~= st.cg.quads);
}

proof fn lemma_grows_trans(a: PState, b: PState, c: PState)
    requires
        grows(a, b),
        grows(b, c),
    ensures
        grows(a, c),
{
    let la = a.cg.quads.len() as int;
    let lb = b.cg.quads.len() as int;
    assert(c.cg.quads.take(la) =~= b.cg.quads.take(la));
    assert forall|p: int| la <= p < c.cg.quads.len() implies #[trigger] writes_above(c.cg.quads[p], a.cg.temps) by {
        if p < lb {
            assert(c.cg.quads[p] == c.cg.quads.take(lb)[p]);
            assert(writes_above(b.cg.quads[p], a.cg.temps));
        } else {
            assert(writes_above(c.cg.quads[p], b.cg.temps));
        }
    }
}

proof fn lemma_atom_value(t: Seq<TokenView>, st: PState, env: Map<Seq<char>, int>)
    requires
        no_temp_names(t),
        0 <= st.pos <= t.len(),
        fresh_from(st.cg.quads, 0, 0),
        s_expr_atom(t, st) is Ok,
    ensures
        ({
            let (s1, o) = s_expr_atom(t, st)->Ok_0;
            &&& grows(st, s1)
            &&& stable(o, s1.cg.temps)
            &&& operand_value(run(env, s1.cg.quads), o) == f_value(t, st.pos, s1.pos, env)
            &&& level_ok(4, t, st.pos, s1.pos)
            &&& phrase_ok(t, st.pos, s1.pos)
        }),
    decreases t.len() - st.pos, 1int,
{
    let i = st.pos;
    let tok = peek(t, i)->Ok_0;
    if tok.kind == Terminal::Id || tok.kind == Terminal::Num {
        lemma_grows_refl(st);
        assert(!is_temp_name(t[i].lexeme));
        lemma_user_value(env, st.cg.quads, t[i].lexeme);
        lemma_single_no_top(t, i, true);
        lemma_single_no_top(t, i, false);
        lemma_single(t, i);
    } else {
        let s1 = advance(st);
        lemma_bp_value(t, s1, 0, env);
        let (s2, o) = s_expr(t, s1)->Ok_0;
        let j = s2.pos + 1;
        lemma_wrap(t, i, s2.pos);
        lemma_group_no_top(t, i, j, true);
        lemma_group_no_top(t, i, j, false);
        assert(advance(s2).cg == s2.cg);
    }
}

proof fn lemma_bp_value(t: Seq<TokenView>, st: PState, m: u8, env: Map<Seq<char>, int>)
    requires
        no_temp_names(t),
        0 <= st.pos <= t.len(),
        fresh_from(st.cg.quads, 0, 0),
        m == 0 || m == 2 || m == 4,
        s_expr_bp(t, st, m) is Ok,
    ensures
        ({
            let (s1, o) = s_expr_bp(t, st, m)->Ok_0;
            &&& grows(st, s1)
            &&& stable(o, s1.cg.temps)
            &&& operand_value(run(env, s1.cg.quads), o) == level_value(m, t, st.pos, s1.pos, env)
            &&& level_ok(m, t, st.pos, s1.pos)
            &&& phrase_ok(t, st.pos, s1.pos)
            &&& stops(m, t, s1.pos)
        }),
    decreases t.len() - st.pos, 2int,
{
    lemma_atom_value(t, st, env);
    let (s1, o1) = s_expr_atom(t, st)->Ok_0;
    let i = st.pos;
    assert(t_value(t, i, s1.pos, env) == f_value(t, i, s1.pos, env));
    assert(e_value(t, i, s1.pos, env) == t_value(t, i, s1.pos, env));
    assert(f_value(t, i, s1.pos, env) == level_value(m, t, i, s1.pos, env));
    assert(fresh_from(s1.cg.quads, 0, 0)) by {
        assert forall|p: int| 0 <= p < s1.cg.quads.len() implies #[trigger] writes_above(s1.cg.quads[p], 0) by {
            if p < st.cg.quads.len() {
                assert(s1.cg.quads[p] == s1.cg.quads.take(st.cg.quads.len() as int)[p]);
            } else {
                assert(writes_above(s1.cg.quads[p], st.cg.temps));
            }
        }
    }
    lemma_loop_value(t, s1, o1, m, i, env);
    let s2 = s_expr_loop(t, s1, o1, m)->Ok_0.0;
    lemma_grows_trans(st, s1, s2);
}

proof fn lemma_loop_value(
    t: Seq<TokenView>,
    st: PState,
    left: OperandView,
    m: u8,
    i: int,
    env: Map<Seq<char>, int>,
)
    requires
        no_temp_names(t),
        0 <= i < st.pos <= t.len(),
        fresh_from(st.cg.quads, 0, 0),
        m == 0 || m == 2 || m == 4,
        s_expr_loop(t, st, left, m) is Ok,
        stable(left, st.cg.temps),
        operand_value(run(env, st.cg.quads), left) == level_value(m, t, i, st.pos, env),
        level_ok(m, t, i, st.pos),
        phrase_ok(t, i, st.pos),
        m == 0 && last_top(t, i, st.pos, true) >= i && st.pos < t.len() ==> !is_mul_kind(
            t[st.pos].kind,
        ),
    ensures
        ({
            let (s1, o) = s_expr_loop(t, st, left, m)->Ok_0;
            &&& grows(st, s1)
            &&& stable(o, s1.cg.temps)
            &&& operand_value(run(env, s1.cg.quads), o) == level_value(m, t, i, s1.pos, env)
            &&& level_ok(m, t, i, s1.pos)
            &&& phrase_ok(t, i, s1.pos)
            &&& stops(m, t, s1.pos)
        }),
    decreases t.len() - st.pos, 0int,
{
    let k = st.pos;
    let tok = peek(t, k)->Ok_0;
    match binop(tok.kind) {
        None => {
            lemma_grows_refl(st);
        },
        Some((lbp, rbp, op)) => {
            if lbp < m {
                lemma_grows_refl(st);
            } else {
                let st1 = advance(st);
                lemma_bp_value(t, st1, rbp, env);
                let (st2, right) = s_expr_bp(t, st1, rbp)->Ok_0;
                let j2 = st2.pos;
                let c2 = st2.cg.temps;
                let (st3, temp) = new_temp(st2);
                let tn = temp_name(c2 + 1);
                let q = QuadView::Binary { op, left, right, dest: temp };
                let (st4, _) = emit(st3, q);
                lemma_temp_index(c2 + 1);
                // the new quadruple
                assert(st4.cg.quads.drop_last() =~= st2.cg.quads);
                let e2 = run(env, st2.cg.quads);
                let lv = operand_value(e2, left);
                let rv = operand_value(e2, right);
                assert(run(env, st4.cg.quads) == e2.insert(tn, apply_text(op, lv, rv)));
                lemma_run_stable(env, st2.cg.quads, st.cg.quads.len() as int, st.cg.temps, left);
                lemma_apply_text(tok.kind, lv, rv);
                // code only grew
                assert(grows(st, st4)) by {
                    assert(grows(st, st2));
                    let l0 = st.cg.quads.len() as int;
                    assert(st4.cg.quads.take(l0) =~= st2.cg.quads.take(l0));
                    assert forall|p: int| l0 <= p < st4.cg.quads.len() implies #[trigger] writes_above(st4.cg.quads[p], st.cg.temps) by {
                        if p < st2.cg.quads.len() {
                            assert(writes_above(st2.cg.quads[p], st.cg.temps));
                        }
                    }
                }
                assert(fresh_from(st4.cg.quads, 0, 0)) by {
                    assert forall|p: int| 0 <= p < st4.cg.quads.len() implies #[trigger] writes_above(st4.cg.quads[p], 0) by {
                        if p < st.cg.quads.len() {
                            assert(st4.cg.quads[p] == st4.cg.quads.take(st.cg.quads.len() as int)[p]);
                        } else {
                            assert(writes_above(st4.cg.quads[p], st.cg.temps));
                        }
                    }
                }
                // the reading with precedence
                lemma_single(t, k);
                lemma_concat(t, i, k, k + 1);
                lemma_concat(t, i, k + 1, j2);
                assert(depth_between(t, i, k) == 0);
                assert(depth_between(t, k, k) == 0);
                assert(depth_between(t, k, k + 1) == 0);
                lemma_last_top_concat(t, i, k, j2, true);
                lemma_last_top_concat(t, i, k, j2, false);
                lemma_last_top_concat(t, k, k + 1, j2, true);
                lemma_last_top_concat(t, k, k + 1, j2, false);
                assert(last_top(t, k, k, true) == k - 1);
                assert(last_top(t, k, k, false) == k - 1);
                lemma_last_top_range(t, i, k, true);
                lemma_last_top_range(t, i, k, false);
                assert(last_top(t, k, k + 1, true) == if is_add_kind(tok.kind) { k } else { k - 1 });
                assert(last_top(t, k, k + 1, false) == if is_mul_kind(tok.kind) { k } else { k - 1 });
                if m == 2 {
                    assert(is_mul_kind(tok.kind) && rbp == 4);
                    assert(last_top(t, k + 1, j2, false) < k + 1);
                    assert(last_top(t, i, j2, false) == k);
                    assert(t_value(t, i, j2, env) == apply_kind(tok.kind, t_value(t, i, k, env), f_value(t, k + 1, j2, env)));
                } else if is_add_kind(tok.kind) {
                    assert(rbp == 2);
                    assert(last_top(t, k + 1, j2, true) < k + 1);
                    assert(last_top(t, i, j2, true) == k);
                    assert(e_value(t, i, j2, env) == apply_kind(tok.kind, e_value(t, i, k, env), t_value(t, k + 1, j2, env)));
                } else {
                    assert(is_mul_kind(tok.kind) && rbp == 4 && m == 0);
                    assert(last_top(t, i, k, true) < i);
                    assert(e_value(t, i, k, env) == t_value(t, i, k, env));
                    assert(last_top(t, k + 1, j2, true) < k + 1);
                    assert(last_top(t, k + 1, j2, false) < k + 1);
                    assert(last_top(t, i, j2, true) < i);
                    assert(last_top(t, i, j2, false) == k);
                    assert(e_value(t, i, j2, env) == t_value(t, i, j2, env));
                    assert(t_value(t, i, j2, env) == apply_kind(tok.kind, t_value(t, i, k, env), f_value(t, k + 1, j2, env)));
                }
                let vv = level_value(m, t, i, j2, env);
                assert(apply_kind(tok.kind, lv, rv) == vv);
                lemma_loop_value(t, st4, temp, m, i, env);
                let s5 = s_expr_loop(t, st4, temp, m)->Ok_0.0;
                lemma_grows_trans(st, st4, s5);
            }
        },
    }
}

/// Running an assignment's quadruples from any store sets its target to
/// the value of its expression read with the usual precedence, the
/// expression's variables taken from that store.
pub proof fn lemma_assignment_value(t: Seq<TokenView>, env: Map<Seq<char>, int>)
    requires
        no_temp_names(t),
        t.len() >= 1,
        t.last().kind == Terminal::End,
        forall|k: int| 0 <= k < t.len() - 1 ==> (#[trigger] t[k]).kind != Terminal::End,
        spec_parse_assignment(t) is Ok,
    ensures
        run(env, spec_parse_assignment(t)->Ok_0.quads)[t[0].lexeme] == e_value(
            t,
            2,
            expression_end(t),
            env,
        ),
{
    let st0 = initial_state();
    let (st1, id) = expect(t, st0, Terminal::Id)->Ok_0;
    let st2 = expect(t, st1, Terminal::Assign)->Ok_0.0;
    assert(st2.cg.quads =~= Seq::<QuadView>::empty());
    lemma_bp_value(t, st2, 0, env);
    let (st3, place) = s_expr(t, st2)->Ok_0;
    let j = st3.pos;
    let q = QuadView::Assign { src: place, dest: OperandView::Name(id.lexeme) };
    let st4 = emit(st3, q).0;
    assert(s_assignment_core(t, st0) == Ok::<PState, crate::error::ErrorView>(st4));
    assert(st4.cg.quads.drop_last() =~= st3.cg.quads);
    assert(j == expression_end(t)) by {
        if t[j].kind == Terminal::Semicolon {
            assert(t[j + 1].kind == Terminal::End);
        } else {
            assert(t[j].kind == Terminal::End);
        }
    }
}

} // verus!
