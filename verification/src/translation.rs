//! The translation scheme, as spec functions over token sequences: what the
//! recursive-descent translator in `sd_parser` computes, rule by rule.
//!
//! A translation step takes the tokens and a state (the position of the next
//! token and the quadruples and temporaries emitted so far) and gives the new
//! state and the attribute of the phrase, or the error that stops the
//! translation.
use vstd::prelude::*;
use crate::codegen::{
    BoolAttrView, CodeGenView, JumpTarget, OperandView, QuadView, backpatch_quads, temp_name,
};
use crate::error::ErrorView;
use crate::lexer::TokenView;
use crate::symbol::{Terminal, terminal_text};

verus! {

/// Translation state: the next token and what has been generated so far.
#[verifier::ext_equal]
pub struct PState {
    pub pos: int,
    pub cg: CodeGenView,
}

/// The outcome of a translation step.
pub type Step<T> = Result<(PState, T), ErrorView>;

/// The state before anything is read or generated.
pub open spec fn initial_state() -> PState {
    PState { pos: 0, cg: CodeGenView { quads: Seq::empty(), temps: 0 } }
}

/// The state after consuming one token.
pub open spec fn advance(st: PState) -> PState {
    PState { pos: st.pos + 1, cg: st.cg }
}

/// The state after appending `q`, and the index `q` got.
pub open spec fn emit(st: PState, q: QuadView) -> (PState, usize) {
    (
        PState { pos: st.pos, cg: CodeGenView { quads: st.cg.quads.push(q), temps: st.cg.temps } },
        st.cg.quads.len() as usize,
    )
}

/// The state after handing out a fresh temporary, and its name.
pub open spec fn new_temp(st: PState) -> (PState, OperandView) {
    let n = st.cg.temps + 1;
    (
        PState { pos: st.pos, cg: CodeGenView { quads: st.cg.quads, temps: n } },
        OperandView::Name(temp_name(n)),
    )
}

/// Backpatching a chain in the state; a failure becomes a backpatching error.
pub open spec fn backpatch(st: PState, list: Seq<usize>, target: usize) -> Result<
    PState,
    ErrorView,
> {
    let (quads, r) = backpatch_quads(st.cg.quads, list, target);
    match r {
        Ok(()) => Ok(PState { pos: st.pos, cg: CodeGenView { quads, temps: st.cg.temps } }),
        Err(m) => Err(ErrorView::Codegen { message: m }),
    }
}

/// The index the next quadruple gets.
pub open spec fn next_quad(st: PState) -> usize {
    st.cg.quads.len() as usize
}

/// The error of reading past the last token.
pub open spec fn unexpected_end() -> ErrorView {
    ErrorView::Parse { offset: None, message: "输入意外结束"@ }
}

/// The error of an empty token sequence.
pub open spec fn empty_input() -> ErrorView {
    ErrorView::Parse { offset: None, message: "输入 token 序列为空"@ }
}

/// The error for a token of another kind than `kind`.
pub open spec fn expect_error(kind: Terminal, got: TokenView) -> ErrorView {
    ErrorView::Parse {
        offset: Some(got.offset),
        message: "期待 `"@ + terminal_text(kind) + "`, 实际读到 `"@ + terminal_text(got.kind)
            + "`"@,
    }
}

/// The error for a token that cannot start a statement.
pub open spec fn bad_stmt_start(got: TokenView) -> ErrorView {
    ErrorView::Parse {
        offset: Some(got.offset),
        message: "非法语句起始符 `"@ + terminal_text(got.kind) + "`"@,
    }
}

/// The error for a token that cannot start an arithmetic expression.
pub open spec fn bad_expr_start(got: TokenView) -> ErrorView {
    ErrorView::Parse {
        offset: Some(got.offset),
        message: "非法表达式起始符 `"@ + terminal_text(got.kind) + "`"@,
    }
}

/// The error for a missing comparison operator.
pub open spec fn relop_error(got: TokenView) -> ErrorView {
    ErrorView::Parse {
        offset: Some(got.offset),
        message: "期待比较运算符，实际读到 `"@ + terminal_text(got.kind) + "`"@,
    }
}

/// The error value of a step whose input did not advance; such a step
/// does not occur (see the progress clauses of the translator).
pub open spec fn no_progress() -> ErrorView {
    ErrorView::Parse { offset: None, message: Seq::empty() }
}

/// The token at `pos`, if there is one.
pub open spec fn peek(toks: Seq<TokenView>, pos: int) -> Result<TokenView, ErrorView> {
    if 0 <= pos < toks.len() {
        Ok(toks[pos])
    } else {
        Err(unexpected_end())
    }
}

/// Consumes a token of kind `kind`.
pub open spec fn expect(toks: Seq<TokenView>, st: PState, kind: Terminal) -> Step<TokenView> {
    match peek(toks, st.pos) {
        Err(e) => Err(e),
        Ok(t) => if t.kind == kind {
            Ok((advance(st), t))
        } else {
            Err(expect_error(kind, t))
        },
    }
}

/// The step went forward and stayed within the tokens.
pub open spec fn progressed(toks: Seq<TokenView>, before: PState, after: PState) -> bool {
    before.pos < after.pos <= toks.len()
}

/// Comparison operators.
pub open spec fn is_relop_kind(k: Terminal) -> bool {
    k == Terminal::Eq || k == Terminal::Ne || k == Terminal::Lt || k == Terminal::Le || k
        == Terminal::Gt || k == Terminal::Ge
}

/// Arithmetic operators.
pub open spec fn is_arith_kind(k: Terminal) -> bool {
    k == Terminal::Plus || k == Terminal::Minus || k == Terminal::Star || k == Terminal::Slash
}

/// Binding powers (left, right) and spelling of an arithmetic operator:
/// `+` and `-` bind loosest, `*` and `/` tighter, all associate to the left.
pub open spec fn binop(k: Terminal) -> Option<(u8, u8, Seq<char>)> {
    if k == Terminal::Plus {
        Some((1, 2, "+"@))
    } else if k == Terminal::Minus {
        Some((1, 2, "-"@))
    } else if k == Terminal::Star {
        Some((3, 4, "*"@))
    } else if k == Terminal::Slash {
        Some((3, 4, "/"@))
    } else {
        None
    }
}

// ---------------------------------------------------------------------
// Arithmetic expressions
// ---------------------------------------------------------------------

/// `Expr`: an expression with no binding-power floor.
pub open spec fn s_expr(toks: Seq<TokenView>, st: PState) -> Step<OperandView>
    decreases toks.len() - st.pos, 3int,
{
    s_expr_bp(toks, st, 0)
}

/// An expression whose operators bind at least as tightly as `min_bp`.
pub open spec fn s_expr_bp(toks: Seq<TokenView>, st: PState, min_bp: u8) -> Step<OperandView>
    decreases toks.len() - st.pos, 2int,
{
    match s_expr_atom(toks, st) {
        Err(e) => Err(e),
        Ok((st1, left)) => if progressed(toks, st, st1) {
            s_expr_loop(toks, st1, left, min_bp)
        } else {
            Err(no_progress())
        },
    }
}

/// The operator loop: while the next operator binds at least as tightly as
/// `min_bp`, translate its right operand and emit `(op, left, right, t)`
/// into a fresh temporary `t`.
pub open spec fn s_expr_loop(toks: Seq<TokenView>, st: PState, left: OperandView, min_bp: u8) -> Step<
    OperandView,
>
    decreases toks.len() - st.pos, 0int,
{
    match peek(toks, st.pos) {
        Err(e) => Err(e),
        Ok(t) => match binop(t.kind) {
            None => Ok((st, left)),
            Some((lbp, rbp, op)) => if lbp < min_bp {
                Ok((st, left))
            } else {
                match s_expr_bp(toks, advance(st), rbp) {
                    Err(e) => Err(e),
                    Ok((st2, right)) => if progressed(toks, st, st2) {
                        let (st3, temp) = new_temp(st2);
                        let (st4, _) = emit(
                            st3,
                            QuadView::Binary { op, left, right, dest: temp },
                        );
                        s_expr_loop(toks, st4, temp, min_bp)
                    } else {
                        Err(no_progress())
                    },
                }
            },
        },
    }
}

/// An operand: a variable, a number, or a parenthesized expression.
pub open spec fn s_expr_atom(toks: Seq<TokenView>, st: PState) -> Step<OperandView>
    decreases toks.len() - st.pos, 1int,
{
    match peek(toks, st.pos) {
        Err(e) => Err(e),
        Ok(t) => if t.kind == Terminal::Id || t.kind == Terminal::Num {
            Ok((advance(st), OperandView::Name(t.lexeme)))
        } else if t.kind == Terminal::LParen {
            match s_expr(toks, advance(st)) {
                Err(e) => Err(e),
                Ok((st2, e)) => match expect(toks, st2, Terminal::RParen) {
                    Err(err) => Err(err),
                    Ok((st3, _)) => Ok((st3, e)),
                },
            }
        } else {
            Err(bad_expr_start(t))
        },
    }
}

// ---------------------------------------------------------------------
// Boolean expressions
// ---------------------------------------------------------------------

/// A chain of one index.
pub open spec fn single(i: usize) -> Seq<usize> {
    seq![i]
}

/// A comparison operator.
pub open spec fn s_relop(toks: Seq<TokenView>, st: PState) -> Step<Seq<char>> {
    match peek(toks, st.pos) {
        Err(e) => Err(e),
        Ok(t) => if is_relop_kind(t.kind) {
            Ok((advance(st), t.lexeme))
        } else {
            Err(relop_error(t))
        },
    }
}

/// `E1 relop E2`: emits `(jrelop, E1, E2, _)` into the true chain and
/// `(j, _, _, _)` into the false chain.
pub open spec fn s_relation(toks: Seq<TokenView>, st: PState) -> Step<BoolAttrView> {
    match s_expr(toks, st) {
        Err(e) => Err(e),
        Ok((st1, left)) => match s_relop(toks, st1) {
            Err(e) => Err(e),
            Ok((st2, relop)) => match s_expr(toks, st2) {
                Err(e) => Err(e),
                Ok((st3, right)) => {
                    let (st4, tj) = emit(
                        st3,
                        QuadView::JumpIf { relop, left, right, target: JumpTarget::Pending },
                    );
                    let (st5, fj) = emit(st4, QuadView::Jump { target: JumpTarget::Pending });
                    Ok((st5, BoolAttrView { tc: single(tj), fc: single(fj) }))
                },
            },
        },
    }
}

/// Scanning from token `i` with `depth` open parentheses: whether the
/// parenthesis group that starts the scan is followed by a comparison or
/// arithmetic operator (so that it is an arithmetic operand).
pub open spec fn group_then_operator(toks: Seq<TokenView>, i: int, depth: nat) -> bool
    decreases toks.len() - i,
{
    if i < 0 || i >= toks.len() {
        false
    } else {
        let k = toks[i].kind;
        if k == Terminal::LParen {
            group_then_operator(toks, i + 1, depth + 1)
        } else if k == Terminal::RParen {
            let d: nat = if depth == 0 {
                0
            } else {
                (depth - 1) as nat
            };
            if d == 0 {
                i + 1 < toks.len() && (is_relop_kind(toks[i + 1].kind) || is_arith_kind(
                    toks[i + 1].kind,
                ))
            } else {
                group_then_operator(toks, i + 1, d)
            }
        } else if k == Terminal::End {
            false
        } else {
            group_then_operator(toks, i + 1, depth)
        }
    }
}

/// `BoolExpr`: `and`-terms joined by short-circuit `or`.
pub open spec fn s_or(toks: Seq<TokenView>, st: PState) -> Step<BoolAttrView>
    decreases toks.len() - st.pos, 5int,
{
    match s_and(toks, st) {
        Err(e) => Err(e),
        Ok((st1, left)) => if progressed(toks, st, st1) {
            s_or_loop(toks, st1, left)
        } else {
            Err(no_progress())
        },
    }
}

/// `B1 or B2`: backpatch B1's false chain to the start of B2; the true
/// chains merge, the false chain is B2's.
pub open spec fn s_or_loop(toks: Seq<TokenView>, st: PState, left: BoolAttrView) -> Step<
    BoolAttrView,
>
    decreases toks.len() - st.pos, 0int,
{
    match peek(toks, st.pos) {
        Err(e) => Err(e),
        Ok(t) => if t.kind == Terminal::Or {
            let st1 = advance(st);
            match backpatch(st1, left.fc, next_quad(st1)) {
                Err(e) => Err(e),
                Ok(st2) => match s_and(toks, st2) {
                    Err(e) => Err(e),
                    Ok((st3, right)) => if progressed(toks, st, st3) {
                        s_or_loop(toks, st3, BoolAttrView { tc: left.tc + right.tc, fc: right.fc })
                    } else {
                        Err(no_progress())
                    },
                },
            }
        } else {
            Ok((st, left))
        },
    }
}

/// `BoolAnd`: `not`-terms joined by short-circuit `and`.
pub open spec fn s_and(toks: Seq<TokenView>, st: PState) -> Step<BoolAttrView>
    decreases toks.len() - st.pos, 4int,
{
    match s_not(toks, st) {
        Err(e) => Err(e),
        Ok((st1, left)) => if progressed(toks, st, st1) {
            s_and_loop(toks, st1, left)
        } else {
            Err(no_progress())
        },
    }
}

/// `B1 and B2`: backpatch B1's true chain to the start of B2; the true
/// chain is B2's, the false chains merge.
pub open spec fn s_and_loop(toks: Seq<TokenView>, st: PState, left: BoolAttrView) -> Step<
    BoolAttrView,
>
    decreases toks.len() - st.pos, 0int,
{
    match peek(toks, st.pos) {
        Err(e) => Err(e),
        Ok(t) => if t.kind == Terminal::And {
            let st1 = advance(st);
            match backpatch(st1, left.tc, next_quad(st1)) {
                Err(e) => Err(e),
                Ok(st2) => match s_not(toks, st2) {
                    Err(e) => Err(e),
                    Ok((st3, right)) => if progressed(toks, st, st3) {
                        s_and_loop(toks, st3, BoolAttrView { tc: right.tc, fc: left.fc + right.fc })
                    } else {
                        Err(no_progress())
                    },
                },
            }
        } else {
            Ok((st, left))
        },
    }
}

/// `not B`: the chains swap.
pub open spec fn s_not(toks: Seq<TokenView>, st: PState) -> Step<BoolAttrView>
    decreases toks.len() - st.pos, 3int,
{
    match peek(toks, st.pos) {
        Err(e) => Err(e),
        Ok(t) => if t.kind == Terminal::Not {
            match s_not(toks, advance(st)) {
                Err(e) => Err(e),
                Ok((st1, a)) => Ok((st1, BoolAttrView { tc: a.fc, fc: a.tc })),
            }
        } else {
            s_bool_atom(toks, st)
        },
    }
}

/// `true` and `false` (one unconditional jump into the true or false
/// chain), a parenthesized boolean expression, or a relation.
pub open spec fn s_bool_atom(toks: Seq<TokenView>, st: PState) -> Step<BoolAttrView>
    decreases toks.len() - st.pos, 2int,
{
    match peek(toks, st.pos) {
        Err(e) => Err(e),
        Ok(t) => if t.kind == Terminal::True {
            let (st1, j) = emit(advance(st), QuadView::Jump { target: JumpTarget::Pending });
            Ok((st1, BoolAttrView { tc: single(j), fc: Seq::empty() }))
        } else if t.kind == Terminal::False {
            let (st1, j) = emit(advance(st), QuadView::Jump { target: JumpTarget::Pending });
            Ok((st1, BoolAttrView { tc: Seq::empty(), fc: single(j) }))
        } else if t.kind == Terminal::LParen && !group_then_operator(toks, st.pos, 0) {
            match s_or(toks, advance(st)) {
                Err(e) => Err(e),
                Ok((st1, a)) => match expect(toks, st1, Terminal::RParen) {
                    Err(e) => Err(e),
                    Ok((st2, _)) => Ok((st2, a)),
                },
            }
        } else {
            s_relation(toks, st)
        },
    }
}

// ---------------------------------------------------------------------
// Statements
// ---------------------------------------------------------------------

/// Whether the token at `pos` can start a statement.
pub open spec fn can_start_stmt(toks: Seq<TokenView>, pos: int) -> bool {
    match peek(toks, pos) {
        Ok(t) => t.kind == Terminal::Id || t.kind == Terminal::LBrace || t.kind == Terminal::If
            || t.kind == Terminal::While,
        Err(_) => false,
    }
}

/// `id = Expr`: emits `(=, place, _, id)`.
pub open spec fn s_assignment_core(toks: Seq<TokenView>, st: PState) -> Result<PState, ErrorView> {
    match expect(toks, st, Terminal::Id) {
        Err(e) => Err(e),
        Ok((st1, id)) => match expect(toks, st1, Terminal::Assign) {
            Err(e) => Err(e),
            Ok((st2, _)) => match s_expr(toks, st2) {
                Err(e) => Err(e),
                Ok((st3, place)) => Ok(
                    emit(
                        st3,
                        QuadView::Assign { src: place, dest: OperandView::Name(id.lexeme) },
                    ).0,
                ),
            },
        },
    }
}

/// `id = Expr ;`
pub open spec fn s_assignment_stmt(toks: Seq<TokenView>, st: PState) -> Result<PState, ErrorView> {
    match s_assignment_core(toks, st) {
        Err(e) => Err(e),
        Ok(st1) => match expect(toks, st1, Terminal::Semicolon) {
            Err(e) => Err(e),
            Ok((st2, _)) => Ok(st2),
        },
    }
}

/// A sequence of statements, as long as the next token can start one.
pub open spec fn s_stmt_list(toks: Seq<TokenView>, st: PState) -> Result<PState, ErrorView>
    decreases toks.len() - st.pos, 3int,
{
    if can_start_stmt(toks, st.pos) {
        match s_stmt(toks, st) {
            Err(e) => Err(e),
            Ok(st1) => if progressed(toks, st, st1) {
                s_stmt_list(toks, st1)
            } else {
                Err(no_progress())
            },
        }
    } else {
        Ok(st)
    }
}

/// A statement: assignment, block, `if` or `while`.
pub open spec fn s_stmt(toks: Seq<TokenView>, st: PState) -> Result<PState, ErrorView>
    decreases toks.len() - st.pos, 2int,
{
    match peek(toks, st.pos) {
        Err(e) => Err(e),
        Ok(t) => if t.kind == Terminal::Id {
            s_assignment_stmt(toks, st)
        } else if t.kind == Terminal::LBrace {
            s_block(toks, st)
        } else if t.kind == Terminal::If {
            s_if(toks, st)
        } else if t.kind == Terminal::While {
            s_while(toks, st)
        } else {
            Err(bad_stmt_start(t))
        },
    }
}

/// `{ StmtList }`
pub open spec fn s_block(toks: Seq<TokenView>, st: PState) -> Result<PState, ErrorView>
    decreases toks.len() - st.pos, 1int,
{
    match expect(toks, st, Terminal::LBrace) {
        Err(e) => Err(e),
        Ok((st1, _)) => match s_stmt_list(toks, st1) {
            Err(e) => Err(e),
            Ok(st2) => match expect(toks, st2, Terminal::RBrace) {
                Err(e) => Err(e),
                Ok((st3, _)) => Ok(st3),
            },
        },
    }
}

/// `if ( B ) Block [else Block]`: the true chain goes to the then-block;
/// with `else`, an unconditional jump ends the then-block, the false chain
/// goes to the else-block and the jump to what follows it; without `else`,
/// the false chain goes to what follows the then-block.
pub open spec fn s_if(toks: Seq<TokenView>, st: PState) -> Result<PState, ErrorView>
    decreases toks.len() - st.pos, 1int,
{
    match expect(toks, st, Terminal::If) {
        Err(e) => Err(e),
        Ok((st1, _)) => match expect(toks, st1, Terminal::LParen) {
            Err(e) => Err(e),
            Ok((st2, _)) => match s_or(toks, st2) {
                Err(e) => Err(e),
                Ok((st3, attr)) => match expect(toks, st3, Terminal::RParen) {
                    Err(e) => Err(e),
                    Ok((st4, _)) => match backpatch(st4, attr.tc, next_quad(st4)) {
                        Err(e) => Err(e),
                        Ok(st5) => if !progressed(toks, st, st5) {
                            Err(no_progress())
                        } else {
                            match s_block(toks, st5) {
                                Err(e) => Err(e),
                                Ok(st6) => match peek(toks, st6.pos) {
                                    Err(e) => Err(e),
                                    Ok(t) => if t.kind == Terminal::Else {
                                        let (st7, jump) = emit(
                                            st6,
                                            QuadView::Jump { target: JumpTarget::Pending },
                                        );
                                        let st8 = advance(st7);
                                        match backpatch(st8, attr.fc, next_quad(st8)) {
                                            Err(e) => Err(e),
                                            Ok(st9) => if !progressed(toks, st, st9) {
                                                Err(no_progress())
                                            } else {
                                                match s_block(toks, st9) {
                                                    Err(e) => Err(e),
                                                    Ok(st10) => backpatch(
                                                        st10,
                                                        single(jump),
                                                        next_quad(st10),
                                                    ),
                                                }
                                            },
                                        }
                                    } else {
                                        backpatch(st6, attr.fc, next_quad(st6))
                                    },
                                },
                            }
                        },
                    },
                },
            },
        },
    }
}

/// `while ( B ) Block`: the true chain goes to the body, the body ends with
/// a jump back to the condition, the false chain goes past that jump.
pub open spec fn s_while(toks: Seq<TokenView>, st: PState) -> Result<PState, ErrorView>
    decreases toks.len() - st.pos, 1int,
{
    match expect(toks, st, Terminal::While) {
        Err(e) => Err(e),
        Ok((st1, _)) => match expect(toks, st1, Terminal::LParen) {
            Err(e) => Err(e),
            Ok((st2, _)) => {
                let loop_begin = next_quad(st2);
                match s_or(toks, st2) {
                    Err(e) => Err(e),
                    Ok((st3, attr)) => match expect(toks, st3, Terminal::RParen) {
                        Err(e) => Err(e),
                        Ok((st4, _)) => match backpatch(st4, attr.tc, next_quad(st4)) {
                            Err(e) => Err(e),
                            Ok(st5) => if !progressed(toks, st, st5) {
                                Err(no_progress())
                            } else {
                                match s_block(toks, st5) {
                                    Err(e) => Err(e),
                                    Ok(st6) => {
                                        let (st7, _) = emit(
                                            st6,
                                            QuadView::Jump {
                                                target: JumpTarget::Target(loop_begin),
                                            },
                                        );
                                        backpatch(st7, attr.fc, next_quad(st7))
                                    },
                                }
                            },
                        },
                    },
                }
            },
        },
    }
}

// ---------------------------------------------------------------------
// Entry points
// ---------------------------------------------------------------------

/// A whole program: statements up to the end marker.
pub open spec fn spec_parse_program(toks: Seq<TokenView>) -> Result<CodeGenView, ErrorView> {
    if toks.len() == 0 {
        Err(empty_input())
    } else {
        match s_stmt_list(toks, initial_state()) {
            Err(e) => Err(e),
            Ok(st1) => match expect(toks, st1, Terminal::End) {
                Err(e) => Err(e),
                Ok((st2, _)) => Ok(st2.cg),
            },
        }
    }
}

/// One assignment, an optional `;`, then the end marker.
pub open spec fn spec_parse_assignment(toks: Seq<TokenView>) -> Result<CodeGenView, ErrorView> {
    if toks.len() == 0 {
        Err(empty_input())
    } else {
        match s_assignment_core(toks, initial_state()) {
            Err(e) => Err(e),
            Ok(st1) => match peek(toks, st1.pos) {
                Err(e) => Err(e),
                Ok(t) => {
                    let st2 = if t.kind == Terminal::Semicolon {
                        advance(st1)
                    } else {
                        st1
                    };
                    match expect(toks, st2, Terminal::End) {
                        Err(e) => Err(e),
                        Ok((st3, _)) => Ok(st3.cg),
                    }
                },
            },
        }
    }
}

/// One boolean expression, then the end marker: the quadruples and the
/// true and false chains.
pub open spec fn spec_parse_bool(toks: Seq<TokenView>) -> Result<
    (CodeGenView, BoolAttrView),
    ErrorView,
> {
    if toks.len() == 0 {
        Err(empty_input())
    } else {
        match s_or(toks, initial_state()) {
            Err(e) => Err(e),
            Ok((st1, attr)) => match expect(toks, st1, Terminal::End) {
                Err(e) => Err(e),
                Ok((st2, _)) => Ok((st2.cg, attr)),
            },
        }
    }
}

} // verus!
