//! The recursive-descent parser never reads past an end marker: on a token
//! sequence that holds `#`, every rule stops at or before the first `#`,
//! because no rule ever matches `#` as a terminal.
use vstd::prelude::*;
use crate::lexer::TokenView;
use crate::rd_rules::{
    Halt, RState, RStep, add_node, arith_power, compares, enter, epsilon, grown, logic_power,
    look, r_assign, r_block, r_bool_atom, r_bool_bp, r_bool_expr, r_bool_rest, r_decl, r_expr,
    r_expr_atom, r_expr_bp, r_expr_rest, r_if, r_relation, r_statement, r_stmt_list,
    r_stmt_list_rest, r_terminal, r_variable, r_while, rd_overruns, start_state, starts_stmt,
};
use crate::symbol::Terminal;

verus! {

/// Token `e` is an end marker.
pub open spec fn marked(toks: Seq<TokenView>, e: int) -> bool {
    0 <= e < toks.len() && toks[e].kind == Terminal::End
}

/// The step stops with an error, or ends at a position no later than `e`.
pub open spec fn within<T>(s: RStep<T>, e: int) -> bool {
    match s {
        Ok((st, _)) => 0 <= st.pos <= e,
        Err(h) => h is Error,
    }
}

proof fn lemma_terminal(toks: Seq<TokenView>, e: int, st: RState, kind: Terminal)
    requires
        marked(toks, e),
        0 <= st.pos <= e,
        kind != Terminal::End,
    ensures
        within(r_terminal(toks, st, kind), e),
{
}

proof fn lemma_variable(toks: Seq<TokenView>, e: int, st: RState)
    requires
        marked(toks, e),
        0 <= st.pos <= e,
    ensures
        within(r_variable(toks, st), e),
{
    lemma_terminal(toks, e, enter(st, "parse_variable"@), Terminal::Id);
}

proof fn lemma_expr(toks: Seq<TokenView>, e: int, st: RState)
    requires
        marked(toks, e),
        0 <= st.pos <= e,
    ensures
        within(r_expr(toks, st), e),
    decreases toks.len() - st.pos, 3int,
{
    lemma_expr_bp(toks, e, enter(st, "parse_expr"@), 0);
}

proof fn lemma_expr_bp(toks: Seq<TokenView>, e: int, st: RState, min_bp: u8)
    requires
        marked(toks, e),
        0 <= st.pos <= e,
    ensures
        within(r_expr_bp(toks, st, min_bp), e),
    decreases toks.len() - st.pos, 2int,
{
    lemma_expr_atom(toks, e, st);
    if let Ok((st1, left)) = r_expr_atom(toks, st) {
        if grown(toks, st, st1) {
            lemma_expr_rest(toks, e, st1, left, min_bp);
        }
    }
}

proof fn lemma_expr_rest(toks: Seq<TokenView>, e: int, st: RState, left: usize, min_bp: u8)
    requires
        marked(toks, e),
        0 <= st.pos <= e,
    ensures
        within(r_expr_rest(toks, st, left, min_bp), e),
    decreases toks.len() - st.pos, 0int,
{
    let t = toks[st.pos];
    if let Some((lbp, rbp)) = arith_power(t.kind) {
        if lbp >= min_bp {
            lemma_terminal(toks, e, st, t.kind);
            if let Ok((st1, op)) = r_terminal(toks, st, t.kind) {
                if grown(toks, st, st1) {
                    lemma_expr_bp(toks, e, st1, rbp);
                    if let Ok((st2, right)) = r_expr_bp(toks, st1, rbp) {
                        if grown(toks, st, st2) {
                            let (st3, node) = add_node(st2, "BinaryExpr"@, seq![left, op, right]);
                            lemma_expr_rest(toks, e, st3, node, min_bp);
                        }
                    }
                }
            }
        }
    }
}

proof fn lemma_expr_atom(toks: Seq<TokenView>, e: int, st: RState)
    requires
        marked(toks, e),
        0 <= st.pos <= e,
    ensures
        within(r_expr_atom(toks, st), e),
    decreases toks.len() - st.pos, 1int,
{
    let t = toks[st.pos];
    if t.kind == Terminal::Id {
        lemma_variable(toks, e, st);
    } else if t.kind == Terminal::Num {
        lemma_terminal(toks, e, st, Terminal::Num);
    } else if t.kind == Terminal::LParen {
        lemma_terminal(toks, e, st, Terminal::LParen);
        if let Ok((st1, lp)) = r_terminal(toks, st, Terminal::LParen) {
            if grown(toks, st, st1) {
                lemma_expr(toks, e, st1);
                if let Ok((st2, x)) = r_expr(toks, st1) {
                    lemma_terminal(toks, e, st2, Terminal::RParen);
                }
            }
        }
    }
}

proof fn lemma_bool_expr(toks: Seq<TokenView>, e: int, st: RState)
    requires
        marked(toks, e),
        0 <= st.pos <= e,
    ensures
        within(r_bool_expr(toks, st), e),
    decreases toks.len() - st.pos, 4int,
{
    lemma_bool_bp(toks, e, enter(st, "parse_bool_expr"@), 0);
}

proof fn lemma_bool_bp(toks: Seq<TokenView>, e: int, st: RState, min_bp: u8)
    requires
        marked(toks, e),
        0 <= st.pos <= e,
    ensures
        within(r_bool_bp(toks, st, min_bp), e),
    decreases toks.len() - st.pos, 3int,
{
    let t = toks[st.pos];
    if t.kind == Terminal::Not {
        lemma_terminal(toks, e, st, Terminal::Not);
        if let Ok((st1, kw)) = r_terminal(toks, st, Terminal::Not) {
            if grown(toks, st, st1) {
                lemma_bool_bp(toks, e, st1, 5);
            }
        }
    } else {
        lemma_bool_atom(toks, e, st);
    }
    let first = match look(toks, st.pos) {
        None => Err(Halt::Overrun),
        Some(t) => if t.kind == Terminal::Not {
            match r_terminal(toks, st, Terminal::Not) {
                Err(h) => Err(h),
                Ok((st1, kw)) => if !grown(toks, st, st1) {
                    Err(Halt::Error(Seq::empty()))
                } else {
                    match r_bool_bp(toks, st1, 5) {
                        Err(h) => Err(h),
                        Ok((st2, x)) => Ok(add_node(st2, "NotExpr"@, seq![kw, x])),
                    }
                },
            }
        } else {
            r_bool_atom(toks, st)
        },
    };
    if let Ok((st1, left)) = first {
        if grown(toks, st, st1) {
            lemma_bool_rest(toks, e, st1, left, min_bp);
        }
    }
}

proof fn lemma_bool_rest(toks: Seq<TokenView>, e: int, st: RState, left: usize, min_bp: u8)
    requires
        marked(toks, e),
        0 <= st.pos <= e,
    ensures
        within(r_bool_rest(toks, st, left, min_bp), e),
    decreases toks.len() - st.pos, 0int,
{
    let t = toks[st.pos];
    if let Some((lbp, rbp)) = logic_power(t.kind) {
        if lbp >= min_bp {
            lemma_terminal(toks, e, st, t.kind);
            if let Ok((st1, op)) = r_terminal(toks, st, t.kind) {
                if grown(toks, st, st1) {
                    lemma_bool_bp(toks, e, st1, rbp);
                    if let Ok((st2, right)) = r_bool_bp(toks, st1, rbp) {
                        if grown(toks, st, st2) {
                            let (st3, node) = add_node(st2, "LogicalExpr"@, seq![left, op, right]);
                            lemma_bool_rest(toks, e, st3, node, min_bp);
                        }
                    }
                }
            }
        }
    }
}

proof fn lemma_bool_atom(toks: Seq<TokenView>, e: int, st: RState)
    requires
        marked(toks, e),
        0 <= st.pos <= e,
    ensures
        within(r_bool_atom(toks, st), e),
    decreases toks.len() - st.pos, 2int,
{
    let t = toks[st.pos];
    if t.kind == Terminal::True || t.kind == Terminal::False {
        lemma_terminal(toks, e, st, t.kind);
    } else if t.kind == Terminal::LParen {
        lemma_terminal(toks, e, st, Terminal::LParen);
        if let Ok((st1, lp)) = r_terminal(toks, st, Terminal::LParen) {
            if grown(toks, st, st1) {
                lemma_bool_expr(toks, e, st1);
                if let Ok((st2, x)) = r_bool_expr(toks, st1) {
                    lemma_terminal(toks, e, st2, Terminal::RParen);
                }
            }
        }
    } else if t.kind == Terminal::Id || t.kind == Terminal::Num {
        lemma_relation(toks, e, st);
    }
}

proof fn lemma_relation(toks: Seq<TokenView>, e: int, st: RState)
    requires
        marked(toks, e),
        0 <= st.pos <= e,
    ensures
        within(r_relation(toks, st), e),
{
    let t = toks[st.pos];
    if t.kind == Terminal::Id {
        lemma_variable(toks, e, st);
    } else if t.kind == Terminal::Num {
        lemma_terminal(toks, e, st, Terminal::Num);
    }
    let left = if t.kind == Terminal::Id {
        r_variable(toks, st)
    } else if t.kind == Terminal::Num {
        match r_terminal(toks, st, Terminal::Num) {
            Err(h) => Err(h),
            Ok((st1, num)) => Ok(add_node(st1, "Number"@, seq![num])),
        }
    } else {
        Err(Halt::Error(Seq::empty()))
    };
    if let Ok((st1, l)) = left {
        let t1 = toks[st1.pos];
        if compares(t1.kind) {
            lemma_terminal(toks, e, st1, t1.kind);
            if let Ok((st2, op)) = r_terminal(toks, st1, t1.kind) {
                lemma_expr(toks, e, st2);
            }
        }
    }
}

proof fn lemma_decl(toks: Seq<TokenView>, e: int, st: RState)
    requires
        marked(toks, e),
        0 <= st.pos <= e,
    ensures
        within(r_decl(toks, st), e),
{
    let st0 = enter(st, "parse_decl_stmt"@);
    lemma_terminal(toks, e, st0, Terminal::Let);
    if let Ok((st1, kw)) = r_terminal(toks, st0, Terminal::Let) {
        lemma_variable(toks, e, st1);
        if let Ok((st2, var)) = r_variable(toks, st1) {
            if toks[st2.pos].kind == Terminal::Assign {
                lemma_terminal(toks, e, st2, Terminal::Assign);
                if let Ok((st3, eq)) = r_terminal(toks, st2, Terminal::Assign) {
                    lemma_expr(toks, e, st3);
                }
            }
        }
    }
}

proof fn lemma_assign(toks: Seq<TokenView>, e: int, st: RState)
    requires
        marked(toks, e),
        0 <= st.pos <= e,
    ensures
        within(r_assign(toks, st), e),
{
    let st0 = enter(st, "parse_assign_stmt"@);
    lemma_variable(toks, e, st0);
    if let Ok((st1, var)) = r_variable(toks, st0) {
        lemma_terminal(toks, e, st1, Terminal::Assign);
        if let Ok((st2, eq)) = r_terminal(toks, st1, Terminal::Assign) {
            lemma_expr(toks, e, st2);
        }
    }
}

proof fn lemma_stmt_list(toks: Seq<TokenView>, e: int, st: RState)
    requires
        marked(toks, e),
        0 <= st.pos <= e,
    ensures
        within(r_stmt_list(toks, st), e),
    decreases toks.len() - st.pos, 3int,
{
    let st0 = enter(st, "parse_stmt_list"@);
    lemma_statement(toks, e, st0);
    if let Ok((st1, first)) = r_statement(toks, st0) {
        if grown(toks, st, st1) {
            lemma_stmt_list_rest(toks, e, st1, seq![first]);
        }
    }
}

proof fn lemma_stmt_list_rest(toks: Seq<TokenView>, e: int, st: RState, items: Seq<usize>)
    requires
        marked(toks, e),
        0 <= st.pos <= e,
    ensures
        within(r_stmt_list_rest(toks, st, items), e),
    decreases toks.len() - st.pos, 3int,
{
    if starts_stmt(toks[st.pos].kind) {
        lemma_statement(toks, e, st);
        if let Ok((st1, s)) = r_statement(toks, st) {
            if grown(toks, st, st1) {
                lemma_stmt_list_rest(toks, e, st1, items.push(s));
            }
        }
    }
}

proof fn lemma_statement(toks: Seq<TokenView>, e: int, st: RState)
    requires
        marked(toks, e),
        0 <= st.pos <= e,
    ensures
        within(r_statement(toks, st), e),
    decreases toks.len() - st.pos, 2int,
{
    let st1 = enter(st, "parse_statement"@);
    let k = toks[st1.pos].kind;
    if k == Terminal::Let || k == Terminal::Id {
        let simple = if k == Terminal::Let {
            lemma_decl(toks, e, st1);
            r_decl(toks, st1)
        } else {
            lemma_assign(toks, e, st1);
            r_assign(toks, st1)
        };
        if let Ok((st2, s)) = simple {
            lemma_terminal(toks, e, st2, Terminal::Semicolon);
        }
    } else if k == Terminal::If {
        lemma_if(toks, e, st1);
    } else if k == Terminal::While {
        lemma_while(toks, e, st1);
    } else if k == Terminal::LBrace {
        lemma_block(toks, e, st1);
    }
}

proof fn lemma_block(toks: Seq<TokenView>, e: int, st: RState)
    requires
        marked(toks, e),
        0 <= st.pos <= e,
    ensures
        within(r_block(toks, st), e),
    decreases toks.len() - st.pos, 1int,
{
    let st0 = enter(st, "parse_block"@);
    lemma_terminal(toks, e, st0, Terminal::LBrace);
    if let Ok((st1, lb)) = r_terminal(toks, st0, Terminal::LBrace) {
        let body = if starts_stmt(toks[st1.pos].kind) {
            lemma_stmt_list(toks, e, st1);
            r_stmt_list(toks, st1)
        } else {
            Ok(epsilon(st1))
        };
        if let Ok((st2, b)) = body {
            lemma_terminal(toks, e, st2, Terminal::RBrace);
        }
    }
}

proof fn lemma_if(toks: Seq<TokenView>, e: int, st: RState)
    requires
        marked(toks, e),
        0 <= st.pos <= e,
    ensures
        within(r_if(toks, st), e),
    decreases toks.len() - st.pos, 1int,
{
    let st0 = enter(st, "parse_if_stmt"@);
    lemma_terminal(toks, e, st0, Terminal::If);
    if let Ok((st1, kw)) = r_terminal(toks, st0, Terminal::If) {
        lemma_terminal(toks, e, st1, Terminal::LParen);
        if let Ok((st2, lp)) = r_terminal(toks, st1, Terminal::LParen) {
            lemma_bool_expr(toks, e, st2);
            if let Ok((st3, cond)) = r_bool_expr(toks, st2) {
                lemma_terminal(toks, e, st3, Terminal::RParen);
                if let Ok((st4, rp)) = r_terminal(toks, st3, Terminal::RParen) {
                    if grown(toks, st, st4) {
                        lemma_block(toks, e, st4);
                        if let Ok((st5, then_block)) = r_block(toks, st4) {
                            if toks[st5.pos].kind == Terminal::Else {
                                lemma_terminal(toks, e, st5, Terminal::Else);
                                if let Ok((st6, ekw)) = r_terminal(toks, st5, Terminal::Else) {
                                    if grown(toks, st, st6) {
                                        if toks[st6.pos].kind == Terminal::If {
                                            lemma_if(toks, e, st6);
                                        } else {
                                            lemma_block(toks, e, st6);
                                        }
                                    }
                                }
                            }
                        }
                    }
                }
            }
        }
    }
}

proof fn lemma_while(toks: Seq<TokenView>, e: int, st: RState)
    requires
        marked(toks, e),
        0 <= st.pos <= e,
    ensures
        within(r_while(toks, st), e),
    decreases toks.len() - st.pos, 1int,
{
    let st0 = enter(st, "parse_while_stmt"@);
    lemma_terminal(toks, e, st0, Terminal::While);
    if let Ok((st1, kw)) = r_terminal(toks, st0, Terminal::While) {
        lemma_terminal(toks, e, st1, Terminal::LParen);
        if let Ok((st2, lp)) = r_terminal(toks, st1, Terminal::LParen) {
            lemma_bool_expr(toks, e, st2);
            if let Ok((st3, cond)) = r_bool_expr(toks, st2) {
                lemma_terminal(toks, e, st3, Terminal::RParen);
                if let Ok((st4, rp)) = r_terminal(toks, st3, Terminal::RParen) {
                    if grown(toks, st, st4) {
                        lemma_block(toks, e, st4);
                    }
                }
            }
        }
    }
}

/// A token sequence that holds the end marker `#` never leads the
/// recursive-descent parse past its last token: every rule stops at or
/// before the first `#`, since none matches `#` as a terminal.
pub proof fn lemma_marked_tokens_never_overrun(toks: Seq<TokenView>, e: int)
    requires
        marked(toks, e),
    ensures
        !rd_overruns(toks),
{
    let st0 = enter(start_state(), "parse_program"@);
    lemma_stmt_list(toks, e, st0);
}

} // verus!
