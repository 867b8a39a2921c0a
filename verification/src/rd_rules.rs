//! The recursive-descent tree builder as spec functions over token
//! sequences: what `rd_parser` computes, rule by rule.
//!
//! A rule takes the tokens and a state (the position of the next token, the
//! nodes built and the trace written so far) and gives the new state and the
//! index of the node it built, or why the parse stops: an error, or a read
//! past the last token.
use vstd::prelude::*;
use crate::lexer::TokenView;
use crate::symbol::{Terminal, terminal_text};
use crate::syntax_tree::RdNodeView;
use crate::text::decimal;

verus! {

/// Parser state: the next token, the nodes built and the trace so far.
#[verifier::ext_equal]
pub struct RState {
    pub pos: int,
    pub nodes: Seq<RdNodeView>,
    pub trace: Seq<Seq<char>>,
}

/// Why a parse stops: an error with its message, or a read past the last
/// token (which the token sequences of the lexer, ended by `#`, never cause).
pub enum Halt {
    Error(Seq<char>),
    Overrun,
}

/// The outcome of a rule.
pub type RStep<T> = Result<(RState, T), Halt>;

/// The state before anything is read.
pub open spec fn start_state() -> RState {
    RState { pos: 0, nodes: Seq::empty(), trace: Seq::empty() }
}

/// The token at `pos`, if there is one.
pub open spec fn look(toks: Seq<TokenView>, pos: int) -> Option<TokenView> {
    if 0 <= pos < toks.len() {
        Some(toks[pos])
    } else {
        None
    }
}

/// The state after appending a node, and the node's index.
pub open spec fn add_node(st: RState, label: Seq<char>, children: Seq<usize>) -> (RState, usize) {
    (
        RState {
            pos: st.pos,
            nodes: st.nodes.push(RdNodeView { label, children }),
            trace: st.trace,
        },
        st.nodes.len() as usize,
    )
}

/// The state after tracing the entry into the rule `name`.
pub open spec fn enter(st: RState, name: Seq<char>) -> RState {
    RState { pos: st.pos, nodes: st.nodes, trace: st.trace.push("enter "@ + name) }
}

/// The step went forward and stayed within the tokens.
pub open spec fn grown(toks: Seq<TokenView>, before: RState, after: RState) -> bool {
    before.pos < after.pos <= toks.len()
}

/// The outcome of a step whose input did not advance; such a step does not
/// occur (see the progress clauses of the parser).
pub open spec fn stall<T>() -> RStep<T> {
    Err(Halt::Error(Seq::empty()))
}

/// ` (offset n)`, the position suffix of the error messages.
pub open spec fn at_offset(t: TokenView) -> Seq<char> {
    " (offset "@ + decimal(t.offset as nat) + ")"@
}

/// A message that names the offending token: `head`, the token's kind in
/// backquotes, and its offset.
pub open spec fn rd_message(head: Seq<char>, t: TokenView) -> Seq<char> {
    "递归下降错误: "@ + head + "`"@ + terminal_text(t.kind) + "`"@ + at_offset(t)
}

/// The message for a token of another kind than `kind`.
pub open spec fn expect_message(kind: Terminal, t: TokenView) -> Seq<char> {
    rd_message("期待 `"@ + terminal_text(kind) + "`, 实际读到 "@, t)
}

/// The message of an empty token sequence.
pub open spec fn empty_tokens_message() -> Seq<char> {
    "输入 token 序列为空"@
}

/// Kinds that start a statement.
pub open spec fn starts_stmt(k: Terminal) -> bool {
    k == Terminal::Let || k == Terminal::If || k == Terminal::While || k == Terminal::LBrace || k
        == Terminal::Id
}

/// Binding powers (left, right) of an arithmetic operator: `+` and `-`
/// loosest, `*` and `/` tighter, all associating to the left.
pub open spec fn arith_power(k: Terminal) -> Option<(u8, u8)> {
    if k == Terminal::Plus || k == Terminal::Minus {
        Some((1, 2))
    } else if k == Terminal::Star || k == Terminal::Slash {
        Some((3, 4))
    } else {
        None
    }
}

/// Binding powers (left, right) of a boolean connective: `or` looser than
/// `and`, both associating to the left.
pub open spec fn logic_power(k: Terminal) -> Option<(u8, u8)> {
    if k == Terminal::Or {
        Some((1, 2))
    } else if k == Terminal::And {
        Some((3, 4))
    } else {
        None
    }
}

/// Comparison operators.
pub open spec fn compares(k: Terminal) -> bool {
    k == Terminal::Eq || k == Terminal::Ne || k == Terminal::Lt || k == Terminal::Le || k
        == Terminal::Gt || k == Terminal::Ge
}

/// Matches a token of kind `kind`: traces it and builds a leaf labelled
/// with the kind.
pub open spec fn r_terminal(toks: Seq<TokenView>, st: RState, kind: Terminal) -> RStep<usize> {
    match look(toks, st.pos) {
        None => Err(Halt::Overrun),
        Some(t) => if t.kind != kind {
            Err(Halt::Error(expect_message(kind, t)))
        } else {
            Ok(
                add_node(
                    RState {
                        pos: st.pos + 1,
                        nodes: st.nodes,
                        trace: st.trace.push("match "@ + terminal_text(kind)),
                    },
                    terminal_text(kind),
                    Seq::empty(),
                ),
            )
        },
    }
}

/// A leaf `ε` for an empty alternative.
pub open spec fn epsilon(st: RState) -> (RState, usize) {
    add_node(st, "ε"@, Seq::empty())
}

// ---------------------------------------------------------------------
// Programs and statements
// ---------------------------------------------------------------------

/// `Program → StmtList`, followed by the end marker (not consumed).
pub open spec fn r_program(toks: Seq<TokenView>, st: RState) -> RStep<usize> {
    match r_stmt_list(toks, enter(st, "parse_program"@)) {
        Err(h) => Err(h),
        Ok((st1, list)) => match look(toks, st1.pos) {
            None => Err(Halt::Overrun),
            Some(t) => if t.kind != Terminal::End {
                Err(Halt::Error(rd_message("程序结束处期待 `#`, 实际读到 "@, t)))
            } else {
                Ok(add_node(st1, "Program"@, seq![list]))
            },
        },
    }
}

/// `StmtList → Statement+`
pub open spec fn r_stmt_list(toks: Seq<TokenView>, st: RState) -> RStep<usize>
    decreases toks.len() - st.pos, 3int,
{
    match r_statement(toks, enter(st, "parse_stmt_list"@)) {
        Err(h) => Err(h),
        Ok((st1, first)) => if grown(toks, st, st1) {
            r_stmt_list_rest(toks, st1, seq![first])
        } else {
            stall()
        },
    }
}

/// Further statements while the next token can start one; then the
/// `StmtList` node over all of them.
pub open spec fn r_stmt_list_rest(toks: Seq<TokenView>, st: RState, items: Seq<usize>) -> RStep<
    usize,
>
    decreases toks.len() - st.pos, 3int,
{
    match look(toks, st.pos) {
        None => Err(Halt::Overrun),
        Some(t) => if starts_stmt(t.kind) {
            match r_statement(toks, st) {
                Err(h) => Err(h),
                Ok((st1, s)) => if grown(toks, st, st1) {
                    r_stmt_list_rest(toks, st1, items.push(s))
                } else {
                    stall()
                },
            }
        } else {
            Ok(add_node(st, "StmtList"@, items))
        },
    }
}

/// `Statement → DeclStmt ; | AssignStmt ; | IfStmt | WhileStmt | Block`
pub open spec fn r_statement(toks: Seq<TokenView>, st: RState) -> RStep<usize>
    decreases toks.len() - st.pos, 2int,
{
    let st1 = enter(st, "parse_statement"@);
    match look(toks, st1.pos) {
        None => Err(Halt::Overrun),
        Some(t) => if t.kind == Terminal::Let || t.kind == Terminal::Id {
            let simple = if t.kind == Terminal::Let {
                r_decl(toks, st1)
            } else {
                r_assign(toks, st1)
            };
            match simple {
                Err(h) => Err(h),
                Ok((st2, s)) => match r_terminal(toks, st2, Terminal::Semicolon) {
                    Err(h) => Err(h),
                    Ok((st3, semi)) => Ok(add_node(st3, "Statement"@, seq![s, semi])),
                },
            }
        } else if t.kind == Terminal::If || t.kind == Terminal::While || t.kind
            == Terminal::LBrace {
            let inner = if t.kind == Terminal::If {
                r_if(toks, st1)
            } else if t.kind == Terminal::While {
                r_while(toks, st1)
            } else {
                r_block(toks, st1)
            };
            match inner {
                Err(h) => Err(h),
                Ok((st2, s)) => Ok(add_node(st2, "Statement"@, seq![s])),
            }
        } else {
            Err(Halt::Error(rd_message("非法语句起始符 "@, t)))
        },
    }
}

/// `Block → { StmtList } | { }`, the empty body as a leaf `ε`.
pub open spec fn r_block(toks: Seq<TokenView>, st: RState) -> RStep<usize>
    decreases toks.len() - st.pos, 1int,
{
    match r_terminal(toks, enter(st, "parse_block"@), Terminal::LBrace) {
        Err(h) => Err(h),
        Ok((st1, lb)) => match look(toks, st1.pos) {
            None => Err(Halt::Overrun),
            Some(t) => {
                let body = if starts_stmt(t.kind) {
                    r_stmt_list(toks, st1)
                } else {
                    Ok(epsilon(st1))
                };
                match body {
                    Err(h) => Err(h),
                    Ok((st2, b)) => match r_terminal(toks, st2, Terminal::RBrace) {
                        Err(h) => Err(h),
                        Ok((st3, rb)) => Ok(add_node(st3, "Block"@, seq![lb, b, rb])),
                    },
                }
            },
        },
    }
}

/// `DeclStmt → let Variable = Expr | let Variable`, the missing
/// initializer as a leaf `ε`.
pub open spec fn r_decl(toks: Seq<TokenView>, st: RState) -> RStep<usize> {
    match r_terminal(toks, enter(st, "parse_decl_stmt"@), Terminal::Let) {
        Err(h) => Err(h),
        Ok((st1, kw)) => match r_variable(toks, st1) {
            Err(h) => Err(h),
            Ok((st2, var)) => match look(toks, st2.pos) {
                None => Err(Halt::Overrun),
                Some(t) => if t.kind == Terminal::Assign {
                    match r_terminal(toks, st2, Terminal::Assign) {
                        Err(h) => Err(h),
                        Ok((st3, eq)) => match r_expr(toks, st3) {
                            Err(h) => Err(h),
                            Ok((st4, e)) => Ok(add_node(st4, "DeclStmt"@, seq![kw, var, eq, e])),
                        },
                    }
                } else {
                    let (st3, eps) = epsilon(st2);
                    Ok(add_node(st3, "DeclStmt"@, seq![kw, var, eps]))
                },
            },
        },
    }
}

/// `AssignStmt → Variable = Expr`
pub open spec fn r_assign(toks: Seq<TokenView>, st: RState) -> RStep<usize> {
    match r_variable(toks, enter(st, "parse_assign_stmt"@)) {
        Err(h) => Err(h),
        Ok((st1, var)) => match r_terminal(toks, st1, Terminal::Assign) {
            Err(h) => Err(h),
            Ok((st2, eq)) => match r_expr(toks, st2) {
                Err(h) => Err(h),
                Ok((st3, e)) => Ok(add_node(st3, "AssignStmt"@, seq![var, eq, e])),
            },
        },
    }
}

/// `IfStmt → if ( BoolExpr ) Block [else (IfStmt | Block)]`, a missing
/// else part as a leaf `ε`.
pub open spec fn r_if(toks: Seq<TokenView>, st: RState) -> RStep<usize>
    decreases toks.len() - st.pos, 1int,
{
    match r_terminal(toks, enter(st, "parse_if_stmt"@), Terminal::If) {
        Err(h) => Err(h),
        Ok((st1, kw)) => match r_terminal(toks, st1, Terminal::LParen) {
            Err(h) => Err(h),
            Ok((st2, lp)) => match r_bool_expr(toks, st2) {
                Err(h) => Err(h),
                Ok((st3, cond)) => match r_terminal(toks, st3, Terminal::RParen) {
                    Err(h) => Err(h),
                    Ok((st4, rp)) => if !grown(toks, st, st4) {
                        stall()
                    } else {
                        match r_block(toks, st4) {
                            Err(h) => Err(h),
                            Ok((st5, then_block)) => match look(toks, st5.pos) {
                                None => Err(Halt::Overrun),
                                Some(t) => if t.kind == Terminal::Else {
                                    match r_terminal(toks, st5, Terminal::Else) {
                                        Err(h) => Err(h),
                                        Ok((st6, ekw)) => match look(toks, st6.pos) {
                                            None => Err(Halt::Overrun),
                                            Some(t2) => {
                                                let body = if !grown(toks, st, st6) {
                                                    stall()
                                                } else if t2.kind == Terminal::If {
                                                    r_if(toks, st6)
                                                } else {
                                                    r_block(toks, st6)
                                                };
                                                match body {
                                                    Err(h) => Err(h),
                                                    Ok((st7, b)) => Ok(
                                                        add_node(
                                                            st7,
                                                            "IfStmt"@,
                                                            seq![kw, lp, cond, rp, then_block, ekw, b],
                                                        ),
                                                    ),
                                                }
                                            },
                                        },
                                    }
                                } else {
                                    let (st6, eps) = epsilon(st5);
                                    Ok(
                                        add_node(
                                            st6,
                                            "IfStmt"@,
                                            seq![kw, lp, cond, rp, then_block, eps],
                                        ),
                                    )
                                },
                            },
                        }
                    },
                },
            },
        },
    }
}

/// `WhileStmt → while ( BoolExpr ) Block`
pub open spec fn r_while(toks: Seq<TokenView>, st: RState) -> RStep<usize>
    decreases toks.len() - st.pos, 1int,
{
    match r_terminal(toks, enter(st, "parse_while_stmt"@), Terminal::While) {
        Err(h) => Err(h),
        Ok((st1, kw)) => match r_terminal(toks, st1, Terminal::LParen) {
            Err(h) => Err(h),
            Ok((st2, lp)) => match r_bool_expr(toks, st2) {
                Err(h) => Err(h),
                Ok((st3, cond)) => match r_terminal(toks, st3, Terminal::RParen) {
                    Err(h) => Err(h),
                    Ok((st4, rp)) => if !grown(toks, st, st4) {
                        stall()
                    } else {
                        match r_block(toks, st4) {
                            Err(h) => Err(h),
                            Ok((st5, body)) => Ok(
                                add_node(st5, "WhileStmt"@, seq![kw, lp, cond, rp, body]),
                            ),
                        }
                    },
                },
            },
        },
    }
}

/// `Variable → id`
pub open spec fn r_variable(toks: Seq<TokenView>, st: RState) -> RStep<usize> {
    match r_terminal(toks, enter(st, "parse_variable"@), Terminal::Id) {
        Err(h) => Err(h),
        Ok((st1, id)) => Ok(add_node(st1, "Variable"@, seq![id])),
    }
}

// ---------------------------------------------------------------------
// Arithmetic expressions
// ---------------------------------------------------------------------

/// `Expr`: an expression with no binding-power floor, under an `Expr` node.
pub open spec fn r_expr(toks: Seq<TokenView>, st: RState) -> RStep<usize>
    decreases toks.len() - st.pos, 3int,
{
    match r_expr_bp(toks, enter(st, "parse_expr"@), 0) {
        Err(h) => Err(h),
        Ok((st1, e)) => Ok(add_node(st1, "Expr"@, seq![e])),
    }
}

/// An expression whose operators bind at least as tightly as `min_bp`.
pub open spec fn r_expr_bp(toks: Seq<TokenView>, st: RState, min_bp: u8) -> RStep<usize>
    decreases toks.len() - st.pos, 2int,
{
    match r_expr_atom(toks, st) {
        Err(h) => Err(h),
        Ok((st1, left)) => if grown(toks, st, st1) {
            r_expr_rest(toks, st1, left, min_bp)
        } else {
            stall()
        },
    }
}

/// The operator loop: while the next operator binds at least as tightly as
/// `min_bp`, parse its right operand and join both under a `BinaryExpr`.
pub open spec fn r_expr_rest(toks: Seq<TokenView>, st: RState, left: usize, min_bp: u8) -> RStep<
    usize,
>
    decreases toks.len() - st.pos, 0int,
{
    match look(toks, st.pos) {
        None => Err(Halt::Overrun),
        Some(t) => match arith_power(t.kind) {
            None => Ok((st, left)),
            Some((lbp, rbp)) => if lbp < min_bp {
                Ok((st, left))
            } else {
                match r_terminal(toks, st, t.kind) {
                    Err(h) => Err(h),
                    Ok((st1, op)) => if !grown(toks, st, st1) {
                        stall()
                    } else {
                        match r_expr_bp(toks, st1, rbp) {
                            Err(h) => Err(h),
                            Ok((st2, right)) => if grown(toks, st, st2) {
                                let (st3, node) = add_node(
                                    st2,
                                    "BinaryExpr"@,
                                    seq![left, op, right],
                                );
                                r_expr_rest(toks, st3, node, min_bp)
                            } else {
                                stall()
                            },
                        }
                    },
                }
            },
        },
    }
}

/// An operand: a variable, a number, or a parenthesized expression.
pub open spec fn r_expr_atom(toks: Seq<TokenView>, st: RState) -> RStep<usize>
    decreases toks.len() - st.pos, 1int,
{
    match look(toks, st.pos) {
        None => Err(Halt::Overrun),
        Some(t) => if t.kind == Terminal::Id {
            r_variable(toks, st)
        } else if t.kind == Terminal::Num {
            match r_terminal(toks, st, Terminal::Num) {
                Err(h) => Err(h),
                Ok((st1, num)) => Ok(add_node(st1, "Number"@, seq![num])),
            }
        } else if t.kind == Terminal::LParen {
            match r_terminal(toks, st, Terminal::LParen) {
                Err(h) => Err(h),
                Ok((st1, lp)) => if !grown(toks, st, st1) {
                    stall()
                } else {
                    match r_expr(toks, st1) {
                        Err(h) => Err(h),
                        Ok((st2, e)) => match r_terminal(toks, st2, Terminal::RParen) {
                            Err(h) => Err(h),
                            Ok((st3, rp)) => Ok(add_node(st3, "GroupedExpr"@, seq![lp, e, rp])),
                        },
                    }
                },
            }
        } else {
            Err(Halt::Error(rd_message("非法表达式起始符 "@, t)))
        },
    }
}

// ---------------------------------------------------------------------
// Boolean expressions
// ---------------------------------------------------------------------

/// `BoolExpr`: a boolean expression with no binding-power floor, under a
/// `BoolExpr` node.
pub open spec fn r_bool_expr(toks: Seq<TokenView>, st: RState) -> RStep<usize>
    decreases toks.len() - st.pos, 4int,
{
    match r_bool_bp(toks, enter(st, "parse_bool_expr"@), 0) {
        Err(h) => Err(h),
        Ok((st1, e)) => Ok(add_node(st1, "BoolExpr"@, seq![e])),
    }
}

/// A boolean expression whose connectives bind at least as tightly as
/// `min_bp`; `not` applies to an operand that binds tighter than `and`.
pub open spec fn r_bool_bp(toks: Seq<TokenView>, st: RState, min_bp: u8) -> RStep<usize>
    decreases toks.len() - st.pos, 3int,
{
    let first = match look(toks, st.pos) {
        None => Err(Halt::Overrun),
        Some(t) => if t.kind == Terminal::Not {
            match r_terminal(toks, st, Terminal::Not) {
                Err(h) => Err(h),
                Ok((st1, kw)) => if !grown(toks, st, st1) {
                    stall()
                } else {
                    match r_bool_bp(toks, st1, 5) {
                        Err(h) => Err(h),
                        Ok((st2, e)) => Ok(add_node(st2, "NotExpr"@, seq![kw, e])),
                    }
                },
            }
        } else {
            r_bool_atom(toks, st)
        },
    };
    match first {
        Err(h) => Err(h),
        Ok((st1, left)) => if grown(toks, st, st1) {
            r_bool_rest(toks, st1, left, min_bp)
        } else {
            stall()
        },
    }
}

/// The connective loop: while the next connective binds at least as tightly
/// as `min_bp`, parse its right operand and join both under a `LogicalExpr`.
pub open spec fn r_bool_rest(toks: Seq<TokenView>, st: RState, left: usize, min_bp: u8) -> RStep<
    usize,
>
    decreases toks.len() - st.pos, 0int,
{
    match look(toks, st.pos) {
        None => Err(Halt::Overrun),
        Some(t) => match logic_power(t.kind) {
            None => Ok((st, left)),
            Some((lbp, rbp)) => if lbp < min_bp {
                Ok((st, left))
            } else {
                match r_terminal(toks, st, t.kind) {
                    Err(h) => Err(h),
                    Ok((st1, op)) => if !grown(toks, st, st1) {
                        stall()
                    } else {
                        match r_bool_bp(toks, st1, rbp) {
                            Err(h) => Err(h),
                            Ok((st2, right)) => if grown(toks, st, st2) {
                                let (st3, node) = add_node(
                                    st2,
                                    "LogicalExpr"@,
                                    seq![left, op, right],
                                );
                                r_bool_rest(toks, st3, node, min_bp)
                            } else {
                                stall()
                            },
                        }
                    },
                }
            },
        },
    }
}

/// A boolean operand: `true`, `false`, a parenthesized boolean expression,
/// or a comparison.
pub open spec fn r_bool_atom(toks: Seq<TokenView>, st: RState) -> RStep<usize>
    decreases toks.len() - st.pos, 2int,
{
    match look(toks, st.pos) {
        None => Err(Halt::Overrun),
        Some(t) => if t.kind == Terminal::True || t.kind == Terminal::False {
            match r_terminal(toks, st, t.kind) {
                Err(h) => Err(h),
                Ok((st1, lit)) => Ok(add_node(st1, "BoolLiteral"@, seq![lit])),
            }
        } else if t.kind == Terminal::LParen {
            match r_terminal(toks, st, Terminal::LParen) {
                Err(h) => Err(h),
                Ok((st1, lp)) => if !grown(toks, st, st1) {
                    stall()
                } else {
                    match r_bool_expr(toks, st1) {
                        Err(h) => Err(h),
                        Ok((st2, e)) => match r_terminal(toks, st2, Terminal::RParen) {
                            Err(h) => Err(h),
                            Ok((st3, rp)) => Ok(
                                add_node(st3, "GroupedBoolExpr"@, seq![lp, e, rp]),
                            ),
                        },
                    }
                },
            }
        } else if t.kind == Terminal::Id || t.kind == Terminal::Num {
            r_relation(toks, st)
        } else {
            Err(Halt::Error(rd_message("非法布尔表达式起始符 "@, t)))
        },
    }
}

/// `Relation → (Variable | Number) relop Expr`
pub open spec fn r_relation(toks: Seq<TokenView>, st: RState) -> RStep<usize> {
    let left = match look(toks, st.pos) {
        None => Err(Halt::Overrun),
        Some(t) => if t.kind == Terminal::Id {
            r_variable(toks, st)
        } else if t.kind == Terminal::Num {
            match r_terminal(toks, st, Terminal::Num) {
                Err(h) => Err(h),
                Ok((st1, num)) => Ok(add_node(st1, "Number"@, seq![num])),
            }
        } else {
            Err(Halt::Error(rd_message("比较表达式左侧非法 "@, t)))
        },
    };
    match left {
        Err(h) => Err(h),
        Ok((st1, l)) => match look(toks, st1.pos) {
            None => Err(Halt::Overrun),
            Some(t) => if compares(t.kind) {
                match r_terminal(toks, st1, t.kind) {
                    Err(h) => Err(h),
                    Ok((st2, op)) => match r_expr(toks, st2) {
                        Err(h) => Err(h),
                        Ok((st3, right)) => Ok(add_node(st3, "Relation"@, seq![l, op, right])),
                    },
                }
            } else {
                Err(Halt::Error(rd_message("期待比较运算符，实际读到 "@, t)))
            },
        },
    }
}

// ---------------------------------------------------------------------
// Entry point
// ---------------------------------------------------------------------

/// A whole parse: the root, the nodes and the trace, or why it stops.
pub open spec fn spec_rd_parse(toks: Seq<TokenView>) -> Result<
    (usize, Seq<RdNodeView>, Seq<Seq<char>>),
    Halt,
> {
    if toks.len() == 0 {
        Err(Halt::Error(empty_tokens_message()))
    } else {
        match r_program(toks, start_state()) {
            Err(h) => Err(h),
            Ok((st, root)) => match look(toks, st.pos) {
                None => Err(Halt::Overrun),
                Some(t) => if t.kind != Terminal::End {
                    Err(Halt::Error(rd_message("输入未完全消费，当前位置是 "@, t)))
                } else {
                    Ok((root, st.nodes, st.trace))
                },
            },
        }
    }
}

/// Whether the parse of `toks` reads past the last token.
pub open spec fn rd_overruns(toks: Seq<TokenView>) -> bool {
    spec_rd_parse(toks) matches Err(Halt::Overrun)
}

} // verus!
