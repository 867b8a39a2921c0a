//! A recursive-descent parser that builds the parse tree of a Simple
//! program and a trace of the rules it entered and the terminals it
//! matched. `rd_rules` states what each step computes.
use vstd::prelude::*;
use crate::cli::string_views;
use crate::lexer::{Token, TokenView, token_views};
use crate::rd_rules::{
    Halt, RState, RStep, add_node, arith_power, enter, expect_message, logic_power, r_assign,
    r_block, r_bool_atom, r_bool_bp, r_bool_expr, r_bool_rest, r_decl, r_expr, r_expr_atom,
    r_expr_bp, r_expr_rest, r_if, r_program, r_relation, r_statement, r_stmt_list,
    r_stmt_list_rest, r_terminal, r_variable, r_while, rd_message, rd_overruns, spec_rd_parse,
    start_state, starts_stmt,
};
use crate::symbol::{Terminal, terminal_text};
use crate::rd_yield::{lemma_tree_spells_tokens, texts};
use crate::syntax_tree::{
    RdNode, RdNodeView, RdParseOutput, leaves, lemma_ordered_printable, node_views, printable,
    tree_ok,
};
use crate::text::push_decimal;

verus! {

struct Parser<'a> {
    tokens: &'a [Token],
    pos: usize,
    nodes: Vec<RdNode>,
    trace: Vec<String>,
}

/// The step `s` does not read past the last token.
spec fn no_overrun<T>(s: RStep<T>) -> bool {
    !(s matches Err(Halt::Overrun))
}

/// `r` is what the step `s` gives, and `now` the state it ends in.
spec fn outcome(s: RStep<usize>, r: Result<usize, String>, now: RState) -> bool {
    match s {
        Ok((st, v)) => r matches Ok(x) && x == v && now == st,
        Err(Halt::Error(m)) => r matches Err(x) && x@ == m,
        Err(Halt::Overrun) => false,
    }
}

/// `head` then `name`, as one trace line.
fn trace_line(head: &str, name: &str) -> (s: String)
    ensures
        s@ == head@ + name@,
{
    let mut s = String::from_str(head);
    s.append(name);
    s
}

/// An error message naming `token` after `head`.
fn rd_error(head: &str, token: &Token) -> (s: String)
    ensures
        s@ == rd_message(head@, token@),
{
    let mut s = String::from_str("递归下降错误: ");
    s.append(head);
    s.append("`");
    s.append(token.kind.as_text());
    s.append("`");
    s.append(" (offset ");
    push_decimal(&mut s, token.offset);
    s.append(")");
    s
}

fn arith_powers(kind: Terminal) -> (r: Option<(u8, u8)>)
    ensures
        r == arith_power(kind),
{
    match kind {
        Terminal::Plus | Terminal::Minus => Some((1, 2)),
        Terminal::Star | Terminal::Slash => Some((3, 4)),
        _ => None,
    }
}

fn logic_powers(kind: Terminal) -> (r: Option<(u8, u8)>)
    ensures
        r == logic_power(kind),
{
    match kind {
        Terminal::Or => Some((1, 2)),
        Terminal::And => Some((3, 4)),
        _ => None,
    }
}

impl<'a> Parser<'a> {
    spec fn toks(&self) -> Seq<TokenView> {
        token_views(self.tokens@)
    }

    spec fn state(&self) -> RState {
        RState {
            pos: self.pos as int,
            nodes: node_views(self.nodes@),
            trace: string_views(self.trace@),
        }
    }

    /// The position is within the tokens and the nodes form a tree.
    spec fn wf(&self) -> bool {
        &&& self.tokens@.len() <= usize::MAX
        &&& self.pos <= self.tokens@.len()
        &&& tree_ok(node_views(self.nodes@))
    }

    /// From `old` to `self`: same tokens, well formed, the position did not
    /// go back and no node was removed.
    spec fn kept_from(&self, old: &Self) -> bool {
        &&& self.tokens == old.tokens
        &&& self.wf()
        &&& old.pos <= self.pos
        &&& old.nodes@.len() <= self.nodes@.len()
    }

    /// As `kept_from`, and the position went forward.
    spec fn advanced_from(&self, old: &Self) -> bool {
        &&& self.kept_from(old)
        &&& old.pos < self.pos
    }

    /// `r` names a node of the tree.
    spec fn names_node(&self, r: Result<usize, String>) -> bool {
        r matches Ok(id) ==> id < self.nodes@.len()
    }

    fn new(tokens: &'a [Token]) -> (p: Self)
        ensures
            p.tokens == tokens,
            p.state() == start_state(),
            p.wf(),
    {
        assert(tokens@.len() == tokens.len());
        let p = Parser { tokens, pos: 0, nodes: Vec::new(), trace: Vec::new() };
        assert(p.state().nodes =~= Seq::<RdNodeView>::empty());
        assert(p.state().trace =~= Seq::<Seq<char>>::empty());
        p
    }

    fn peek(&self) -> (t: &Token)
        requires
            self.pos < self.tokens@.len(),
        ensures
            t@ == self.toks()[self.pos as int],
    {
        &self.tokens[self.pos]
    }

    fn check(&self, kind: Terminal) -> (b: bool)
        requires
            self.pos < self.tokens@.len(),
        ensures
            b == (self.toks()[self.pos as int].kind == kind),
    {
        self.peek().kind == kind
    }

    fn can_start_statement(&self) -> (b: bool)
        requires
            self.pos < self.tokens@.len(),
        ensures
            b == starts_stmt(self.toks()[self.pos as int].kind),
    {
        match self.peek().kind {
            Terminal::Let | Terminal::If | Terminal::While | Terminal::LBrace | Terminal::Id => true,
            _ => false,
        }
    }

    fn add_node(&mut self, label: String, children: Vec<usize>) -> (id: usize)
        requires
            old(self).wf(),
            forall|k: int| 0 <= k < children@.len() ==> children@[k] < old(self).nodes@.len(),
        ensures
            (final(self).state(), id) == add_node(old(self).state(), label@, children@),
            final(self).kept_from(old(self)),
            final(self).pos == old(self).pos,
            id < final(self).nodes@.len(),
    {
        let ghost before = self.nodes@;
        self.nodes.push(RdNode { label, children });
        proof {
            let v = node_views(self.nodes@);
            assert(v =~= node_views(before).push(RdNodeView { label: label@, children: children@ }));
            assert forall|i: int, k: int|
                0 <= i < v.len() && 0 <= k < v[i].children.len() implies #[trigger] v[i].children[k]
                < i by {
                if i < before.len() {
                    assert(v[i] == node_views(before)[i]);
                }
            }
        }
        self.nodes.len() - 1
    }

    fn enter(&mut self, name: &str)
        requires
            old(self).wf(),
        ensures
            final(self).state() == enter(old(self).state(), name@),
            final(self).kept_from(old(self)),
            final(self).pos == old(self).pos,
    {
        let ghost before = self.trace@;
        self.trace.push(trace_line("enter ", name));
        assert(string_views(self.trace@) =~= string_views(before).push("enter "@ + name@));
    }

    /// Matches a token of kind `kind` and builds its leaf.
    fn terminal(&mut self, kind: Terminal) -> (r: Result<usize, String>)
        requires
            old(self).wf(),
            no_overrun(r_terminal(old(self).toks(), old(self).state(), kind)),
        ensures
            final(self).tokens == old(self).tokens,
            outcome(r_terminal(old(self).toks(), old(self).state(), kind), r, final(self).state()),
            r is Ok ==> final(self).advanced_from(old(self)),
            final(self).names_node(r),
    {
        let token = self.peek().clone();
        if token.kind != kind {
            let mut head = String::from_str("期待 `");
            head.append(kind.as_text());
            head.append("`, 实际读到 ");
            let message = rd_error(head.as_str(), &token);
            assert(message@ == expect_message(kind, token@));
            return Err(message);
        }
        let ghost before = self.trace@;
        self.trace.push(trace_line("match ", kind.as_text()));
        assert(string_views(self.trace@) =~= string_views(before).push(
            "match "@ + terminal_text(kind),
        ));
        self.pos = self.pos + 1;
        Ok(self.add_node(kind.to_string(), Vec::new()))
    }

    fn parse_program(&mut self) -> (r: Result<usize, String>)
        requires
            old(self).wf(),
            no_overrun(r_program(old(self).toks(), old(self).state())),
        ensures
            final(self).tokens == old(self).tokens,
            outcome(r_program(old(self).toks(), old(self).state()), r, final(self).state()),
            r is Ok ==> final(self).kept_from(old(self)),
            final(self).names_node(r),
    {
        self.enter("parse_program");
        let stmt_list = self.parse_stmt_list()?;
        if !self.check(Terminal::End) {
            let token = self.peek();
            return Err(rd_error("程序结束处期待 `#`, 实际读到 ", token));
        }
        let children = vec![stmt_list];
        assert(children@ == seq![stmt_list]);
        Ok(self.add_node(String::from_str("Program"), children))
    }

    fn parse_stmt_list(&mut self) -> (r: Result<usize, String>)
        requires
            old(self).wf(),
            no_overrun(r_stmt_list(old(self).toks(), old(self).state())),
        ensures
            final(self).tokens == old(self).tokens,
            outcome(r_stmt_list(old(self).toks(), old(self).state()), r, final(self).state()),
            r is Ok ==> final(self).advanced_from(old(self)),
            final(self).names_node(r),
        decreases old(self).tokens@.len() - old(self).pos, 3int,
    {
        self.enter("parse_stmt_list");
        let first = self.parse_statement()?;
        let mut children: Vec<usize> = vec![first];
        assert(children@ == seq![first]);
        while self.can_start_statement()
            invariant
                self.advanced_from(old(self)),
                r_stmt_list(old(self).toks(), old(self).state()) == r_stmt_list_rest(
                    self.toks(),
                    self.state(),
                    children@,
                ),
                no_overrun(r_stmt_list_rest(self.toks(), self.state(), children@)),
                forall|k: int| 0 <= k < children@.len() ==> children@[k] < self.nodes@.len(),
            decreases self.tokens@.len() - self.pos,
        {
            let ghost before = children@;
            let s = self.parse_statement()?;
            children.push(s);
            assert forall|k: int| 0 <= k < children@.len() implies children@[k]
                < self.nodes@.len() by {
                if k < before.len() {
                    assert(children@[k] == before[k]);
                }
            }
        }
        Ok(self.add_node(String::from_str("StmtList"), children))
    }

    fn parse_statement(&mut self) -> (r: Result<usize, String>)
        requires
            old(self).wf(),
            no_overrun(r_statement(old(self).toks(), old(self).state())),
        ensures
            final(self).tokens == old(self).tokens,
            outcome(r_statement(old(self).toks(), old(self).state()), r, final(self).state()),
            r is Ok ==> final(self).advanced_from(old(self)),
            final(self).names_node(r),
        decreases old(self).tokens@.len() - old(self).pos, 2int,
    {
        self.enter("parse_statement");
        match self.peek().kind {
            Terminal::Let => {
                let simple = self.parse_decl_stmt()?;
                let semi = self.terminal(Terminal::Semicolon)?;
                let children = vec![simple, semi];
                assert(children@ == seq![simple, semi]);
                Ok(self.add_node(String::from_str("Statement"), children))
            },
            Terminal::Id => {
                let assign = self.parse_assign_stmt()?;
                let semi = self.terminal(Terminal::Semicolon)?;
                let children = vec![assign, semi];
                assert(children@ == seq![assign, semi]);
                Ok(self.add_node(String::from_str("Statement"), children))
            },
            Terminal::If => {
                let if_stmt = self.parse_if_stmt()?;
                let children = vec![if_stmt];
                assert(children@ == seq![if_stmt]);
                Ok(self.add_node(String::from_str("Statement"), children))
            },
            Terminal::While => {
                let while_stmt = self.parse_while_stmt()?;
                let children = vec![while_stmt];
                assert(children@ == seq![while_stmt]);
                Ok(self.add_node(String::from_str("Statement"), children))
            },
            Terminal::LBrace => {
                let block = self.parse_block()?;
                let children = vec![block];
                assert(children@ == seq![block]);
                Ok(self.add_node(String::from_str("Statement"), children))
            },
            _ => {
                let token = self.peek();
                Err(rd_error("非法语句起始符 ", token))
            },
        }
    }

    fn parse_block(&mut self) -> (r: Result<usize, String>)
        requires
            old(self).wf(),
            no_overrun(r_block(old(self).toks(), old(self).state())),
        ensures
            final(self).tokens == old(self).tokens,
            outcome(r_block(old(self).toks(), old(self).state()), r, final(self).state()),
            r is Ok ==> final(self).advanced_from(old(self)),
            final(self).names_node(r),
        decreases old(self).tokens@.len() - old(self).pos, 1int,
    {
        self.enter("parse_block");
        let lbrace = self.terminal(Terminal::LBrace)?;
        let body = if self.can_start_statement() {
            self.parse_stmt_list()?
        } else {
            self.add_node(String::from_str("ε"), Vec::new())
        };
        let rbrace = self.terminal(Terminal::RBrace)?;
        let children = vec![lbrace, body, rbrace];
        assert(children@ == seq![lbrace, body, rbrace]);
        Ok(self.add_node(String::from_str("Block"), children))
    }

    fn parse_decl_stmt(&mut self) -> (r: Result<usize, String>)
        requires
            old(self).wf(),
            no_overrun(r_decl(old(self).toks(), old(self).state())),
        ensures
            final(self).tokens == old(self).tokens,
            outcome(r_decl(old(self).toks(), old(self).state()), r, final(self).state()),
            r is Ok ==> final(self).advanced_from(old(self)),
            final(self).names_node(r),
    {
        self.enter("parse_decl_stmt");
        let let_kw = self.terminal(Terminal::Let)?;
        let variable = self.parse_variable()?;
        if self.check(Terminal::Assign) {
            let eq = self.terminal(Terminal::Assign)?;
            let expr = self.parse_expr()?;
            let children = vec![let_kw, variable, eq, expr];
            assert(children@ == seq![let_kw, variable, eq, expr]);
            Ok(self.add_node(String::from_str("DeclStmt"), children))
        } else {
            let eps = self.add_node(String::from_str("ε"), Vec::new());
            let children = vec![let_kw, variable, eps];
            assert(children@ == seq![let_kw, variable, eps]);
            Ok(self.add_node(String::from_str("DeclStmt"), children))
        }
    }

    fn parse_assign_stmt(&mut self) -> (r: Result<usize, String>)
        requires
            old(self).wf(),
            no_overrun(r_assign(old(self).toks(), old(self).state())),
        ensures
            final(self).tokens == old(self).tokens,
            outcome(r_assign(old(self).toks(), old(self).state()), r, final(self).state()),
            r is Ok ==> final(self).advanced_from(old(self)),
            final(self).names_node(r),
    {
        self.enter("parse_assign_stmt");
        let variable = self.parse_variable()?;
        let eq = self.terminal(Terminal::Assign)?;
        let expr = self.parse_expr()?;
        let children = vec![variable, eq, expr];
        assert(children@ == seq![variable, eq, expr]);
        Ok(self.add_node(String::from_str("AssignStmt"), children))
    }

    #[verifier::spinoff_prover]
    #[verifier::rlimit(40)]
    fn parse_if_stmt(&mut self) -> (r: Result<usize, String>)
        requires
            old(self).wf(),
            no_overrun(r_if(old(self).toks(), old(self).state())),
        ensures
            final(self).tokens == old(self).tokens,
            outcome(r_if(old(self).toks(), old(self).state()), r, final(self).state()),
            r is Ok ==> final(self).advanced_from(old(self)),
            final(self).names_node(r),
        decreases old(self).tokens@.len() - old(self).pos, 1int,
    {
        self.enter("parse_if_stmt");
        let if_kw = self.terminal(Terminal::If)?;
        let lp = self.terminal(Terminal::LParen)?;
        let cond = self.parse_bool_expr()?;
        let rp = self.terminal(Terminal::RParen)?;
        let then_block = self.parse_block()?;
        if self.check(Terminal::Else) {
            let else_kw = self.terminal(Terminal::Else)?;
            let else_body = if self.check(Terminal::If) {
                self.parse_if_stmt()?
            } else {
                self.parse_block()?
            };
            let children = vec![if_kw, lp, cond, rp, then_block, else_kw, else_body];
            assert(children@ == seq![if_kw, lp, cond, rp, then_block, else_kw, else_body]);
            Ok(self.add_node(String::from_str("IfStmt"), children))
        } else {
            let eps = self.add_node(String::from_str("ε"), Vec::new());
            let children = vec![if_kw, lp, cond, rp, then_block, eps];
            assert(children@ == seq![if_kw, lp, cond, rp, then_block, eps]);
            Ok(self.add_node(String::from_str("IfStmt"), children))
        }
    }

    fn parse_while_stmt(&mut self) -> (r: Result<usize, String>)
        requires
            old(self).wf(),
            no_overrun(r_while(old(self).toks(), old(self).state())),
        ensures
            final(self).tokens == old(self).tokens,
            outcome(r_while(old(self).toks(), old(self).state()), r, final(self).state()),
            r is Ok ==> final(self).advanced_from(old(self)),
            final(self).names_node(r),
        decreases old(self).tokens@.len() - old(self).pos, 1int,
    {
        self.enter("parse_while_stmt");
        let while_kw = self.terminal(Terminal::While)?;
        let lp = self.terminal(Terminal::LParen)?;
        let cond = self.parse_bool_expr()?;
        let rp = self.terminal(Terminal::RParen)?;
        let block = self.parse_block()?;
        let children = vec![while_kw, lp, cond, rp, block];
        assert(children@ == seq![while_kw, lp, cond, rp, block]);
        Ok(self.add_node(String::from_str("WhileStmt"), children))
    }

    fn parse_variable(&mut self) -> (r: Result<usize, String>)
        requires
            old(self).wf(),
            no_overrun(r_variable(old(self).toks(), old(self).state())),
        ensures
            final(self).tokens == old(self).tokens,
            outcome(r_variable(old(self).toks(), old(self).state()), r, final(self).state()),
            r is Ok ==> final(self).advanced_from(old(self)),
            final(self).names_node(r),
    {
        self.enter("parse_variable");
        let id = self.terminal(Terminal::Id)?;
        let children = vec![id];
        assert(children@ == seq![id]);
        Ok(self.add_node(String::from_str("Variable"), children))
    }

    fn parse_expr(&mut self) -> (r: Result<usize, String>)
        requires
            old(self).wf(),
            no_overrun(r_expr(old(self).toks(), old(self).state())),
        ensures
            final(self).tokens == old(self).tokens,
            outcome(r_expr(old(self).toks(), old(self).state()), r, final(self).state()),
            r is Ok ==> final(self).advanced_from(old(self)),
            final(self).names_node(r),
        decreases old(self).tokens@.len() - old(self).pos, 3int,
    {
        self.enter("parse_expr");
        let expr = self.parse_expr_bp(0)?;
        let children = vec![expr];
        assert(children@ == seq![expr]);
        Ok(self.add_node(String::from_str("Expr"), children))
    }

    fn parse_expr_bp(&mut self, min_bp: u8) -> (r: Result<usize, String>)
        requires
            old(self).wf(),
            no_overrun(r_expr_bp(old(self).toks(), old(self).state(), min_bp)),
        ensures
            final(self).tokens == old(self).tokens,
            outcome(r_expr_bp(old(self).toks(), old(self).state(), min_bp), r, final(self).state()),
            r is Ok ==> final(self).advanced_from(old(self)),
            final(self).names_node(r),
        decreases old(self).tokens@.len() - old(self).pos, 2int,
    {
        let mut left = self.parse_expr_atom()?;
        loop
            invariant
                self.advanced_from(old(self)),
                left < self.nodes@.len(),
                r_expr_bp(old(self).toks(), old(self).state(), min_bp) == r_expr_rest(
                    self.toks(),
                    self.state(),
                    left,
                    min_bp,
                ),
                no_overrun(r_expr_rest(self.toks(), self.state(), left, min_bp)),
            ensures
                self.advanced_from(old(self)),
                left < self.nodes@.len(),
                r_expr_bp(old(self).toks(), old(self).state(), min_bp) == Ok::<
                    (RState, usize),
                    Halt,
                >((self.state(), left)),
            decreases self.tokens@.len() - self.pos,
        {
            let kind = self.peek().kind;
            match arith_powers(kind) {
                None => break ,
                Some((left_bp, right_bp)) => {
                    if left_bp < min_bp {
                        break ;
                    }
                    let oper = self.terminal(kind)?;
                    let right = self.parse_expr_bp(right_bp)?;
                    let children = vec![left, oper, right];
                    assert(children@ == seq![left, oper, right]);
                    left = self.add_node(String::from_str("BinaryExpr"), children);
                },
            }
        }
        Ok(left)
    }

    fn parse_expr_atom(&mut self) -> (r: Result<usize, String>)
        requires
            old(self).wf(),
            no_overrun(r_expr_atom(old(self).toks(), old(self).state())),
        ensures
            final(self).tokens == old(self).tokens,
            outcome(r_expr_atom(old(self).toks(), old(self).state()), r, final(self).state()),
            r is Ok ==> final(self).advanced_from(old(self)),
            final(self).names_node(r),
        decreases old(self).tokens@.len() - old(self).pos, 1int,
    {
        match self.peek().kind {
            Terminal::Id => self.parse_variable(),
            Terminal::Num => {
                let num = self.terminal(Terminal::Num)?;
                let children = vec![num];
                assert(children@ == seq![num]);
                Ok(self.add_node(String::from_str("Number"), children))
            },
            Terminal::LParen => {
                let lp = self.terminal(Terminal::LParen)?;
                let expr = self.parse_expr()?;
                let rp = self.terminal(Terminal::RParen)?;
                let children = vec![lp, expr, rp];
                assert(children@ == seq![lp, expr, rp]);
                Ok(self.add_node(String::from_str("GroupedExpr"), children))
            },
            _ => {
                let token = self.peek();
                Err(rd_error("非法表达式起始符 ", token))
            },
        }
    }

    fn parse_bool_expr(&mut self) -> (r: Result<usize, String>)
        requires
            old(self).wf(),
            no_overrun(r_bool_expr(old(self).toks(), old(self).state())),
        ensures
            final(self).tokens == old(self).tokens,
            outcome(r_bool_expr(old(self).toks(), old(self).state()), r, final(self).state()),
            r is Ok ==> final(self).advanced_from(old(self)),
            final(self).names_node(r),
        decreases old(self).tokens@.len() - old(self).pos, 4int,
    {
        self.enter("parse_bool_expr");
        let expr = self.parse_bool_bp(0)?;
        let children = vec![expr];
        assert(children@ == seq![expr]);
        Ok(self.add_node(String::from_str("BoolExpr"), children))
    }

    fn parse_bool_bp(&mut self, min_bp: u8) -> (r: Result<usize, String>)
        requires
            old(self).wf(),
            no_overrun(r_bool_bp(old(self).toks(), old(self).state(), min_bp)),
        ensures
            final(self).tokens == old(self).tokens,
            outcome(r_bool_bp(old(self).toks(), old(self).state(), min_bp), r, final(self).state()),
            r is Ok ==> final(self).advanced_from(old(self)),
            final(self).names_node(r),
        decreases old(self).tokens@.len() - old(self).pos, 3int,
    {
        let mut left = if self.check(Terminal::Not) {
            let not_kw = self.terminal(Terminal::Not)?;
            let rhs = self.parse_bool_bp(5)?;
            let children = vec![not_kw, rhs];
            assert(children@ == seq![not_kw, rhs]);
            self.add_node(String::from_str("NotExpr"), children)
        } else {
            self.parse_bool_atom()?
        };
        loop
            invariant
                self.advanced_from(old(self)),
                left < self.nodes@.len(),
                r_bool_bp(old(self).toks(), old(self).state(), min_bp) == r_bool_rest(
                    self.toks(),
                    self.state(),
                    left,
                    min_bp,
                ),
                no_overrun(r_bool_rest(self.toks(), self.state(), left, min_bp)),
            ensures
                self.advanced_from(old(self)),
                left < self.nodes@.len(),
                r_bool_bp(old(self).toks(), old(self).state(), min_bp) == Ok::<
                    (RState, usize),
                    Halt,
                >((self.state(), left)),
            decreases self.tokens@.len() - self.pos,
        {
            let kind = self.peek().kind;
            match logic_powers(kind) {
                None => break ,
                Some((left_bp, right_bp)) => {
                    if left_bp < min_bp {
                        break ;
                    }
                    let oper = self.terminal(kind)?;
                    let right = self.parse_bool_bp(right_bp)?;
                    let children = vec![left, oper, right];
                    assert(children@ == seq![left, oper, right]);
                    left = self.add_node(String::from_str("LogicalExpr"), children);
                },
            }
        }
        Ok(left)
    }

    fn parse_bool_atom(&mut self) -> (r: Result<usize, String>)
        requires
            old(self).wf(),
            no_overrun(r_bool_atom(old(self).toks(), old(self).state())),
        ensures
            final(self).tokens == old(self).tokens,
            outcome(r_bool_atom(old(self).toks(), old(self).state()), r, final(self).state()),
            r is Ok ==> final(self).advanced_from(old(self)),
            final(self).names_node(r),
        decreases old(self).tokens@.len() - old(self).pos, 2int,
    {
        match self.peek().kind {
            Terminal::True => {
                let t = self.terminal(Terminal::True)?;
                let children = vec![t];
                assert(children@ == seq![t]);
                Ok(self.add_node(String::from_str("BoolLiteral"), children))
            },
            Terminal::False => {
                let f = self.terminal(Terminal::False)?;
                let children = vec![f];
                assert(children@ == seq![f]);
                Ok(self.add_node(String::from_str("BoolLiteral"), children))
            },
            Terminal::LParen => {
                let lp = self.terminal(Terminal::LParen)?;
                let expr = self.parse_bool_expr()?;
                let rp = self.terminal(Terminal::RParen)?;
                let children = vec![lp, expr, rp];
                assert(children@ == seq![lp, expr, rp]);
                Ok(self.add_node(String::from_str("GroupedBoolExpr"), children))
            },
            Terminal::Id | Terminal::Num => self.parse_relation(),
            _ => {
                let token = self.peek();
                Err(rd_error("非法布尔表达式起始符 ", token))
            },
        }
    }

    fn parse_relation(&mut self) -> (r: Result<usize, String>)
        requires
            old(self).wf(),
            no_overrun(r_relation(old(self).toks(), old(self).state())),
        ensures
            final(self).tokens == old(self).tokens,
            outcome(r_relation(old(self).toks(), old(self).state()), r, final(self).state()),
            r is Ok ==> final(self).advanced_from(old(self)),
            final(self).names_node(r),
    {
        let left = match self.peek().kind {
            Terminal::Id => self.parse_variable()?,
            Terminal::Num => {
                let num = self.terminal(Terminal::Num)?;
                let children = vec![num];
                assert(children@ == seq![num]);
                self.add_node(String::from_str("Number"), children)
            },
            _ => {
                let token = self.peek();
                return Err(rd_error("比较表达式左侧非法 ", token));
            },
        };
        let kind = self.peek().kind;
        let op = match kind {
            Terminal::Eq | Terminal::Ne | Terminal::Lt | Terminal::Le | Terminal::Gt
            | Terminal::Ge => self.terminal(kind)?,
            _ => {
                let token = self.peek();
                return Err(rd_error("期待比较运算符，实际读到 ", token));
            },
        };
        let right = self.parse_expr()?;
        let children = vec![left, op, right];
        assert(children@ == seq![left, op, right]);
        Ok(self.add_node(String::from_str("Relation"), children))
    }
}

/// Parses a whole program by recursive descent: the parse tree (its nodes,
/// children before parents, and the index of the `Program` root) and the
/// trace, or the message of the first syntax error. The token sequence must
/// not lead the parse past its last token; a sequence that holds the end
/// marker `#` never does (`lemma_marked_tokens_never_overrun`). Every
/// child comes before its parent, so `format_tree` can print the tree. The
/// tree spells the input: its leaves, the empty leaves `ε` left out, are the
/// kinds of the tokens before the `#` that closed the parse.
pub fn parse(tokens: &[Token]) -> (r: Result<RdParseOutput, String>)
    requires
        !rd_overruns(token_views(tokens@)),
    ensures
        match spec_rd_parse(token_views(tokens@)) {
            Ok((root, nodes, trace)) => r matches Ok(o) && o.root == root && node_views(o.nodes@)
                == nodes && string_views(o.trace@) == trace,
            Err(Halt::Error(m)) => r matches Err(x) && x@ == m,
            Err(Halt::Overrun) => false,
        },
        r matches Ok(o) ==> tree_ok(node_views(o.nodes@)) && o.root < o.nodes@.len() && printable(
            node_views(o.nodes@),
            o.root as int,
            o.nodes@.len(),
        ),
        r matches Ok(o) ==> ({
            let lv = leaves(node_views(o.nodes@), o.root as int);
            &&& lv.len() < tokens@.len()
            &&& tokens@[lv.len() as int].kind == Terminal::End
            &&& lv == texts(token_views(tokens@).take(lv.len() as int))
        }),
{
    if tokens.len() == 0 {
        return Err(String::from_str("输入 token 序列为空"));
    }
    let mut parser = Parser::new(tokens);
    let root = parser.parse_program()?;
    if !parser.check(Terminal::End) {
        let token = parser.peek();
        return Err(rd_error("输入未完全消费，当前位置是 ", token));
    }
    let count = parser.nodes.len();
    proof {
        let toks = token_views(tokens@);
        assert(node_views(parser.nodes@).len() == count);
        lemma_tree_spells_tokens(toks);
        assert(spec_rd_parse(toks) == Ok::<(usize, Seq<RdNodeView>, Seq<Seq<char>>), Halt>(
            (root, node_views(parser.nodes@), string_views(parser.trace@)),
        ));
        let lv = leaves(node_views(parser.nodes@), root as int);
        assert(toks[lv.len() as int] == tokens@[lv.len() as int]@);
        lemma_ordered_printable(node_views(parser.nodes@), root as int, count as nat);
    }
    Ok(RdParseOutput { root, nodes: parser.nodes, trace: parser.trace })
}

} // verus!
