//! The syntax-directed translator: a recursive-descent parser that emits
//! quadruples while it parses, with short-circuit boolean expressions and
//! backpatched control flow. `translation` states what each step computes.
use vstd::prelude::*;
use crate::chains::{
    lemma_and_order, lemma_literal_order, lemma_or_order, lemma_relation_order, ordered,
    chains_exact, keeps_prefix, lemma_and_step, lemma_literal_chains, lemma_no_jumps_trans,
    lemma_no_pending_trans, lemma_or_step, lemma_patch_keeps_prefix, lemma_patched_pending,
    lemma_prefix_trans, lemma_relation_chains, no_jumps_from, no_pending_from, targets_bounded,
};
use crate::codegen::{
    BoolAttr, BoolAttrView, CodeGen, ExprAttr, JumpTarget, Operand, OperandView, Quad, QuadView,
    all_jumps, patched,
};
use crate::error::{CompileError, CompileResult, ErrorView};
use crate::lexer::{Token, TokenView, token_views};
use crate::short_circuit::{
    Formula, bool_formula, decides, formula_and, formula_and_loop, formula_atom, formula_not, formula_or,
    formula_or_loop, formula_relation, lemma_and_decides, lemma_literal_decides, lemma_not_decides,
    lemma_or_decides, lemma_relation_decides,
};
use crate::symbol::Terminal;
use crate::translation::{
    PState, Step, advance, backpatch, binop, can_start_stmt, expect, group_then_operator,
    initial_state, is_arith_kind, is_relop_kind, peek, s_and, s_and_loop, s_assignment_core,
    s_assignment_stmt, s_block, s_bool_atom, s_expr, s_expr_atom, s_expr_bp, s_expr_loop, s_if,
    s_not, s_or, s_or_loop, s_relation, s_relop, s_stmt, s_stmt_list, s_while,
    spec_parse_assignment, spec_parse_bool, spec_parse_program,
};

verus! {

/// The result of translating a boolean expression: the quadruples and the
/// true and false chains.
#[derive(Debug)]
pub struct BoolParseOutput {
    pub codegen: CodeGen,
    pub attr: BoolAttr,
}

struct Parser<'a> {
    tokens: &'a [Token],
    pos: usize,
    codegen: CodeGen,
}

/// `r` is what the step `s` gives, and `now` the state it ends in.
spec fn expr_result(s: Step<OperandView>, r: CompileResult<ExprAttr>, now: PState) -> bool {
    match s {
        Ok((st, v)) => r matches Ok(a) && a@ == v && now == st,
        Err(e) => r matches Err(x) && x@ == e,
    }
}

spec fn bool_result(s: Step<BoolAttrView>, r: CompileResult<BoolAttr>, now: PState) -> bool {
    match s {
        Ok((st, v)) => r matches Ok(a) && a@ == v && now == st,
        Err(e) => r matches Err(x) && x@ == e,
    }
}

spec fn unit_result(s: Result<PState, ErrorView>, r: CompileResult<()>, now: PState) -> bool {
    match s {
        Ok(st) => r is Ok && now == st,
        Err(e) => r matches Err(x) && x@ == e,
    }
}

spec fn text_result(s: Step<Seq<char>>, r: CompileResult<String>, now: PState) -> bool {
    match s {
        Ok((st, v)) => r matches Ok(a) && a@ == v && now == st,
        Err(e) => r matches Err(x) && x@ == e,
    }
}

spec fn token_result(s: Step<TokenView>, r: CompileResult<Token>, now: PState) -> bool {
    match s {
        Ok((st, v)) => r matches Ok(a) && a@ == v && now == st,
        Err(e) => r matches Err(x) && x@ == e,
    }
}

fn binop_info(kind: Terminal) -> (r: Option<(u8, u8, &'static str)>)
    ensures
        match binop(kind) {
            None => r is None,
            Some((l, rb, op)) => r matches Some((a, b, s)) && a == l && b == rb && s@ == op,
        },
{
    match kind {
        Terminal::Plus => Some((1, 2, "+")),
        Terminal::Minus => Some((1, 2, "-")),
        Terminal::Star => Some((3, 4, "*")),
        Terminal::Slash => Some((3, 4, "/")),
        _ => None,
    }
}

fn is_relop(kind: Terminal) -> (b: bool)
    ensures
        b == is_relop_kind(kind),
{
    match kind {
        Terminal::Eq | Terminal::Ne | Terminal::Lt | Terminal::Le | Terminal::Gt | Terminal::Ge => true,
        _ => false,
    }
}

fn is_arith_op(kind: Terminal) -> (b: bool)
    ensures
        b == is_arith_kind(kind),
{
    match kind {
        Terminal::Plus | Terminal::Minus | Terminal::Star | Terminal::Slash => true,
        _ => false,
    }
}

impl<'a> Parser<'a> {
    spec fn toks(&self) -> Seq<TokenView> {
        token_views(self.tokens@)
    }

    spec fn state(&self) -> PState {
        PState { pos: self.pos as int, cg: self.codegen@ }
    }

    /// The position is within the tokens, and no more temporaries were handed
    /// out than tokens consumed.
    spec fn wf(&self) -> bool {
        &&& self.tokens@.len() <= usize::MAX
        &&& self.pos <= self.tokens@.len()
        &&& self.codegen@.temps <= self.pos
        &&& targets_bounded(self.codegen@.quads)
    }

    spec fn quads(&self) -> Seq<QuadView> {
        self.codegen@.quads
    }

    /// An arithmetic step appended quadruples and none of them is a jump.
    spec fn expr_ok(&self, old: &Self) -> bool {
        &&& keeps_prefix(old.quads(), self.quads())
        &&& no_jumps_from(self.quads(), old.quads().len() as int)
    }

    /// A boolean step kept the earlier quadruples, and its chains hold
    /// exactly the jumps it left pending.
    spec fn bool_ok(&self, old: &Self, a: BoolAttrView) -> bool {
        &&& keeps_prefix(old.quads(), self.quads())
        &&& chains_exact(self.quads(), old.quads().len() as int, a)
        &&& ordered(self.quads(), old.quads().len() as int, a)
    }

    /// A statement step kept the earlier quadruples and left no jump pending.
    spec fn stmt_ok(&self, old: &Self) -> bool {
        &&& keeps_prefix(old.quads(), self.quads())
        &&& no_pending_from(self.quads(), old.quads().len() as int)
    }

    /// From `old` to `self`: same tokens, well formed, the position did not go
    /// back, and no more temporaries than tokens consumed meanwhile.
    spec fn kept_from(&self, old: &Self) -> bool {
        &&& self.tokens == old.tokens
        &&& self.wf()
        &&& old.pos <= self.pos
        &&& self.codegen@.temps - old.codegen@.temps <= self.pos - old.pos
    }

    /// As `kept_from`, and the position went forward.
    spec fn advanced_from(&self, old: &Self) -> bool {
        &&& self.kept_from(old)
        &&& old.pos < self.pos
    }

    fn new(tokens: &'a [Token]) -> (p: Self)
        ensures
            p.tokens == tokens,
            p.state() == initial_state(),
            p.wf(),
    {
        assert(tokens@.len() == tokens.len());
        Parser { tokens, pos: 0, codegen: CodeGen::new() }
    }

    fn peek(&self) -> (r: CompileResult<&Token>)
        ensures
            match peek(self.toks(), self.pos as int) {
                Ok(t) => r matches Ok(x) && x@ == t,
                Err(e) => r matches Err(x) && x@ == e,
            },
    {
        if self.pos < self.tokens.len() {
            Ok(&self.tokens[self.pos])
        } else {
            Err(CompileError::parse_without_offset(String::from_str("输入意外结束")))
        }
    }

    fn advance(&mut self)
        requires
            old(self).pos < old(self).tokens@.len(),
            old(self).wf(),
        ensures
            final(self).state() == advance(old(self).state()),
            final(self).advanced_from(old(self)),
    {
        self.pos = self.pos + 1;
    }

    fn can_start_stmt(&self) -> (b: bool)
        ensures
            b == can_start_stmt(self.toks(), self.pos as int),
    {
        match self.peek() {
            Ok(token) => match token.kind {
                Terminal::Id | Terminal::LBrace | Terminal::If | Terminal::While => true,
                _ => false,
            },
            Err(_) => false,
        }
    }

    /// Consumes a token of kind `kind`.
    fn expect_terminal(&mut self, kind: Terminal) -> (r: CompileResult<Token>)
        requires
            old(self).wf(),
        ensures
            final(self).tokens == old(self).tokens,
            token_result(expect(old(self).toks(), old(self).state(), kind), r, final(self).state()),
            r is Ok ==> final(self).advanced_from(old(self)),
    {
        let token = self.peek()?.clone();
        if token.kind != kind {
            let mut message = String::from_str("期待 `");
            message.append(kind.as_text());
            message.append("`, 实际读到 `");
            message.append(token.kind.as_text());
            message.append("`");
            return Err(CompileError::parse(token.offset, message));
        }
        self.advance();
        Ok(token)
    }

    fn parse_expr(&mut self) -> (r: CompileResult<ExprAttr>)
        requires
            old(self).wf(),
        ensures
            final(self).tokens == old(self).tokens,
            expr_result(s_expr(old(self).toks(), old(self).state()), r, final(self).state()),
            r is Ok ==> final(self).advanced_from(old(self)),
            r is Ok ==> final(self).expr_ok(old(self)),
        decreases old(self).tokens@.len() - old(self).pos, 3int,
    {
        self.parse_expr_bp(0)
    }

    fn parse_expr_bp(&mut self, min_bp: u8) -> (r: CompileResult<ExprAttr>)
        requires
            old(self).wf(),
        ensures
            final(self).tokens == old(self).tokens,
            expr_result(
                s_expr_bp(old(self).toks(), old(self).state(), min_bp),
                r,
                final(self).state(),
            ),
            r is Ok ==> final(self).advanced_from(old(self)),
            r is Ok ==> final(self).expr_ok(old(self)),
        decreases old(self).tokens@.len() - old(self).pos, 2int,
    {
        let mut left = self.parse_expr_atom()?;
        loop
            invariant
                self.advanced_from(old(self)),
                self.expr_ok(old(self)),
                s_expr_bp(old(self).toks(), old(self).state(), min_bp) == s_expr_loop(
                    self.toks(),
                    self.state(),
                    left@,
                    min_bp,
                ),
            ensures
                self.advanced_from(old(self)),
                self.expr_ok(old(self)),
                s_expr_bp(old(self).toks(), old(self).state(), min_bp) == Ok::<
                    (PState, OperandView),
                    ErrorView,
                >((self.state(), left@)),
            decreases self.tokens@.len() - self.pos,
        {
            let kind = self.peek()?.kind;
            let info = binop_info(kind);
            match info {
                None => break ,
                Some((left_bp, right_bp, op)) => {
                    if left_bp < min_bp {
                        break ;
                    }
                    let ghost q0 = self.quads();
                    self.advance();
                    let right = self.parse_expr_bp(right_bp)?;
                    let ghost q1 = self.quads();
                    let temp = self.codegen.new_temp();
                    let dest = temp.clone();
                    self.codegen.emit(
                        Quad::Binary {
                            op: String::from_str(op),
                            left: left.place,
                            right: right.place,
                            dest,
                        },
                    );
                    proof {
                        let q2 = self.quads();
                        assert(q2[q1.len() as int] is Binary);
                        assert(keeps_prefix(q1, q2));
                        assert(no_jumps_from(q2, q1.len() as int));
                        lemma_no_jumps_trans(q1, q2, q0.len() as int);
                        lemma_prefix_trans(q0, q1, q2);
                        lemma_no_jumps_trans(q0, q2, old(self).quads().len() as int);
                        lemma_prefix_trans(old(self).quads(), q0, q2);
                    }
                    left = ExprAttr { place: temp };
                },
            }
        }
        Ok(left)
    }

    fn parse_expr_atom(&mut self) -> (r: CompileResult<ExprAttr>)
        requires
            old(self).wf(),
        ensures
            final(self).tokens == old(self).tokens,
            expr_result(s_expr_atom(old(self).toks(), old(self).state()), r, final(self).state()),
            r is Ok ==> final(self).advanced_from(old(self)),
            r is Ok ==> final(self).expr_ok(old(self)),
        decreases old(self).tokens@.len() - old(self).pos, 1int,
    {
        let kind = self.peek()?.kind;
        match kind {
            Terminal::Id => {
                let token = self.expect_terminal(Terminal::Id)?;
                Ok(ExprAttr { place: Operand::Name(token.lexeme) })
            },
            Terminal::Num => {
                let token = self.expect_terminal(Terminal::Num)?;
                Ok(ExprAttr { place: Operand::Name(token.lexeme) })
            },
            Terminal::LParen => {
                self.expect_terminal(Terminal::LParen)?;
                let expr = self.parse_expr()?;
                self.expect_terminal(Terminal::RParen)?;
                Ok(expr)
            },
            _ => {
                let token = self.peek()?;
                let mut message = String::from_str("非法表达式起始符 `");
                message.append(token.kind.as_text());
                message.append("`");
                Err(CompileError::parse(token.offset, message))
            },
        }
    }

    /// Backpatches a chain; a failure becomes a backpatching error.
    fn backpatch_chain(&mut self, list: &[usize], target: usize) -> (r: CompileResult<()>)
        requires
            old(self).wf(),
            target <= old(self).quads().len(),
        ensures
            r is Ok <==> all_jumps(old(self).quads(), list@),
            r is Ok ==> final(self).quads() == patched(old(self).quads(), list@, target),
            final(self).tokens == old(self).tokens,
            final(self).pos == old(self).pos,
            final(self).codegen@.temps == old(self).codegen@.temps,
            unit_result(backpatch(old(self).state(), list@, target), r, final(self).state()),
            r is Ok ==> final(self).kept_from(old(self)),
    {
        proof {
            lemma_patched_pending(self.quads(), list@, target);
        }
        match self.codegen.backpatch(list, target) {
            Ok(()) => Ok(()),
            Err(message) => Err(CompileError::codegen(message)),
        }
    }

    fn parse_bool_expr(&mut self) -> (r: CompileResult<BoolAttr>)
        requires
            old(self).wf(),
        ensures
            final(self).tokens == old(self).tokens,
            bool_result(
                match s_or(old(self).toks(), old(self).state()) {
                    Err(e) => Err(e),
                    Ok((st1, a)) => match expect(old(self).toks(), st1, Terminal::End) {
                        Err(e) => Err(e),
                        Ok((st2, _)) => Ok((st2, a)),
                    },
                },
                r,
                final(self).state(),
            ),
            r is Ok ==> final(self).advanced_from(old(self)),
            r matches Ok(a) ==> final(self).bool_ok(old(self), a@),
            r matches Ok(a) ==> decides(
                final(self).quads(),
                old(self).quads().len() as int,
                a@,
                formula_or(old(self).toks(), old(self).state()),
            ),
    {
        let attr = self.parse_or()?;
        self.expect_terminal(Terminal::End)?;
        Ok(attr)
    }

    /// `or` binds loosest, so it is parsed at the top.
    fn parse_or(&mut self) -> (r: CompileResult<BoolAttr>)
        requires
            old(self).wf(),
        ensures
            final(self).tokens == old(self).tokens,
            bool_result(s_or(old(self).toks(), old(self).state()), r, final(self).state()),
            r is Ok ==> final(self).advanced_from(old(self)),
            r matches Ok(a) ==> final(self).bool_ok(old(self), a@),
            r matches Ok(a) ==> decides(
                final(self).quads(),
                old(self).quads().len() as int,
                a@,
                formula_or(old(self).toks(), old(self).state()),
            ),
        decreases old(self).tokens@.len() - old(self).pos, 5int,
    {
        let mut left = self.parse_and()?;
        let ghost mut lf = formula_and(old(self).toks(), old(self).state());
        loop
            invariant
                self.advanced_from(old(self)),
                self.bool_ok(old(self), left@),
                s_or(old(self).toks(), old(self).state()) == s_or_loop(
                    self.toks(),
                    self.state(),
                    left@,
                ),
                decides(self.quads(), old(self).quads().len() as int, left@, lf),
                formula_or(old(self).toks(), old(self).state()) == formula_or_loop(
                    self.toks(),
                    self.state(),
                    left@,
                    lf,
                ),
            ensures
                self.advanced_from(old(self)),
                self.bool_ok(old(self), left@),
                s_or(old(self).toks(), old(self).state()) == Ok::<
                    (PState, BoolAttrView),
                    ErrorView,
                >((self.state(), left@)),
                decides(self.quads(), old(self).quads().len() as int, left@, lf),
                formula_or(old(self).toks(), old(self).state()) == lf,
            decreases self.tokens@.len() - self.pos,
        {
            let kind = self.peek()?.kind;
            if kind != Terminal::Or {
                break ;
            }
            self.expect_terminal(Terminal::Or)?;
            let ghost q0 = self.quads();
            let right_start = self.codegen.next_quad();
            proof {
                lemma_patch_keeps_prefix(old(self).quads(), q0, left.fc@, right_start);
            }
            self.backpatch_chain(left.fc.as_slice(), right_start)?;
            let ghost q1 = self.quads();
            let ghost rf = formula_and(self.toks(), self.state());
            let right = self.parse_and()?;
            proof {
                lemma_or_step(q0, old(self).quads().len() as int, left@, q1, self.quads(), right@);
                lemma_or_order(q0, old(self).quads().len() as int, left@, q1, self.quads(), right@);
                lemma_prefix_trans(old(self).quads(), q1, self.quads());
                lemma_or_decides(q0, old(self).quads().len() as int, left@, lf, self.quads(), right@, rf);
                lf = Formula::Or(Box::new(lf), Box::new(rf));
            }
            left = BoolAttr { tc: CodeGen::merge(left.tc, right.tc), fc: right.fc };
        }
        Ok(left)
    }

    fn parse_and(&mut self) -> (r: CompileResult<BoolAttr>)
        requires
            old(self).wf(),
        ensures
            final(self).tokens == old(self).tokens,
            bool_result(s_and(old(self).toks(), old(self).state()), r, final(self).state()),
            r is Ok ==> final(self).advanced_from(old(self)),
            r matches Ok(a) ==> final(self).bool_ok(old(self), a@),
            r matches Ok(a) ==> decides(
                final(self).quads(),
                old(self).quads().len() as int,
                a@,
                formula_and(old(self).toks(), old(self).state()),
            ),
        decreases old(self).tokens@.len() - old(self).pos, 4int,
    {
        let mut left = self.parse_not()?;
        let ghost mut lf = formula_not(old(self).toks(), old(self).state());
        loop
            invariant
                self.advanced_from(old(self)),
                self.bool_ok(old(self), left@),
                s_and(old(self).toks(), old(self).state()) == s_and_loop(
                    self.toks(),
                    self.state(),
                    left@,
                ),
                decides(self.quads(), old(self).quads().len() as int, left@, lf),
                formula_and(old(self).toks(), old(self).state()) == formula_and_loop(
                    self.toks(),
                    self.state(),
                    left@,
                    lf,
                ),
            ensures
                self.advanced_from(old(self)),
                self.bool_ok(old(self), left@),
                s_and(old(self).toks(), old(self).state()) == Ok::<
                    (PState, BoolAttrView),
                    ErrorView,
                >((self.state(), left@)),
                decides(self.quads(), old(self).quads().len() as int, left@, lf),
                formula_and(old(self).toks(), old(self).state()) == lf,
            decreases self.tokens@.len() - self.pos,
        {
            let kind = self.peek()?.kind;
            if kind != Terminal::And {
                break ;
            }
            self.expect_terminal(Terminal::And)?;
            let ghost q0 = self.quads();
            let right_start = self.codegen.next_quad();
            proof {
                lemma_patch_keeps_prefix(old(self).quads(), q0, left.tc@, right_start);
            }
            self.backpatch_chain(left.tc.as_slice(), right_start)?;
            let ghost q1 = self.quads();
            let ghost rf = formula_not(self.toks(), self.state());
            let right = self.parse_not()?;
            proof {
                lemma_and_step(q0, old(self).quads().len() as int, left@, q1, self.quads(), right@);
                lemma_and_order(q0, old(self).quads().len() as int, left@, q1, self.quads(), right@);
                lemma_prefix_trans(old(self).quads(), q1, self.quads());
                lemma_and_decides(q0, old(self).quads().len() as int, left@, lf, self.quads(), right@, rf);
                lf = Formula::And(Box::new(lf), Box::new(rf));
            }
            left = BoolAttr { tc: right.tc, fc: CodeGen::merge(left.fc, right.fc) };
        }
        Ok(left)
    }

    fn parse_not(&mut self) -> (r: CompileResult<BoolAttr>)
        requires
            old(self).wf(),
        ensures
            final(self).tokens == old(self).tokens,
            bool_result(s_not(old(self).toks(), old(self).state()), r, final(self).state()),
            r is Ok ==> final(self).advanced_from(old(self)),
            r matches Ok(a) ==> final(self).bool_ok(old(self), a@),
            r matches Ok(a) ==> decides(
                final(self).quads(),
                old(self).quads().len() as int,
                a@,
                formula_not(old(self).toks(), old(self).state()),
            ),
        decreases old(self).tokens@.len() - old(self).pos, 3int,
    {
        let kind = self.peek()?.kind;
        if kind == Terminal::Not {
            self.expect_terminal(Terminal::Not)?;
            let ghost inner_f = formula_not(self.toks(), self.state());
            let inner = self.parse_not()?;
            proof {
                lemma_not_decides(self.quads(), old(self).quads().len() as int, inner@, inner_f);
            }
            Ok(BoolAttr { tc: inner.fc, fc: inner.tc })
        } else {
            self.parse_bool_atom()
        }
    }

    /// `true`, `false`, a parenthesized boolean expression, or a relation.
    fn parse_bool_atom(&mut self) -> (r: CompileResult<BoolAttr>)
        requires
            old(self).wf(),
        ensures
            final(self).tokens == old(self).tokens,
            bool_result(s_bool_atom(old(self).toks(), old(self).state()), r, final(self).state()),
            r is Ok ==> final(self).advanced_from(old(self)),
            r matches Ok(a) ==> final(self).bool_ok(old(self), a@),
            r matches Ok(a) ==> decides(
                final(self).quads(),
                old(self).quads().len() as int,
                a@,
                formula_atom(old(self).toks(), old(self).state()),
            ),
        decreases old(self).tokens@.len() - old(self).pos, 2int,
    {
        let kind = self.peek()?.kind;
        match kind {
            Terminal::True => {
                self.expect_terminal(Terminal::True)?;
                let jump = self.codegen.emit(Quad::Jump { target: JumpTarget::Pending });
                proof {
                    let q = old(self).quads();
                    assert(self.quads() == q.push(self.quads()[q.len() as int]));
                    lemma_literal_chains(q, self.quads()[q.len() as int], true);
                    lemma_literal_order(q, self.quads()[q.len() as int], true);
                    lemma_literal_decides(self.quads(), q.len() as int, true);
                }
                Ok(BoolAttr { tc: CodeGen::makelist(jump), fc: Vec::new() })
            },
            Terminal::False => {
                self.expect_terminal(Terminal::False)?;
                let jump = self.codegen.emit(Quad::Jump { target: JumpTarget::Pending });
                proof {
                    let q = old(self).quads();
                    assert(self.quads() == q.push(self.quads()[q.len() as int]));
                    lemma_literal_chains(q, self.quads()[q.len() as int], false);
                    lemma_literal_order(q, self.quads()[q.len() as int], false);
                    lemma_literal_decides(self.quads(), q.len() as int, false);
                }
                Ok(BoolAttr { tc: Vec::new(), fc: CodeGen::makelist(jump) })
            },
            Terminal::LParen => {
                if self.lparen_starts_relation() {
                    self.parse_relation()
                } else {
                    self.expect_terminal(Terminal::LParen)?;
                    let attr = self.parse_or()?;
                    self.expect_terminal(Terminal::RParen)?;
                    Ok(attr)
                }
            },
            _ => self.parse_relation(),
        }
    }

    /// Whether the parenthesis at the current position opens an arithmetic
    /// operand: its group is followed by a comparison or arithmetic operator.
    fn lparen_starts_relation(&self) -> (b: bool)
        requires
            self.wf(),
        ensures
            b == group_then_operator(self.toks(), self.pos as int, 0),
    {
        let mut depth: usize = 0;
        let mut index = self.pos;
        let n = self.tokens.len();
        while index < n
            invariant
                n == self.tokens@.len(),
                self.pos <= index <= n,
                depth <= index - self.pos,
                group_then_operator(self.toks(), index as int, depth as nat) == group_then_operator(
                    self.toks(),
                    self.pos as int,
                    0,
                ),
            decreases n - index,
        {
            match self.tokens[index].kind {
                Terminal::LParen => {
                    depth = depth + 1;
                },
                Terminal::RParen => {
                    depth = if depth > 0 {
                        depth - 1
                    } else {
                        0
                    };
                    if depth == 0 {
                        return index + 1 < n && (is_relop(self.tokens[index + 1].kind) || is_arith_op(
                            self.tokens[index + 1].kind,
                        ));
                    }
                },
                Terminal::End => {
                    return false;
                },
                _ => {},
            }
            index = index + 1;
        }
        false
    }

    /// `E1 relop E2`.
    fn parse_relation(&mut self) -> (r: CompileResult<BoolAttr>)
        requires
            old(self).wf(),
        ensures
            final(self).tokens == old(self).tokens,
            bool_result(s_relation(old(self).toks(), old(self).state()), r, final(self).state()),
            r is Ok ==> final(self).advanced_from(old(self)),
            r matches Ok(a) ==> final(self).bool_ok(old(self), a@),
            r matches Ok(a) ==> decides(
                final(self).quads(),
                old(self).quads().len() as int,
                a@,
                formula_relation(old(self).toks(), old(self).state()),
            ),
    {
        let left = self.parse_expr()?;
        let ghost q1 = self.quads();
        let relop = self.parse_relop()?;
        let right = self.parse_expr()?;
        let ghost q3 = self.quads();
        proof {
            lemma_no_jumps_trans(q1, q3, old(self).quads().len() as int);
            lemma_prefix_trans(old(self).quads(), q1, q3);
        }
        let true_jump = self.codegen.emit(
            Quad::JumpIf {
                relop,
                left: left.place,
                right: right.place,
                target: JumpTarget::Pending,
            },
        );
        let false_jump = self.codegen.emit(Quad::Jump { target: JumpTarget::Pending });
        proof {
            let q5 = self.quads();
            let cond = q5[q3.len() as int];
            let other = q5[q3.len() as int + 1];
            assert(q5 == q3.push(cond).push(other));
            lemma_relation_chains(q3, old(self).quads().len() as int, cond, other);
            lemma_relation_order(q3, old(self).quads().len() as int, cond, other);
            lemma_prefix_trans(old(self).quads(), q3, q5);
            lemma_relation_decides(q5, old(self).quads().len() as int, q3.len() as int);
        }
        Ok(BoolAttr { tc: CodeGen::makelist(true_jump), fc: CodeGen::makelist(false_jump) })
    }

    fn parse_relop(&mut self) -> (r: CompileResult<String>)
        requires
            old(self).wf(),
        ensures
            final(self).tokens == old(self).tokens,
            text_result(s_relop(old(self).toks(), old(self).state()), r, final(self).state()),
            r is Ok ==> final(self).advanced_from(old(self)),
    {
        let token = self.peek()?.clone();
        if is_relop(token.kind) {
            self.advance();
            Ok(token.lexeme)
        } else {
            let mut message = String::from_str("期待比较运算符，实际读到 `");
            message.append(token.kind.as_text());
            message.append("`");
            Err(CompileError::parse(token.offset, message))
        }
    }

    fn parse_program(&mut self) -> (r: CompileResult<()>)
        requires
            old(self).wf(),
        ensures
            final(self).tokens == old(self).tokens,
            unit_result(
                match s_stmt_list(old(self).toks(), old(self).state()) {
                    Err(e) => Err(e),
                    Ok(st1) => match expect(old(self).toks(), st1, Terminal::End) {
                        Err(e) => Err(e),
                        Ok((st2, _)) => Ok(st2),
                    },
                },
                r,
                final(self).state(),
            ),
            r is Ok ==> final(self).kept_from(old(self)),
            r is Ok ==> final(self).stmt_ok(old(self)),
    {
        self.parse_stmt_list()?;
        self.expect_terminal(Terminal::End)?;
        Ok(())
    }

    fn parse_stmt_list(&mut self) -> (r: CompileResult<()>)
        requires
            old(self).wf(),
        ensures
            final(self).tokens == old(self).tokens,
            unit_result(s_stmt_list(old(self).toks(), old(self).state()), r, final(self).state()),
            r is Ok ==> final(self).kept_from(old(self)),
            r is Ok ==> final(self).stmt_ok(old(self)),
        decreases old(self).tokens@.len() - old(self).pos, 3int,
    {
        while self.can_start_stmt()
            invariant
                self.kept_from(old(self)),
                self.stmt_ok(old(self)),
                s_stmt_list(old(self).toks(), old(self).state()) == s_stmt_list(
                    self.toks(),
                    self.state(),
                ),
            decreases self.tokens@.len() - self.pos,
        {
            let ghost q0 = self.quads();
            self.parse_stmt()?;
            proof {
                lemma_no_pending_trans(q0, self.quads(), old(self).quads().len() as int);
                lemma_prefix_trans(old(self).quads(), q0, self.quads());
            }
        }
        Ok(())
    }

    fn parse_stmt(&mut self) -> (r: CompileResult<()>)
        requires
            old(self).wf(),
        ensures
            final(self).tokens == old(self).tokens,
            unit_result(s_stmt(old(self).toks(), old(self).state()), r, final(self).state()),
            r is Ok ==> final(self).advanced_from(old(self)),
            r is Ok ==> final(self).stmt_ok(old(self)),
        decreases old(self).tokens@.len() - old(self).pos, 2int,
    {
        let token = self.peek()?;
        match token.kind {
            Terminal::Id => self.parse_assignment_stmt(),
            Terminal::LBrace => self.parse_block(),
            Terminal::If => self.parse_if_stmt(),
            Terminal::While => self.parse_while_stmt(),
            _ => {
                let mut message = String::from_str("非法语句起始符 `");
                message.append(token.kind.as_text());
                message.append("`");
                Err(CompileError::parse(token.offset, message))
            },
        }
    }

    fn parse_block(&mut self) -> (r: CompileResult<()>)
        requires
            old(self).wf(),
        ensures
            final(self).tokens == old(self).tokens,
            unit_result(s_block(old(self).toks(), old(self).state()), r, final(self).state()),
            r is Ok ==> final(self).advanced_from(old(self)),
            r is Ok ==> final(self).stmt_ok(old(self)),
        decreases old(self).tokens@.len() - old(self).pos, 1int,
    {
        self.expect_terminal(Terminal::LBrace)?;
        self.parse_stmt_list()?;
        self.expect_terminal(Terminal::RBrace)?;
        Ok(())
    }

    /// `id = Expr`, emitting `(=, place, _, id)`.
    fn parse_assignment_core(&mut self) -> (r: CompileResult<()>)
        requires
            old(self).wf(),
        ensures
            final(self).tokens == old(self).tokens,
            unit_result(
                s_assignment_core(old(self).toks(), old(self).state()),
                r,
                final(self).state(),
            ),
            r is Ok ==> final(self).advanced_from(old(self)),
            r is Ok ==> final(self).stmt_ok(old(self)),
            r is Ok ==> final(self).expr_ok(old(self)),
            r is Ok ==> (final(self).quads().last() matches QuadView::Assign { dest, .. } && dest
                == OperandView::Name(old(self).toks()[old(self).pos as int].lexeme)),
    {
        let id = self.expect_terminal(Terminal::Id)?;
        self.expect_terminal(Terminal::Assign)?;
        let expr = self.parse_expr()?;
        self.codegen.emit(Quad::Assign { src: expr.place, dest: Operand::Name(id.lexeme) });
        Ok(())
    }

    fn parse_assignment_stmt(&mut self) -> (r: CompileResult<()>)
        requires
            old(self).wf(),
        ensures
            final(self).tokens == old(self).tokens,
            unit_result(
                s_assignment_stmt(old(self).toks(), old(self).state()),
                r,
                final(self).state(),
            ),
            r is Ok ==> final(self).advanced_from(old(self)),
            r is Ok ==> final(self).stmt_ok(old(self)),
    {
        self.parse_assignment_core()?;
        self.expect_terminal(Terminal::Semicolon)?;
        Ok(())
    }

    fn parse_if_stmt(&mut self) -> (r: CompileResult<()>)
        requires
            old(self).wf(),
        ensures
            final(self).tokens == old(self).tokens,
            unit_result(s_if(old(self).toks(), old(self).state()), r, final(self).state()),
            r is Ok ==> final(self).advanced_from(old(self)),
            r is Ok ==> final(self).stmt_ok(old(self)),
        decreases old(self).tokens@.len() - old(self).pos, 1int,
    {
        self.expect_terminal(Terminal::If)?;
        self.expect_terminal(Terminal::LParen)?;
        let attr = self.parse_or()?;
        self.expect_terminal(Terminal::RParen)?;

        let then_start = self.codegen.next_quad();
        // the true chain goes to the then-block
        self.backpatch_chain(attr.tc.as_slice(), then_start)?;

        self.parse_block()?;

        let kind = self.peek()?.kind;
        if kind == Terminal::Else {
            // the then-block ends with a jump past the else-block
            let jump_index = self.codegen.next_quad();
            self.codegen.emit(Quad::Jump { target: JumpTarget::Pending });
            self.expect_terminal(Terminal::Else)?;
            let else_body_start = self.codegen.next_quad();
            self.backpatch_chain(attr.fc.as_slice(), else_body_start)?;

            self.parse_block()?;

            let after_else = self.codegen.next_quad();
            let jump_list = CodeGen::makelist(jump_index);
            self.backpatch_chain(jump_list.as_slice(), after_else)?;
        } else {
            let after_then = self.codegen.next_quad();
            // the false chain goes to what follows
            self.backpatch_chain(attr.fc.as_slice(), after_then)?;
        }
        Ok(())
    }

    fn parse_while_stmt(&mut self) -> (r: CompileResult<()>)
        requires
            old(self).wf(),
        ensures
            final(self).tokens == old(self).tokens,
            unit_result(s_while(old(self).toks(), old(self).state()), r, final(self).state()),
            r is Ok ==> final(self).advanced_from(old(self)),
            r is Ok ==> final(self).stmt_ok(old(self)),
        decreases old(self).tokens@.len() - old(self).pos, 1int,
    {
        self.expect_terminal(Terminal::While)?;
        self.expect_terminal(Terminal::LParen)?;

        let loop_begin = self.codegen.next_quad();

        let attr = self.parse_or()?;
        self.expect_terminal(Terminal::RParen)?;

        let body_start = self.codegen.next_quad();
        self.backpatch_chain(attr.tc.as_slice(), body_start)?;

        self.parse_block()?;

        // jump back to the condition
        self.codegen.emit(Quad::Jump { target: JumpTarget::Target(loop_begin) });

        let after_loop = self.codegen.next_quad();
        self.backpatch_chain(attr.fc.as_slice(), after_loop)?;
        Ok(())
    }
}

/// Translates a whole program (statements up to the end marker) into
/// quadruples.
pub fn parse_program(tokens: &[Token]) -> (r: CompileResult<CodeGen>)
    ensures
        match spec_parse_program(token_views(tokens@)) {
            Ok(cg) => r matches Ok(c) && c@ == cg,
            Err(e) => r matches Err(x) && x@ == e,
        },
        r matches Ok(c) ==> no_pending_from(c@.quads, 0) && targets_bounded(c@.quads),
{
    if tokens.len() == 0 {
        return Err(CompileError::parse_without_offset(String::from_str("输入 token 序列为空")));
    }
    let mut parser = Parser::new(tokens);
    parser.parse_program()?;
    Ok(parser.codegen)
}

/// Translates one assignment, with or without a closing `;`.
pub fn parse_assignment(tokens: &[Token]) -> (r: CompileResult<CodeGen>)
    ensures
        match spec_parse_assignment(token_views(tokens@)) {
            Ok(cg) => r matches Ok(c) && c@ == cg,
            Err(e) => r matches Err(x) && x@ == e,
        },
        r matches Ok(c) ==> {
            &&& no_jumps_from(c@.quads, 0)
            &&& c@.quads.len() >= 1
            &&& c@.quads.last() matches QuadView::Assign { dest, .. } && dest == OperandView::Name(
                token_views(tokens@)[0].lexeme,
            )
        },
{
    if tokens.len() == 0 {
        return Err(CompileError::parse_without_offset(String::from_str("输入 token 序列为空")));
    }
    let mut parser = Parser::new(tokens);
    parser.parse_assignment_core()?;
    let kind = parser.peek()?.kind;
    if kind == Terminal::Semicolon {
        parser.expect_terminal(Terminal::Semicolon)?;
    }
    parser.expect_terminal(Terminal::End)?;
    Ok(parser.codegen)
}

/// Translates one boolean expression: the quadruples and the true and
/// false chains.
pub fn parse_bool(tokens: &[Token]) -> (r: CompileResult<BoolParseOutput>)
    ensures
        match spec_parse_bool(token_views(tokens@)) {
            Ok((cg, attr)) => r matches Ok(out) && out.codegen@ == cg && out.attr@ == attr,
            Err(e) => r matches Err(x) && x@ == e,
        },
        r matches Ok(out) ==> chains_exact(out.codegen@.quads, 0, out.attr@) && targets_bounded(
            out.codegen@.quads,
        ),
        r matches Ok(out) ==> decides(
            out.codegen@.quads,
            0,
            out.attr@,
            bool_formula(token_views(tokens@)),
        ),
        r matches Ok(out) ==> ordered(out.codegen@.quads, 0, out.attr@),
{
    if tokens.len() == 0 {
        return Err(CompileError::parse_without_offset(String::from_str("输入 token 序列为空")));
    }
    let mut parser = Parser::new(tokens);
    let attr = parser.parse_bool_expr()?;
    Ok(BoolParseOutput { codegen: parser.codegen, attr })
}

} // verus!
