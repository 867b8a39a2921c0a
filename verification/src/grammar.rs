//! Context-free grammars over the Simple symbols: productions, the grammar
//! of the language as written (with left recursion) and the one rewritten for
//! LL(1) analysis, and which nonterminals derive the empty string.
use vstd::prelude::*;
use crate::symbol::{
    NonTerminal, Symbol, Terminal, nonterminal_index, nonterminal_name, symbol_text,
};
use crate::sets::{NonTerminalSet, nonterminal_count};
use crate::text::{decimal, push_decimal};

verus! {

/// A production `lhs → rhs`; an empty `rhs` stands for ε.
#[derive(Debug)]
pub struct Production {
    pub lhs: NonTerminal,
    pub rhs: Vec<Symbol>,
}

/// The mathematical value of a `Production`.
pub struct ProductionView {
    pub lhs: NonTerminal,
    pub rhs: Seq<Symbol>,
}

impl View for Production {
    type V = ProductionView;

    open spec fn view(&self) -> ProductionView {
        ProductionView { lhs: self.lhs, rhs: self.rhs@ }
    }
}

impl Clone for Production {
    fn clone(&self) -> (r: Self)
        ensures
            r@ == self@,
    {
        let mut rhs: Vec<Symbol> = Vec::new();
        let n = self.rhs.len();
        let mut k: usize = 0;
        while k < n
            invariant
                n == self.rhs@.len(),
                k <= n,
                rhs@ == self.rhs@.take(k as int),
            decreases n - k,
        {
            rhs.push(self.rhs[k]);
            k = k + 1;
            assert(rhs@ =~= self.rhs@.take(k as int));
        }
        assert(self.rhs@.take(n as int) =~= self.rhs@);
        Production { lhs: self.lhs, rhs }
    }
}

/// A grammar: its name, its start symbol and its productions.
#[derive(Debug)]
pub struct Grammar {
    pub name: String,
    pub start: NonTerminal,
    pub productions: Vec<Production>,
}

/// The mathematical value of a `Grammar`.
pub struct GrammarView {
    pub name: Seq<char>,
    pub start: NonTerminal,
    pub productions: Seq<ProductionView>,
}

/// The views of a list of productions.
pub open spec fn production_views(ps: Seq<Production>) -> Seq<ProductionView> {
    ps.map_values(|p: Production| p@)
}

impl View for Grammar {
    type V = GrammarView;

    open spec fn view(&self) -> GrammarView {
        GrammarView {
            name: self.name@,
            start: self.start,
            productions: production_views(self.productions@),
        }
    }
}

/// ` X` for each symbol `X`, in order.
pub open spec fn symbols_text(rhs: Seq<Symbol>) -> Seq<char>
    decreases rhs.len(),
{
    if rhs.len() == 0 {
        Seq::empty()
    } else {
        symbols_text(rhs.drop_last()) + " "@ + symbol_text(rhs.last())
    }
}

/// How a production prints: `A → X Y Z`, or `A → ε` for an empty one.
pub open spec fn production_text(p: ProductionView) -> Seq<char> {
    if p.rhs.len() == 0 {
        nonterminal_name(p.lhs) + " → ε"@
    } else {
        nonterminal_name(p.lhs) + " →"@ + symbols_text(p.rhs)
    }
}

/// The numbered lines `  (i)  A → ...` for the productions, counting from `from`.
pub open spec fn production_lines(ps: Seq<ProductionView>) -> Seq<char>
    decreases ps.len(),
{
    if ps.len() == 0 {
        Seq::empty()
    } else {
        production_lines(ps.drop_last()) + "  ("@ + decimal(ps.len()) + ")  "@ + production_text(
            ps.last(),
        ) + "\n"@
    }
}

/// How a grammar prints: its name, its start symbol, and its numbered
/// productions.
pub open spec fn grammar_text(g: GrammarView) -> Seq<char> {
    "文法: "@ + g.name + "\n"@ + "开始符号: "@ + nonterminal_name(g.start) + "\n"@ + "\n"@
        + production_lines(g.productions)
}

impl Production {
    /// The printed form of the production.
    pub fn to_string(&self) -> (s: String)
        ensures
            s@ == production_text(self@),
    {
        let mut s = self.lhs.to_string();
        if self.rhs.len() == 0 {
            s.append(" → ε");
            return s;
        }
        s.append(" →");
        let n = self.rhs.len();
        let ghost head = s@;
        let mut k: usize = 0;
        assert(self.rhs@.take(0) =~= Seq::<Symbol>::empty());
        while k < n
            invariant
                n == self.rhs@.len(),
                k <= n,
                s@ == head + symbols_text(self.rhs@.take(k as int)),
            decreases n - k,
        {
            s.append(" ");
            s.append(self.rhs[k].as_text());
            proof {
                let t = self.rhs@.take(k + 1);
                assert(t.drop_last() =~= self.rhs@.take(k as int));
                assert(t.last() == self.rhs@[k as int]);
            }
            k = k + 1;
        }
        assert(self.rhs@.take(n as int) =~= self.rhs@);
        s
    }
}

/// A terminal as a grammar symbol.
pub open spec fn term_sym(t: Terminal) -> Symbol {
    Symbol::Terminal(t)
}

/// A nonterminal as a grammar symbol.
pub open spec fn nonterm_sym(n: NonTerminal) -> Symbol {
    Symbol::NonTerminal(n)
}

/// The production `lhs → rhs`.
pub open spec fn prod_view(lhs: NonTerminal, rhs: Seq<Symbol>) -> ProductionView {
    ProductionView { lhs, rhs }
}

/// The Simple grammar as written, with direct left recursion in `StmtList`,
/// `Expr`, `Term`, `BoolExpr` and `BoolAnd`.
pub open spec fn original_grammar() -> GrammarView {
    GrammarView {
        name: "Simple 原文法（含直接左递归）"@,
        start: NonTerminal::Program,
        productions: seq![
        prod_view(NonTerminal::Program, seq![nonterm_sym(NonTerminal::StmtList)]),
        prod_view(NonTerminal::StmtList, seq![nonterm_sym(NonTerminal::StmtList), nonterm_sym(NonTerminal::Statement)]),
        prod_view(NonTerminal::StmtList, seq![nonterm_sym(NonTerminal::Statement)]),
        prod_view(NonTerminal::Statement, seq![nonterm_sym(NonTerminal::SimpleStmt), term_sym(Terminal::Semicolon)]),
        prod_view(NonTerminal::Statement, seq![nonterm_sym(NonTerminal::IfStmt)]),
        prod_view(NonTerminal::Statement, seq![nonterm_sym(NonTerminal::WhileStmt)]),
        prod_view(NonTerminal::Statement, seq![nonterm_sym(NonTerminal::Block)]),
        prod_view(NonTerminal::Block, seq![term_sym(Terminal::LBrace), nonterm_sym(NonTerminal::StmtList), term_sym(Terminal::RBrace)]),
        prod_view(NonTerminal::Block, seq![term_sym(Terminal::LBrace), term_sym(Terminal::RBrace)]),
        prod_view(NonTerminal::SimpleStmt, seq![nonterm_sym(NonTerminal::DeclStmt)]),
        prod_view(NonTerminal::SimpleStmt, seq![nonterm_sym(NonTerminal::AssignStmt)]),
        prod_view(NonTerminal::DeclStmt, seq![term_sym(Terminal::Let), nonterm_sym(NonTerminal::Variable), nonterm_sym(NonTerminal::DeclInit)]),
        prod_view(NonTerminal::DeclInit, seq![term_sym(Terminal::Assign), nonterm_sym(NonTerminal::Expr)]),
        prod_view(NonTerminal::DeclInit, seq![]),
        prod_view(NonTerminal::AssignStmt, seq![nonterm_sym(NonTerminal::Variable), term_sym(Terminal::Assign), nonterm_sym(NonTerminal::Expr)]),
        prod_view(NonTerminal::IfStmt, seq![term_sym(Terminal::If), term_sym(Terminal::LParen), nonterm_sym(NonTerminal::BoolExpr), term_sym(Terminal::RParen), nonterm_sym(NonTerminal::Block), nonterm_sym(NonTerminal::ElsePart)]),
        prod_view(NonTerminal::ElsePart, seq![term_sym(Terminal::Else), nonterm_sym(NonTerminal::ElseBody)]),
        prod_view(NonTerminal::ElsePart, seq![]),
        prod_view(NonTerminal::ElseBody, seq![nonterm_sym(NonTerminal::Block)]),
        prod_view(NonTerminal::ElseBody, seq![nonterm_sym(NonTerminal::IfStmt)]),
        prod_view(NonTerminal::WhileStmt, seq![term_sym(Terminal::While), term_sym(Terminal::LParen), nonterm_sym(NonTerminal::BoolExpr), term_sym(Terminal::RParen), nonterm_sym(NonTerminal::Block)]),
        prod_view(NonTerminal::Expr, seq![nonterm_sym(NonTerminal::Expr), term_sym(Terminal::Plus), nonterm_sym(NonTerminal::Term)]),
        prod_view(NonTerminal::Expr, seq![nonterm_sym(NonTerminal::Expr), term_sym(Terminal::Minus), nonterm_sym(NonTerminal::Term)]),
        prod_view(NonTerminal::Expr, seq![nonterm_sym(NonTerminal::Term)]),
        prod_view(NonTerminal::Term, seq![nonterm_sym(NonTerminal::Term), term_sym(Terminal::Star), nonterm_sym(NonTerminal::Factor)]),
        prod_view(NonTerminal::Term, seq![nonterm_sym(NonTerminal::Term), term_sym(Terminal::Slash), nonterm_sym(NonTerminal::Factor)]),
        prod_view(NonTerminal::Term, seq![nonterm_sym(NonTerminal::Factor)]),
        prod_view(NonTerminal::Factor, seq![term_sym(Terminal::LParen), nonterm_sym(NonTerminal::Expr), term_sym(Terminal::RParen)]),
        prod_view(NonTerminal::Factor, seq![nonterm_sym(NonTerminal::Variable)]),
        prod_view(NonTerminal::Factor, seq![term_sym(Terminal::Num)]),
        prod_view(NonTerminal::BoolExpr, seq![nonterm_sym(NonTerminal::BoolExpr), term_sym(Terminal::Or), nonterm_sym(NonTerminal::BoolAnd)]),
        prod_view(NonTerminal::BoolExpr, seq![nonterm_sym(NonTerminal::BoolAnd)]),
        prod_view(NonTerminal::BoolAnd, seq![nonterm_sym(NonTerminal::BoolAnd), term_sym(Terminal::And), nonterm_sym(NonTerminal::BoolNot)]),
        prod_view(NonTerminal::BoolAnd, seq![nonterm_sym(NonTerminal::BoolNot)]),
        prod_view(NonTerminal::BoolNot, seq![term_sym(Terminal::Not), nonterm_sym(NonTerminal::BoolNot)]),
        prod_view(NonTerminal::BoolNot, seq![nonterm_sym(NonTerminal::BoolAtom)]),
        prod_view(NonTerminal::BoolAtom, seq![term_sym(Terminal::LParen), nonterm_sym(NonTerminal::BoolExpr), term_sym(Terminal::RParen)]),
        prod_view(NonTerminal::BoolAtom, seq![term_sym(Terminal::True)]),
        prod_view(NonTerminal::BoolAtom, seq![term_sym(Terminal::False)]),
        prod_view(NonTerminal::BoolAtom, seq![nonterm_sym(NonTerminal::Relation)]),
        prod_view(NonTerminal::Relation, seq![nonterm_sym(NonTerminal::Variable), nonterm_sym(NonTerminal::RelOp), nonterm_sym(NonTerminal::Expr)]),
        prod_view(NonTerminal::Relation, seq![term_sym(Terminal::Num), nonterm_sym(NonTerminal::RelOp), nonterm_sym(NonTerminal::Expr)]),
        prod_view(NonTerminal::RelOp, seq![term_sym(Terminal::Eq)]),
        prod_view(NonTerminal::RelOp, seq![term_sym(Terminal::Ne)]),
        prod_view(NonTerminal::RelOp, seq![term_sym(Terminal::Lt)]),
        prod_view(NonTerminal::RelOp, seq![term_sym(Terminal::Le)]),
        prod_view(NonTerminal::RelOp, seq![term_sym(Terminal::Gt)]),
        prod_view(NonTerminal::RelOp, seq![term_sym(Terminal::Ge)]),
        prod_view(NonTerminal::Variable, seq![term_sym(Terminal::Id)]),
        ],
    }
}

/// The Simple grammar rewritten for LL(1) analysis: left recursion replaced
/// by right-recursive tails, common prefixes factored out.
pub open spec fn ll1_grammar() -> GrammarView {
    GrammarView {
        name: "LL(1) 改造后文法"@,
        start: NonTerminal::Program,
        productions: seq![
        prod_view(NonTerminal::Program, seq![nonterm_sym(NonTerminal::StmtList)]),
        prod_view(NonTerminal::StmtList, seq![nonterm_sym(NonTerminal::Statement), nonterm_sym(NonTerminal::StmtListTail)]),
        prod_view(NonTerminal::StmtListTail, seq![nonterm_sym(NonTerminal::Statement), nonterm_sym(NonTerminal::StmtListTail)]),
        prod_view(NonTerminal::StmtListTail, seq![]),
        prod_view(NonTerminal::Statement, seq![nonterm_sym(NonTerminal::SimpleStmt), term_sym(Terminal::Semicolon)]),
        prod_view(NonTerminal::Statement, seq![nonterm_sym(NonTerminal::IfStmt)]),
        prod_view(NonTerminal::Statement, seq![nonterm_sym(NonTerminal::WhileStmt)]),
        prod_view(NonTerminal::Statement, seq![nonterm_sym(NonTerminal::Block)]),
        prod_view(NonTerminal::Block, seq![term_sym(Terminal::LBrace), nonterm_sym(NonTerminal::BlockBody), term_sym(Terminal::RBrace)]),
        prod_view(NonTerminal::BlockBody, seq![nonterm_sym(NonTerminal::StmtList)]),
        prod_view(NonTerminal::BlockBody, seq![]),
        prod_view(NonTerminal::SimpleStmt, seq![nonterm_sym(NonTerminal::DeclStmt)]),
        prod_view(NonTerminal::SimpleStmt, seq![nonterm_sym(NonTerminal::AssignStmt)]),
        prod_view(NonTerminal::DeclStmt, seq![term_sym(Terminal::Let), nonterm_sym(NonTerminal::Variable), nonterm_sym(NonTerminal::DeclInit)]),
        prod_view(NonTerminal::DeclInit, seq![term_sym(Terminal::Assign), nonterm_sym(NonTerminal::Expr)]),
        prod_view(NonTerminal::DeclInit, seq![]),
        prod_view(NonTerminal::AssignStmt, seq![nonterm_sym(NonTerminal::Variable), term_sym(Terminal::Assign), nonterm_sym(NonTerminal::Expr)]),
        prod_view(NonTerminal::IfStmt, seq![term_sym(Terminal::If), term_sym(Terminal::LParen), nonterm_sym(NonTerminal::BoolExpr), term_sym(Terminal::RParen), nonterm_sym(NonTerminal::Block), nonterm_sym(NonTerminal::ElsePart)]),
        prod_view(NonTerminal::ElsePart, seq![term_sym(Terminal::Else), nonterm_sym(NonTerminal::ElseBody)]),
        prod_view(NonTerminal::ElsePart, seq![]),
        prod_view(NonTerminal::ElseBody, seq![nonterm_sym(NonTerminal::Block)]),
        prod_view(NonTerminal::ElseBody, seq![nonterm_sym(NonTerminal::IfStmt)]),
        prod_view(NonTerminal::WhileStmt, seq![term_sym(Terminal::While), term_sym(Terminal::LParen), nonterm_sym(NonTerminal::BoolExpr), term_sym(Terminal::RParen), nonterm_sym(NonTerminal::Block)]),
        prod_view(NonTerminal::Expr, seq![nonterm_sym(NonTerminal::Term), nonterm_sym(NonTerminal::ExprTail)]),
        prod_view(NonTerminal::ExprTail, seq![term_sym(Terminal::Plus), nonterm_sym(NonTerminal::Term), nonterm_sym(NonTerminal::ExprTail)]),
        prod_view(NonTerminal::ExprTail, seq![term_sym(Terminal::Minus), nonterm_sym(NonTerminal::Term), nonterm_sym(NonTerminal::ExprTail)]),
        prod_view(NonTerminal::ExprTail, seq![]),
        prod_view(NonTerminal::Term, seq![nonterm_sym(NonTerminal::Factor), nonterm_sym(NonTerminal::TermTail)]),
        prod_view(NonTerminal::TermTail, seq![term_sym(Terminal::Star), nonterm_sym(NonTerminal::Factor), nonterm_sym(NonTerminal::TermTail)]),
        prod_view(NonTerminal::TermTail, seq![term_sym(Terminal::Slash), nonterm_sym(NonTerminal::Factor), nonterm_sym(NonTerminal::TermTail)]),
        prod_view(NonTerminal::TermTail, seq![]),
        prod_view(NonTerminal::Factor, seq![term_sym(Terminal::LParen), nonterm_sym(NonTerminal::Expr), term_sym(Terminal::RParen)]),
        prod_view(NonTerminal::Factor, seq![nonterm_sym(NonTerminal::Variable)]),
        prod_view(NonTerminal::Factor, seq![term_sym(Terminal::Num)]),
        prod_view(NonTerminal::BoolExpr, seq![nonterm_sym(NonTerminal::BoolAnd), nonterm_sym(NonTerminal::BoolExprTail)]),
        prod_view(NonTerminal::BoolExprTail, seq![term_sym(Terminal::Or), nonterm_sym(NonTerminal::BoolAnd), nonterm_sym(NonTerminal::BoolExprTail)]),
        prod_view(NonTerminal::BoolExprTail, seq![]),
        prod_view(NonTerminal::BoolAnd, seq![nonterm_sym(NonTerminal::BoolNot), nonterm_sym(NonTerminal::BoolAndTail)]),
        prod_view(NonTerminal::BoolAndTail, seq![term_sym(Terminal::And), nonterm_sym(NonTerminal::BoolNot), nonterm_sym(NonTerminal::BoolAndTail)]),
        prod_view(NonTerminal::BoolAndTail, seq![]),
        prod_view(NonTerminal::BoolNot, seq![term_sym(Terminal::Not), nonterm_sym(NonTerminal::BoolNot)]),
        prod_view(NonTerminal::BoolNot, seq![nonterm_sym(NonTerminal::BoolAtom)]),
        prod_view(NonTerminal::BoolAtom, seq![term_sym(Terminal::LParen), nonterm_sym(NonTerminal::BoolExpr), term_sym(Terminal::RParen)]),
        prod_view(NonTerminal::BoolAtom, seq![term_sym(Terminal::True)]),
        prod_view(NonTerminal::BoolAtom, seq![term_sym(Terminal::False)]),
        prod_view(NonTerminal::BoolAtom, seq![nonterm_sym(NonTerminal::Relation)]),
        prod_view(NonTerminal::Relation, seq![nonterm_sym(NonTerminal::Variable), nonterm_sym(NonTerminal::RelOp), nonterm_sym(NonTerminal::Expr)]),
        prod_view(NonTerminal::Relation, seq![term_sym(Terminal::Num), nonterm_sym(NonTerminal::RelOp), nonterm_sym(NonTerminal::Expr)]),
        prod_view(NonTerminal::RelOp, seq![term_sym(Terminal::Eq)]),
        prod_view(NonTerminal::RelOp, seq![term_sym(Terminal::Ne)]),
        prod_view(NonTerminal::RelOp, seq![term_sym(Terminal::Lt)]),
        prod_view(NonTerminal::RelOp, seq![term_sym(Terminal::Le)]),
        prod_view(NonTerminal::RelOp, seq![term_sym(Terminal::Gt)]),
        prod_view(NonTerminal::RelOp, seq![term_sym(Terminal::Ge)]),
        prod_view(NonTerminal::Variable, seq![term_sym(Terminal::Id)]),
        ],
    }
}

fn t(terminal: Terminal) -> (s: Symbol)
    ensures
        s == term_sym(terminal),
{
    Symbol::Terminal(terminal)
}

fn nt(non_terminal: NonTerminal) -> (s: Symbol)
    ensures
        s == nonterm_sym(non_terminal),
{
    Symbol::NonTerminal(non_terminal)
}

/// Appends the production `lhs → ε`.
fn push_prod0(productions: &mut Vec<Production>, lhs: NonTerminal)
    ensures
        production_views(final(productions)@) == production_views(old(productions)@).push(
            prod_view(lhs, seq![]),
        ),
{
    let mut rhs: Vec<Symbol> = Vec::new();
    assert(rhs@ =~= seq![]);
    productions.push(Production { lhs, rhs });
    assert(production_views(productions@) =~= production_views(old(productions)@).push(
        prod_view(lhs, seq![]),
    ));
}

/// Appends the production `lhs → a`.
fn push_prod1(productions: &mut Vec<Production>, lhs: NonTerminal, a: Symbol)
    ensures
        production_views(final(productions)@) == production_views(old(productions)@).push(
            prod_view(lhs, seq![a]),
        ),
{
    let mut rhs: Vec<Symbol> = Vec::new();
    rhs.push(a);
    assert(rhs@ =~= seq![a]);
    productions.push(Production { lhs, rhs });
    assert(production_views(productions@) =~= production_views(old(productions)@).push(
        prod_view(lhs, seq![a]),
    ));
}

/// Appends the production `lhs → a b`.
fn push_prod2(productions: &mut Vec<Production>, lhs: NonTerminal, a: Symbol, b: Symbol)
    ensures
        production_views(final(productions)@) == production_views(old(productions)@).push(
            prod_view(lhs, seq![a, b]),
        ),
{
    let mut rhs: Vec<Symbol> = Vec::new();
    rhs.push(a);
    rhs.push(b);
    assert(rhs@ =~= seq![a, b]);
    productions.push(Production { lhs, rhs });
    assert(production_views(productions@) =~= production_views(old(productions)@).push(
        prod_view(lhs, seq![a, b]),
    ));
}

/// Appends the production `lhs → a b c`.
fn push_prod3(productions: &mut Vec<Production>, lhs: NonTerminal, a: Symbol, b: Symbol, c: Symbol)
    ensures
        production_views(final(productions)@) == production_views(old(productions)@).push(
            prod_view(lhs, seq![a, b, c]),
        ),
{
    let mut rhs: Vec<Symbol> = Vec::new();
    rhs.push(a);
    rhs.push(b);
    rhs.push(c);
    assert(rhs@ =~= seq![a, b, c]);
    productions.push(Production { lhs, rhs });
    assert(production_views(productions@) =~= production_views(old(productions)@).push(
        prod_view(lhs, seq![a, b, c]),
    ));
}

/// Appends the production `lhs → a b c d`.
fn push_prod4(productions: &mut Vec<Production>, lhs: NonTerminal, a: Symbol, b: Symbol, c: Symbol, d: Symbol)
    ensures
        production_views(final(productions)@) == production_views(old(productions)@).push(
            prod_view(lhs, seq![a, b, c, d]),
        ),
{
    let mut rhs: Vec<Symbol> = Vec::new();
    rhs.push(a);
    rhs.push(b);
    rhs.push(c);
    rhs.push(d);
    assert(rhs@ =~= seq![a, b, c, d]);
    productions.push(Production { lhs, rhs });
    assert(production_views(productions@) =~= production_views(old(productions)@).push(
        prod_view(lhs, seq![a, b, c, d]),
    ));
}

/// Appends the production `lhs → a b c d e`.
fn push_prod5(productions: &mut Vec<Production>, lhs: NonTerminal, a: Symbol, b: Symbol, c: Symbol, d: Symbol, e: Symbol)
    ensures
        production_views(final(productions)@) == production_views(old(productions)@).push(
            prod_view(lhs, seq![a, b, c, d, e]),
        ),
{
    let mut rhs: Vec<Symbol> = Vec::new();
    rhs.push(a);
    rhs.push(b);
    rhs.push(c);
    rhs.push(d);
    rhs.push(e);
    assert(rhs@ =~= seq![a, b, c, d, e]);
    productions.push(Production { lhs, rhs });
    assert(production_views(productions@) =~= production_views(old(productions)@).push(
        prod_view(lhs, seq![a, b, c, d, e]),
    ));
}

/// Appends the production `lhs → a b c d e f`.
fn push_prod6(productions: &mut Vec<Production>, lhs: NonTerminal, a: Symbol, b: Symbol, c: Symbol, d: Symbol, e: Symbol, f: Symbol)
    ensures
        production_views(final(productions)@) == production_views(old(productions)@).push(
            prod_view(lhs, seq![a, b, c, d, e, f]),
        ),
{
    let mut rhs: Vec<Symbol> = Vec::new();
    rhs.push(a);
    rhs.push(b);
    rhs.push(c);
    rhs.push(d);
    rhs.push(e);
    rhs.push(f);
    assert(rhs@ =~= seq![a, b, c, d, e, f]);
    productions.push(Production { lhs, rhs });
    assert(production_views(productions@) =~= production_views(old(productions)@).push(
        prod_view(lhs, seq![a, b, c, d, e, f]),
    ));
}

impl Grammar {
    /// The Simple grammar as written (with direct left recursion, so not
    /// usable for LL(1) analysis as it stands).
    #[verifier::rlimit(100)]
    pub fn original() -> (g: Self)
        ensures
            g@ == original_grammar(),
    {
        let mut productions: Vec<Production> = Vec::new();
        push_prod1(&mut productions, NonTerminal::Program, nt(NonTerminal::StmtList));
        push_prod2(&mut productions, NonTerminal::StmtList, nt(NonTerminal::StmtList), nt(NonTerminal::Statement));
        push_prod1(&mut productions, NonTerminal::StmtList, nt(NonTerminal::Statement));
        push_prod2(&mut productions, NonTerminal::Statement, nt(NonTerminal::SimpleStmt), t(Terminal::Semicolon));
        push_prod1(&mut productions, NonTerminal::Statement, nt(NonTerminal::IfStmt));
        push_prod1(&mut productions, NonTerminal::Statement, nt(NonTerminal::WhileStmt));
        push_prod1(&mut productions, NonTerminal::Statement, nt(NonTerminal::Block));
        push_prod3(&mut productions, NonTerminal::Block, t(Terminal::LBrace), nt(NonTerminal::StmtList), t(Terminal::RBrace));
        push_prod2(&mut productions, NonTerminal::Block, t(Terminal::LBrace), t(Terminal::RBrace));
        push_prod1(&mut productions, NonTerminal::SimpleStmt, nt(NonTerminal::DeclStmt));
        push_prod1(&mut productions, NonTerminal::SimpleStmt, nt(NonTerminal::AssignStmt));
        push_prod3(&mut productions, NonTerminal::DeclStmt, t(Terminal::Let), nt(NonTerminal::Variable), nt(NonTerminal::DeclInit));
        push_prod2(&mut productions, NonTerminal::DeclInit, t(Terminal::Assign), nt(NonTerminal::Expr));
        push_prod0(&mut productions, NonTerminal::DeclInit);
        push_prod3(&mut productions, NonTerminal::AssignStmt, nt(NonTerminal::Variable), t(Terminal::Assign), nt(NonTerminal::Expr));
        push_prod6(&mut productions, NonTerminal::IfStmt, t(Terminal::If), t(Terminal::LParen), nt(NonTerminal::BoolExpr), t(Terminal::RParen), nt(NonTerminal::Block), nt(NonTerminal::ElsePart));
        push_prod2(&mut productions, NonTerminal::ElsePart, t(Terminal::Else), nt(NonTerminal::ElseBody));
        push_prod0(&mut productions, NonTerminal::ElsePart);
        push_prod1(&mut productions, NonTerminal::ElseBody, nt(NonTerminal::Block));
        push_prod1(&mut productions, NonTerminal::ElseBody, nt(NonTerminal::IfStmt));
        push_prod5(&mut productions, NonTerminal::WhileStmt, t(Terminal::While), t(Terminal::LParen), nt(NonTerminal::BoolExpr), t(Terminal::RParen), nt(NonTerminal::Block));
        push_prod3(&mut productions, NonTerminal::Expr, nt(NonTerminal::Expr), t(Terminal::Plus), nt(NonTerminal::Term));
        push_prod3(&mut productions, NonTerminal::Expr, nt(NonTerminal::Expr), t(Terminal::Minus), nt(NonTerminal::Term));
        push_prod1(&mut productions, NonTerminal::Expr, nt(NonTerminal::Term));
        push_prod3(&mut productions, NonTerminal::Term, nt(NonTerminal::Term), t(Terminal::Star), nt(NonTerminal::Factor));
        push_prod3(&mut productions, NonTerminal::Term, nt(NonTerminal::Term), t(Terminal::Slash), nt(NonTerminal::Factor));
        push_prod1(&mut productions, NonTerminal::Term, nt(NonTerminal::Factor));
        push_prod3(&mut productions, NonTerminal::Factor, t(Terminal::LParen), nt(NonTerminal::Expr), t(Terminal::RParen));
        push_prod1(&mut productions, NonTerminal::Factor, nt(NonTerminal::Variable));
        push_prod1(&mut productions, NonTerminal::Factor, t(Terminal::Num));
        push_prod3(&mut productions, NonTerminal::BoolExpr, nt(NonTerminal::BoolExpr), t(Terminal::Or), nt(NonTerminal::BoolAnd));
        push_prod1(&mut productions, NonTerminal::BoolExpr, nt(NonTerminal::BoolAnd));
        push_prod3(&mut productions, NonTerminal::BoolAnd, nt(NonTerminal::BoolAnd), t(Terminal::And), nt(NonTerminal::BoolNot));
        push_prod1(&mut productions, NonTerminal::BoolAnd, nt(NonTerminal::BoolNot));
        push_prod2(&mut productions, NonTerminal::BoolNot, t(Terminal::Not), nt(NonTerminal::BoolNot));
        push_prod1(&mut productions, NonTerminal::BoolNot, nt(NonTerminal::BoolAtom));
        push_prod3(&mut productions, NonTerminal::BoolAtom, t(Terminal::LParen), nt(NonTerminal::BoolExpr), t(Terminal::RParen));
        push_prod1(&mut productions, NonTerminal::BoolAtom, t(Terminal::True));
        push_prod1(&mut productions, NonTerminal::BoolAtom, t(Terminal::False));
        push_prod1(&mut productions, NonTerminal::BoolAtom, nt(NonTerminal::Relation));
        push_prod3(&mut productions, NonTerminal::Relation, nt(NonTerminal::Variable), nt(NonTerminal::RelOp), nt(NonTerminal::Expr));
        push_prod3(&mut productions, NonTerminal::Relation, t(Terminal::Num), nt(NonTerminal::RelOp), nt(NonTerminal::Expr));
        push_prod1(&mut productions, NonTerminal::RelOp, t(Terminal::Eq));
        push_prod1(&mut productions, NonTerminal::RelOp, t(Terminal::Ne));
        push_prod1(&mut productions, NonTerminal::RelOp, t(Terminal::Lt));
        push_prod1(&mut productions, NonTerminal::RelOp, t(Terminal::Le));
        push_prod1(&mut productions, NonTerminal::RelOp, t(Terminal::Gt));
        push_prod1(&mut productions, NonTerminal::RelOp, t(Terminal::Ge));
        push_prod1(&mut productions, NonTerminal::Variable, t(Terminal::Id));
        let g = Grammar {
            name: String::from_str("Simple 原文法（含直接左递归）"),
            start: NonTerminal::Program,
            productions,
        };
        assert(g@.productions == original_grammar().productions);
        g
    }

    /// The Simple grammar rewritten for LL(1) analysis.
    #[verifier::rlimit(100)]
    pub fn ll1() -> (g: Self)
        ensures
            g@ == ll1_grammar(),
    {
        let mut productions: Vec<Production> = Vec::new();
        push_prod1(&mut productions, NonTerminal::Program, nt(NonTerminal::StmtList));
        push_prod2(&mut productions, NonTerminal::StmtList, nt(NonTerminal::Statement), nt(NonTerminal::StmtListTail));
        push_prod2(&mut productions, NonTerminal::StmtListTail, nt(NonTerminal::Statement), nt(NonTerminal::StmtListTail));
        push_prod0(&mut productions, NonTerminal::StmtListTail);
        push_prod2(&mut productions, NonTerminal::Statement, nt(NonTerminal::SimpleStmt), t(Terminal::Semicolon));
        push_prod1(&mut productions, NonTerminal::Statement, nt(NonTerminal::IfStmt));
        push_prod1(&mut productions, NonTerminal::Statement, nt(NonTerminal::WhileStmt));
        push_prod1(&mut productions, NonTerminal::Statement, nt(NonTerminal::Block));
        push_prod3(&mut productions, NonTerminal::Block, t(Terminal::LBrace), nt(NonTerminal::BlockBody), t(Terminal::RBrace));
        push_prod1(&mut productions, NonTerminal::BlockBody, nt(NonTerminal::StmtList));
        push_prod0(&mut productions, NonTerminal::BlockBody);
        push_prod1(&mut productions, NonTerminal::SimpleStmt, nt(NonTerminal::DeclStmt));
        push_prod1(&mut productions, NonTerminal::SimpleStmt, nt(NonTerminal::AssignStmt));
        push_prod3(&mut productions, NonTerminal::DeclStmt, t(Terminal::Let), nt(NonTerminal::Variable), nt(NonTerminal::DeclInit));
        push_prod2(&mut productions, NonTerminal::DeclInit, t(Terminal::Assign), nt(NonTerminal::Expr));
        push_prod0(&mut productions, NonTerminal::DeclInit);
        push_prod3(&mut productions, NonTerminal::AssignStmt, nt(NonTerminal::Variable), t(Terminal::Assign), nt(NonTerminal::Expr));
        push_prod6(&mut productions, NonTerminal::IfStmt, t(Terminal::If), t(Terminal::LParen), nt(NonTerminal::BoolExpr), t(Terminal::RParen), nt(NonTerminal::Block), nt(NonTerminal::ElsePart));
        push_prod2(&mut productions, NonTerminal::ElsePart, t(Terminal::Else), nt(NonTerminal::ElseBody));
        push_prod0(&mut productions, NonTerminal::ElsePart);
        push_prod1(&mut productions, NonTerminal::ElseBody, nt(NonTerminal::Block));
        push_prod1(&mut productions, NonTerminal::ElseBody, nt(NonTerminal::IfStmt));
        push_prod5(&mut productions, NonTerminal::WhileStmt, t(Terminal::While), t(Terminal::LParen), nt(NonTerminal::BoolExpr), t(Terminal::RParen), nt(NonTerminal::Block));
        push_prod2(&mut productions, NonTerminal::Expr, nt(NonTerminal::Term), nt(NonTerminal::ExprTail));
        push_prod3(&mut productions, NonTerminal::ExprTail, t(Terminal::Plus), nt(NonTerminal::Term), nt(NonTerminal::ExprTail));
        push_prod3(&mut productions, NonTerminal::ExprTail, t(Terminal::Minus), nt(NonTerminal::Term), nt(NonTerminal::ExprTail));
        push_prod0(&mut productions, NonTerminal::ExprTail);
        push_prod2(&mut productions, NonTerminal::Term, nt(NonTerminal::Factor), nt(NonTerminal::TermTail));
        push_prod3(&mut productions, NonTerminal::TermTail, t(Terminal::Star), nt(NonTerminal::Factor), nt(NonTerminal::TermTail));
        push_prod3(&mut productions, NonTerminal::TermTail, t(Terminal::Slash), nt(NonTerminal::Factor), nt(NonTerminal::TermTail));
        push_prod0(&mut productions, NonTerminal::TermTail);
        push_prod3(&mut productions, NonTerminal::Factor, t(Terminal::LParen), nt(NonTerminal::Expr), t(Terminal::RParen));
        push_prod1(&mut productions, NonTerminal::Factor, nt(NonTerminal::Variable));
        push_prod1(&mut productions, NonTerminal::Factor, t(Terminal::Num));
        push_prod2(&mut productions, NonTerminal::BoolExpr, nt(NonTerminal::BoolAnd), nt(NonTerminal::BoolExprTail));
        push_prod3(&mut productions, NonTerminal::BoolExprTail, t(Terminal::Or), nt(NonTerminal::BoolAnd), nt(NonTerminal::BoolExprTail));
        push_prod0(&mut productions, NonTerminal::BoolExprTail);
        push_prod2(&mut productions, NonTerminal::BoolAnd, nt(NonTerminal::BoolNot), nt(NonTerminal::BoolAndTail));
        push_prod3(&mut productions, NonTerminal::BoolAndTail, t(Terminal::And), nt(NonTerminal::BoolNot), nt(NonTerminal::BoolAndTail));
        push_prod0(&mut productions, NonTerminal::BoolAndTail);
        push_prod2(&mut productions, NonTerminal::BoolNot, t(Terminal::Not), nt(NonTerminal::BoolNot));
        push_prod1(&mut productions, NonTerminal::BoolNot, nt(NonTerminal::BoolAtom));
        push_prod3(&mut productions, NonTerminal::BoolAtom, t(Terminal::LParen), nt(NonTerminal::BoolExpr), t(Terminal::RParen));
        push_prod1(&mut productions, NonTerminal::BoolAtom, t(Terminal::True));
        push_prod1(&mut productions, NonTerminal::BoolAtom, t(Terminal::False));
        push_prod1(&mut productions, NonTerminal::BoolAtom, nt(NonTerminal::Relation));
        push_prod3(&mut productions, NonTerminal::Relation, nt(NonTerminal::Variable), nt(NonTerminal::RelOp), nt(NonTerminal::Expr));
        push_prod3(&mut productions, NonTerminal::Relation, t(Terminal::Num), nt(NonTerminal::RelOp), nt(NonTerminal::Expr));
        push_prod1(&mut productions, NonTerminal::RelOp, t(Terminal::Eq));
        push_prod1(&mut productions, NonTerminal::RelOp, t(Terminal::Ne));
        push_prod1(&mut productions, NonTerminal::RelOp, t(Terminal::Lt));
        push_prod1(&mut productions, NonTerminal::RelOp, t(Terminal::Le));
        push_prod1(&mut productions, NonTerminal::RelOp, t(Terminal::Gt));
        push_prod1(&mut productions, NonTerminal::RelOp, t(Terminal::Ge));
        push_prod1(&mut productions, NonTerminal::Variable, t(Terminal::Id));
        let g = Grammar {
            name: String::from_str("LL(1) 改造后文法"),
            start: NonTerminal::Program,
            productions,
        };
        assert(g@.productions == ll1_grammar().productions);
        g
    }

    /// The printed form of the grammar.
    pub fn to_string(&self) -> (s: String)
        ensures
            s@ == grammar_text(self@),
    {
        let mut s = String::from_str("文法: ");
        s.append(self.name.as_str());
        s.append("\n");
        s.append("开始符号: ");
        s.append(self.start.as_text());
        s.append("\n");
        s.append("\n");
        let ghost head = s@;
        let ghost ps = self@.productions;
        let n = self.productions.len();
        let mut k: usize = 0;
        assert(ps.take(0) =~= Seq::<ProductionView>::empty());
        while k < n
            invariant
                n == self.productions@.len(),
                ps == production_views(self.productions@),
                k <= n,
                s@ == head + production_lines(ps.take(k as int)),
            decreases n - k,
        {
            s.append("  (");
            push_decimal(&mut s, k + 1);
            s.append(")  ");
            let line = self.productions[k].to_string();
            s.append(line.as_str());
            s.append("\n");
            proof {
                let t = ps.take(k + 1);
                assert(t.drop_last() =~= ps.take(k as int));
                assert(t.last() == ps[k as int]);
                assert(t.len() == k + 1);
            }
            k = k + 1;
        }
        assert(ps.take(n as int) =~= ps);
        s
    }
}


/// Every symbol of `rhs` derives the empty string, given the nonterminals
/// in `nullable` that do: ε does, a terminal does not.
pub open spec fn derives_empty(nullable: Set<NonTerminal>, rhs: Seq<Symbol>) -> bool {
    forall|i: int|
        0 <= i < rhs.len() ==> match #[trigger] rhs[i] {
            Symbol::NonTerminal(n) => nullable.contains(n),
            Symbol::Terminal(_) => false,
            Symbol::Epsilon => true,
        }
}

/// `nullable` is closed under the productions of `g`: whenever a right-hand
/// side derives the empty string, so does its left-hand side.
pub open spec fn nullable_closed(g: GrammarView, nullable: Set<NonTerminal>) -> bool {
    forall|k: int|
        0 <= k < g.productions.len() && derives_empty(nullable, #[trigger] g.productions[k].rhs)
            ==> nullable.contains(g.productions[k].lhs)
}

/// The least set of nonterminals closed under the productions of `g`: the
/// nonterminals that derive the empty string.
pub open spec fn least_nullable(g: GrammarView) -> Set<NonTerminal> {
    choose|s: Set<NonTerminal>|
        nullable_closed(g, s) && forall|t: Set<NonTerminal>| #[trigger]
            nullable_closed(g, t) ==> s.subset_of(t)
}

/// Whether every symbol of `rhs` derives the empty string, given `set`.
fn all_nullable(set: &NonTerminalSet, rhs: &Vec<Symbol>) -> (b: bool)
    ensures
        b == derives_empty(set@, rhs@),
{
    let n = rhs.len();
    let mut k: usize = 0;
    while k < n
        invariant
            n == rhs@.len(),
            k <= n,
            forall|i: int| 0 <= i < k ==> match #[trigger] rhs@[i] {
                Symbol::NonTerminal(m) => set@.contains(m),
                Symbol::Terminal(_) => false,
                Symbol::Epsilon => true,
            },
        decreases n - k,
    {
        let ok = match rhs[k] {
            Symbol::NonTerminal(m) => set.contains(m),
            Symbol::Terminal(_) => false,
            Symbol::Epsilon => true,
        };
        if !ok {
            return false;
        }
        k = k + 1;
    }
    true
}

impl Grammar {
    /// The nonterminals that derive the empty string: the least set closed
    /// under the productions.
    pub fn nullable_nonterminal(&self) -> (r: NonTerminalSet)
        ensures
            nullable_closed(self@, r@),
            forall|s: Set<NonTerminal>| #[trigger] nullable_closed(self@, s) ==> r@.subset_of(s),
            r@ == least_nullable(self@),
    {
        let ghost g = self@;
        let mut set = NonTerminalSet::new();
        loop
            invariant
                g == self@,
                set.size() <= nonterminal_count(),
                forall|s: Set<NonTerminal>| #[trigger] nullable_closed(g, s) ==> set@.subset_of(s),
            ensures
                nullable_closed(g, set@),
                forall|s: Set<NonTerminal>| #[trigger] nullable_closed(g, s) ==> set@.subset_of(s),
            decreases nonterminal_count() - set.size(),
        {
            let ghost start_size = set.size();
            let ghost start_set = set@;
            let mut changed = false;
            let n = self.productions.len();
            let mut k: usize = 0;
            while k < n
                invariant
                    g == self@,
                    n == g.productions.len(),
                    k <= n,
                    set.size() <= nonterminal_count(),
                    forall|s: Set<NonTerminal>| #[trigger] nullable_closed(g, s) ==> set@.subset_of(s),
                    changed ==> set.size() > start_size,
                    !changed ==> set@ == start_set && set.size() == start_size,
                    !changed ==> forall|j: int|
                        0 <= j < k && derives_empty(set@, #[trigger] g.productions[j].rhs)
                            ==> set@.contains(g.productions[j].lhs),
                decreases n - k,
            {
                let prod = &self.productions[k];
                assert(g.productions[k as int] == prod@);
                if !set.contains(prod.lhs) && all_nullable(&set, &prod.rhs) {
                    let ghost before = set@;
                    set.insert(prod.lhs);
                    proof {
                        assert forall|s: Set<NonTerminal>| #[trigger] nullable_closed(g, s) implies set@.subset_of(s) by {
                            assert(before.subset_of(s));
                            assert(derives_empty(s, g.productions[k as int].rhs)) by {
                                let rhs = g.productions[k as int].rhs;
                                assert forall|i: int| 0 <= i < rhs.len() implies match #[trigger] rhs[i] {
                                    Symbol::NonTerminal(m) => s.contains(m),
                                    Symbol::Terminal(_) => false,
                                    Symbol::Epsilon => true,
                                } by {
                                    assert(derives_empty(before, rhs));
                                    match rhs[i] {
                                        Symbol::NonTerminal(m) => {
                                            assert(before.contains(m));
                                        },
                                        _ => {},
                                    }
                                }
                            }
                        }
                    }
                    changed = true;
                }
                k = k + 1;
            }
            if !changed {
                break;
            }
        }
        proof {
            let c = least_nullable(g);
            assert(nullable_closed(g, c) && forall|t: Set<NonTerminal>| #[trigger]
                nullable_closed(g, t) ==> c.subset_of(t));
            assert(set@ =~= c);
        }
        set
    }
}

} // verus!

verus! {

/// The nonterminals that have a production.
pub open spec fn lhs_set(g: GrammarView) -> Set<NonTerminal> {
    Set::new(|n: NonTerminal| exists|k: int| 0 <= k < g.productions.len() && #[trigger] g.productions[k].lhs == n)
}

/// A grammar fit for FIRST and FOLLOW computation: every nonterminal on a
/// right-hand side has a production, and ε is written as an empty
/// right-hand side, never as a symbol.
pub open spec fn well_formed(g: GrammarView) -> bool {
    forall|k: int, i: int|
        0 <= k < g.productions.len() && 0 <= i < g.productions[k].rhs.len() ==> rhs_symbol_ok(
            g,
            #[trigger] g.productions[k].rhs[i],
        )
}

/// A right-hand-side symbol of a well-formed grammar: a terminal, or a
/// nonterminal that has a production.
pub open spec fn rhs_symbol_ok(g: GrammarView, s: Symbol) -> bool {
    match s {
        Symbol::NonTerminal(n) => lhs_set(g).contains(n),
        Symbol::Terminal(_) => true,
        Symbol::Epsilon => false,
    }
}

} // verus!
