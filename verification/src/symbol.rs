//! The symbols of the Simple language: terminals (token kinds), the
//! nonterminals of its grammars, and grammar symbols.
use vstd::prelude::*;

verus! {

/// A terminal symbol: the kind of token the lexer produces.
#[derive(Debug, Clone, Copy, PartialEq, Eq, Hash, Structural)]
pub enum Terminal {
    // identifier and literal classes
    Id,
    Num,
    // keywords
    Let,
    True,
    False,
    If,
    Else,
    While,
    And,
    Or,
    Not,
    // operators and separators
    Plus, // +
    Minus, // -
    Star, // *
    Slash, // /
    Assign, // =
    Eq, // ==
    Ne, // !=
    Lt, // <
    Le, // <=
    Gt, // >
    Ge, // >=
    LParen, // (
    RParen, // )
    LBrace, // {
    RBrace, // }
    Semicolon, // ;
    End, // #
}

/// How a terminal is printed: the category name for identifiers and
/// numbers, the spelling for keywords and punctuation, `#` for the end marker.
pub open spec fn terminal_text(t: Terminal) -> Seq<char> {
    match t {
        Terminal::Id => "id"@,
        Terminal::Num => "num"@,
        Terminal::Let => "let"@,
        Terminal::True => "true"@,
        Terminal::False => "false"@,
        Terminal::If => "if"@,
        Terminal::Else => "else"@,
        Terminal::While => "while"@,
        Terminal::And => "and"@,
        Terminal::Or => "or"@,
        Terminal::Not => "not"@,
        Terminal::Plus => "+"@,
        Terminal::Minus => "-"@,
        Terminal::Star => "*"@,
        Terminal::Slash => "/"@,
        Terminal::Assign => "="@,
        Terminal::Eq => "=="@,
        Terminal::Ne => "!="@,
        Terminal::Lt => "<"@,
        Terminal::Le => "<="@,
        Terminal::Gt => ">"@,
        Terminal::Ge => ">="@,
        Terminal::LParen => "("@,
        Terminal::RParen => ")"@,
        Terminal::LBrace => "{"@,
        Terminal::RBrace => "}"@,
        Terminal::Semicolon => ";"@,
        Terminal::End => "#"@,
    }
}

impl Terminal {
    /// The printed form of the terminal, as a string slice.
    pub fn as_text(&self) -> (s: &'static str)
        ensures
            s@ == terminal_text(*self),
    {
        match self {
            Terminal::Id => "id",
            Terminal::Num => "num",
            Terminal::Let => "let",
            Terminal::True => "true",
            Terminal::False => "false",
            Terminal::If => "if",
            Terminal::Else => "else",
            Terminal::While => "while",
            Terminal::And => "and",
            Terminal::Or => "or",
            Terminal::Not => "not",
            Terminal::Plus => "+",
            Terminal::Minus => "-",
            Terminal::Star => "*",
            Terminal::Slash => "/",
            Terminal::Assign => "=",
            Terminal::Eq => "==",
            Terminal::Ne => "!=",
            Terminal::Lt => "<",
            Terminal::Le => "<=",
            Terminal::Gt => ">",
            Terminal::Ge => ">=",
            Terminal::LParen => "(",
            Terminal::RParen => ")",
            Terminal::LBrace => "{",
            Terminal::RBrace => "}",
            Terminal::Semicolon => ";",
            Terminal::End => "#",
        }
    }

    /// The printed form of the terminal.
    pub fn to_string(&self) -> (s: String)
        ensures
            s@ == terminal_text(*self),
    {
        String::from_str(self.as_text())
    }
}


/// A nonterminal symbol of the Simple grammars.
#[derive(Debug, Clone, Copy, PartialEq, Eq, Hash, Structural)]
pub enum NonTerminal {
    Program,
    StmtList,
    StmtListTail,
    Block,
    BlockBody,
    Statement,
    SimpleStmt,
    IfStmt,
    WhileStmt,
    ElsePart,
    ElseBody,
    DeclStmt,
    DeclInit,
    AssignStmt,
    Expr,
    ExprTail,
    Term,
    TermTail,
    Factor,
    BoolExpr,
    BoolExprTail,
    BoolAnd,
    BoolAndTail,
    BoolNot,
    BoolAtom,
    Relation,
    RelOp,
    Variable,
}

/// How a nonterminal is printed: its name.
pub open spec fn nonterminal_name(n: NonTerminal) -> Seq<char> {
    match n {
        NonTerminal::Program => "Program"@,
        NonTerminal::StmtList => "StmtList"@,
        NonTerminal::StmtListTail => "StmtListTail"@,
        NonTerminal::Block => "Block"@,
        NonTerminal::BlockBody => "BlockBody"@,
        NonTerminal::Statement => "Statement"@,
        NonTerminal::SimpleStmt => "SimpleStmt"@,
        NonTerminal::IfStmt => "IfStmt"@,
        NonTerminal::WhileStmt => "WhileStmt"@,
        NonTerminal::ElsePart => "ElsePart"@,
        NonTerminal::ElseBody => "ElseBody"@,
        NonTerminal::DeclStmt => "DeclStmt"@,
        NonTerminal::DeclInit => "DeclInit"@,
        NonTerminal::AssignStmt => "AssignStmt"@,
        NonTerminal::Expr => "Expr"@,
        NonTerminal::ExprTail => "ExprTail"@,
        NonTerminal::Term => "Term"@,
        NonTerminal::TermTail => "TermTail"@,
        NonTerminal::Factor => "Factor"@,
        NonTerminal::BoolExpr => "BoolExpr"@,
        NonTerminal::BoolExprTail => "BoolExprTail"@,
        NonTerminal::BoolAnd => "BoolAnd"@,
        NonTerminal::BoolAndTail => "BoolAndTail"@,
        NonTerminal::BoolNot => "BoolNot"@,
        NonTerminal::BoolAtom => "BoolAtom"@,
        NonTerminal::Relation => "Relation"@,
        NonTerminal::RelOp => "RelOp"@,
        NonTerminal::Variable => "Variable"@,
    }
}

/// The nonterminals in declaration order.
pub open spec fn all_nonterminals() -> Seq<NonTerminal> {
    seq![
        NonTerminal::Program,
        NonTerminal::StmtList,
        NonTerminal::StmtListTail,
        NonTerminal::Block,
        NonTerminal::BlockBody,
        NonTerminal::Statement,
        NonTerminal::SimpleStmt,
        NonTerminal::IfStmt,
        NonTerminal::WhileStmt,
        NonTerminal::ElsePart,
        NonTerminal::ElseBody,
        NonTerminal::DeclStmt,
        NonTerminal::DeclInit,
        NonTerminal::AssignStmt,
        NonTerminal::Expr,
        NonTerminal::ExprTail,
        NonTerminal::Term,
        NonTerminal::TermTail,
        NonTerminal::Factor,
        NonTerminal::BoolExpr,
        NonTerminal::BoolExprTail,
        NonTerminal::BoolAnd,
        NonTerminal::BoolAndTail,
        NonTerminal::BoolNot,
        NonTerminal::BoolAtom,
        NonTerminal::Relation,
        NonTerminal::RelOp,
        NonTerminal::Variable,
    ]
}

/// The position of a nonterminal in declaration order.
pub open spec fn nonterminal_index(n: NonTerminal) -> int {
    match n {
        NonTerminal::Program => 0,
        NonTerminal::StmtList => 1,
        NonTerminal::StmtListTail => 2,
        NonTerminal::Block => 3,
        NonTerminal::BlockBody => 4,
        NonTerminal::Statement => 5,
        NonTerminal::SimpleStmt => 6,
        NonTerminal::IfStmt => 7,
        NonTerminal::WhileStmt => 8,
        NonTerminal::ElsePart => 9,
        NonTerminal::ElseBody => 10,
        NonTerminal::DeclStmt => 11,
        NonTerminal::DeclInit => 12,
        NonTerminal::AssignStmt => 13,
        NonTerminal::Expr => 14,
        NonTerminal::ExprTail => 15,
        NonTerminal::Term => 16,
        NonTerminal::TermTail => 17,
        NonTerminal::Factor => 18,
        NonTerminal::BoolExpr => 19,
        NonTerminal::BoolExprTail => 20,
        NonTerminal::BoolAnd => 21,
        NonTerminal::BoolAndTail => 22,
        NonTerminal::BoolNot => 23,
        NonTerminal::BoolAtom => 24,
        NonTerminal::Relation => 25,
        NonTerminal::RelOp => 26,
        NonTerminal::Variable => 27,
    }
}

/// The terminals in declaration order.
pub open spec fn all_terminals() -> Seq<Terminal> {
    seq![
        Terminal::Id,
        Terminal::Num,
        Terminal::Let,
        Terminal::True,
        Terminal::False,
        Terminal::If,
        Terminal::Else,
        Terminal::While,
        Terminal::And,
        Terminal::Or,
        Terminal::Not,
        Terminal::Plus,
        Terminal::Minus,
        Terminal::Star,
        Terminal::Slash,
        Terminal::Assign,
        Terminal::Eq,
        Terminal::Ne,
        Terminal::Lt,
        Terminal::Le,
        Terminal::Gt,
        Terminal::Ge,
        Terminal::LParen,
        Terminal::RParen,
        Terminal::LBrace,
        Terminal::RBrace,
        Terminal::Semicolon,
        Terminal::End,
    ]
}

/// The position of a terminal in declaration order.
pub open spec fn terminal_index(t: Terminal) -> int {
    match t {
        Terminal::Id => 0,
        Terminal::Num => 1,
        Terminal::Let => 2,
        Terminal::True => 3,
        Terminal::False => 4,
        Terminal::If => 5,
        Terminal::Else => 6,
        Terminal::While => 7,
        Terminal::And => 8,
        Terminal::Or => 9,
        Terminal::Not => 10,
        Terminal::Plus => 11,
        Terminal::Minus => 12,
        Terminal::Star => 13,
        Terminal::Slash => 14,
        Terminal::Assign => 15,
        Terminal::Eq => 16,
        Terminal::Ne => 17,
        Terminal::Lt => 18,
        Terminal::Le => 19,
        Terminal::Gt => 20,
        Terminal::Ge => 21,
        Terminal::LParen => 22,
        Terminal::RParen => 23,
        Terminal::LBrace => 24,
        Terminal::RBrace => 25,
        Terminal::Semicolon => 26,
        Terminal::End => 27,
    }
}

/// Each nonterminal sits at its index in the declaration-order list.
pub proof fn lemma_nonterminal_index(n: NonTerminal)
    ensures
        0 <= nonterminal_index(n) < all_nonterminals().len(),
        all_nonterminals()[nonterminal_index(n)] == n,
{
}

/// Each terminal sits at its index in the declaration-order list.
pub proof fn lemma_terminal_index(t: Terminal)
    ensures
        0 <= terminal_index(t) < all_terminals().len(),
        all_terminals()[terminal_index(t)] == t,
{
}

impl NonTerminal {
    /// The printed form of the nonterminal, as a string slice.
    pub fn as_text(&self) -> (s: &'static str)
        ensures
            s@ == nonterminal_name(*self),
    {
        match self {
            NonTerminal::Program => "Program",
            NonTerminal::StmtList => "StmtList",
            NonTerminal::StmtListTail => "StmtListTail",
            NonTerminal::Block => "Block",
            NonTerminal::BlockBody => "BlockBody",
            NonTerminal::Statement => "Statement",
            NonTerminal::SimpleStmt => "SimpleStmt",
            NonTerminal::IfStmt => "IfStmt",
            NonTerminal::WhileStmt => "WhileStmt",
            NonTerminal::ElsePart => "ElsePart",
            NonTerminal::ElseBody => "ElseBody",
            NonTerminal::DeclStmt => "DeclStmt",
            NonTerminal::DeclInit => "DeclInit",
            NonTerminal::AssignStmt => "AssignStmt",
            NonTerminal::Expr => "Expr",
            NonTerminal::ExprTail => "ExprTail",
            NonTerminal::Term => "Term",
            NonTerminal::TermTail => "TermTail",
            NonTerminal::Factor => "Factor",
            NonTerminal::BoolExpr => "BoolExpr",
            NonTerminal::BoolExprTail => "BoolExprTail",
            NonTerminal::BoolAnd => "BoolAnd",
            NonTerminal::BoolAndTail => "BoolAndTail",
            NonTerminal::BoolNot => "BoolNot",
            NonTerminal::BoolAtom => "BoolAtom",
            NonTerminal::Relation => "Relation",
            NonTerminal::RelOp => "RelOp",
            NonTerminal::Variable => "Variable",
        }
    }


    /// The printed form of the nonterminal.
    pub fn to_string(&self) -> (s: String)
        ensures
            s@ == nonterminal_name(*self),
    {
        String::from_str(self.as_text())
    }

    /// The position of the nonterminal in declaration order.
    pub fn index(&self) -> (i: usize)
        ensures
            i == nonterminal_index(*self),
    {
        match self {
            NonTerminal::Program => 0,
            NonTerminal::StmtList => 1,
            NonTerminal::StmtListTail => 2,
            NonTerminal::Block => 3,
            NonTerminal::BlockBody => 4,
            NonTerminal::Statement => 5,
            NonTerminal::SimpleStmt => 6,
            NonTerminal::IfStmt => 7,
            NonTerminal::WhileStmt => 8,
            NonTerminal::ElsePart => 9,
            NonTerminal::ElseBody => 10,
            NonTerminal::DeclStmt => 11,
            NonTerminal::DeclInit => 12,
            NonTerminal::AssignStmt => 13,
            NonTerminal::Expr => 14,
            NonTerminal::ExprTail => 15,
            NonTerminal::Term => 16,
            NonTerminal::TermTail => 17,
            NonTerminal::Factor => 18,
            NonTerminal::BoolExpr => 19,
            NonTerminal::BoolExprTail => 20,
            NonTerminal::BoolAnd => 21,
            NonTerminal::BoolAndTail => 22,
            NonTerminal::BoolNot => 23,
            NonTerminal::BoolAtom => 24,
            NonTerminal::Relation => 25,
            NonTerminal::RelOp => 26,
            NonTerminal::Variable => 27,
        }
    }

    /// Every nonterminal, in declaration order.
    pub fn all() -> (v: Vec<NonTerminal>)
        ensures
            v@ == all_nonterminals(),
    {
        let v = vec![
            NonTerminal::Program,
            NonTerminal::StmtList,
            NonTerminal::StmtListTail,
            NonTerminal::Block,
            NonTerminal::BlockBody,
            NonTerminal::Statement,
            NonTerminal::SimpleStmt,
            NonTerminal::IfStmt,
            NonTerminal::WhileStmt,
            NonTerminal::ElsePart,
            NonTerminal::ElseBody,
            NonTerminal::DeclStmt,
            NonTerminal::DeclInit,
            NonTerminal::AssignStmt,
            NonTerminal::Expr,
            NonTerminal::ExprTail,
            NonTerminal::Term,
            NonTerminal::TermTail,
            NonTerminal::Factor,
            NonTerminal::BoolExpr,
            NonTerminal::BoolExprTail,
            NonTerminal::BoolAnd,
            NonTerminal::BoolAndTail,
            NonTerminal::BoolNot,
            NonTerminal::BoolAtom,
            NonTerminal::Relation,
            NonTerminal::RelOp,
            NonTerminal::Variable,
        ];
        assert(v@ =~= all_nonterminals());
        v
    }
}

impl Terminal {
    /// The position of the terminal in declaration order.
    pub fn index(&self) -> (i: usize)
        ensures
            i == terminal_index(*self),
    {
        match self {
            Terminal::Id => 0,
            Terminal::Num => 1,
            Terminal::Let => 2,
            Terminal::True => 3,
            Terminal::False => 4,
            Terminal::If => 5,
            Terminal::Else => 6,
            Terminal::While => 7,
            Terminal::And => 8,
            Terminal::Or => 9,
            Terminal::Not => 10,
            Terminal::Plus => 11,
            Terminal::Minus => 12,
            Terminal::Star => 13,
            Terminal::Slash => 14,
            Terminal::Assign => 15,
            Terminal::Eq => 16,
            Terminal::Ne => 17,
            Terminal::Lt => 18,
            Terminal::Le => 19,
            Terminal::Gt => 20,
            Terminal::Ge => 21,
            Terminal::LParen => 22,
            Terminal::RParen => 23,
            Terminal::LBrace => 24,
            Terminal::RBrace => 25,
            Terminal::Semicolon => 26,
            Terminal::End => 27,
        }
    }

    /// Every terminal, in declaration order.
    pub fn all() -> (v: Vec<Terminal>)
        ensures
            v@ == all_terminals(),
    {
        let v = vec![
            Terminal::Id,
            Terminal::Num,
            Terminal::Let,
            Terminal::True,
            Terminal::False,
            Terminal::If,
            Terminal::Else,
            Terminal::While,
            Terminal::And,
            Terminal::Or,
            Terminal::Not,
            Terminal::Plus,
            Terminal::Minus,
            Terminal::Star,
            Terminal::Slash,
            Terminal::Assign,
            Terminal::Eq,
            Terminal::Ne,
            Terminal::Lt,
            Terminal::Le,
            Terminal::Gt,
            Terminal::Ge,
            Terminal::LParen,
            Terminal::RParen,
            Terminal::LBrace,
            Terminal::RBrace,
            Terminal::Semicolon,
            Terminal::End,
        ];
        assert(v@ =~= all_terminals());
        v
    }
}

/// A grammar symbol: a terminal, a nonterminal, or the empty string ε.
#[derive(Debug, Clone, Copy, PartialEq, Eq, Hash, Structural)]
pub enum Symbol {
    Terminal(Terminal),
    NonTerminal(NonTerminal),
    Epsilon,
}

/// How a symbol is printed: the terminal's text, the nonterminal's name, or `ε`.
pub open spec fn symbol_text(s: Symbol) -> Seq<char> {
    match s {
        Symbol::Terminal(t) => terminal_text(t),
        Symbol::NonTerminal(n) => nonterminal_name(n),
        Symbol::Epsilon => "ε"@,
    }
}

impl Symbol {
    /// The printed form of the symbol, as a string slice.
    pub fn as_text(&self) -> (s: &'static str)
        ensures
            s@ == symbol_text(*self),
    {
        match self {
            Symbol::Terminal(t) => t.as_text(),
            Symbol::NonTerminal(n) => n.as_text(),
            Symbol::Epsilon => "ε",
        }
    }

    /// The printed form of the symbol.
    pub fn to_string(&self) -> (s: String)
        ensures
            s@ == symbol_text(*self),
    {
        String::from_str(self.as_text())
    }
}

} // verus!
