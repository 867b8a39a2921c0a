use simple_parser_ll1::grammar::Grammar;
use simple_parser_ll1::first_follow::{format_first_sets, format_follow_sets, format_parse_table};

fn listing(lines: &[&str]) -> String {
    lines.join("\n")
}

#[test]
fn first_sets_of_the_ll1_grammar() {
    let expected = listing(&[
        "FIRST(Program) = { id, if, let, while, { }",
        "FIRST(StmtList) = { id, if, let, while, { }",
        "FIRST(StmtListTail) = { id, if, let, while, {, ε }",
        "FIRST(Block) = { { }",
        "FIRST(BlockBody) = { id, if, let, while, {, ε }",
        "FIRST(Statement) = { id, if, let, while, { }",
        "FIRST(SimpleStmt) = { id, let }",
        "FIRST(IfStmt) = { if }",
        "FIRST(WhileStmt) = { while }",
        "FIRST(ElsePart) = { else, ε }",
        "FIRST(ElseBody) = { if, { }",
        "FIRST(DeclStmt) = { let }",
        "FIRST(DeclInit) = { =, ε }",
        "FIRST(AssignStmt) = { id }",
        "FIRST(Expr) = { (, id, num }",
        "FIRST(ExprTail) = { +, -, ε }",
        "FIRST(Term) = { (, id, num }",
        "FIRST(TermTail) = { *, /, ε }",
        "FIRST(Factor) = { (, id, num }",
        "FIRST(BoolExpr) = { (, false, id, not, num, true }",
        "FIRST(BoolExprTail) = { or, ε }",
        "FIRST(BoolAnd) = { (, false, id, not, num, true }",
        "FIRST(BoolAndTail) = { and, ε }",
        "FIRST(BoolNot) = { (, false, id, not, num, true }",
        "FIRST(BoolAtom) = { (, false, id, num, true }",
        "FIRST(Relation) = { id, num }",
        "FIRST(RelOp) = { !=, <, <=, ==, >, >= }",
        "FIRST(Variable) = { id }",
    ]);
    assert_eq!(format_first_sets(&Grammar::ll1()), expected);
}

#[test]
fn follow_sets_of_the_ll1_grammar() {
    let expected = listing(&[
        "FOLLOW(Program) = { # }",
        "FOLLOW(StmtList) = { #, } }",
        "FOLLOW(StmtListTail) = { #, } }",
        "FOLLOW(Block) = { #, else, id, if, let, while, {, } }",
        "FOLLOW(BlockBody) = { } }",
        "FOLLOW(Statement) = { #, id, if, let, while, {, } }",
        "FOLLOW(SimpleStmt) = { ; }",
        "FOLLOW(IfStmt) = { #, id, if, let, while, {, } }",
        "FOLLOW(WhileStmt) = { #, id, if, let, while, {, } }",
        "FOLLOW(ElsePart) = { #, id, if, let, while, {, } }",
        "FOLLOW(ElseBody) = { #, id, if, let, while, {, } }",
        "FOLLOW(DeclStmt) = { ; }",
        "FOLLOW(DeclInit) = { ; }",
        "FOLLOW(AssignStmt) = { ; }",
        "FOLLOW(Expr) = { ), ;, and, or }",
        "FOLLOW(ExprTail) = { ), ;, and, or }",
        "FOLLOW(Term) = { ), +, -, ;, and, or }",
        "FOLLOW(TermTail) = { ), +, -, ;, and, or }",
        "FOLLOW(Factor) = { ), *, +, -, /, ;, and, or }",
        "FOLLOW(BoolExpr) = { ) }",
        "FOLLOW(BoolExprTail) = { ) }",
        "FOLLOW(BoolAnd) = { ), or }",
        "FOLLOW(BoolAndTail) = { ), or }",
        "FOLLOW(BoolNot) = { ), and, or }",
        "FOLLOW(BoolAtom) = { ), and, or }",
        "FOLLOW(Relation) = { ), and, or }",
        "FOLLOW(RelOp) = { (, id, num }",
        "FOLLOW(Variable) = { !=, ), *, +, -, /, ;, <, <=, =, ==, >, >=, and, or }",
    ]);
    assert_eq!(format_follow_sets(&Grammar::ll1()), expected);
}

#[test]
fn parse_table_of_the_ll1_grammar() {
    let expected = listing(&[
        "非终结符 | 向前看符号 | 产生式",
        "------------------------------------------------",
        "Program | id | Program → StmtList",
        "Program | let | Program → StmtList",
        "Program | if | Program → StmtList",
        "Program | while | Program → StmtList",
        "Program | { | Program → StmtList",
        "StmtList | id | StmtList → Statement StmtListTail",
        "StmtList | let | StmtList → Statement StmtListTail",
        "StmtList | if | StmtList → Statement StmtListTail",
        "StmtList | while | StmtList → Statement StmtListTail",
        "StmtList | { | StmtList → Statement StmtListTail",
        "StmtListTail | id | StmtListTail → Statement StmtListTail",
        "StmtListTail | let | StmtListTail → Statement StmtListTail",
        "StmtListTail | if | StmtListTail → Statement StmtListTail",
        "StmtListTail | while | StmtListTail → Statement StmtListTail",
        "StmtListTail | { | StmtListTail → Statement StmtListTail",
        "StmtListTail | } | StmtListTail → ε",
        "StmtListTail | # | StmtListTail → ε",
        "Block | { | Block → { BlockBody }",
        "BlockBody | id | BlockBody → StmtList",
        "BlockBody | let | BlockBody → StmtList",
        "BlockBody | if | BlockBody → StmtList",
        "BlockBody | while | BlockBody → StmtList",
        "BlockBody | { | BlockBody → StmtList",
        "BlockBody | } | BlockBody → ε",
        "Statement | id | Statement → SimpleStmt ;",
        "Statement | let | Statement → SimpleStmt ;",
        "Statement | if | Statement → IfStmt",
        "Statement | while | Statement → WhileStmt",
        "Statement | { | Statement → Block",
        "SimpleStmt | id | SimpleStmt → AssignStmt",
        "SimpleStmt | let | SimpleStmt → DeclStmt",
        "IfStmt | if | IfStmt → if ( BoolExpr ) Block ElsePart",
        "WhileStmt | while | WhileStmt → while ( BoolExpr ) Block",
        "ElsePart | id | ElsePart → ε",
        "ElsePart | let | ElsePart → ε",
        "ElsePart | if | ElsePart → ε",
        "ElsePart | else | ElsePart → else ElseBody",
        "ElsePart | while | ElsePart → ε",
        "ElsePart | { | ElsePart → ε",
        "ElsePart | } | ElsePart → ε",
        "ElsePart | # | ElsePart → ε",
        "ElseBody | if | ElseBody → IfStmt",
        "ElseBody | { | ElseBody → Block",
        "DeclStmt | let | DeclStmt → let Variable DeclInit",
        "DeclInit | = | DeclInit → = Expr",
        "DeclInit | ; | DeclInit → ε",
        "AssignStmt | id | AssignStmt → Variable = Expr",
        "Expr | id | Expr → Term ExprTail",
        "Expr | num | Expr → Term ExprTail",
        "Expr | ( | Expr → Term ExprTail",
        "ExprTail | and | ExprTail → ε",
        "ExprTail | or | ExprTail → ε",
        "ExprTail | + | ExprTail → + Term ExprTail",
        "ExprTail | - | ExprTail → - Term ExprTail",
        "ExprTail | ) | ExprTail → ε",
        "ExprTail | ; | ExprTail → ε",
        "Term | id | Term → Factor TermTail",
        "Term | num | Term → Factor TermTail",
        "Term | ( | Term → Factor TermTail",
        "TermTail | and | TermTail → ε",
        "TermTail | or | TermTail → ε",
        "TermTail | + | TermTail → ε",
        "TermTail | - | TermTail → ε",
        "TermTail | * | TermTail → * Factor TermTail",
        "TermTail | / | TermTail → / Factor TermTail",
        "TermTail | ) | TermTail → ε",
        "TermTail | ; | TermTail → ε",
        "Factor | id | Factor → Variable",
        "Factor | num | Factor → num",
        "Factor | ( | Factor → ( Expr )",
        "BoolExpr | id | BoolExpr → BoolAnd BoolExprTail",
        "BoolExpr | num | BoolExpr → BoolAnd BoolExprTail",
        "BoolExpr | true | BoolExpr → BoolAnd BoolExprTail",
        "BoolExpr | false | BoolExpr → BoolAnd BoolExprTail",
        "BoolExpr | not | BoolExpr → BoolAnd BoolExprTail",
        "BoolExpr | ( | BoolExpr → BoolAnd BoolExprTail",
        "BoolExprTail | or | BoolExprTail → or BoolAnd BoolExprTail",
        "BoolExprTail | ) | BoolExprTail → ε",
        "BoolAnd | id | BoolAnd → BoolNot BoolAndTail",
        "BoolAnd | num | BoolAnd → BoolNot BoolAndTail",
        "BoolAnd | true | BoolAnd → BoolNot BoolAndTail",
        "BoolAnd | false | BoolAnd → BoolNot BoolAndTail",
        "BoolAnd | not | BoolAnd → BoolNot BoolAndTail",
        "BoolAnd | ( | BoolAnd → BoolNot BoolAndTail",
        "BoolAndTail | and | BoolAndTail → and BoolNot BoolAndTail",
        "BoolAndTail | or | BoolAndTail → ε",
        "BoolAndTail | ) | BoolAndTail → ε",
        "BoolNot | id | BoolNot → BoolAtom",
        "BoolNot | num | BoolNot → BoolAtom",
        "BoolNot | true | BoolNot → BoolAtom",
        "BoolNot | false | BoolNot → BoolAtom",
        "BoolNot | not | BoolNot → not BoolNot",
        "BoolNot | ( | BoolNot → BoolAtom",
        "BoolAtom | id | BoolAtom → Relation",
        "BoolAtom | num | BoolAtom → Relation",
        "BoolAtom | true | BoolAtom → true",
        "BoolAtom | false | BoolAtom → false",
        "BoolAtom | ( | BoolAtom → ( BoolExpr )",
        "Relation | id | Relation → Variable RelOp Expr",
        "Relation | num | Relation → num RelOp Expr",
        "RelOp | == | RelOp → ==",
        "RelOp | != | RelOp → !=",
        "RelOp | < | RelOp → <",
        "RelOp | <= | RelOp → <=",
        "RelOp | > | RelOp → >",
        "RelOp | >= | RelOp → >=",
        "Variable | id | Variable → id",
    ]);
    assert_eq!(format_parse_table(&Grammar::ll1()).unwrap(), expected);
}

#[test]
fn parse_table_header_has_a_rule_of_48_dashes() {
    let table = format_parse_table(&Grammar::ll1()).unwrap();
    let second = table.lines().nth(1).unwrap();
    assert_eq!(second, "-".repeat(48));
}

#[test]
fn original_grammar_has_no_parse_table() {
    let err = format_parse_table(&Grammar::original()).unwrap_err();
    assert!(err.starts_with("LL(1) 冲突: 表项 ("));
}

#[test]
fn first_sets_of_the_original_grammar_list_every_left_hand_side() {
    let text = format_first_sets(&Grammar::original());
    assert!(text.starts_with("FIRST(Program) = { id, if, let, while, { }"));
    assert!(text.contains("FIRST(DeclInit) = { =, ε }"));
    assert!(!text.ends_with('\n'));
}

#[test]
fn parse_table_counts_and_finds_its_entries() {
    use_table();
}

fn use_table() {
    let table = simple_parser_ll1::first_follow::build_parse_table(&Grammar::ll1()).unwrap();
    assert_eq!(table.len(), 107);
    assert!(table.contains_key(simple_parser_ll1::symbol::NonTerminal::Program, simple_parser_ll1::symbol::Terminal::Id));
    assert!(table.contains_key(simple_parser_ll1::symbol::NonTerminal::ElsePart, simple_parser_ll1::symbol::Terminal::End));
    assert!(!table.contains_key(simple_parser_ll1::symbol::NonTerminal::Program, simple_parser_ll1::symbol::Terminal::Plus));
}
