use simple_parser_ll1::symbol::Symbol;
use simple_parser_ll1::grammar::Grammar;
use simple_parser_ll1::lexer::tokenize;
use simple_parser_ll1::parser::{format_tree, parse};

fn parse_ok(input: &str) -> String {
    let tokens = tokenize(input).expect("tokenize should succeed");
    let tree = parse(&tokens, &Grammar::ll1()).expect("parse should succeed");
    format_tree(&tree)
}

#[test]
fn test_parse_let_stmt() {
    let tree = parse_ok("let x = 1;");
    assert!(tree.contains("DeclStmt"));
    assert!(tree.contains("let"));
}

#[test]
fn test_parse_assign_stmt() {
    let tree = parse_ok("x = 1 - 2 / 3;");
    assert!(tree.contains("AssignStmt"));
    assert!(tree.contains("/"));
}

#[test]
fn test_parse_if_else_if_stmt() {
    let tree = parse_ok("if ( x < 10 ) { let y = 1; } else if ( x == 10 ) { let z; }");
    assert!(tree.contains("IfStmt"));
    assert!(tree.contains("ElsePart"));
    assert!(tree.contains("=="));
}

#[test]
fn test_parse_while_stmt() {
    let tree = parse_ok("while ( x > 0 ) { x = x - 1; }");
    assert!(tree.contains("WhileStmt"));
    assert!(tree.contains(">"));
}

#[test]
fn test_parse_block_stmt() {
    let tree = parse_ok("{ let a = 1; let b; }");
    assert!(tree.contains("Block"));
    assert!(tree.contains("BlockBody"));
}

#[test]
fn test_parse_empty_block() {
    let tree = parse_ok("{ }");
    assert!(tree.contains("Block"));
    assert!(tree.contains("ε"));
}

#[test]
fn test_parse_nested_if_while_with_bool_precedence() {
    let tree = parse_ok("if ( not false and x >= 1 ) { while ( x > 0 ) { if ( x == 1 ) { } } }");
    assert!(tree.contains("IfStmt"));
    assert!(tree.contains("WhileStmt"));
    assert!(tree.contains("not"));
    assert!(tree.contains("and"));
    assert!(tree.contains(">="));
}

#[test]
fn parser_test_parse_error() {
    let tokens = tokenize("let x = ;").expect("tokenize should succeed");
    let err = parse(&tokens, &Grammar::ll1()).expect_err("parse should fail");
    assert!(err.contains("语法错误"));
}

#[test]
fn test_parse_missing_block_error() {
    let tokens = tokenize("if ( x < 1 ) let y = 1;").expect("tokenize should succeed");
    let err = parse(&tokens, &Grammar::ll1()).expect_err("parse should fail");
    assert!(err.contains("语法错误"));
}

#[test]
fn declaration_tree_matches_the_reference_listing() {
    assert_eq!(
        parse_ok("let x = 1;"),
        "Program\n  StmtList\n    Statement\n      SimpleStmt\n        DeclStmt\n          let\n          Variable\n            id\n          DeclInit\n            =\n            Expr\n              Term\n                Factor\n                  num\n                TermTail\n                  ε\n              ExprTail\n                ε\n      ;\n    StmtListTail\n      ε\n"
    );
}

#[test]
fn ll1_error_messages() {
    let tokens = tokenize("let x = ;").unwrap();
    assert_eq!(
        parse(&tokens, &Grammar::ll1()).unwrap_err(),
        "语法错误: 非终结符 `Expr` 在向前看符号 `;` 下无可用产生式 (offset 8)"
    );
    let tokens = tokenize("x = 1 }").unwrap();
    assert_eq!(
        parse(&tokens, &Grammar::ll1()).unwrap_err(),
        "语法错误: 非终结符 `TermTail` 在向前看符号 `}` 下无可用产生式 (offset 6)"
    );
    let tokens = tokenize("if x").unwrap();
    assert_eq!(
        parse(&tokens, &Grammar::ll1()).unwrap_err(),
        "语法错误: 期待终结符 `(`, 实际读到 `id` (offset 3)"
    );
    assert_eq!(parse(&[], &Grammar::ll1()).unwrap_err(), "输入 token 序列为空");
}

#[test]
fn original_grammar_is_not_ll1() {
    let tokens = tokenize("x = 1;").unwrap();
    let err = parse(&tokens, &Grammar::original()).unwrap_err();
    assert!(err.starts_with("LL(1) 冲突: 表项 ("));
}

fn leaf_labels(nodes: &[simple_parser_ll1::parser::Node], id: usize, out: &mut Vec<String>) {
    let node = &nodes[id];
    if node.children.is_empty() {
        let label = node.kind.to_string();
        if label != "ε" {
            out.push(label);
        }
    } else {
        for &child in &node.children {
            leaf_labels(nodes, child, out);
        }
    }
}

#[test]
fn tree_leaves_spell_the_tokens() {
    let input = "if ( not false and x >= 1 ) { } else if ( x == 10 or false ) { let z; }";
    let tokens = tokenize(input).unwrap();
    let nodes = parse(&tokens, &Grammar::ll1()).unwrap();
    let mut leaves = Vec::new();
    leaf_labels(&nodes, 0, &mut leaves);
    let expected: Vec<String> = tokens[..tokens.len() - 1].iter().map(|t| t.kind.to_string()).collect();
    assert_eq!(leaves, expected);
}

#[test]
fn every_child_comes_after_its_parent() {
    let tokens = tokenize("{ let a = 1; let b; } while ( x > 0 ) { x = x - 1; }").unwrap();
    let nodes = parse(&tokens, &Grammar::ll1()).unwrap();
    for (i, node) in nodes.iter().enumerate() {
        for &child in &node.children {
            assert!(i < child && child < nodes.len());
        }
    }
}

#[test]
fn tree_is_a_parse_tree_of_the_grammar() {
    let grammar = Grammar::ll1();
    let tokens = tokenize("if ( x < 10 or false ) { let y = 1; } else if ( x == 10 ) { let z; } while ( x > 0 ) { x = x - 1; }").unwrap();
    let nodes = parse(&tokens, &grammar).unwrap();
    assert_eq!(nodes[0].kind, Symbol::NonTerminal(grammar.start));
    for node in &nodes {
        if node.children.is_empty() {
            assert!(matches!(node.kind, Symbol::Terminal(_) | Symbol::Epsilon));
            continue;
        }
        let kinds: Vec<Symbol> = node.children.iter().map(|&c| nodes[c].kind).collect();
        let fits = grammar.productions.iter().any(|p| {
            Symbol::NonTerminal(p.lhs) == node.kind
                && if p.rhs.is_empty() { kinds == vec![Symbol::Epsilon] } else { kinds == p.rhs }
        });
        assert!(fits, "node {:?} with children {:?}", node.kind, kinds);
    }
}
