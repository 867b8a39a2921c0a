use simple_parser_ll1::lexer::{tokenize, Token};
use simple_parser_ll1::rd_parser::parse;
use simple_parser_ll1::symbol::Terminal;
use simple_parser_ll1::syntax_tree::{format_tree, RdNode};

fn parse_ok(input: &str) -> String {
    let tokens = tokenize(input).expect("tokenize should succeed");
    let output = parse(&tokens).expect("rd parse should succeed");
    format_tree(&output.nodes, output.root)
}

fn parse_err(input: &str) -> String {
    let tokens = tokenize(input).expect("tokenize should succeed");
    parse(&tokens).expect_err("rd parse should fail")
}

#[test]
fn test_parse_if_while_block() {
    let tree = parse_ok(
        "if ( x < 10 or false ) { let y = 1; } else { while ( x > 0 ) { x = x - 1; } }",
    );
    assert!(tree.contains("IfStmt"));
    assert!(tree.contains("WhileStmt"));
    assert!(tree.contains("LogicalExpr"));
}

#[test]
fn test_parse_decl_and_assign() {
    let tree = parse_ok("{ let a = 1; a = a - 1; }");
    assert!(tree.contains("DeclStmt"));
    assert!(tree.contains("AssignStmt"));
    assert!(tree.contains("BinaryExpr"));
}

#[test]
fn rd_parser_test_parse_error() {
    let tokens = tokenize("while ( x > ) { x = 1; }").expect("tokenize should succeed");
    let err = parse(&tokens).expect_err("rd parse should fail");
    assert!(err.contains("递归下降错误"));
}

#[test]
fn assignment_tree_and_trace() {
    let tokens = tokenize("x = 1;").unwrap();
    let output = parse(&tokens).unwrap();
    assert_eq!(output.root, 10);
    assert_eq!(output.nodes.len(), 11);
    assert_eq!(
        format_tree(&output.nodes, output.root),
        "Program\n  StmtList\n    Statement\n      AssignStmt\n        Variable\n          id\n        =\n        Expr\n          Number\n            num\n      ;\n"
    );
    let trace: Vec<&str> = output.trace.iter().map(|s| s.as_str()).collect();
    assert_eq!(
        trace,
        vec![
            "enter parse_program",
            "enter parse_stmt_list",
            "enter parse_statement",
            "enter parse_assign_stmt",
            "enter parse_variable",
            "match id",
            "match =",
            "enter parse_expr",
            "match num",
            "match ;",
        ]
    );
}

#[test]
fn children_come_before_parents() {
    for input in [
        "x = 1;",
        "{ let a = 1; a = a - 1; }",
        "if ( not a < b and c > d ) { } else if ( true ) { x = (1 + 2) * 3; }",
        "while ( (x > 0) or false ) { let y; }",
    ] {
        let tokens = tokenize(input).unwrap();
        let output = parse(&tokens).unwrap();
        assert_eq!(output.root, output.nodes.len() - 1);
        for (i, node) in output.nodes.iter().enumerate() {
            for &c in &node.children {
                assert!(c < i);
            }
        }
    }
}

#[test]
fn multiplication_binds_tighter_than_addition() {
    let tree = parse_ok("x = 1 + 2 * 3;");
    assert!(tree.contains(
        "        Expr\n          BinaryExpr\n            Number\n              num\n            +\n            BinaryExpr\n              Number\n                num\n              *\n              Number\n                num\n"
    ));
}

#[test]
fn rd_subtraction_nests_to_the_left() {
    let tree = parse_ok("x = a - b - c;");
    assert!(tree.contains(
        "          BinaryExpr\n            BinaryExpr\n              Variable\n                id\n              -\n              Variable\n                id\n            -\n            Variable\n              id\n"
    ));
}

#[test]
fn not_binds_tighter_than_and() {
    let tree = parse_ok("if ( not a < b and c > d ) { }");
    assert!(tree.contains("        BoolExpr\n          LogicalExpr\n            NotExpr\n              not\n              Relation\n"));
    assert!(tree.contains("            and\n            Relation\n"));
}

#[test]
fn declaration_without_initializer_and_empty_block() {
    let tree = parse_ok("let a; { }");
    assert!(tree.contains("      DeclStmt\n        let\n        Variable\n          id\n        ε\n      ;\n"));
    assert!(tree.contains("      Block\n        {\n        ε\n        }\n"));
}

#[test]
fn else_if_chain() {
    let tree = parse_ok("if ( x == 1 ) { } else if ( x != 2 ) { } else { }");
    assert!(tree.contains("        else\n        IfStmt\n"));
    assert_eq!(tree.matches("IfStmt").count(), 2);
}

#[test]
fn rd_empty_token_slice_is_rejected() {
    assert_eq!(parse(&[]).unwrap_err(), "输入 token 序列为空");
}

#[test]
fn error_messages_name_the_token_and_offset() {
    assert_eq!(
        parse_err("while ( x > ) { x = 1; }"),
        "递归下降错误: 非法表达式起始符 `)` (offset 12)"
    );
    assert_eq!(
        parse_err("x = 1; )"),
        "递归下降错误: 程序结束处期待 `#`, 实际读到 `)` (offset 7)"
    );
    assert_eq!(
        parse_err("if x"),
        "递归下降错误: 期待 `(`, 实际读到 `id` (offset 3)"
    );
    assert_eq!(
        parse_err("if ( x ) { }"),
        "递归下降错误: 期待比较运算符，实际读到 `)` (offset 7)"
    );
    assert_eq!(
        parse_err("while ( ; ) { }"),
        "递归下降错误: 非法布尔表达式起始符 `;` (offset 8)"
    );
    assert_eq!(parse_err("else"), "递归下降错误: 非法语句起始符 `else` (offset 0)");
}

#[test]
fn tokens_without_end_marker_that_fail_early() {
    let tokens = vec![Token {
        kind: Terminal::Semicolon,
        lexeme: ";".to_string(),
        offset: 0,
    }];
    assert_eq!(
        parse(&tokens).unwrap_err(),
        "递归下降错误: 非法语句起始符 `;` (offset 0)"
    );
}

#[test]
fn format_tree_of_a_hand_built_tree() {
    let nodes = vec![
        RdNode { label: "a".to_string(), children: vec![] },
        RdNode { label: "b".to_string(), children: vec![] },
        RdNode { label: "root".to_string(), children: vec![0, 1] },
    ];
    assert_eq!(format_tree(&nodes, 2), "root\n  a\n  b\n");
    assert_eq!(format_tree(&nodes, 1), "b\n");
}

fn leaf_labels(nodes: &[RdNode], id: usize, out: &mut Vec<String>) {
    let node = &nodes[id];
    if node.children.is_empty() {
        if node.label != "ε" {
            out.push(node.label.clone());
        }
    } else {
        for &c in &node.children {
            leaf_labels(nodes, c, out);
        }
    }
}

#[test]
fn leaves_spell_the_tokens() {
    for input in [
        "x = 1;",
        "let a; { } while ( not (x > 0) or false ) { let y = (1 + 2) * 3; }",
        "if ( a == 1 and b != 2 ) { } else if ( 3 <= c ) { d = d / 4 - 5; } else { }",
    ] {
        let tokens = tokenize(input).unwrap();
        let output = parse(&tokens).unwrap();
        let mut leaves = Vec::new();
        leaf_labels(&output.nodes, output.root, &mut leaves);
        let kinds: Vec<String> = tokens[..tokens.len() - 1]
            .iter()
            .map(|t| t.kind.to_string())
            .collect();
        assert_eq!(leaves, kinds);
    }
}

#[test]
fn format_tree_with_children_after_parents_and_shared_nodes() {
    let nodes = vec![
        RdNode { label: "root".to_string(), children: vec![1, 2, 1] },
        RdNode { label: "x".to_string(), children: vec![2] },
        RdNode { label: "y".to_string(), children: vec![] },
    ];
    assert_eq!(format_tree(&nodes, 0), "root\n  x\n    y\n  y\n  x\n    y\n");
}

#[test]
fn parse_output_clone_keeps_everything() {
    let tokens = tokenize("{ let a = 1; }").unwrap();
    let output = parse(&tokens).unwrap();
    let copy = output.clone();
    assert_eq!(copy.root, output.root);
    assert_eq!(copy.trace, output.trace);
    assert_eq!(
        format_tree(&copy.nodes, copy.root),
        format_tree(&output.nodes, output.root)
    );
    let node_copy = output.nodes[output.root].clone();
    assert_eq!(node_copy.label, "Program");
    assert_eq!(node_copy.children, output.nodes[output.root].children);
}
