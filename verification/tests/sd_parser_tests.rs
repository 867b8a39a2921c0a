use simple_parser_ll1::error::CompileError;
use simple_parser_ll1::lexer::tokenize;
use simple_parser_ll1::sd_parser::{parse_assignment, parse_bool, parse_program};

fn assign_quad_lines(input: &str) -> Vec<String> {
    let tokens = tokenize(input).expect("tokenize should succeed");
    let codegen = parse_assignment(&tokens).expect("parse assignment should succeed");
    codegen
        .quads
        .iter()
        .map(|q| q.to_string())
        .collect::<Vec<_>>()
}

fn bool_quads_and_attr(input: &str) -> (Vec<String>, Vec<usize>, Vec<usize>) {
    let tokens = tokenize(input).expect("tokenize should succeed");
    let output = parse_bool(&tokens).expect("parse bool should succeed");
    let quads = output
        .codegen
        .quads
        .iter()
        .map(|q| q.to_string())
        .collect::<Vec<_>>();
    (quads, output.attr.tc, output.attr.fc)
}

fn program_quad_lines(input: &str) -> Vec<String> {
    let tokens = tokenize(input).expect("tokenize should succeed");
    let codegen = parse_program(&tokens).expect("parse program should succeed");
    codegen
        .quads
        .iter()
        .map(|q| q.to_string())
        .collect::<Vec<_>>()
}

#[test]
fn test_parse_simple_assignment_expr() {
    assert_eq!(
        assign_quad_lines("a = b + c;"),
        vec!["(+, b, c, t1)", "(=, t1, _, a)"]
    );
}

#[test]
fn test_parse_assignment_expr_precedence() {
    assert_eq!(
        assign_quad_lines("a = b + c * e / g"),
        vec![
            "(*, c, e, t1)",
            "(/, t1, g, t2)",
            "(+, b, t2, t3)",
            "(=, t3, _, a)",
        ]
    );
}

#[test]
fn test_parse_assignment_accepts_optional_semicolon() {
    assert_eq!(
        assign_quad_lines("a=b+c*e/g;"),
        assign_quad_lines("a=b+c*e/g")
    );
}

#[test]
fn test_parse_assignment_expr_grouping() {
    assert_eq!(
        assign_quad_lines("a = (b + c) * d;"),
        vec!["(+, b, c, t1)", "(*, t1, d, t2)", "(=, t2, _, a)"]
    );
}

#[test]
fn test_parse_assignment_error() {
    let tokens = tokenize("a = b + ;").expect("tokenize should succeed");
    let err = parse_assignment(&tokens).expect_err("parse should fail");

    assert_eq!(
        err,
        CompileError::Parse {
            offset: Some(8),
            message: "非法表达式起始符 `;`".into(),
        }
    );
}

#[test]
fn test_parse_assignment_rejects_trailing_statement() {
    let tokens = tokenize("a = b + c; x = a * d;").expect("tokenize should succeed");
    let err = parse_assignment(&tokens).expect_err("parse should fail");

    assert!(err.to_string().contains("期待 `#`"));
}

#[test]
fn test_parse_program_assignment_list() {
    assert_eq!(
        program_quad_lines("a = b + c; x = a * d;"),
        vec![
            "(+, b, c, t1)",
            "(=, t1, _, a)",
            "(*, a, d, t2)",
            "(=, t2, _, x)",
        ]
    );
}

#[test]
fn test_parse_program_blocks() {
    assert_eq!(
        program_quad_lines("{ a = b + c; { x = a * d; } }"),
        vec![
            "(+, b, c, t1)",
            "(=, t1, _, a)",
            "(*, a, d, t2)",
            "(=, t2, _, x)",
        ]
    );
}

#[test]
fn test_parse_program_empty_block() {
    assert_eq!(program_quad_lines("{ }"), Vec::<String>::new());
}

#[test]
fn test_parse_program_if() {
    assert_eq!(
        program_quad_lines("if (a < b) { x = y + z; }"),
        vec![
            "(j<, a, b, 2)",
            "(j, _, _, 4)",
            "(+, y, z, t1)",
            "(=, t1, _, x)",
        ]
    );
}

#[test]
fn test_parse_program_if_else() {
    assert_eq!(
        program_quad_lines("if (a < b) { x = y + z; } else { x = y - z; }"),
        vec![
            "(j<, a, b, 2)",
            "(j, _, _, 5)",
            "(+, y, z, t1)",
            "(=, t1, _, x)",
            "(j, _, _, 7)",
            "(-, y, z, t2)",
            "(=, t2, _, x)",
        ]
    );
}

#[test]
fn test_parse_program_while() {
    assert_eq!(
        program_quad_lines("while (a < b) { a = a + 1; }"),
        vec![
            "(j<, a, b, 2)",
            "(j, _, _, 5)",
            "(+, a, 1, t1)",
            "(=, t1, _, a)",
            "(j, _, _, 0)",
        ]
    );
}

#[test]
fn test_parse_program_nested_control_flow() {
    assert_eq!(
        program_quad_lines("while (a < b) { if (c != d) { x = x + 1; } }"),
        vec![
            "(j<, a, b, 2)",
            "(j, _, _, 7)",
            "(j!=, c, d, 4)",
            "(j, _, _, 6)",
            "(+, x, 1, t1)",
            "(=, t1, _, x)",
            "(j, _, _, 0)",
        ]
    );
}

#[test]
fn test_parse_program_if_else_with_following_stmt() {
    assert_eq!(
        program_quad_lines("if (a < b) { x = y + z; } else { x = y - z; } k = x * 2;"),
        vec![
            "(j<, a, b, 2)",
            "(j, _, _, 5)",
            "(+, y, z, t1)",
            "(=, t1, _, x)",
            "(j, _, _, 7)",
            "(-, y, z, t2)",
            "(=, t2, _, x)",
            "(*, x, 2, t3)",
            "(=, t3, _, k)",
        ]
    );
}

#[test]
fn test_parse_program_missing_rbrace_error() {
    let tokens = tokenize("{ a = b + c;").expect("tokenize should succeed");
    let err = parse_program(&tokens).expect_err("parse should fail");

    assert!(err.to_string().contains("期待 `}`"));
}

#[test]
fn test_parse_bool_relation() {
    let (quads, tc, fc) = bool_quads_and_attr("a < b");

    assert_eq!(quads, vec!["(j<, a, b, _)", "(j, _, _, _)"]);
    assert_eq!(tc, vec![0]);
    assert_eq!(fc, vec![1]);
}

#[test]
fn test_parse_bool_relation_with_arithmetic_sides() {
    let (quads, tc, fc) = bool_quads_and_attr("a + b <= c * d");

    assert_eq!(
        quads,
        vec![
            "(+, a, b, t1)",
            "(*, c, d, t2)",
            "(j<=, t1, t2, _)",
            "(j, _, _, _)",
        ]
    );
    assert_eq!(tc, vec![2]);
    assert_eq!(fc, vec![3]);
}

#[test]
fn test_parse_bool_relation_with_parenthesized_left_expr() {
    let (quads, tc, fc) = bool_quads_and_attr("(a + b) < c");

    assert_eq!(
        quads,
        vec!["(+, a, b, t1)", "(j<, t1, c, _)", "(j, _, _, _)"]
    );
    assert_eq!(tc, vec![1]);
    assert_eq!(fc, vec![2]);
}

#[test]
fn test_parse_bool_relation_with_parenthesized_exprs() {
    let (quads, tc, fc) = bool_quads_and_attr("(a + b) < (c * d)");

    assert_eq!(
        quads,
        vec![
            "(+, a, b, t1)",
            "(*, c, d, t2)",
            "(j<, t1, t2, _)",
            "(j, _, _, _)",
        ]
    );
    assert_eq!(tc, vec![2]);
    assert_eq!(fc, vec![3]);
}

#[test]
fn test_parse_bool_true_literal() {
    let (quads, tc, fc) = bool_quads_and_attr("true");

    assert_eq!(quads, vec!["(j, _, _, _)"]);
    assert_eq!(tc, vec![0]);
    assert_eq!(fc, Vec::<usize>::new());
}

#[test]
fn test_parse_bool_false_literal() {
    let (quads, tc, fc) = bool_quads_and_attr("false");

    assert_eq!(quads, vec!["(j, _, _, _)"]);
    assert_eq!(tc, Vec::<usize>::new());
    assert_eq!(fc, vec![0]);
}

#[test]
fn test_parse_bool_and() {
    let (quads, tc, fc) = bool_quads_and_attr("a < b and c > d");

    assert_eq!(
        quads,
        vec![
            "(j<, a, b, 2)",
            "(j, _, _, _)",
            "(j>, c, d, _)",
            "(j, _, _, _)",
        ]
    );
    assert_eq!(tc, vec![2]);
    assert_eq!(fc, vec![1, 3]);
}

#[test]
fn test_parse_bool_or() {
    let (quads, tc, fc) = bool_quads_and_attr("a < b or c > d");

    assert_eq!(
        quads,
        vec![
            "(j<, a, b, _)",
            "(j, _, _, 2)",
            "(j>, c, d, _)",
            "(j, _, _, _)",
        ]
    );
    assert_eq!(tc, vec![0, 2]);
    assert_eq!(fc, vec![3]);
}

#[test]
fn test_parse_bool_not() {
    let (quads, tc, fc) = bool_quads_and_attr("not a < b");

    assert_eq!(quads, vec!["(j<, a, b, _)", "(j, _, _, _)"]);
    assert_eq!(tc, vec![1]);
    assert_eq!(fc, vec![0]);
}

#[test]
fn test_parse_bool_double_not() {
    let (quads, tc, fc) = bool_quads_and_attr("not not a < b");

    assert_eq!(quads, vec!["(j<, a, b, _)", "(j, _, _, _)"]);
    assert_eq!(tc, vec![0]);
    assert_eq!(fc, vec![1]);
}

#[test]
fn test_parse_bool_repeated_and() {
    let (quads, tc, fc) = bool_quads_and_attr("a < b and c > d and e != f");

    assert_eq!(
        quads,
        vec![
            "(j<, a, b, 2)",
            "(j, _, _, _)",
            "(j>, c, d, 4)",
            "(j, _, _, _)",
            "(j!=, e, f, _)",
            "(j, _, _, _)",
        ]
    );
    assert_eq!(tc, vec![4]);
    assert_eq!(fc, vec![1, 3, 5]);
}

#[test]
fn test_parse_bool_and_precedes_or() {
    let (quads, tc, fc) = bool_quads_and_attr("a < b or c > d and e != f");

    assert_eq!(
        quads,
        vec![
            "(j<, a, b, _)",
            "(j, _, _, 2)",
            "(j>, c, d, 4)",
            "(j, _, _, _)",
            "(j!=, e, f, _)",
            "(j, _, _, _)",
        ]
    );
    assert_eq!(tc, vec![0, 4]);
    assert_eq!(fc, vec![3, 5]);
}

#[test]
fn test_parse_bool_grouping() {
    let (quads, tc, fc) = bool_quads_and_attr("(a < b or c > d) and e != f");

    assert_eq!(
        quads,
        vec![
            "(j<, a, b, 4)",
            "(j, _, _, 2)",
            "(j>, c, d, 4)",
            "(j, _, _, _)",
            "(j!=, e, f, _)",
            "(j, _, _, _)",
        ]
    );
    assert_eq!(tc, vec![4]);
    assert_eq!(fc, vec![3, 5]);
}

#[test]
fn test_parse_bool_not_grouping() {
    let (quads, tc, fc) = bool_quads_and_attr("not (a < b or c > d)");

    assert_eq!(
        quads,
        vec![
            "(j<, a, b, _)",
            "(j, _, _, 2)",
            "(j>, c, d, _)",
            "(j, _, _, _)",
        ]
    );
    assert_eq!(tc, vec![3]);
    assert_eq!(fc, vec![0, 2]);
}

#[test]
fn test_parse_bool_literal_short_circuit() {
    let (quads, tc, fc) = bool_quads_and_attr("not false and x >= 1");

    assert_eq!(
        quads,
        vec!["(j, _, _, 1)", "(j>=, x, 1, _)", "(j, _, _, _)"]
    );
    assert_eq!(tc, vec![1]);
    assert_eq!(fc, vec![2]);
}

#[test]
fn test_parse_bool_relation_error() {
    let tokens = tokenize("a + b").expect("tokenize should succeed");
    let err = parse_bool(&tokens).expect_err("parse should fail");

    assert!(err.to_string().contains("期待比较运算符"));
}

use simple_parser_ll1::codegen::{JumpTarget, Quad};
use simple_parser_ll1::lexer::Token;
use simple_parser_ll1::symbol::Terminal;

#[test]
fn empty_token_slice_is_rejected() {
    let expected = CompileError::Parse {
        offset: None,
        message: "输入 token 序列为空".into(),
    };
    assert_eq!(parse_program(&[]).unwrap_err(), expected);
    assert_eq!(parse_assignment(&[]).unwrap_err(), expected);
    assert_eq!(parse_bool(&[]).unwrap_err(), expected);
}

#[test]
fn running_out_of_tokens_is_reported() {
    let tokens = vec![Token {
        kind: Terminal::Id,
        lexeme: "a".into(),
        offset: 0,
    }];
    let err = parse_assignment(&tokens).unwrap_err();
    assert_eq!(
        err,
        CompileError::Parse {
            offset: None,
            message: "输入意外结束".into(),
        }
    );
    assert_eq!(err.to_string(), "语法制导翻译错误: 输入意外结束");
}

#[test]
fn bad_statement_start_is_reported() {
    let tokens = tokenize("a = b; ) x = y;").unwrap();
    let err = parse_program(&tokens).unwrap_err();
    assert_eq!(
        err,
        CompileError::Parse {
            offset: Some(7),
            message: "期待 `#`, 实际读到 `)`".into(),
        }
    );
    assert_eq!(
        err.to_string(),
        "语法制导翻译错误: 期待 `#`, 实际读到 `)` (offset 7)"
    );
}

#[test]
fn subtraction_associates_to_the_left() {
    assert_eq!(
        assign_quad_lines("a = b - c - d"),
        vec!["(-, b, c, t1)", "(-, t1, d, t2)", "(=, t2, _, a)"]
    );
    assert_eq!(
        assign_quad_lines("a = b * (c + d) / 2;"),
        vec!["(+, c, d, t1)", "(*, b, t1, t2)", "(/, t2, 2, t3)", "(=, t3, _, a)"]
    );
}

#[test]
fn assignment_of_a_single_operand() {
    assert_eq!(assign_quad_lines("x = 5"), vec!["(=, 5, _, x)"]);
}

#[test]
fn parenthesized_operand_relation_and_nested_groups() {
    let (quads, tc, fc) = bool_quads_and_attr("(a) < b");
    assert_eq!(quads, vec!["(j<, a, b, _)", "(j, _, _, _)"]);
    assert_eq!((tc, fc), (vec![0], vec![1]));

    let (quads, tc, fc) = bool_quads_and_attr("((a < b))");
    assert_eq!(quads, vec!["(j<, a, b, _)", "(j, _, _, _)"]);
    assert_eq!((tc, fc), (vec![0], vec![1]));
}

#[test]
fn true_or_false_chains() {
    let (quads, tc, fc) = bool_quads_and_attr("true or false");
    assert_eq!(quads, vec!["(j, _, _, _)", "(j, _, _, _)"]);
    assert_eq!(tc, vec![0]);
    assert_eq!(fc, vec![1]);
}

#[test]
fn bool_chains_are_exactly_the_pending_jumps() {
    let tokens = tokenize("not (a < b and c > d) or e == f and not false").unwrap();
    let output = parse_bool(&tokens).unwrap();
    let mut chained: Vec<usize> = output.attr.tc.clone();
    chained.extend(output.attr.fc.iter().copied());
    chained.sort();
    let pending: Vec<usize> = output
        .codegen
        .quads
        .iter()
        .enumerate()
        .filter(|(_, q)| {
            matches!(
                q,
                Quad::Jump { target: JumpTarget::Pending }
                    | Quad::JumpIf { target: JumpTarget::Pending, .. }
            )
        })
        .map(|(i, _)| i)
        .collect();
    assert_eq!(chained, pending);
}

#[test]
fn programs_leave_no_pending_jump() {
    let tokens = tokenize(
        "while (a < b or not c == d) { if (x > 0 and y > 0) { x = x - 1; } else { y = y - 1; } } z = 0;",
    )
    .unwrap();
    let codegen = parse_program(&tokens).unwrap();
    let n = codegen.quads.len();
    for quad in &codegen.quads {
        match quad {
            Quad::Jump { target } | Quad::JumpIf { target, .. } => match target {
                JumpTarget::Target(t) => assert!(*t <= n),
                JumpTarget::Pending => panic!("pending jump left"),
            },
            _ => {}
        }
    }
}

#[test]
fn empty_program_translates_to_nothing() {
    assert_eq!(program_quad_lines(""), Vec::<String>::new());
}

#[test]
fn while_with_and_condition() {
    assert_eq!(
        program_quad_lines("while (a < b and c < d) { }"),
        vec![
            "(j<, a, b, 2)",
            "(j, _, _, 5)",
            "(j<, c, d, 4)",
            "(j, _, _, 5)",
            "(j, _, _, 0)",
        ]
    );
}

#[test]
fn statement_may_not_start_with_let() {
    let tokens = tokenize("{ let x = 1; }").unwrap();
    let err = parse_program(&tokens).unwrap_err();
    assert_eq!(
        err,
        CompileError::Parse {
            offset: Some(2),
            message: "期待 `}`, 实际读到 `let`".into(),
        }
    );
}

#[test]
fn missing_relop_reports_offending_token() {
    let tokens = tokenize("a ; b").unwrap();
    let err = parse_bool(&tokens).unwrap_err();
    assert_eq!(
        err,
        CompileError::Parse {
            offset: Some(2),
            message: "期待比较运算符，实际读到 `;`".into(),
        }
    );
}

#[test]
fn quad_list_is_the_quads_field() {
    let tokens = tokenize("a = b + c").unwrap();
    let cg = parse_assignment(&tokens).unwrap();
    assert_eq!(cg.quad_list().len(), cg.quads.len());
    assert_eq!(cg.quad_list().len(), 2);
}

#[test]
fn semicolon_after_a_single_assignment_changes_nothing() {
    for src in ["a = b", "x = (a + b) * c - d / e", "y = 1"] {
        assert_eq!(assign_quad_lines(src), assign_quad_lines(&format!("{src};")));
    }
}

#[test]
fn double_negation_leaves_code_and_chains() {
    for src in ["a < b", "a < b or c > d and not e != f", "(a < b or c > d) and e != f"] {
        assert_eq!(bool_quads_and_attr(src), bool_quads_and_attr(&format!("not not {src}")));
    }
}

#[test]
fn negating_a_single_term_swaps_the_chains() {
    for src in ["a < b", "(a < b or c > d)", "not e != f", "true"] {
        let (q1, tc1, fc1) = bool_quads_and_attr(src);
        let (q2, tc2, fc2) = bool_quads_and_attr(&format!("not {src}"));
        assert_eq!(q1, q2);
        assert_eq!(tc2, fc1);
        assert_eq!(fc2, tc1);
    }
}

#[test]
fn chains_increase_and_jumps_go_forward() {
    let tokens = tokenize("(a < b or c > d) and e != f or not (g == h and i < j)").unwrap();
    let out = parse_bool(&tokens).unwrap();
    for chain in [&out.attr.tc, &out.attr.fc] {
        assert!(chain.windows(2).all(|w| w[0] < w[1]));
    }
    assert!(!(out.attr.tc.is_empty() && out.attr.fc.is_empty()));
    let lines: Vec<String> = out.codegen.quads.iter().map(|q| q.to_string()).collect();
    for (i, line) in lines.iter().enumerate() {
        let target = line.trim_end_matches(')').rsplit(", ").next().unwrap();
        if let Ok(t) = target.parse::<usize>() {
            assert!(i < t && t < lines.len(), "{line}");
        }
    }
}

#[test]
fn braces_around_a_program_change_nothing() {
    for src in [
        "a = b + c; x = a * d;",
        "if (a < b) { x = 1; } else { x = 2; } while (x > 0 and y < 3) { x = x - 1; }",
        "{ a = b; } c = d;",
    ] {
        assert_eq!(program_quad_lines(src), program_quad_lines(&format!("{{ {src} }}")));
    }
}

#[test]
fn negating_a_parenthesized_expression_swaps_the_chains() {
    for src in [
        "a < b or c > d and e != f",
        "(a + b) * c < d and not (e == f or true)",
        "false or x >= y",
    ] {
        let (q1, tc1, fc1) = bool_quads_and_attr(src);
        let (q2, tc2, fc2) = bool_quads_and_attr(&format!("not ({src})"));
        assert_eq!(q1, q2);
        assert_eq!(tc2, fc1);
        assert_eq!(fc2, tc1);
        assert_eq!(bool_quads_and_attr(&format!("not (not ({src}))")), (q1, tc1, fc1));
    }
}

fn moved_line(line: &str, n: usize, m: usize) -> String {
    let inner = &line[1..line.len() - 1];
    let fields: Vec<String> = inner
        .split(", ")
        .enumerate()
        .map(|(k, f)| {
            if let Some(num) = f.strip_prefix('t').and_then(|d| d.parse::<usize>().ok()) {
                format!("t{}", num + m)
            } else if k == 3 && f.parse::<usize>().is_ok() {
                format!("{}", f.parse::<usize>().unwrap() + n)
            } else {
                f.to_string()
            }
        })
        .collect();
    format!("({})", fields.join(", "))
}

fn patched_line(line: &str, target: usize) -> String {
    format!("{}{})", &line[..line.len() - 2], target)
}

fn composed(s1: &str, op: &str, s2: &str) -> (Vec<String>, Vec<usize>, Vec<usize>) {
    let (q1, tc1, fc1) = bool_quads_and_attr(s1);
    let (q2, tc2, fc2) = bool_quads_and_attr(s2);
    let n = q1.len();
    let m = q1.iter().filter(|l| ["(+", "(-", "(*", "(/"].iter().any(|p| l.starts_with(p))).count();
    let chain = if op == "and" { &tc1 } else { &fc1 };
    let mut lines: Vec<String> = q1
        .iter()
        .enumerate()
        .map(|(i, l)| if chain.contains(&i) { patched_line(l, n) } else { l.clone() })
        .collect();
    lines.extend(q2.iter().map(|l| moved_line(l, n, m)));
    let tc2m: Vec<usize> = tc2.iter().map(|x| x + n).collect();
    let fc2m: Vec<usize> = fc2.iter().map(|x| x + n).collect();
    if op == "and" {
        (lines, tc2m, [fc1, fc2m].concat())
    } else {
        (lines, [tc1, tc2m].concat(), fc2m)
    }
}

#[test]
fn and_of_two_groups_composes_their_translations() {
    for (s1, s2) in [
        ("a < b", "c > d"),
        ("a + b * c < d or not e == f", "(g - h) / i >= j and k != l"),
        ("true", "x * y < z or false"),
    ] {
        let expected = composed(s1, "and", s2);
        assert_eq!(bool_quads_and_attr(&format!("({s1}) and ({s2})")), expected);
    }
    let (lines, tc, fc) = bool_quads_and_attr("(a < b) and (c > d)");
    assert_eq!(lines, ["(j<, a, b, 2)", "(j, _, _, _)", "(j>, c, d, _)", "(j, _, _, _)"]);
    assert_eq!((tc, fc), (vec![2], vec![1, 3]));
}

#[test]
fn or_of_two_groups_composes_their_translations() {
    for (s1, s2) in [
        ("a < b", "c > d"),
        ("a + b * c < d and e == f", "not (g - h) / i >= j or k != l"),
        ("x * y < z", "true"),
    ] {
        let expected = composed(s1, "or", s2);
        assert_eq!(bool_quads_and_attr(&format!("({s1}) or ({s2})")), expected);
    }
}

fn run_assignment(src: &str, vars: &[(&str, i64)]) -> (String, i64) {
    let mut env: std::collections::HashMap<String, i64> =
        vars.iter().map(|(k, v)| (k.to_string(), *v)).collect();
    let mut target = String::new();
    for line in assign_quad_lines(src) {
        let f: Vec<&str> = line[1..line.len() - 1].split(", ").collect();
        let val = |env: &std::collections::HashMap<String, i64>, s: &str| {
            s.parse::<i64>().unwrap_or_else(|_| env[s])
        };
        let v = match f[0] {
            "+" => val(&env, f[1]) + val(&env, f[2]),
            "-" => val(&env, f[1]) - val(&env, f[2]),
            "*" => val(&env, f[1]) * val(&env, f[2]),
            "/" => val(&env, f[1]).div_euclid(val(&env, f[2])),
            "=" => val(&env, f[1]),
            other => panic!("unexpected operator {other}"),
        };
        env.insert(f[3].to_string(), v);
        target = f[3].to_string();
    }
    let v = env[&target];
    (target, v)
}

#[test]
fn assignment_code_computes_the_expression_with_precedence() {
    let vars = [("a", 7), ("b", 2), ("c", 3), ("d", 20), ("e", 8), ("g", 4)];
    assert_eq!(run_assignment("x = b + c * e / g", &vars), ("x".to_string(), 8));
    assert_eq!(run_assignment("x = (b + c) * e", &vars), ("x".to_string(), 40));
    assert_eq!(run_assignment("x = d - b - c", &vars), ("x".to_string(), 15));
    assert_eq!(run_assignment("x = d / b / c", &vars), ("x".to_string(), 3));
    assert_eq!(run_assignment("y = a * (d - e) / (b + g) - 1;", &vars), ("y".to_string(), 13));
    assert_eq!(run_assignment("a = a + 1", &vars), ("a".to_string(), 8));
}
