use simple_parser_ll1::cli::{
    render_assign, render_bool, render_program, render_tokens, run_cli, usage,
};
use simple_parser_ll1::error::CompileError;

#[test]
fn test_render_program_mode() {
    assert_eq!(
        render_program("a = b + c; x = a * d;").unwrap(),
        "Quadruples:\n0: (+, b, c, t1)\n1: (=, t1, _, a)\n2: (*, a, d, t2)\n3: (=, t2, _, x)\n"
    );
}

#[test]
fn test_render_assign_mode() {
    assert_eq!(
        render_assign("a = b + c * e / g").unwrap(),
        "Quadruples:\n0: (*, c, e, t1)\n1: (/, t1, g, t2)\n2: (+, b, t2, t3)\n3: (=, t3, _, a)\n"
    );
}

#[test]
fn test_render_bool_mode() {
    assert_eq!(
        render_bool("a < b").unwrap(),
        "Quadruples:\n0: (j<, a, b, _)\n1: (j, _, _, _)\n\nTC = [0]\nFC = [1]\n"
    );
}

#[test]
fn test_render_tokens_mode() {
    assert_eq!(render_tokens("a = b + c;").unwrap(), "id = id + id ; #\n");
}

#[test]
fn test_run_cli_dispatches_program() {
    let output = run_cli(&[
        "program".to_string(),
        "if (a < b) { x = y + z; }".to_string(),
    ])
    .unwrap();

    assert!(output.contains("0: (j<, a, b, 2)"));
    assert!(output.contains("3: (=, t1, _, x)"));
}

#[test]
fn test_run_cli_reports_missing_input() {
    let err = run_cli(&["program".to_string()]).unwrap_err();

    assert!(err.to_string().contains("缺少输入源码"));
    assert!(err.to_string().contains("cargo run -- program"));
}

#[test]
fn test_run_cli_reports_unknown_mode() {
    let err = run_cli(&["expr".to_string(), "a = b;".to_string()]).unwrap_err();

    assert!(err.to_string().contains("未知模式 `expr`"));
    assert!(err.to_string().contains("cargo run -- program"));
}

#[test]
fn run_cli_without_arguments_prints_usage() {
    let err = run_cli(&[]).unwrap_err();
    assert_eq!(err, CompileError::Cli { message: usage() });
    assert!(usage().starts_with("用法:\n"));
    assert_eq!(usage().lines().count(), 5);
}

#[test]
fn run_cli_joins_arguments_with_spaces() {
    let output = run_cli(&[
        "assign".to_string(),
        "a".to_string(),
        "=".to_string(),
        "b".to_string(),
    ])
    .unwrap();
    assert_eq!(output, "Quadruples:\n0: (=, b, _, a)\n");
    let output = run_cli(&["tokens".to_string(), "x".to_string(), "y;".to_string()]).unwrap();
    assert_eq!(output, "id id ; #\n");
    let output = run_cli(&["bool".to_string(), "true".to_string()]).unwrap();
    assert_eq!(output, "Quadruples:\n0: (j, _, _, _)\n\nTC = [0]\nFC = []\n");
}

#[test]
fn run_cli_empty_source_is_missing_input() {
    let err = run_cli(&["tokens".to_string(), String::new()]).unwrap_err();
    assert!(err.to_string().starts_with("错误: 缺少输入源码\n用法:"));
}

#[test]
fn error_rendering() {
    assert_eq!(
        CompileError::Lex {
            offset: 3,
            message: "m".into()
        }
        .to_string(),
        "词法错误 (offset 3): m"
    );
    assert_eq!(
        CompileError::codegen("x".to_string()).to_string(),
        "回填错误: x"
    );
    assert_eq!(
        CompileError::parse(10, "p".to_string()),
        CompileError::Parse {
            offset: Some(10),
            message: "p".into()
        }
    );
    assert_eq!(
        CompileError::lex(1, "q".to_string()),
        CompileError::Lex {
            offset: 1,
            message: "q".into()
        }
    );
    assert_eq!(
        CompileError::parse_without_offset("r".to_string()).to_string(),
        "语法制导翻译错误: r"
    );
    assert_eq!(CompileError::cli("c".to_string()).to_string(), "c");
}

#[test]
fn lexical_errors_pass_through_every_mode() {
    let expected = CompileError::Lex {
        offset: 2,
        message: "非法字符 '$'".into(),
    };
    assert_eq!(render_program("a $").unwrap_err(), expected);
    assert_eq!(render_assign("a $").unwrap_err(), expected);
    assert_eq!(render_bool("a $").unwrap_err(), expected);
    assert_eq!(render_tokens("a $").unwrap_err(), expected);
}
