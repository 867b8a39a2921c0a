use simple_parser_ll1::error::CompileError;
use simple_parser_ll1::lexer::{format_tokens, tokenize, Token};
use simple_parser_ll1::symbol::Terminal;

fn kinds(input: &str) -> Vec<Terminal> {
    tokenize(input).unwrap().iter().map(|t| t.kind).collect()
}

#[test]
fn test_simple_assignment() {
    let tokens = tokenize("let x = 1;").unwrap();
    let kinds: Vec<Terminal> = tokens.iter().map(|t| t.kind).collect();
    assert_eq!(
        kinds,
        vec![
            Terminal::Let,
            Terminal::Id,
            Terminal::Assign,
            Terminal::Num,
            Terminal::Semicolon,
            Terminal::End
        ]
    );
}

#[test]
fn test_arithmetic() {
    let tokens = tokenize("x = 1 - 2 / 3;").unwrap();
    let kinds: Vec<Terminal> = tokens.iter().map(|t| t.kind).collect();
    assert_eq!(
        kinds,
        vec![
            Terminal::Id,
            Terminal::Assign,
            Terminal::Num,
            Terminal::Minus,
            Terminal::Num,
            Terminal::Slash,
            Terminal::Num,
            Terminal::Semicolon,
            Terminal::End,
        ]
    );
}

#[test]
fn test_if_else() {
    let tokens =
        tokenize("if ( x < 1 or false ) { let y = 1; } else if ( x == 2 ) { let z; }").unwrap();
    let kinds: Vec<Terminal> = tokens.iter().map(|t| t.kind).collect();
    assert_eq!(
        kinds,
        vec![
            Terminal::If,
            Terminal::LParen,
            Terminal::Id,
            Terminal::Lt,
            Terminal::Num,
            Terminal::Or,
            Terminal::False,
            Terminal::RParen,
            Terminal::LBrace,
            Terminal::Let,
            Terminal::Id,
            Terminal::Assign,
            Terminal::Num,
            Terminal::Semicolon,
            Terminal::RBrace,
            Terminal::Else,
            Terminal::If,
            Terminal::LParen,
            Terminal::Id,
            Terminal::Eq,
            Terminal::Num,
            Terminal::RParen,
            Terminal::LBrace,
            Terminal::Let,
            Terminal::Id,
            Terminal::Semicolon,
            Terminal::RBrace,
            Terminal::End,
        ]
    );
}

#[test]
fn test_keywords() {
    let tokens = tokenize("let if else while true false and or not").unwrap();
    let kinds: Vec<Terminal> = tokens.iter().map(|t| t.kind).collect();
    assert_eq!(
        kinds,
        vec![
            Terminal::Let,
            Terminal::If,
            Terminal::Else,
            Terminal::While,
            Terminal::True,
            Terminal::False,
            Terminal::And,
            Terminal::Or,
            Terminal::Not,
            Terminal::End,
        ]
    );
}

#[test]
fn test_while() {
    let tokens = tokenize("while ( x < 10 ) { x = x - 1; }").unwrap();
    let kinds: Vec<Terminal> = tokens.iter().map(|t| t.kind).collect();
    assert_eq!(
        kinds,
        vec![
            Terminal::While,
            Terminal::LParen,
            Terminal::Id,
            Terminal::Lt,
            Terminal::Num,
            Terminal::RParen,
            Terminal::LBrace,
            Terminal::Id,
            Terminal::Assign,
            Terminal::Id,
            Terminal::Minus,
            Terminal::Num,
            Terminal::Semicolon,
            Terminal::RBrace,
            Terminal::End,
        ]
    );
}

#[test]
fn test_comments() {
    let tokens = tokenize(
        "let x = 1; // line comment\n/* block\ncomment */ while ( x > 0 ) { x = x - 1; }",
    )
    .unwrap();
    let kinds: Vec<Terminal> = tokens.iter().map(|t| t.kind).collect();
    assert_eq!(
        kinds,
        vec![
            Terminal::Let,
            Terminal::Id,
            Terminal::Assign,
            Terminal::Num,
            Terminal::Semicolon,
            Terminal::While,
            Terminal::LParen,
            Terminal::Id,
            Terminal::Gt,
            Terminal::Num,
            Terminal::RParen,
            Terminal::LBrace,
            Terminal::Id,
            Terminal::Assign,
            Terminal::Id,
            Terminal::Minus,
            Terminal::Num,
            Terminal::Semicolon,
            Terminal::RBrace,
            Terminal::End,
        ]
    );
}

#[test]
fn test_format() {
    let tokens = tokenize("let x = 1 >= 2;").unwrap();
    assert_eq!(format_tokens(&tokens), "let id = num >= num ; #");
}

#[test]
fn test_bool_ops_and_empty_block() {
    let tokens = tokenize("if ( not false and x >= 1 ) { }").unwrap();
    let kinds: Vec<Terminal> = tokens.iter().map(|t| t.kind).collect();
    assert_eq!(
        kinds,
        vec![
            Terminal::If,
            Terminal::LParen,
            Terminal::Not,
            Terminal::False,
            Terminal::And,
            Terminal::Id,
            Terminal::Ge,
            Terminal::Num,
            Terminal::RParen,
            Terminal::LBrace,
            Terminal::RBrace,
            Terminal::End,
        ]
    );
}

#[test]
fn test_unclosed_block_comment_error() {
    let err = tokenize("let x = 1; /* unclosed").expect_err("tokenize should fail");

    assert_eq!(
        err,
        CompileError::Lex {
            offset: 11,
            message: "多行注释未闭合".into(),
        }
    );
}

#[test]
fn test_illegal_character_error() {
    let err = tokenize("let x = @;").expect_err("tokenize should fail");

    assert_eq!(
        err,
        CompileError::Lex {
            offset: 8,
            message: "非法字符 '@'".into(),
        }
    );
}

#[test]
fn test_bare_exclamation_error() {
    let err = tokenize("if ( !x ) { }").expect_err("tokenize should fail");
    assert!(err.to_string().contains("单独的 '!' 不合法"));
}

#[test]
fn empty_source_gives_only_end_marker() {
    let tokens = tokenize("").unwrap();
    assert_eq!(tokens.len(), 1);
    assert_eq!(tokens[0].kind, Terminal::End);
    assert_eq!(tokens[0].lexeme, "#");
    assert_eq!(tokens[0].offset, 0);
}

#[test]
fn offsets_are_byte_offsets() {
    // the comment holds a three-byte character
    let tokens = tokenize("a /* 中 */ b").unwrap();
    let offsets: Vec<usize> = tokens.iter().map(|t| t.offset).collect();
    assert_eq!(offsets, vec![0, 12, 13]);
    assert_eq!(tokens[1].lexeme, "b");
}

#[test]
fn lexemes_and_two_char_operators() {
    let tokens = tokenize("_x1<=42!=y==z>w<v").unwrap();
    let lexemes: Vec<&str> = tokens.iter().map(|t| t.lexeme.as_str()).collect();
    assert_eq!(
        lexemes,
        vec!["_x1", "<=", "42", "!=", "y", "==", "z", ">", "w", "<", "v", "#"]
    );
    assert_eq!(
        kinds("( ) { } ; + - * /"),
        vec![
            Terminal::LParen,
            Terminal::RParen,
            Terminal::LBrace,
            Terminal::RBrace,
            Terminal::Semicolon,
            Terminal::Plus,
            Terminal::Minus,
            Terminal::Star,
            Terminal::Slash,
            Terminal::End,
        ]
    );
}

#[test]
fn keyword_prefixes_are_identifiers() {
    assert_eq!(
        kinds("lets iff notx While"),
        vec![Terminal::Id, Terminal::Id, Terminal::Id, Terminal::Id, Terminal::End]
    );
}

#[test]
fn number_followed_by_letter_is_rejected() {
    let err = tokenize("x = 123abc;").unwrap_err();
    assert_eq!(
        err,
        CompileError::Lex {
            offset: 7,
            message: "数字后面不能紧跟字母 'a'".into(),
        }
    );
}

#[test]
fn line_comment_at_end_of_input() {
    let tokens = tokenize("x // no newline").unwrap();
    assert_eq!(tokens.len(), 2);
    assert_eq!(tokens[1].kind, Terminal::End);
    assert_eq!(tokens[1].offset, 15);
}

#[test]
fn slash_star_slash_is_not_closed() {
    let err = tokenize("/*/").unwrap_err();
    assert_eq!(
        err,
        CompileError::Lex {
            offset: 0,
            message: "多行注释未闭合".into(),
        }
    );
    assert_eq!(kinds("/**/ x"), vec![Terminal::Id, Terminal::End]);
}

#[test]
fn end_marker_offset_counts_utf8_bytes() {
    let tokens = tokenize("x // é\n").unwrap();
    assert_eq!(tokens.last().unwrap().offset, "x // é\n".len());
}

#[test]
fn token_clone_is_equal() {
    let token = Token {
        kind: Terminal::Num,
        lexeme: "7".into(),
        offset: 3,
    };
    assert_eq!(token.clone(), token);
}

#[test]
fn terminal_printing() {
    assert_eq!(Terminal::LBrace.to_string(), "{");
    assert_eq!(Terminal::End.to_string(), "#");
    assert_eq!(Terminal::Num.as_text(), "num");
}

#[test]
fn every_lexeme_sits_at_its_offset() {
    let src = "/* 注释 */ if (x1 >= 10 and not y != 2) { z = x1 / 3; } // 尾注\n";
    let tokens = tokenize(src).unwrap();
    let (last, rest) = tokens.split_last().unwrap();
    assert_eq!(last.kind, Terminal::End);
    assert_eq!(last.offset, src.len());
    assert_eq!(rest.len(), 19);
    for t in rest {
        assert_eq!(&src[t.offset..t.offset + t.lexeme.len()], t.lexeme);
    }
}

#[test]
fn tabs_carriage_returns_and_unicode_spaces_separate_tokens() {
    assert_eq!(
        kinds("a\t=\r\nb\u{3000}+\u{2003}c"),
        vec![Terminal::Id, Terminal::Assign, Terminal::Id, Terminal::Plus, Terminal::Id, Terminal::End]
    );
}
