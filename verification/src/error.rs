//! The error type shared by the lexer, the translator and the command line.
use vstd::prelude::*;
use crate::text::{decimal, push_decimal};

verus! {

/// Result of a compilation step.
pub type CompileResult<T> = Result<T, CompileError>;

/// Lexical, syntax, backpatching and command-line errors.
#[allow(inconsistent_fields)]
#[derive(Clone, Debug, PartialEq, Eq)]
pub enum CompileError {
    Lex { offset: usize, message: String },
    Parse { offset: Option<usize>, message: String },
    Codegen { message: String },
    Cli { message: String },
}

/// The mathematical value of a `CompileError`: its messages as character sequences.
#[allow(inconsistent_fields)]
pub enum ErrorView {
    Lex { offset: usize, message: Seq<char> },
    Parse { offset: Option<usize>, message: Seq<char> },
    Codegen { message: Seq<char> },
    Cli { message: Seq<char> },
}

impl View for CompileError {
    type V = ErrorView;

    open spec fn view(&self) -> ErrorView {
        match self {
            CompileError::Lex { offset, message } => ErrorView::Lex {
                offset: *offset,
                message: message@,
            },
            CompileError::Parse { offset, message } => ErrorView::Parse {
                offset: *offset,
                message: message@,
            },
            CompileError::Codegen { message } => ErrorView::Codegen { message: message@ },
            CompileError::Cli { message } => ErrorView::Cli { message: message@ },
        }
    }
}

/// How an error is printed.
pub open spec fn error_text(e: ErrorView) -> Seq<char> {
    match e {
        ErrorView::Lex { offset, message } => "词法错误 (offset "@ + decimal(offset as nat)
            + "): "@ + message,
        ErrorView::Parse { offset, message } => match offset {
            Some(o) => "语法制导翻译错误: "@ + message + " (offset "@ + decimal(o as nat)
                + ")"@,
            None => "语法制导翻译错误: "@ + message,
        },
        ErrorView::Codegen { message } => "回填错误: "@ + message,
        ErrorView::Cli { message } => message,
    }
}

impl CompileError {
    /// A lexical error at byte `offset`.
    pub fn lex(offset: usize, message: String) -> (e: Self)
        ensures
            e@ == (ErrorView::Lex { offset, message: message@ }),
    {
        CompileError::Lex { offset, message }
    }

    /// A syntax error at byte `offset`.
    pub fn parse(offset: usize, message: String) -> (e: Self)
        ensures
            e@ == (ErrorView::Parse { offset: Some(offset), message: message@ }),
    {
        CompileError::Parse { offset: Some(offset), message }
    }

    /// A syntax error with no position.
    pub fn parse_without_offset(message: String) -> (e: Self)
        ensures
            e@ == (ErrorView::Parse { offset: None, message: message@ }),
    {
        CompileError::Parse { offset: None, message }
    }

    /// A backpatching error.
    pub fn codegen(message: String) -> (e: Self)
        ensures
            e@ == (ErrorView::Codegen { message: message@ }),
    {
        CompileError::Codegen { message }
    }

    /// A command-line error.
    pub fn cli(message: String) -> (e: Self)
        ensures
            e@ == (ErrorView::Cli { message: message@ }),
    {
        CompileError::Cli { message }
    }

    /// The printed form of the error.
    pub fn to_string(&self) -> (s: String)
        ensures
            s@ == error_text(self@),
    {
        match self {
            CompileError::Lex { offset, message } => {
                let mut out = String::from_str("词法错误 (offset ");
                push_decimal(&mut out, *offset);
                out.append("): ");
                out.append(message.as_str());
                out
            },
            CompileError::Parse { offset, message } => {
                let mut out = String::from_str("语法制导翻译错误: ");
                out.append(message.as_str());
                match offset {
                    Some(o) => {
                        out.append(" (offset ");
                        push_decimal(&mut out, *o);
                        out.append(")");
                    },
                    None => {},
                }
                out
            },
            CompileError::Codegen { message } => {
                let mut out = String::from_str("回填错误: ");
                out.append(message.as_str());
                out
            },
            CompileError::Cli { message } => message.clone(),
        }
    }
}

} // verus!
