//! The command-line modes as functions from argument text to output text:
//! `program`, `assign`, `bool` and `tokens`.
use vstd::prelude::*;
use crate::codegen::{bool_result_text, format_bool_result, format_quads, quads_listing};
use crate::error::{CompileError, CompileResult, ErrorView};
use crate::lexer::{format_tokens, kinds_text, offsets_fit, spec_tokenize, tokenize};
use crate::sd_parser::{parse_assignment, parse_bool, parse_program};
use crate::translation::{spec_parse_assignment, spec_parse_bool, spec_parse_program};

verus! {

/// `tokens` mode: the token kinds on one line.
pub open spec fn tokens_output(input: Seq<char>) -> Result<Seq<char>, ErrorView> {
    match spec_tokenize(input) {
        Err(e) => Err(e),
        Ok(ts) => Ok(kinds_text(ts) + "\n"@),
    }
}

/// `assign` mode: the quadruple listing of one assignment.
pub open spec fn assign_output(input: Seq<char>) -> Result<Seq<char>, ErrorView> {
    match spec_tokenize(input) {
        Err(e) => Err(e),
        Ok(ts) => match spec_parse_assignment(ts) {
            Err(e) => Err(e),
            Ok(cg) => Ok(quads_listing(cg.quads)),
        },
    }
}

/// `program` mode: the quadruple listing of a program.
pub open spec fn program_output(input: Seq<char>) -> Result<Seq<char>, ErrorView> {
    match spec_tokenize(input) {
        Err(e) => Err(e),
        Ok(ts) => match spec_parse_program(ts) {
            Err(e) => Err(e),
            Ok(cg) => Ok(quads_listing(cg.quads)),
        },
    }
}

/// `bool` mode: the quadruple listing and the true and false chains.
pub open spec fn bool_output(input: Seq<char>) -> Result<Seq<char>, ErrorView> {
    match spec_tokenize(input) {
        Err(e) => Err(e),
        Ok(ts) => match spec_parse_bool(ts) {
            Err(e) => Err(e),
            Ok((cg, attr)) => Ok(bool_result_text(cg.quads, attr)),
        },
    }
}

/// The usage text.
pub open spec fn usage_text() -> Seq<char> {
    "用法:\n  cargo run -- program \"a = b + c; x = a * d;\"\n  cargo run -- assign \"a = b + c * e / g\"\n  cargo run -- bool \"a < b\"\n  cargo run -- tokens \"a = b + c * e / g;\""@
}

/// The words joined by single spaces.
pub open spec fn joined_words(words: Seq<Seq<char>>) -> Seq<char>
    decreases words.len(),
{
    if words.len() == 0 {
        Seq::empty()
    } else if words.len() == 1 {
        words[0]
    } else {
        joined_words(words.drop_last()) + " "@ + words.last()
    }
}

/// The source text of a command line: every argument after the mode,
/// joined by spaces.
pub open spec fn cli_input(args: Seq<Seq<char>>) -> Seq<char> {
    joined_words(args.drop_first())
}

/// What a command line gives: the output of the mode named by the first
/// argument on the source text made of the others.
pub open spec fn cli_output(args: Seq<Seq<char>>) -> Result<Seq<char>, ErrorView> {
    if args.len() == 0 {
        Err(ErrorView::Cli { message: usage_text() })
    } else {
        let mode = args[0];
        let input = cli_input(args);
        if input.len() == 0 {
            Err(ErrorView::Cli { message: "错误: 缺少输入源码\n"@ + usage_text() })
        } else if mode == "program"@ {
            program_output(input)
        } else if mode == "assign"@ {
            assign_output(input)
        } else if mode == "bool"@ {
            bool_output(input)
        } else if mode == "tokens"@ {
            tokens_output(input)
        } else {
            Err(
                ErrorView::Cli {
                    message: "错误: 未知模式 `"@ + mode + "`\n"@ + usage_text(),
                },
            )
        }
    }
}

/// The views of a sequence of strings.
pub open spec fn string_views(ss: Seq<String>) -> Seq<Seq<char>> {
    ss.map_values(|s: String| s@)
}

/// The token kinds of `input`, on one line.
pub fn render_tokens(input: &str) -> (r: CompileResult<String>)
    requires
        offsets_fit(input@),
    ensures
        match tokens_output(input@) {
            Ok(s) => r matches Ok(x) && x@ == s,
            Err(e) => r matches Err(x) && x@ == e,
        },
{
    let tokens = tokenize(input)?;
    let mut out = format_tokens(tokens.as_slice());
    out.append("\n");
    Ok(out)
}

/// The quadruples of one assignment.
pub fn render_assign(input: &str) -> (r: CompileResult<String>)
    requires
        offsets_fit(input@),
    ensures
        match assign_output(input@) {
            Ok(s) => r matches Ok(x) && x@ == s,
            Err(e) => r matches Err(x) && x@ == e,
        },
{
    let tokens = tokenize(input)?;
    let codegen = parse_assignment(tokens.as_slice())?;
    Ok(format_quads(&codegen))
}

/// The quadruples of a program.
pub fn render_program(input: &str) -> (r: CompileResult<String>)
    requires
        offsets_fit(input@),
    ensures
        match program_output(input@) {
            Ok(s) => r matches Ok(x) && x@ == s,
            Err(e) => r matches Err(x) && x@ == e,
        },
{
    let tokens = tokenize(input)?;
    let codegen = parse_program(tokens.as_slice())?;
    Ok(format_quads(&codegen))
}

/// The quadruples and the true and false chains of a boolean expression.
pub fn render_bool(input: &str) -> (r: CompileResult<String>)
    requires
        offsets_fit(input@),
    ensures
        match bool_output(input@) {
            Ok(s) => r matches Ok(x) && x@ == s,
            Err(e) => r matches Err(x) && x@ == e,
        },
{
    let tokens = tokenize(input)?;
    let output = parse_bool(tokens.as_slice())?;
    Ok(format_bool_result(&output.codegen, &output.attr))
}

/// How to call the program.
pub fn usage() -> (s: String)
    ensures
        s@ == usage_text(),
{
    String::from_str(
        "用法:\n  cargo run -- program \"a = b + c; x = a * d;\"\n  cargo run -- assign \"a = b + c * e / g\"\n  cargo run -- bool \"a < b\"\n  cargo run -- tokens \"a = b + c * e / g;\"",
    )
}

/// Runs one command line: `args[0]` names the mode, the other arguments,
/// joined by spaces, are the source text.
pub fn run_cli(args: &[String]) -> (r: CompileResult<String>)
    requires
        offsets_fit(cli_input(string_views(args@))),
    ensures
        match cli_output(string_views(args@)) {
            Ok(s) => r matches Ok(x) && x@ == s,
            Err(e) => r matches Err(x) && x@ == e,
        },
{
    let ghost words = string_views(args@);
    if args.len() == 0 {
        return Err(CompileError::cli(usage()));
    }
    let mode = &args[0];
    let mut input = String::new();
    let n = args.len();
    let mut i: usize = 1;
    assert(words.drop_first().take(0) =~= Seq::<Seq<char>>::empty());
    while i < n
        invariant
            n == args@.len(),
            1 <= i <= n,
            words == string_views(args@),
            input@ == joined_words(words.drop_first().take(i - 1)),
        decreases n - i,
    {
        if i > 1 {
            input.append(" ");
        }
        input.append(args[i].as_str());
        proof {
            let t = words.drop_first().take(i as int);
            assert(t.drop_last() =~= words.drop_first().take(i - 1));
            assert(t.last() == args@[i as int]@);
            if i == 1 {
                assert(input@ =~= joined_words(t));
            }
        }
        i = i + 1;
    }
    assert(words.drop_first().take(n - 1) =~= words.drop_first());
    if input.as_str().is_empty() {
        let mut message = String::from_str("错误: 缺少输入源码\n");
        message.append(usage().as_str());
        return Err(CompileError::cli(message));
    }
    if *mode == String::from_str("program") {
        render_program(input.as_str())
    } else if *mode == String::from_str("assign") {
        render_assign(input.as_str())
    } else if *mode == String::from_str("bool") {
        render_bool(input.as_str())
    } else if *mode == String::from_str("tokens") {
        render_tokens(input.as_str())
    } else {
        let mut message = String::from_str("错误: 未知模式 `");
        message.append(mode.as_str());
        message.append("`\n");
        message.append(usage().as_str());
        Err(CompileError::cli(message))
    }
}

} // verus!
