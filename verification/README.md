# simple_parser_ll1

A small compiler front end for the "Simple" teaching language, written in
Verus: a lexer, a syntax-directed translator that turns assignments,
blocks, `if`/`if-else`/`while` statements and short-circuit boolean
expressions into quadruples with backpatched jumps, a recursive-descent
parser that builds a parse tree, and the LL(1) analysis of the Simple
grammars (nullable nonterminals, FIRST and FOLLOW sets, the predictive parse
table and a table-driven parser). Every function of the library carries a
contract that Verus proves.

## Layout

- `src/text.rs`: decimal rendering, UTF-8 widths, list rendering.
- `src/symbol.rs`: the terminal symbols (token kinds) and how they print.
- `src/error.rs`: lexical, syntax, backpatching and command-line errors.
- `src/lexer.rs`: source text to tokens (`tokenize`), ended by `#`, with the
  byte offset of every token.
- `src/codegen.rs`: quadruples, temporaries, chains and backpatching.
- `src/translation.rs`: the translation scheme as spec functions.
- `src/sd_parser.rs`: the translator (`parse_program`, `parse_assignment`,
  `parse_bool`), proved to compute the scheme.
- `src/chains.rs`: what the true and false chains hold, and that statements
  leave no jump without a target.
- `src/short_circuit.rs`: what the jump code of a boolean expression decides:
  run from its first quadruple, it leaves by the true chain exactly when the
  expression holds, whatever the comparisons give.
- `src/assignment_end.rs`: an assignment reads only as far as it goes, so its
  closing `;` is optional.
- `src/shifted_input.rs`: tokens in front of a phrase change only where it is
  read: `not not B` translates as `B`, `not` before a single term or before
  `( B )` exchanges its chains, and `{ S }` translates as `S`.
- `src/paren_balance.rs`: every phrase a translation step reads has
  balanced parentheses.
- `src/code_shift.rs`, `src/composition.rs`: code translated after other code
  is the same code moved; so `( B1 ) and ( B2 )` and `( B1 ) or ( B2 )`
  translate as the documented composition of `B1`'s and `B2`'s code.
- `src/evaluation.rs`: run over a store, an assignment's quadruples set the
  target to the value of the expression read with the usual precedence.
- `src/syntax_tree.rs`, `src/rd_rules.rs`, `src/rd_parser.rs`: parse trees,
  the recursive-descent rules as spec functions, and the parser.
- `src/rd_bounds.rs`, `src/rd_yield.rs`: the parser never reads past `#`, and
  the leaves of its tree spell the tokens it read.
- `src/grammar.rs`, `src/sets.rs`: the two Simple grammars (`Grammar::original`,
  left-recursive, and its LL(1) rewrite), nullable nonterminals, and fixed-size
  sets of nonterminals and of terminals.
- `src/first_follow.rs`: FIRST and FOLLOW sets as least solutions of their
  constraints, and the parse table with its first conflict.
- `src/listing.rs`: the printed listings of the sets (sorted by text) and of
  the table.
- `src/parser.rs`: the table-driven predictive parser and its tree printout.
- `src/ll1_yield.rs`, `src/ll1_shape.rs`: the predictive parser's tree is a
  parse tree of the grammar, and its leaves spell the tokens it read.
- `src/ll1_halts.rs`: without a conflict in the table, the predictive parser
  stops on every input.
- `src/cli.rs`: the command-line modes, as functions from arguments to output.
- `app/main.rs`: the program: reads the arguments, prints the result.

## Usage

```text
simple_parser_ll1 program "if (a < b) { x = y + z; } else { x = y - z; }"
simple_parser_ll1 assign "a = b + c * e / g"
simple_parser_ll1 bool "a < b or c > d and e != f"
simple_parser_ll1 tokens "a = b + c;"
```
