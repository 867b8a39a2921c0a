//! Front end for the small "Simple" language: a lexer, a recursive-descent
//! translator that emits quadruples with backpatched jumps, the quadruple
//! printer, a recursive-descent parser that builds parse trees, and the
//! LL(1) analysis of the Simple grammars: FIRST and FOLLOW sets, the
//! predictive parse table, and a table-driven parser.
pub mod text;
pub mod symbol;
pub mod error;
pub mod codegen;
pub mod lexer;
pub mod translation;
pub mod sd_parser;
pub mod cli;
pub mod chains;
pub mod syntax_tree;
pub mod rd_rules;
pub mod rd_parser;
pub mod rd_bounds;
pub mod rd_yield;
pub mod grammar;
pub mod sets;
pub mod first_follow;
pub mod parser;
pub mod listing;
pub mod ll1_yield;
pub mod ll1_halts;
pub mod short_circuit;
pub mod ll1_shape;
pub mod assignment_end;
pub mod paren_balance;
pub mod shifted_input;
pub mod code_shift;
pub mod composition;
pub mod evaluation;
pub mod jump_laws;
pub mod word_tokens;
pub mod rd_precedence;
