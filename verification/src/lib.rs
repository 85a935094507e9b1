//! A lambda calculus interpreter: token lexing, recursive-descent parsing,
//! and a syntax-tree walking evaluator, each verified against a mathematical
//! model of its behaviour.
//!
//! The grammar, in Backus-Naur form:
//!
//! ```text
//! term ::= appl
//!        | LAMBDA BIND DOT term
//!
//! appl ::= appl atom
//!        | atom
//!
//! atom ::= LPAREN term RPAREN
//!        | BIND
//! ```
//!
//! where the atoms are 'LAMBDA', 'BIND', 'DOT', 'LPAREN', and 'RPAREN'.

pub mod interpreter;
pub mod lexer;
pub mod parser;
pub mod round_trip;
pub mod term;
pub mod token;
