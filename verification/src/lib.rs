//! A small formula language: variables, the four basic operators, powers,
//! brackets, an optional assignment and a summation `Σ`.
//!
//! A text is parsed into a parse tree ([`Grammar::parse`]), the tree is
//! folded into an expression ([`parse_expr`]; [`parse_formula`] does both),
//! and the expression is evaluated under a table of variables ([`eval`]).
//!
//! - [`grammar`] states the grammar as functions on bytes.
//! - [`parser`] builds the tree that the grammar gives a text.
//! - [`ast`] holds the expressions and the fold from trees to them.
//! - [`shape`] says what trees and expressions the grammar can give.
//! - [`context`] and [`compose`] hold the laws of the grammar: what blanks
//!   and brackets around a text change (nothing), and what a text stands
//!   for that is put together from smaller ones.
//! - [`eval`] evaluates; [`number`] converts between numbers and integers.
//!
//! Numbers are IEEE 754 binary64 bit patterns in a `u64`. The library is
//! free of floating-point code: the caller hands `eval` the reading of a
//! decimal literal and the five arithmetic operations.

pub mod ast;
pub mod compose;
pub mod context;
pub mod eval;
pub mod grammar;
pub mod number;
pub mod parser;
pub mod shape;

pub use crate::ast::{parse_expr, parse_formula, Expr, Op};
pub use crate::eval::{eval, Bindings};
pub use crate::grammar::Rule;
pub use crate::parser::{Grammar, Pair, SyntaxError};
