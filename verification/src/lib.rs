//! A small interpreter for integer arithmetic with `+ - * /`, parentheses and
//! a `print(..)` form that reports the value of its argument.
//!
//! Source text is cut into tokens ([`lexer`]), the tokens are read as an
//! expression tree ([`parser`]), and the tree is evaluated ([`eval`]);
//! [`interp`] does the three in a row. Every executable function is verified
//! against a mathematical description of its result, and [`notation`] proves
//! that text written by the usual rules of precedence is read as intended.

pub mod expr;
pub mod eval;
pub mod numeral;
pub mod lexer;
pub mod parser;
pub mod interp;
pub mod notation;

pub use crate::eval::{eval, EvalError};
pub use crate::expr::Expr;
pub use crate::interp::{interpret, parse, Failure};
pub use crate::lexer::{is_blank, tokenize};
pub use crate::numeral::parse_integer;
pub use crate::parser::{parse_add_sub, parse_expr, parse_mul_div, parse_primary, ParseError};
