//! From source text to a result: tokens, tree, value.

use vstd::prelude::*;
use crate::eval::{eval, fault, printed, value, EvalError};
use crate::expr::Expr;
use crate::lexer::{texts, tokenize, tokens};
use crate::parser::{expression, parse_expr, ParseError};

verus! {

/// Why a source text has no result.
#[derive(Debug, Clone, Copy, PartialEq, Eq)]
pub enum Failure {
    /// The text is not an expression.
    Parse(ParseError),
    /// The expression has no value.
    Eval(EvalError),
}

/// The expression that `text` writes: all of its tokens have to belong to it.
pub open spec fn parsed(text: Seq<char>) -> Result<Expr, ParseError> {
    match expression(tokens(text)) {
        Ok((e, n)) => if n == tokens(text).len() {
            Ok(e)
        } else {
            Err(ParseError::TrailingTokens)
        },
        Err(err) => Err(err),
    }
}

/// The result of evaluating `e`.
pub open spec fn evaluated(e: Expr) -> Result<i64, Failure> {
    match fault(e) {
        Some(err) => Err(Failure::Eval(err)),
        None => Ok(value(e) as i64),
    }
}

/// The result of `text`: that of the expression it writes.
pub open spec fn result(text: Seq<char>) -> Result<i64, Failure> {
    match parsed(text) {
        Ok(e) => evaluated(e),
        Err(err) => Err(Failure::Parse(err)),
    }
}

/// The values that `text` reports while it is evaluated, in order. A text
/// that is not an expression reports nothing.
pub open spec fn output(text: Seq<char>) -> Seq<i64> {
    match parsed(text) {
        Ok(e) => printed(e),
        Err(_) => Seq::empty(),
    }
}

/// Reads `input` as one expression.
pub fn parse(input: &str) -> (r: Result<Expr, ParseError>)
    ensures
        r == parsed(input@),
{
    let mut tokens = tokenize(input);
    match parse_expr(&mut tokens) {
        Ok(e) => if tokens.len() == 0 {
            Ok(e)
        } else {
            Err(ParseError::TrailingTokens)
        },
        Err(err) => Err(err),
    }
}

/// Evaluates the expression that `input` writes, appending to `out` each
/// value that it reports on the way. Nothing is evaluated, and nothing
/// reported, unless the whole of `input` is one expression.
pub fn interpret(input: &str, out: &mut Vec<i64>) -> (r: Result<i64, Failure>)
    ensures
        r == result(input@),
        final(out)@ == old(out)@ + output(input@),
{
    match parse(input) {
        Ok(e) => match eval(&e, out) {
            Ok(v) => Ok(v),
            Err(err) => Err(Failure::Eval(err)),
        },
        Err(err) => {
            assert(out@ + Seq::<i64>::empty() =~= out@);
            Err(Failure::Parse(err))
        },
    }
}

} // verus!
