//! Evaluation of expression trees.
//!
//! Arithmetic is exact: a result that does not fit in an `i64` is an error,
//! never a wrapped or clamped number. Operands are evaluated left before
//! right, and evaluation stops at the first error.

use vstd::prelude::*;
use vstd::arithmetic::div_mod::{lemma_fundamental_div_mod, lemma_mod_bound};
use crate::expr::Expr;

verus! {

/// Why an expression has no value.
#[derive(Debug, Clone, Copy, PartialEq, Eq)]
pub enum EvalError {
    /// The right operand of a division is zero.
    DivisionByZero,
    /// The result of an operation lies outside the range of `i64`.
    Overflow,
}

/// Whether `v` can be held in an `i64`.
pub open spec fn fits(v: int) -> bool {
    i64::MIN <= v <= i64::MAX
}

/// The magnitude of `v`.
pub open spec fn magnitude(v: int) -> int {
    if v < 0 {
        -v
    } else {
        v
    }
}

/// The quotient of `a` by `b` rounded toward zero: the quotient of the
/// magnitudes, negative when the signs differ. Meaningful for `b != 0`.
pub open spec fn quotient(a: int, b: int) -> int {
    let q = magnitude(a) / magnitude(b);
    if (a < 0) != (b < 0) {
        -q
    } else {
        q
    }
}

/// The number that `e` denotes over the unbounded integers. It is the result
/// of evaluating `e` whenever `fault(e)` is `None`.
pub open spec fn value(e: Expr) -> int
    decreases e,
{
    match e {
        Expr::Num(n) => n as int,
        Expr::Add(a, b) => value(*a) + value(*b),
        Expr::Sub(a, b) => value(*a) - value(*b),
        Expr::Mul(a, b) => value(*a) * value(*b),
        Expr::Div(a, b) => quotient(value(*a), value(*b)),
        Expr::Print(a) => value(*a),
    }
}

/// The error that stops the evaluation of `e`, if there is one: the first to
/// occur when operands are evaluated left before right and an operation is
/// carried out after both its operands.
pub open spec fn fault(e: Expr) -> Option<EvalError>
    decreases e,
{
    match e {
        Expr::Num(_) => None,
        Expr::Print(a) => fault(*a),
        Expr::Add(a, b) | Expr::Sub(a, b) | Expr::Mul(a, b) => if fault(*a) is Some {
            fault(*a)
        } else if fault(*b) is Some {
            fault(*b)
        } else if !fits(value(e)) {
            Some(EvalError::Overflow)
        } else {
            None
        },
        Expr::Div(a, b) => if fault(*a) is Some {
            fault(*a)
        } else if fault(*b) is Some {
            fault(*b)
        } else if value(*b) == 0 {
            Some(EvalError::DivisionByZero)
        } else if !fits(value(e)) {
            Some(EvalError::Overflow)
        } else {
            None
        },
    }
}

/// The values reported while `e` is evaluated, in the order in which they are
/// reported: a `Print` node reports after its operand has been evaluated, and
/// nothing is reported once an error has occurred.
pub open spec fn printed(e: Expr) -> Seq<i64>
    decreases e,
{
    match e {
        Expr::Num(_) => Seq::empty(),
        Expr::Print(a) => if fault(*a) is Some {
            printed(*a)
        } else {
            printed(*a).push(value(*a) as i64)
        },
        Expr::Add(a, b) | Expr::Sub(a, b) | Expr::Mul(a, b) | Expr::Div(a, b) => if fault(*a)
            is Some {
            printed(*a)
        } else {
            printed(*a) + printed(*b)
        },
    }
}

/// Evaluates `expr`, appending to `out` each value that a `Print` node
/// reports. On an error `out` holds what was reported before it.
pub fn eval(expr: &Expr, out: &mut Vec<i64>) -> (r: Result<i64, EvalError>)
    ensures
        final(out)@ == old(out)@ + printed(*expr),
        match fault(*expr) {
            Some(err) => r == Err::<i64, EvalError>(err),
            None => fits(value(*expr)) && r == Ok::<i64, EvalError>(value(*expr) as i64),
        },
    decreases *expr,
{
    match expr {
        Expr::Num(n) => Ok(*n),
        Expr::Print(a) => {
            let v = eval(a, out)?;
            out.push(v);
            Ok(v)
        },
        Expr::Add(a, b) => {
            let x = eval(a, out)?;
            let y = eval(b, out)?;
            match x.checked_add(y) {
                Some(v) => Ok(v),
                None => Err(EvalError::Overflow),
            }
        },
        Expr::Sub(a, b) => {
            let x = eval(a, out)?;
            let y = eval(b, out)?;
            match x.checked_sub(y) {
                Some(v) => Ok(v),
                None => Err(EvalError::Overflow),
            }
        },
        Expr::Mul(a, b) => {
            let x = eval(a, out)?;
            let y = eval(b, out)?;
            match x.checked_mul(y) {
                Some(v) => Ok(v),
                None => Err(EvalError::Overflow),
            }
        },
        Expr::Div(a, b) => {
            let x = eval(a, out)?;
            let y = eval(b, out)?;
            if y == 0 {
                return Err(EvalError::DivisionByZero);
            }
            match x.checked_div(y) {
                Some(v) => Ok(v),
                None => Err(EvalError::Overflow),
            }
        },
    }
}

/// Division rounds toward zero: what `quotient(a, b)` leaves over of `a` is
/// smaller in magnitude than `b`, and never of the sign opposite to `a`.
pub proof fn lemma_quotient_rounds_toward_zero(a: int, b: int)
    requires
        b != 0,
    ensures
        magnitude(a - quotient(a, b) * b) < magnitude(b),
        a >= 0 ==> a - quotient(a, b) * b >= 0,
        a <= 0 ==> a - quotient(a, b) * b <= 0,
{
    let m = magnitude(a);
    let d = magnitude(b);
    let q = m / d;
    lemma_fundamental_div_mod(m, d);
    lemma_mod_bound(m, d);
    assert(q * d == d * q && (-q) * d == -(d * q) && q * (-d) == -(d * q) && (-q) * (-d) == d
        * q) by (nonlinear_arith);
}

/// An expression without an error has a value in the range of `i64`.
pub proof fn lemma_value_fits(e: Expr)
    requires
        fault(e) is None,
    ensures
        fits(value(e)),
    decreases e,
{
    match e {
        Expr::Print(a) => {
            lemma_value_fits(*a);
        },
        _ => {},
    }
}

/// `Print` is transparent: it has the value and the error of its operand,
/// and where the operand has a value, it reports that value once, after
/// everything that the operand reports.
pub proof fn lemma_print_is_transparent(e: Expr)
    ensures
        value(Expr::Print(Box::new(e))) == value(e),
        fault(Expr::Print(Box::new(e))) == fault(e),
        printed(Expr::Print(Box::new(e))) == if fault(e) is None {
            printed(e).push(value(e) as i64)
        } else {
            printed(e)
        },
{
}

} // verus!
