//! The expression tree.

use vstd::prelude::*;

verus! {

/// An arithmetic expression. Each node owns its operands; parentheses of the
/// source text leave no trace in the tree.
#[derive(Debug, PartialEq, Eq)]
pub enum Expr {
    /// An integer literal.
    Num(i64),
    /// The sum of two expressions.
    Add(Box<Expr>, Box<Expr>),
    /// The left expression minus the right one.
    Sub(Box<Expr>, Box<Expr>),
    /// The product of two expressions.
    Mul(Box<Expr>, Box<Expr>),
    /// The left expression divided by the right one.
    Div(Box<Expr>, Box<Expr>),
    /// An expression whose value is reported when it is evaluated.
    Print(Box<Expr>),
}

impl Clone for Expr {
    fn clone(&self) -> (copy: Self)
        ensures
            copy == *self,
        decreases *self,
    {
        match self {
            Expr::Num(n) => Expr::Num(*n),
            Expr::Add(a, b) => Expr::Add(Box::new((**a).clone()), Box::new((**b).clone())),
            Expr::Sub(a, b) => Expr::Sub(Box::new((**a).clone()), Box::new((**b).clone())),
            Expr::Mul(a, b) => Expr::Mul(Box::new((**a).clone()), Box::new((**b).clone())),
            Expr::Div(a, b) => Expr::Div(Box::new((**a).clone()), Box::new((**b).clone())),
            Expr::Print(a) => Expr::Print(Box::new((**a).clone())),
        }
    }
}

} // verus!
