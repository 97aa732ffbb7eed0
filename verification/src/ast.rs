//! The expression tree the parser builds: leaves hold numeric literals,
//! internal nodes one of the four binary arithmetic operations. The tree
//! is immutable once built, each child owned by exactly one parent.

use vstd::prelude::*;

use crate::lexer::NumberLit;
use crate::lexer::wf_number_text;

verus! {

/// The four binary arithmetic operations.
#[derive(Clone, Copy, Debug, PartialEq, Eq, Structural)]
pub enum BinOp {
    Add,
    Subtract,
    Multiply,
    Divide,
}

/// An expression: a numeric literal, or an operation on two subexpressions.
#[derive(Debug)]
pub enum Expr {
    Leaf(NumberLit),
    BinaryOp { op: BinOp, left: Box<Expr>, right: Box<Expr> },
}

/// The mathematical value of an expression tree: the same tree, each leaf
/// holding its literal's digit text.
pub enum SpecExpr {
    Leaf(Seq<char>),
    BinaryOp { op: BinOp, left: Box<SpecExpr>, right: Box<SpecExpr> },
}

/// The value of an expression tree, leaf by leaf and node by node.
pub open spec fn expr_value(e: Expr) -> SpecExpr
    decreases e,
{
    match e {
        Expr::Leaf(lit) => SpecExpr::Leaf(lit@),
        Expr::BinaryOp { op, left, right } => SpecExpr::BinaryOp {
            op,
            left: Box::new(expr_value(*left)),
            right: Box::new(expr_value(*right)),
        },
    }
}

impl View for Expr {
    type V = SpecExpr;

    open spec fn view(&self) -> SpecExpr {
        expr_value(*self)
    }
}

/// Every leaf of the tree holds a well-formed numeric text.
pub open spec fn expr_wf(e: SpecExpr) -> bool
    decreases e,
{
    match e {
        SpecExpr::Leaf(text) => wf_number_text(text),
        SpecExpr::BinaryOp { op, left, right } => expr_wf(*left) && expr_wf(*right),
    }
}

} // verus!
