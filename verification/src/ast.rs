//! The abstract syntax tree and the tree-walking interpreter.

use vstd::prelude::*;
use crate::value::{
    can_add, can_mul, can_sub, spec_add, spec_mul, spec_sub, val_fits, SpecVal, Value,
};

verus! {

/// Mathematical model of an expression tree.
pub enum SpecExpr {
    Number(SpecVal),
    Sum(Box<SpecExpr>, Box<SpecExpr>),
    Difference(Box<SpecExpr>, Box<SpecExpr>),
    Product(Box<SpecExpr>, Box<SpecExpr>),
}

/// An arithmetic expression: a number, or one of three binary nodes.
/// Nodes are immutable after construction and own their children.
#[derive(Debug, PartialEq)]
pub enum Expression {
    Number(Value),
    Sum(Box<Expression>, Box<Expression>),
    Difference(Box<Expression>, Box<Expression>),
    Product(Box<Expression>, Box<Expression>),
}

pub open spec fn expr_view(e: Expression) -> SpecExpr
    decreases e,
{
    match e {
        Expression::Number(v) => SpecExpr::Number(v@),
        Expression::Sum(l, r) => SpecExpr::Sum(Box::new(expr_view(*l)), Box::new(expr_view(*r))),
        Expression::Difference(l, r) => SpecExpr::Difference(
            Box::new(expr_view(*l)),
            Box::new(expr_view(*r)),
        ),
        Expression::Product(l, r) => SpecExpr::Product(
            Box::new(expr_view(*l)),
            Box::new(expr_view(*r)),
        ),
    }
}

impl View for Expression {
    type V = SpecExpr;

    open spec fn view(&self) -> SpecExpr {
        expr_view(*self)
    }
}

/// The exact value of an expression: the left operand of every binary node
/// is taken before the right one.
pub open spec fn spec_eval(e: SpecExpr) -> SpecVal
    decreases e,
{
    match e {
        SpecExpr::Number(v) => v,
        SpecExpr::Sum(l, r) => spec_add(spec_eval(*l), spec_eval(*r)),
        SpecExpr::Difference(l, r) => spec_sub(spec_eval(*l), spec_eval(*r)),
        SpecExpr::Product(l, r) => spec_mul(spec_eval(*l), spec_eval(*r)),
    }
}

/// Whether every value met while evaluating `e` (leaves and intermediate
/// results alike) fits the machine representation.
pub open spec fn spec_fits(e: SpecExpr) -> bool
    decreases e,
{
    match e {
        SpecExpr::Number(v) => val_fits(v),
        SpecExpr::Sum(l, r) => spec_fits(*l) && spec_fits(*r) && can_add(
            spec_eval(*l),
            spec_eval(*r),
        ),
        SpecExpr::Difference(l, r) => spec_fits(*l) && spec_fits(*r) && can_sub(
            spec_eval(*l),
            spec_eval(*r),
        ),
        SpecExpr::Product(l, r) => spec_fits(*l) && spec_fits(*r) && can_mul(
            spec_eval(*l),
            spec_eval(*r),
        ),
    }
}

/// The value the back ends return: the exact value where it fits the
/// machine, and nothing otherwise.
pub open spec fn spec_eval_checked(e: SpecExpr) -> Option<SpecVal> {
    if spec_fits(e) {
        Some(spec_eval(e))
    } else {
        None
    }
}

/// Recursive evaluation over the tree; every well-formed tree whose values
/// fit the machine evaluates successfully, and an overflow anywhere in the
/// evaluation yields `None`.
pub fn interpret(expression: &Expression) -> (r: Option<Value>)
    ensures
        match r {
            Some(v) => spec_eval_checked(expression@) == Some(v@),
            None => spec_eval_checked(expression@) is None,
        },
    decreases *expression,
{
    match expression {
        Expression::Number(v) => Some(*v),
        Expression::Sum(l, r) => {
            match (interpret(l), interpret(r)) {
                (Some(a), Some(b)) => a.checked_add(b),
                _ => None,
            }
        },
        Expression::Difference(l, r) => {
            match (interpret(l), interpret(r)) {
                (Some(a), Some(b)) => a.checked_sub(b),
                _ => None,
            }
        },
        Expression::Product(l, r) => {
            match (interpret(l), interpret(r)) {
                (Some(a), Some(b)) => a.checked_mul(b),
                _ => None,
            }
        },
    }
}

} // verus!
