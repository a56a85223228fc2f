//! Array expressions over the data and the gradients of nodes.
//!
//! The graph never holds an array. It says what each array is in terms of
//! others, and whoever keeps the arrays evaluates that with elementwise,
//! broadcasting arithmetic.

use vstd::prelude::*;

use crate::tensor::Tensor;

verus! {

/// An array given by elementwise arithmetic on the arrays of nodes.
#[derive(Debug, PartialEq, Eq)]
pub enum Expr {
    /// The scalar array that holds one.
    One,
    /// The array of zeros that has the shape of the node's data.
    ZerosLike(Tensor),
    /// The data of the node.
    Data(Tensor),
    /// The gradient of the node, as it stands when the expression is
    /// evaluated.
    Grad(Tensor),
    /// The sum of two arrays.
    Sum(Box<Expr>, Box<Expr>),
    /// The first array less the second.
    Difference(Box<Expr>, Box<Expr>),
    /// The product of two arrays.
    Product(Box<Expr>, Box<Expr>),
    /// The hyperbolic tangent of each element.
    Tanh(Box<Expr>),
    /// Each element that is greater than zero, and zero in place of the
    /// others.
    Relu(Box<Expr>),
    /// One where the element is greater than zero, and zero elsewhere.
    Positive(Box<Expr>),
}

/// One assignment of the backward pass: the gradient of `target` becomes
/// `value`. Steps are carried out in the order in which they are listed.
#[derive(Debug, PartialEq, Eq)]
pub struct Step {
    pub target: Tensor,
    pub value: Expr,
}

/// Whether evaluating `e` reads the gradient of `t`.
pub open spec fn reads(e: Expr, t: Tensor) -> bool
    decreases e,
{
    match e {
        Expr::One => false,
        Expr::ZerosLike(_) => false,
        Expr::Data(_) => false,
        Expr::Grad(x) => x == t,
        Expr::Sum(a, b) => reads(*a, t) || reads(*b, t),
        Expr::Difference(a, b) => reads(*a, t) || reads(*b, t),
        Expr::Product(a, b) => reads(*a, t) || reads(*b, t),
        Expr::Tanh(a) => reads(*a, t),
        Expr::Relu(a) => reads(*a, t),
        Expr::Positive(a) => reads(*a, t),
    }
}

/// `left + right`.
pub open spec fn sum(left: Expr, right: Expr) -> Expr {
    Expr::Sum(Box::new(left), Box::new(right))
}

/// `left - right`.
pub open spec fn difference(left: Expr, right: Expr) -> Expr {
    Expr::Difference(Box::new(left), Box::new(right))
}

/// `left * right`.
pub open spec fn product(left: Expr, right: Expr) -> Expr {
    Expr::Product(Box::new(left), Box::new(right))
}

impl Expr {
    /// `left + right`.
    pub fn sum_of(left: Expr, right: Expr) -> (e: Expr)
        ensures
            e == sum(left, right),
    {
        Expr::Sum(Box::new(left), Box::new(right))
    }

    /// `left - right`.
    pub fn difference_of(left: Expr, right: Expr) -> (e: Expr)
        ensures
            e == difference(left, right),
    {
        Expr::Difference(Box::new(left), Box::new(right))
    }

    /// `left * right`.
    pub fn product_of(left: Expr, right: Expr) -> (e: Expr)
        ensures
            e == product(left, right),
    {
        Expr::Product(Box::new(left), Box::new(right))
    }
}

} // verus!
