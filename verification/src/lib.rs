//! Reverse-mode automatic differentiation over a graph of array-valued nodes.
//!
//! The graph records how every value was produced; the backward pass orders
//! the nodes that a result depends on and says, step by step, which gradient
//! is assigned which array expression. The arrays themselves stay with the
//! caller, who evaluates the expressions with a numeric array library.

pub mod backward;
pub mod expr;
pub mod identity;
pub mod laws;
pub mod ops;
pub mod tensor;
pub mod topo;
