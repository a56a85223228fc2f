//! The operations that produce a node from existing nodes.
//!
//! Each of them records the new node with its inputs in operand order.
//! What the data of the new node is follows from the record alone:
//! [`forward`] states it as an expression over the data of the inputs.

use vstd::prelude::*;

use crate::expr::{product, sum, Expr};
use crate::identity::{fresh_token, is_random_token};
use crate::tensor::{
    extended, inputs_known, uses_identity, Graph, Node, Operation, Rejected, Tensor, TensorData,
};

verus! {

/// The data of a node in terms of the data of its inputs, or `None` for a
/// leaf, whose data is given from outside.
pub open spec fn forward(operation: Operation, inputs: Seq<Tensor>) -> Option<Expr> {
    match operation {
        Operation::Leaf => None,
        Operation::Add => Some(sum(Expr::Data(inputs[0]), Expr::Data(inputs[1]))),
        Operation::Multiply => Some(product(Expr::Data(inputs[0]), Expr::Data(inputs[1]))),
        Operation::Tanh => Some(Expr::Tanh(Box::new(Expr::Data(inputs[0])))),
        Operation::Relu => Some(Expr::Relu(Box::new(Expr::Data(inputs[0])))),
    }
}

impl Operation {
    /// The expression that gives the data of the node that this operation
    /// produces from `inputs`; `None` for a leaf and where the number of
    /// inputs is not the one the operation takes.
    pub fn forward(self, inputs: &Vec<Tensor>) -> (r: Option<Expr>)
        ensures
            r == if inputs@.len() == self.spec_arity() {
                forward(self, inputs@)
            } else {
                None
            },
    {
        if inputs.len() != self.arity() {
            return None;
        }
        match self {
            Operation::Leaf => None,
            Operation::Add => Some(Expr::sum_of(Expr::Data(inputs[0]), Expr::Data(inputs[1]))),
            Operation::Multiply => Some(
                Expr::product_of(Expr::Data(inputs[0]), Expr::Data(inputs[1])),
            ),
            Operation::Tanh => Some(Expr::Tanh(Box::new(Expr::Data(inputs[0])))),
            Operation::Relu => Some(Expr::Relu(Box::new(Expr::Data(inputs[0])))),
        }
    }
}

/// Whether some node of `nodes` carries an identity that has the layout of
/// a random token. Only such an identity can be drawn again.
pub open spec fn holds_random_identity(nodes: Seq<Node>) -> bool {
    exists|i: int| 0 <= i < nodes.len() && is_random_token((#[trigger] nodes[i]).identity)
}

/// Why an operation on a graph of `nodes` was refused, its inputs being all
/// known (`known`) or not: an unknown input is reported first. Otherwise
/// the identity drawn for the new node was already in use, which takes a
/// node that carries a random token: on a graph without one, an operation
/// on known inputs is never refused.
pub open spec fn refused(nodes: Seq<Node>, reason: Rejected, known: bool) -> bool {
    if known {
        reason == Rejected::IdentityInUse && holds_random_identity(nodes)
    } else {
        reason == Rejected::UnknownInput
    }
}

/// Draws an identity and records the node that `operation` produces from
/// `inputs`.
fn apply(operation: Operation, inputs: Vec<Tensor>, graph: &mut Graph) -> (r: Result<
    Tensor,
    Rejected,
>)
    requires
        old(graph).wf(),
        inputs@.len() == operation.spec_arity(),
    ensures
        final(graph).wf(),
        match r {
            Ok(t) => {
                &&& inputs_known(old(graph)@, inputs@)
                &&& extended(old(graph)@, final(graph)@, t, operation, inputs@)
                &&& is_random_token(final(graph)@[t.index as int].identity)
            },
            Err(reason) => {
                &&& final(graph)@ == old(graph)@
                &&& refused(old(graph)@, reason, inputs_known(old(graph)@, inputs@))
            },
        },
{
    let identity = fresh_token();
    let data = TensorData { has_gradient: false, operation, inputs, identity };
    proof {
        if uses_identity(graph@, identity) {
            let i = choose|i: int| 0 <= i < graph@.len() && (#[trigger] graph@[i]).identity == identity;
            assert(is_random_token(graph@[i].identity));
        }
    }
    Tensor::new(data, graph)
}

impl Tensor {
    /// Records the elementwise sum of `self` and `other`, which may be the
    /// same node, and returns its handle.
    ///
    /// No node is recorded when an operand is no node of the graph, or when
    /// the identity drawn for the sum is already in use, which cannot be
    /// unless a node carries a random token.
    pub fn add(&self, other: &Tensor, graph: &mut Graph) -> (r: Result<Tensor, Rejected>)
        requires
            old(graph).wf(),
        ensures
            final(graph).wf(),
            match r {
                Ok(t) => {
                    &&& old(graph).contains(*self)
                    &&& old(graph).contains(*other)
                    &&& extended(old(graph)@, final(graph)@, t, Operation::Add, seq![*self, *other])
                    &&& is_random_token(final(graph)@[t.index as int].identity)
                },
                Err(reason) => {
                    &&& final(graph)@ == old(graph)@
                    &&& refused(
                        old(graph)@,
                        reason,
                        old(graph).contains(*self) && old(graph).contains(*other),
                    )
                },
            },
    {
        let inputs = vec![*self, *other];
        proof {
            assert(inputs@ =~= seq![*self, *other]);
            lemma_pair_known(graph@, *self, *other);
        }
        apply(Operation::Add, inputs, graph)
    }

    /// Records the elementwise product of `self` and `other`, which may be
    /// the same node, and returns its handle.
    ///
    /// No node is recorded when an operand is no node of the graph, or when
    /// the identity drawn for the product is already in use, which cannot
    /// be unless a node carries a random token.
    pub fn mul(&self, other: &Tensor, graph: &mut Graph) -> (r: Result<Tensor, Rejected>)
        requires
            old(graph).wf(),
        ensures
            final(graph).wf(),
            match r {
                Ok(t) => {
                    &&& old(graph).contains(*self)
                    &&& old(graph).contains(*other)
                    &&& extended(
                        old(graph)@,
                        final(graph)@,
                        t,
                        Operation::Multiply,
                        seq![*self, *other],
                    )
                    &&& is_random_token(final(graph)@[t.index as int].identity)
                },
                Err(reason) => {
                    &&& final(graph)@ == old(graph)@
                    &&& refused(
                        old(graph)@,
                        reason,
                        old(graph).contains(*self) && old(graph).contains(*other),
                    )
                },
            },
    {
        let inputs = vec![*self, *other];
        proof {
            assert(inputs@ =~= seq![*self, *other]);
            lemma_pair_known(graph@, *self, *other);
        }
        apply(Operation::Multiply, inputs, graph)
    }

    /// Records the elementwise hyperbolic tangent of `self` and returns its
    /// handle.
    ///
    /// No node is recorded when `self` is no node of the graph, or when the
    /// identity drawn for the result is already in use, which cannot be
    /// unless a node carries a random token.
    pub fn tanh(&self, graph: &mut Graph) -> (r: Result<Tensor, Rejected>)
        requires
            old(graph).wf(),
        ensures
            final(graph).wf(),
            match r {
                Ok(t) => {
                    &&& old(graph).contains(*self)
                    &&& extended(old(graph)@, final(graph)@, t, Operation::Tanh, seq![*self])
                    &&& is_random_token(final(graph)@[t.index as int].identity)
                },
                Err(reason) => {
                    &&& final(graph)@ == old(graph)@
                    &&& refused(old(graph)@, reason, old(graph).contains(*self))
                },
            },
    {
        let inputs = vec![*self];
        proof {
            assert(inputs@ =~= seq![*self]);
            lemma_single_known(graph@, *self);
        }
        apply(Operation::Tanh, inputs, graph)
    }

    /// Records the elementwise rectifier of `self` and returns its handle.
    ///
    /// No node is recorded when `self` is no node of the graph, or when the
    /// identity drawn for the result is already in use, which cannot be
    /// unless a node carries a random token.
    pub fn relu(&self, graph: &mut Graph) -> (r: Result<Tensor, Rejected>)
        requires
            old(graph).wf(),
        ensures
            final(graph).wf(),
            match r {
                Ok(t) => {
                    &&& old(graph).contains(*self)
                    &&& extended(old(graph)@, final(graph)@, t, Operation::Relu, seq![*self])
                    &&& is_random_token(final(graph)@[t.index as int].identity)
                },
                Err(reason) => {
                    &&& final(graph)@ == old(graph)@
                    &&& refused(old(graph)@, reason, old(graph).contains(*self))
                },
            },
    {
        let inputs = vec![*self];
        proof {
            assert(inputs@ =~= seq![*self]);
            lemma_single_known(graph@, *self);
        }
        apply(Operation::Relu, inputs, graph)
    }

    /// The expression that gives the data of this node from the data of its
    /// inputs; `None` for a leaf and for a handle that names no node.
    pub fn forward(&self, graph: &Graph) -> (r: Option<Expr>)
        requires
            graph.wf(),
        ensures
            r == if graph.contains(*self) {
                forward(graph@[self.index as int].operation, graph@[self.index as int].inputs)
            } else {
                None
            },
    {
        match graph.node(*self) {
            None => None,
            Some(data) => data.operation.forward(&data.inputs),
        }
    }
}

proof fn lemma_pair_known(nodes: Seq<Node>, a: Tensor, b: Tensor)
    ensures
        inputs_known(nodes, seq![a, b]) <==> a.index < nodes.len() && b.index < nodes.len(),
{
    let inputs = seq![a, b];
    assert(inputs[0] == a && inputs[1] == b);
}

proof fn lemma_single_known(nodes: Seq<Node>, a: Tensor)
    ensures
        inputs_known(nodes, seq![a]) <==> a.index < nodes.len(),
{
    let inputs = seq![a];
    assert(inputs[0] == a);
}

} // verus!
