//! The graph of nodes and the handles that name them.

use std::collections::HashSet;
use vstd::prelude::*;

use crate::identity::{fresh_token, is_random_token};

verus! {

/// How a node was produced.
#[derive(Clone, Copy, Debug, PartialEq, Eq, Structural, Hash)]
pub enum Operation {
    /// Created directly from data; it has no inputs.
    Leaf,
    /// Elementwise sum of two inputs.
    Add,
    /// Elementwise product of two inputs.
    Multiply,
    /// Elementwise hyperbolic tangent of one input.
    Tanh,
    /// Elementwise rectifier of one input.
    Relu,
}

impl Operation {
    /// The number of inputs a node produced by this operation has.
    pub open spec fn spec_arity(self) -> usize {
        match self {
            Operation::Leaf => 0,
            Operation::Add | Operation::Multiply => 2,
            Operation::Tanh | Operation::Relu => 1,
        }
    }

    /// The number of inputs a node produced by this operation has.
    #[verifier::when_used_as_spec(spec_arity)]
    pub fn arity(self) -> (n: usize)
        ensures
            n == self.spec_arity(),
    {
        match self {
            Operation::Leaf => 0,
            Operation::Add | Operation::Multiply => 2,
            Operation::Tanh | Operation::Relu => 1,
        }
    }
}

/// A handle to one node of a [`Graph`]: the position at which the node was
/// recorded. Two handles name the same node exactly when they are equal,
/// whatever data the nodes hold.
#[derive(Clone, Copy, Debug, PartialEq, Eq, Structural, Hash)]
pub struct Tensor {
    pub index: usize,
}

/// The record of one node.
#[derive(Clone, Debug)]
pub struct TensorData {
    /// Whether a gradient has been assigned to the node.
    pub has_gradient: bool,
    /// How the node was produced.
    pub operation: Operation,
    /// The nodes it was produced from, in operand order. Both operands of a
    /// binary operation may be the same node.
    pub inputs: Vec<Tensor>,
    /// The token that distinguishes the node from every other node.
    pub identity: u128,
}

/// The mathematical value of a [`TensorData`].
pub ghost struct Node {
    pub has_gradient: bool,
    pub operation: Operation,
    pub inputs: Seq<Tensor>,
    pub identity: u128,
}

impl View for TensorData {
    type V = Node;

    open spec fn view(&self) -> Node {
        Node {
            has_gradient: self.has_gradient,
            operation: self.operation,
            inputs: self.inputs@,
            identity: self.identity,
        }
    }
}

/// The node that an operation on `inputs` produces: no gradient yet.
pub open spec fn produced(operation: Operation, inputs: Seq<Tensor>, identity: u128) -> Node {
    Node { has_gradient: false, operation, inputs, identity }
}

/// Whether some node of `nodes` carries `identity`.
pub open spec fn uses_identity(nodes: Seq<Node>, identity: u128) -> bool {
    exists|i: int| 0 <= i < nodes.len() && (#[trigger] nodes[i]).identity == identity
}

/// What every graph satisfies: each node has as many inputs as its operation
/// takes, every input was recorded before the node that uses it (so the
/// graph has no cycle), and no two nodes share an identity.
pub open spec fn well_formed(nodes: Seq<Node>) -> bool {
    &&& forall|i: int|
        0 <= i < nodes.len() ==> (#[trigger] nodes[i]).inputs.len()
            == nodes[i].operation.spec_arity()
    &&& forall|i: int, k: int|
        0 <= i < nodes.len() && 0 <= k < nodes[i].inputs.len() ==> (#[trigger] nodes[i].inputs[k]).index
            < i
    &&& forall|i: int, j: int|
        0 <= i < j < nodes.len() ==> (#[trigger] nodes[i]).identity != (#[trigger] nodes[j]).identity
}

/// Why a record is not taken into a graph.
#[derive(Clone, Copy, Debug, PartialEq, Eq, Structural)]
pub enum Rejected {
    /// The number of inputs is not the one its operation takes.
    Arity,
    /// One of the inputs is no node of the graph.
    UnknownInput,
    /// A node of the graph already carries the identity.
    IdentityInUse,
}

/// Whether every handle of `inputs` names a node of `nodes`.
pub open spec fn inputs_known(nodes: Seq<Node>, inputs: Seq<Tensor>) -> bool {
    forall|k: int| 0 <= k < inputs.len() ==> (#[trigger] inputs[k]).index < nodes.len()
}

/// Why `node` may not be recorded after `nodes`, or `None` if it may. The
/// arity is judged first, then the inputs, then the identity.
pub open spec fn rejection(nodes: Seq<Node>, node: Node) -> Option<Rejected> {
    if node.inputs.len() != node.operation.spec_arity() {
        Some(Rejected::Arity)
    } else if !inputs_known(nodes, node.inputs) {
        Some(Rejected::UnknownInput)
    } else if uses_identity(nodes, node.identity) {
        Some(Rejected::IdentityInUse)
    } else {
        None
    }
}

/// Whether `after` is `before` with one node appended, named by `t` and
/// produced by `operation` from `inputs` under an identity new to `before`.
pub open spec fn extended(
    before: Seq<Node>,
    after: Seq<Node>,
    t: Tensor,
    operation: Operation,
    inputs: Seq<Tensor>,
) -> bool {
    &&& t.index == before.len()
    &&& after.len() == before.len() + 1
    &&& after == before.push(produced(operation, inputs, after[t.index as int].identity))
    &&& !uses_identity(before, after[t.index as int].identity)
}

/// `node` with its gradient noted as present or absent.
pub open spec fn with_gradient(node: Node, present: bool) -> Node {
    Node { has_gradient: present, ..node }
}

/// `nodes` with every gradient noted as absent.
pub open spec fn cleared(nodes: Seq<Node>) -> Seq<Node> {
    Seq::new(nodes.len(), |i: int| with_gradient(nodes[i], false))
}

/// Whether `after` has the nodes of `before`, apart from the notes on which
/// gradients are present.
pub open spec fn same_structure(before: Seq<Node>, after: Seq<Node>) -> bool {
    &&& after.len() == before.len()
    &&& forall|i: int|
        0 <= i < before.len() ==> (#[trigger] after[i]).operation == before[i].operation
            && after[i].inputs == before[i].inputs && after[i].identity == before[i].identity
}

/// Notes on gradients play no part in whether a graph is well formed.
pub proof fn lemma_flags_keep_wf(before: Seq<Node>, after: Seq<Node>)
    requires
        well_formed(before),
        same_structure(before, after),
    ensures
        well_formed(after),
{
    assert forall|i: int, k: int|
        0 <= i < after.len() && 0 <= k < after[i].inputs.len() implies (
    #[trigger] after[i].inputs[k]).index < i by {
        assert(before[i].inputs[k].index < i);
    }
    assert forall|i: int, j: int| 0 <= i < j < after.len() implies (#[trigger] after[i]).identity != (
    #[trigger] after[j]).identity by {
        assert(before[i].identity != before[j].identity);
    }
}

/// Notes on gradients play no part in which identities are in use.
pub proof fn lemma_flags_keep_identities(before: Seq<Node>, after: Seq<Node>, identity: u128)
    requires
        same_structure(before, after),
    ensures
        uses_identity(before, identity) <==> uses_identity(after, identity),
{
    if uses_identity(before, identity) {
        let i = choose|i: int| 0 <= i < before.len() && (#[trigger] before[i]).identity == identity;
        assert(after[i].identity == identity);
    }
    if uses_identity(after, identity) {
        let i = choose|i: int| 0 <= i < after.len() && (#[trigger] after[i]).identity == identity;
        assert(before[i].identity == identity);
    }
}

/// An expression graph: the nodes in the order in which they were recorded.
pub struct Graph {
    nodes: Vec<TensorData>,
    identities: HashSet<u128>,
}

impl View for Graph {
    type V = Seq<Node>;

    closed spec fn view(&self) -> Seq<Node> {
        self.nodes@.map_values(|data: TensorData| data@)
    }
}

impl Graph {
    /// Whether the index of identities agrees with the nodes.
    pub closed spec fn indexed(&self) -> bool {
        forall|identity: u128|
            self.identities@.contains(identity) <==> uses_identity(self@, identity)
    }

    /// The invariant of the type.
    pub open spec fn wf(&self) -> bool {
        &&& self.indexed()
        &&& well_formed(self@)
    }

    /// Whether `t` names a node of this graph.
    pub open spec fn spec_contains(&self, t: Tensor) -> bool {
        t.index < self@.len()
    }

    /// A graph without nodes.
    pub fn new() -> (graph: Graph)
        ensures
            graph.wf(),
            graph@ == Seq::<Node>::empty(),
    {
        let graph = Graph { nodes: Vec::new(), identities: HashSet::new() };
        assert(graph@ =~= Seq::<Node>::empty());
        graph
    }

    /// The number of nodes.
    pub fn len(&self) -> (n: usize)
        ensures
            n == self@.len(),
    {
        self.nodes.len()
    }

    /// Whether `t` names a node of this graph.
    #[verifier::when_used_as_spec(spec_contains)]
    pub fn contains(&self, t: Tensor) -> (b: bool)
        ensures
            b == self.spec_contains(t),
    {
        t.index < self.nodes.len()
    }

    /// The record of the node that `t` names, if it names one.
    pub fn node(&self, t: Tensor) -> (r: Option<&TensorData>)
        ensures
            match r {
                Some(data) => self.contains(t) && data@ == self@[t.index as int],
                None => !self.contains(t),
            },
    {
        if t.index < self.nodes.len() {
            Some(&self.nodes[t.index])
        } else {
            None
        }
    }

    /// Notes that a gradient has been assigned to the node that `t` names.
    pub(crate) fn mark(&mut self, t: Tensor)
        requires
            old(self).wf(),
            old(self).contains(t),
        ensures
            final(self).wf(),
            final(self)@ == old(self)@.update(t.index as int, with_gradient(old(self)@[t.index as int], true)),
    {
        let ghost before = self@;
        self.nodes[t.index].has_gradient = true;
        proof {
            assert(self@ =~= before.update(t.index as int, with_gradient(before[t.index as int], true)));
            lemma_flags_keep_wf(before, self@);
            assert forall|identity: u128|
                self.identities@.contains(identity) <==> uses_identity(self@, identity) by {
                lemma_flags_keep_identities(before, self@, identity);
            }
        }
    }

    /// Forgets every gradient: afterwards no node has one.
    pub fn zero_grad(&mut self)
        requires
            old(self).wf(),
        ensures
            final(self).wf(),
            final(self)@ == cleared(old(self)@),
    {
        let ghost before = self@;
        let count = self.nodes.len();
        let mut i: usize = 0;
        while i < count
            invariant
                i <= count,
                count == before.len(),
                self@.len() == before.len(),
                self.identities@ == old(self).identities@,
                forall|j: int| 0 <= j < i ==> #[trigger] self@[j] == with_gradient(before[j], false),
                forall|j: int| i <= j < count ==> #[trigger] self@[j] == before[j],
            decreases count - i,
        {
            let ghost here = self@;
            self.nodes[i].has_gradient = false;
            proof {
                assert(self@ =~= here.update(i as int, with_gradient(here[i as int], false)));
            }
            i += 1;
        }
        proof {
            assert(self@ =~= cleared(before));
            lemma_flags_keep_wf(before, self@);
            assert forall|identity: u128|
                self.identities@.contains(identity) <==> uses_identity(self@, identity) by {
                lemma_flags_keep_identities(before, self@, identity);
            }
        }
    }

    /// Whether some node carries `identity`.
    pub fn has_identity(&self, identity: u128) -> (b: bool)
        requires
            self.wf(),
        ensures
            b == uses_identity(self@, identity),
    {
        self.identities.contains(&identity)
    }
}


impl TensorData {
    /// The record of a leaf under the given identity: no inputs, no gradient.
    pub fn leaf(identity: u128) -> (data: TensorData)
        ensures
            data@ == produced(Operation::Leaf, Seq::empty(), identity),
    {
        TensorData {
            has_gradient: false,
            operation: Operation::Leaf,
            inputs: Vec::new(),
            identity,
        }
    }

    /// The record of a leaf under a freshly drawn identity.
    ///
    /// The identity is random, so nothing here says that it differs from the
    /// identities drawn before: [`Tensor::new`] finds that out.
    pub fn new() -> (data: TensorData)
        ensures
            data@ == produced(Operation::Leaf, Seq::empty(), data.identity),
            is_random_token(data.identity),
    {
        TensorData::leaf(fresh_token())
    }
}

impl Tensor {
    /// Records `data` as the next node of `graph` and returns its handle, or
    /// leaves the graph as it is and says why the record was not taken.
    pub fn new(data: TensorData, graph: &mut Graph) -> (r: Result<Tensor, Rejected>)
        requires
            old(graph).wf(),
        ensures
            final(graph).wf(),
            match r {
                Ok(t) => {
                    &&& rejection(old(graph)@, data@) is None
                    &&& t.index == old(graph)@.len()
                    &&& final(graph)@ == old(graph)@.push(data@)
                },
                Err(reason) => {
                    &&& rejection(old(graph)@, data@) == Some(reason)
                    &&& final(graph)@ == old(graph)@
                },
            },
    {
        if data.inputs.len() != data.operation.arity() {
            return Err(Rejected::Arity);
        }
        let count = graph.nodes.len();
        let mut k: usize = 0;
        while k < data.inputs.len()
            invariant
                k <= data.inputs.len(),
                data.inputs.len() == data.operation.spec_arity(),
                *graph == *old(graph),
                graph.wf(),
                count == graph@.len(),
                forall|j: int| 0 <= j < k ==> (#[trigger] data.inputs@[j]).index < count,
            decreases data.inputs.len() - k,
        {
            if data.inputs[k].index >= count {
                assert(data@.inputs[k as int].index >= graph@.len());
                return Err(Rejected::UnknownInput);
            }
            k += 1;
        }
        if graph.identities.contains(&data.identity) {
            return Err(Rejected::IdentityInUse);
        }
        let ghost before = graph@;
        let ghost node = data@;
        assert(!uses_identity(before, node.identity));
        graph.identities.insert(data.identity);
        graph.nodes.push(data);
        proof {
            assert(graph@ =~= before.push(node));
            assert forall|identity: u128|
                graph.identities@.contains(identity) <==> uses_identity(graph@, identity) by {
                if uses_identity(before, identity) {
                    let i = choose|i: int| 0 <= i < before.len() && (#[trigger] before[i]).identity == identity;
                    assert(graph@[i].identity == identity);
                }
                if identity == node.identity {
                    assert(graph@[count as int].identity == identity);
                }
                if uses_identity(graph@, identity) {
                    let i = choose|i: int| 0 <= i < graph@.len() && (#[trigger] graph@[i]).identity == identity;
                    if i < count {
                        assert(before[i].identity == identity);
                    }
                }
            }
            assert(well_formed(graph@)) by {
                assert forall|i: int, j: int| 0 <= i < j < graph@.len() implies (#[trigger] graph@[i]).identity != (#[trigger] graph@[j]).identity by {
                    if j == count {
                        assert(before[i].identity != node.identity);
                    } else {
                        assert(before[i].identity != before[j].identity);
                    }
                }
            }
        }
        Ok(Tensor { index: count })
    }
}

} // verus!
