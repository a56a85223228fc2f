//! The backward pass: which gradient is assigned what, and in which order.

use vstd::prelude::*;

use crate::expr::{difference, product, sum, Expr, Step};
use crate::tensor::{same_structure, with_gradient, Graph, Node, Operation, Tensor};
use crate::topo::{postorder, topological};

verus! {

/// The gradient that `t` has received so far: its gradient if one has been
/// assigned, and otherwise zeros in the shape of its data.
pub open spec fn previous(nodes: Seq<Node>, t: Tensor) -> Expr {
    if nodes[t.index as int].has_gradient {
        Expr::Grad(t)
    } else {
        Expr::ZerosLike(t)
    }
}

/// The step that adds `contribution` to what `t` has received so far.
pub open spec fn accumulate(nodes: Seq<Node>, t: Tensor, contribution: Expr) -> Step {
    Step { target: t, value: sum(previous(nodes, t), contribution) }
}

/// The steps of a sum `out`: its gradient flows unchanged to each input. An
/// input that is both operands receives both contributions in one step.
pub open spec fn add_rule(nodes: Seq<Node>, out: Tensor) -> Seq<Step> {
    let left = nodes[out.index as int].inputs[0];
    let right = nodes[out.index as int].inputs[1];
    if left == right {
        seq![accumulate(nodes, left, sum(Expr::Grad(out), Expr::Grad(out)))]
    } else {
        seq![
            accumulate(nodes, left, Expr::Grad(out)),
            accumulate(nodes, right, Expr::Grad(out)),
        ]
    }
}

/// The steps of a product `out`: each input receives the gradient of `out`
/// times the data of the other input. An input that is both operands
/// receives both contributions in one step.
pub open spec fn mul_rule(nodes: Seq<Node>, out: Tensor) -> Seq<Step> {
    let left = nodes[out.index as int].inputs[0];
    let right = nodes[out.index as int].inputs[1];
    if left == right {
        seq![
            accumulate(
                nodes,
                left,
                product(Expr::Grad(out), sum(Expr::Data(left), Expr::Data(right))),
            ),
        ]
    } else {
        seq![
            accumulate(nodes, left, product(Expr::Grad(out), Expr::Data(right))),
            accumulate(nodes, right, product(Expr::Grad(out), Expr::Data(left))),
        ]
    }
}

/// The step of a hyperbolic tangent `out`: the gradient of its input becomes
/// the gradient of `out` times one less the square of the data of `out`.
/// It replaces what the input had received.
pub open spec fn tanh_rule(nodes: Seq<Node>, out: Tensor) -> Seq<Step> {
    seq![
        Step {
            target: nodes[out.index as int].inputs[0],
            value: product(
                Expr::Grad(out),
                difference(Expr::One, product(Expr::Data(out), Expr::Data(out))),
            ),
        },
    ]
}

/// The step of a rectifier `out`: the gradient of its input becomes the
/// gradient of `out` where the data of `out` is greater than zero, and zero
/// elsewhere. It replaces what the input had received.
pub open spec fn relu_rule(nodes: Seq<Node>, out: Tensor) -> Seq<Step> {
    seq![
        Step {
            target: nodes[out.index as int].inputs[0],
            value: product(Expr::Grad(out), Expr::Positive(Box::new(Expr::Data(out)))),
        },
    ]
}

/// The steps by which node `out` hands its gradient to its inputs.
pub open spec fn rule(nodes: Seq<Node>, out: Tensor) -> Seq<Step> {
    match nodes[out.index as int].operation {
        Operation::Leaf => Seq::empty(),
        Operation::Add => add_rule(nodes, out),
        Operation::Multiply => mul_rule(nodes, out),
        Operation::Tanh => tanh_rule(nodes, out),
        Operation::Relu => relu_rule(nodes, out),
    }
}

/// Whether one of `steps` assigns the gradient of the node at `index`.
pub open spec fn assigns(steps: Seq<Step>, index: int) -> bool {
    exists|s: int| 0 <= s < steps.len() && (#[trigger] steps[s]).target.index == index
}

/// `nodes` once `steps` are carried out: the nodes they assign have a
/// gradient, and nothing else differs.
pub open spec fn marked(nodes: Seq<Node>, steps: Seq<Step>) -> Seq<Node> {
    Seq::new(
        nodes.len(),
        |i: int| with_gradient(nodes[i], nodes[i].has_gradient || assigns(steps, i)),
    )
}

/// The steps of the first `upto` nodes of `order`, the last of them first,
/// each node's steps under what the steps before them have assigned.
pub open spec fn sweep(nodes: Seq<Node>, order: Seq<Tensor>, upto: int) -> Seq<Step>
    decreases upto,
{
    if upto <= 0 {
        Seq::empty()
    } else {
        let steps = rule(nodes, order[upto - 1]);
        steps + sweep(marked(nodes, steps), order, upto - 1)
    }
}

/// `nodes` once the steps of `sweep` are carried out.
pub open spec fn swept(nodes: Seq<Node>, order: Seq<Tensor>, upto: int) -> Seq<Node>
    decreases upto,
{
    if upto <= 0 {
        nodes
    } else {
        swept(marked(nodes, rule(nodes, order[upto - 1])), order, upto - 1)
    }
}

/// The graph as it stands when the steps of the first `upto` nodes of
/// `order`, begun on `nodes`, come to the node at position `p`.
pub open spec fn at_turn(nodes: Seq<Node>, order: Seq<Tensor>, upto: int, p: int) -> Seq<Node>
    decreases upto,
{
    if upto <= p + 1 || upto <= 0 {
        nodes
    } else {
        at_turn(marked(nodes, rule(nodes, order[upto - 1])), order, upto - 1, p)
    }
}

/// The step that seeds the backward pass from `root`: its gradient becomes
/// the scalar one, whatever the shape of its data.
pub open spec fn seed(root: Tensor) -> Step {
    Step { target: root, value: Expr::One }
}

/// The steps of the backward pass from `root`: the seed, then the steps of
/// every node that `root` depends on, the nodes taken in the reverse of the
/// order of the depth-first walk.
pub open spec fn backward_steps(nodes: Seq<Node>, root: Tensor) -> Seq<Step> {
    let order = postorder(nodes, root);
    seq![seed(root)] + sweep(marked(nodes, seq![seed(root)]), order, order.len() as int)
}

/// `nodes` once the backward pass from `root` is carried out.
pub open spec fn backward_marks(nodes: Seq<Node>, root: Tensor) -> Seq<Node> {
    let order = postorder(nodes, root);
    swept(marked(nodes, seq![seed(root)]), order, order.len() as int)
}

/// The expression for what `t` has received so far.
fn previous_of(graph: &Graph, t: Tensor) -> (e: Expr)
    requires
        graph.contains(t),
    ensures
        e == previous(graph@, t),
{
    let present = match graph.node(t) {
        Some(data) => data.has_gradient,
        None => false,
    };
    if present {
        Expr::Grad(t)
    } else {
        Expr::ZerosLike(t)
    }
}

/// Issues the step that adds `contribution` to the gradient of `target`.
fn accumulate_into(graph: &mut Graph, target: Tensor, contribution: Expr) -> (step: Step)
    requires
        old(graph).wf(),
        old(graph).contains(target),
    ensures
        final(graph).wf(),
        step == accumulate(old(graph)@, target, contribution),
        final(graph)@ == marked(old(graph)@, seq![step]),
{
    let value = Expr::sum_of(previous_of(graph, target), contribution);
    assign(graph, target, value)
}

/// Issues the step that makes `value` the gradient of `target`.
fn assign(graph: &mut Graph, target: Tensor, value: Expr) -> (step: Step)
    requires
        old(graph).wf(),
        old(graph).contains(target),
    ensures
        final(graph).wf(),
        step == (Step { target, value }),
        final(graph)@ == marked(old(graph)@, seq![step]),
{
    let ghost before = graph@;
    graph.mark(target);
    let step = Step { target, value };
    proof {
        let steps = seq![step];
        assert forall|i: int| 0 <= i < before.len() implies graph@[i] == marked(before, steps)[i] by {
            if i == target.index {
                assert(steps[0].target.index == i);
            }
        }
        assert(graph@ =~= marked(before, steps));
    }
    step
}

/// Carrying out two steps one after the other marks what carrying out both
/// marks.
proof fn lemma_marked_twice(nodes: Seq<Node>, first: Step, second: Step)
    ensures
        marked(marked(nodes, seq![first]), seq![second]) == marked(nodes, seq![first, second]),
{
    let one = seq![first];
    let two = seq![second];
    let both = seq![first, second];
    assert forall|i: int| 0 <= i < nodes.len() implies marked(marked(nodes, one), two)[i] == marked(
        nodes,
        both,
    )[i] by {
        if assigns(one, i) {
            assert(both[0].target.index == i);
        }
        if assigns(two, i) {
            assert(both[1].target.index == i);
        }
        if assigns(both, i) {
            let s = choose|s: int| 0 <= s < both.len() && (#[trigger] both[s]).target.index == i;
            if s == 0 {
                assert(one[0].target.index == i);
            } else {
                assert(two[0].target.index == i);
            }
        }
    }
    assert(marked(marked(nodes, one), two) =~= marked(nodes, both));
}

impl Tensor {
    /// Hands the gradient of this node to its inputs: returns the steps of
    /// its operation and notes which gradients they assign. A leaf has no
    /// steps.
    pub fn backward_step(&self, graph: &mut Graph) -> (steps: Vec<Step>)
        requires
            old(graph).wf(),
            old(graph).contains(*self),
        ensures
            final(graph).wf(),
            steps@ == rule(old(graph)@, *self),
            final(graph)@ == marked(old(graph)@, steps@),
            old(graph)@[self.index as int].operation is Leaf ==> steps@.len() == 0
                && final(graph)@ == old(graph)@,
    {
        let ghost before = graph@;
        let (operation, left, right) = match graph.node(*self) {
            Some(data) => {
                match data.operation {
                    Operation::Leaf => (data.operation, *self, *self),
                    Operation::Add | Operation::Multiply => (
                        data.operation,
                        data.inputs[0],
                        data.inputs[1],
                    ),
                    Operation::Tanh | Operation::Relu => (
                        data.operation,
                        data.inputs[0],
                        data.inputs[0],
                    ),
                }
            },
            None => (Operation::Leaf, *self, *self),
        };
        let out = *self;
        let mut steps: Vec<Step> = Vec::new();
        match operation {
            Operation::Leaf => {
                assert(graph@ =~= marked(before, steps@));
            },
            Operation::Add => {
                assert(left.index < out.index && right.index < out.index);
                if left == right {
                    let both = Expr::sum_of(Expr::Grad(out), Expr::Grad(out));
                    let step = accumulate_into(graph, left, both);
                    steps.push(step);
                } else {
                    let first = accumulate_into(graph, left, Expr::Grad(out));
                    let second = accumulate_into(graph, right, Expr::Grad(out));
                    proof {
                        lemma_marked_twice(before, first, second);
                        assert(first.target.index == left.index);
                    }
                    steps.push(first);
                    steps.push(second);
                }
            },
            Operation::Multiply => {
                assert(left.index < out.index && right.index < out.index);
                if left == right {
                    let both = Expr::product_of(
                        Expr::Grad(out),
                        Expr::sum_of(Expr::Data(left), Expr::Data(right)),
                    );
                    let step = accumulate_into(graph, left, both);
                    steps.push(step);
                } else {
                    let first = accumulate_into(
                        graph,
                        left,
                        Expr::product_of(Expr::Grad(out), Expr::Data(right)),
                    );
                    let second = accumulate_into(
                        graph,
                        right,
                        Expr::product_of(Expr::Grad(out), Expr::Data(left)),
                    );
                    proof {
                        lemma_marked_twice(before, first, second);
                        assert(first.target.index == left.index);
                    }
                    steps.push(first);
                    steps.push(second);
                }
            },
            Operation::Tanh => {
                assert(left.index < out.index);
                let slope = Expr::difference_of(
                    Expr::One,
                    Expr::product_of(Expr::Data(out), Expr::Data(out)),
                );
                let step = assign(graph, left, Expr::product_of(Expr::Grad(out), slope));
                steps.push(step);
            },
            Operation::Relu => {
                assert(left.index < out.index);
                let slope = Expr::Positive(Box::new(Expr::Data(out)));
                let step = assign(graph, left, Expr::product_of(Expr::Grad(out), slope));
                steps.push(step);
            },
        }
        assert(steps@ =~= rule(before, out));
        steps
    }

    /// Runs the backward pass from this node: returns, in the order in which
    /// they are to be carried out, the steps that leave in every node that
    /// this node depends on the gradient of this node with respect to it,
    /// and notes which gradients they assign.
    ///
    /// The seed is the scalar one, so the gradients are those of a scalar:
    /// on a node whose data has more than one element they are the gradients
    /// of the sum of the elements. What gradients the nodes hold from an
    /// earlier pass is added to, not cleared: see [`Graph::zero_grad`].
    pub fn backward(&self, graph: &mut Graph) -> (steps: Vec<Step>)
        requires
            old(graph).wf(),
            old(graph).contains(*self),
        ensures
            final(graph).wf(),
            steps@ == backward_steps(old(graph)@, *self),
            final(graph)@ == backward_marks(old(graph)@, *self),
            same_structure(old(graph)@, final(graph)@),
    {
        let ghost before = graph@;
        let order = self.build_topo(graph);
        let mut steps: Vec<Step> = Vec::new();
        let first = assign(graph, *self, Expr::One);
        steps.push(first);
        assert(steps@ =~= seq![seed(*self)]);
        let mut i: usize = order.len();
        while i > 0
            invariant
                i <= order.len(),
                graph.wf(),
                same_structure(before, graph@),
                order@ == postorder(before, *self),
                topological(before, *self, order@),
                steps@ + sweep(graph@, order@, i as int) == backward_steps(before, *self),
                swept(graph@, order@, i as int) == backward_marks(before, *self),
            decreases i,
        {
            i -= 1;
            let ghost here = graph@;
            let ghost issued = steps@;
            let node = order[i];
            let mut part = node.backward_step(graph);
            steps.append(&mut part);
            proof {
                let rest = sweep(graph@, order@, i as int);
                assert(sweep(here, order@, i as int + 1) == rule(here, node) + rest);
                assert(steps@ + rest =~= issued + (rule(here, node) + rest));
            }
        }
        assert(steps@ + Seq::<Step>::empty() =~= steps@);
        steps
    }
}

} // verus!
