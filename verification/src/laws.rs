//! What holds of every backward pass.

use vstd::prelude::*;

use crate::backward::{
    accumulate, assigns, at_turn, backward_marks, backward_steps, marked, rule, seed, sweep,
    swept,
};
use crate::expr::{reads, Expr, Step};
use crate::tensor::{lemma_flags_keep_wf, same_structure, well_formed, Node, Tensor};
use crate::topo::{
    lemma_inputs_stand_earlier, lemma_postorder_topological, reaches, topological,
    identity_of, lemma_marks_of_nothing, lemma_marks_of_push, marks, postorder, sorted,
    stands_before, walk, walk_inputs,
};

verus! {

/// A leaf hands nothing on: it has no steps, and its turn in the backward
/// pass changes nothing.
pub proof fn lemma_leaf_has_no_steps(nodes: Seq<Node>, leaf: Tensor)
    requires
        leaf.index < nodes.len(),
        nodes[leaf.index as int].operation is Leaf,
    ensures
        rule(nodes, leaf) == Seq::<Step>::empty(),
        marked(nodes, rule(nodes, leaf)) == nodes,
{
    assert(marked(nodes, rule(nodes, leaf)) =~= nodes);
}

/// Every step of a node assigns the gradient of one of its inputs.
pub proof fn lemma_steps_assign_inputs(nodes: Seq<Node>, out: Tensor, s: int)
    requires
        well_formed(nodes),
        out.index < nodes.len(),
        0 <= s < rule(nodes, out).len(),
    ensures
        nodes[out.index as int].inputs.contains(rule(nodes, out)[s].target),
{
    let inputs = nodes[out.index as int].inputs;
    let target = rule(nodes, out)[s].target;
    if target == inputs[0] {
        assert(inputs[0] == target);
    } else {
        assert(inputs[1] == target);
    }
}

/// The backward pass never touches what the forward pass made: whatever
/// steps are carried out, every node keeps its operation, its inputs and
/// its identity, and the steps assign gradients only.
pub proof fn lemma_sweep_keeps_structure(nodes: Seq<Node>, order: Seq<Tensor>, upto: int)
    ensures
        same_structure(nodes, swept(nodes, order, upto)),
    decreases upto,
{
    if upto > 0 {
        let next = marked(nodes, rule(nodes, order[upto - 1]));
        lemma_sweep_keeps_structure(next, order, upto - 1);
    }
}

/// The backward pass from any node keeps every node's operation, inputs
/// and identity.
pub proof fn lemma_backward_keeps_structure(nodes: Seq<Node>, root: Tensor)
    ensures
        same_structure(nodes, backward_marks(nodes, root)),
{
    let order = postorder(nodes, root);
    let seeded = marked(nodes, seq![seed(root)]);
    lemma_sweep_keeps_structure(seeded, order, order.len() as int);
}

/// Once the turn of a node has come, its gradient is complete: the steps of
/// the first `upto` nodes of a sorted order assign no gradient of the node
/// at position `upto - 1` or of a node after it. So the gradient that a
/// node hands on is the sum of all that it was to receive.
pub proof fn lemma_gradient_complete(
    base: Seq<Node>,
    nodes: Seq<Node>,
    order: Seq<Tensor>,
    upto: int,
    p: int,
)
    requires
        well_formed(base),
        same_structure(base, nodes),
        sorted(base, order),
        0 <= upto <= order.len(),
        upto - 1 <= p < order.len(),
        0 <= p,
    ensures
        !assigns(sweep(nodes, order, upto), order[p].index as int),
    decreases upto,
{
    let steps = sweep(nodes, order, upto);
    if upto > 0 {
        let out = order[upto - 1];
        let first = rule(nodes, out);
        let next = marked(nodes, first);
        let rest = sweep(next, order, upto - 1);
        assert(steps == first + rest);
        lemma_gradient_complete(base, next, order, upto - 1, p);
        if assigns(steps, order[p].index as int) {
            let s = choose|s: int|
                0 <= s < steps.len() && (#[trigger] steps[s]).target.index == order[p].index;
            if s < first.len() {
                assert(steps[s] == first[s]);
                lemma_flags_keep_wf(base, nodes);
                assert(nodes[out.index as int].inputs == base[out.index as int].inputs);
                lemma_steps_assign_inputs(nodes, out, s);
                let inputs = base[out.index as int].inputs;
                let k = choose|k: int| 0 <= k < inputs.len() && inputs[k] == first[s].target;
                assert(stands_before(order, upto - 1, base[order[upto - 1].index as int].inputs[k]));
                let q = choose|q: int| 0 <= q < upto - 1 && #[trigger] order[q] == inputs[k];
                assert(order[q] == order[p]);
            } else {
                assert(steps[s] == rest[s - first.len()]);
                assert(rest[s - first.len()].target.index == order[p].index);
            }
        }
    }
}

/// The sum of two different leaves passes its gradient through: the
/// backward pass from the sum seeds it and then adds its gradient,
/// unchanged, to what either leaf had received, the left leaf first.
pub proof fn lemma_add_passes_gradient_through(nodes: Seq<Node>, out: Tensor)
    requires
        well_formed(nodes),
        out.index < nodes.len(),
        nodes[out.index as int].operation is Add,
        nodes[out.index as int].inputs[0] != nodes[out.index as int].inputs[1],
        nodes[nodes[out.index as int].inputs[0].index as int].operation is Leaf,
        nodes[nodes[out.index as int].inputs[1].index as int].operation is Leaf,
    ensures
        backward_steps(nodes, out) == seq![
            seed(out),
            accumulate(nodes, nodes[out.index as int].inputs[0], Expr::Grad(out)),
            accumulate(nodes, nodes[out.index as int].inputs[1], Expr::Grad(out)),
        ],
{
    let left = nodes[out.index as int].inputs[0];
    let right = nodes[out.index as int].inputs[1];
    assert(left.index < out.index && right.index < out.index);
    assert(nodes[left.index as int].inputs.len() == 0);
    assert(nodes[right.index as int].inputs.len() == 0);
    assert(nodes[left.index as int].identity != nodes[out.index as int].identity);
    assert(nodes[right.index as int].identity != nodes[out.index as int].identity);
    if left.index < right.index {
        assert(nodes[left.index as int].identity != nodes[right.index as int].identity);
    } else {
        assert(nodes[right.index as int].identity != nodes[left.index as int].identity);
    }
    let nothing = Seq::<Tensor>::empty();
    let begun = Set::<u128>::empty().insert(identity_of(nodes, out));
    assert(walk_inputs(nodes, left, 0, begun.insert(identity_of(nodes, left))) == nothing);
    assert(walk(nodes, left, begun) == nothing.push(left));
    let one = nothing.push(left);
    lemma_marks_of_nothing(nodes);
    lemma_marks_of_push(nodes, nothing, left);
    let then = begun.union(marks(nodes, one));
    assert(!then.contains(identity_of(nodes, right)));
    assert(walk_inputs(nodes, right, 0, then.insert(identity_of(nodes, right))) == nothing);
    assert(walk(nodes, right, then) == nothing.push(right));
    let other = nothing.push(right);
    assert(walk_inputs(nodes, out, 2, then.union(marks(nodes, other))) == nothing);
    assert(walk_inputs(nodes, out, 1, then) =~= other);
    assert(walk_inputs(nodes, out, 0, begun) =~= one + other);
    let two = one + other;
    assert(walk(nodes, out, Set::empty()) == two.push(out));
    let order = postorder(nodes, out);
    assert(order == two.push(out));
    assert(order.len() == 3 && order[0] == left && order[1] == right && order[2] == out);

    let seeded = marked(nodes, seq![seed(out)]);
    assert(seq![seed(out)][0].target == out);
    let first = rule(seeded, out);
    assert(first == seq![
        accumulate(nodes, left, Expr::Grad(out)),
        accumulate(nodes, right, Expr::Grad(out)),
    ]) by {
        assert(!assigns(seq![seed(out)], left.index as int));
        assert(!assigns(seq![seed(out)], right.index as int));
    }
    let after = marked(seeded, first);
    assert(rule(after, right) == Seq::<Step>::empty());
    let after_right = marked(after, rule(after, right));
    assert(rule(after_right, left) == Seq::<Step>::empty());
    assert(sweep(marked(after_right, rule(after_right, left)), order, 0) == Seq::<Step>::empty());
    assert(sweep(after_right, order, 1) =~= Seq::<Step>::empty());
    assert(sweep(after, order, 2) =~= Seq::<Step>::empty());
    assert(sweep(seeded, order, 3) =~= first);
    assert(backward_steps(nodes, out) =~= seq![seed(out)] + first);
}


/// The steps of a node assign the gradient of every one of its inputs.
pub proof fn lemma_steps_assign_every_input(nodes: Seq<Node>, out: Tensor, k: int)
    requires
        well_formed(nodes),
        out.index < nodes.len(),
        0 <= k < nodes[out.index as int].inputs.len(),
    ensures
        assigns(rule(nodes, out), nodes[out.index as int].inputs[k].index as int),
{
    let steps = rule(nodes, out);
    let inputs = nodes[out.index as int].inputs;
    if inputs.len() == 2 && inputs[0] != inputs[1] && k == 1 {
        assert(steps[1].target == inputs[1]);
    } else {
        assert(steps[0].target == inputs[k]);
    }
}

/// The steps of a node read no gradient but its own and, where they add to
/// a gradient that is present, that of the input they assign.
pub proof fn lemma_steps_read(nodes: Seq<Node>, out: Tensor, s: int, t: Tensor)
    requires
        well_formed(nodes),
        out.index < nodes.len(),
        0 <= s < rule(nodes, out).len(),
        reads(rule(nodes, out)[s].value, t),
    ensures
        t == out || (t == rule(nodes, out)[s].target && nodes[t.index as int].has_gradient),
{
    reveal_with_fuel(reads, 5);
}

/// Whether, the steps of the nodes of `order` from position `upto` on being
/// carried out, `state` notes a gradient for the last node of `order` and
/// for every input of those nodes.
pub open spec fn handed_on(base: Seq<Node>, state: Seq<Node>, order: Seq<Tensor>, upto: int) -> bool {
    &&& state[order.last().index as int].has_gradient
    &&& forall|q: int, k: int|
        upto <= q < order.len() && 0 <= k < base[order[q].index as int].inputs.len()
            ==> state[(#[trigger] base[order[q].index as int].inputs[k]).index as int].has_gradient
}

/// Every node of a topological order but the last is an input of a node
/// that stands after it.
pub proof fn lemma_consumer_stands_later(
    nodes: Seq<Node>,
    root: Tensor,
    order: Seq<Tensor>,
    p: int,
) -> (at: (int, int))
    requires
        well_formed(nodes),
        topological(nodes, root, order),
        0 <= p < order.len() - 1,
    ensures
        p < at.0 < order.len(),
        0 <= at.1 < nodes[order[at.0].index as int].inputs.len(),
        nodes[order[at.0].index as int].inputs[at.1] == order[p],
{
    let t = order[p];
    assert(order.contains(t));
    assert(t != root) by {
        assert(order[order.len() - 1] == root);
    }
    let user = lemma_reached_has_user(nodes, root, t);
    assert(order.contains(user));
    let q = choose|q: int| 0 <= q < order.len() && order[q] == user;
    let inputs = nodes[user.index as int].inputs;
    let k = choose|k: int| 0 <= k < inputs.len() && inputs[k] == t;
    lemma_inputs_stand_earlier(nodes, order, q, p);
    (q, k)
}

/// A node that another node reaches is an input of a node that the other
/// reaches.
pub proof fn lemma_reached_has_user(nodes: Seq<Node>, from: Tensor, to: Tensor) -> (user: Tensor)
    requires
        reaches(nodes, from, to),
        from != to,
    ensures
        reaches(nodes, from, user),
        user.index < nodes.len(),
        nodes[user.index as int].inputs.contains(to),
    decreases from.index,
{
    let k = choose|k: int|
        {
            &&& 0 <= k < nodes[from.index as int].inputs.len()
            &&& (#[trigger] nodes[from.index as int].inputs[k]).index < from.index
            &&& reaches(nodes, nodes[from.index as int].inputs[k], to)
        };
    let input = nodes[from.index as int].inputs[k];
    if input == to {
        assert(nodes[from.index as int].inputs[k] == to);
        from
    } else {
        lemma_reached_has_user(nodes, input, to)
    }
}

/// The node whose turn it is has a gradient, if all that was handed on
/// before is noted.
proof fn lemma_turn_is_handed(
    base: Seq<Node>,
    state: Seq<Node>,
    order: Seq<Tensor>,
    upto: int,
)
    requires
        well_formed(base),
        same_structure(base, state),
        topological(base, order.last(), order),
        0 < upto <= order.len(),
        handed_on(base, state, order, upto),
    ensures
        state[order[upto - 1].index as int].has_gradient,
{
    if upto < order.len() {
        let at = lemma_consumer_stands_later(base, order.last(), order, upto - 1);
        assert(state[base[order[at.0].index as int].inputs[at.1].index as int].has_gradient);
    }
}

/// Carrying out the steps of the next node keeps noted what was handed on,
/// and notes what that node hands on.
proof fn lemma_turn_hands_on(base: Seq<Node>, state: Seq<Node>, order: Seq<Tensor>, upto: int)
    requires
        well_formed(base),
        same_structure(base, state),
        topological(base, order.last(), order),
        0 < upto <= order.len(),
        handed_on(base, state, order, upto),
    ensures
        handed_on(base, marked(state, rule(state, order[upto - 1])), order, upto - 1),
        same_structure(base, marked(state, rule(state, order[upto - 1]))),
{
    let out = order[upto - 1];
    let next = marked(state, rule(state, out));
    lemma_flags_keep_wf(base, state);
    assert forall|q: int, k: int|
        upto - 1 <= q < order.len() && 0 <= k < base[order[q].index as int].inputs.len() implies next[(
    #[trigger] base[order[q].index as int].inputs[k]).index as int].has_gradient by {
        let input = base[order[q].index as int].inputs[k];
        assert(input.index < order[q].index);
        if q == upto - 1 {
            assert(state[out.index as int].inputs == base[out.index as int].inputs);
            lemma_steps_assign_every_input(state, out, k);
        } else {
            assert(state[input.index as int].has_gradient);
        }
    }
}

/// When the turn of a node comes in the backward pass, the node has a
/// gradient: the seed for the node the pass starts from, and for any other
/// node what the nodes that use it have handed on. So no step reads a
/// gradient that is absent.
pub proof fn lemma_turn_has_gradient(nodes: Seq<Node>, root: Tensor, p: int)
    requires
        well_formed(nodes),
        root.index < nodes.len(),
        0 <= p < postorder(nodes, root).len(),
    ensures
        at_turn(
            marked(nodes, seq![seed(root)]),
            postorder(nodes, root),
            postorder(nodes, root).len() as int,
            p,
        )[postorder(nodes, root)[p].index as int].has_gradient,
{
    let order = postorder(nodes, root);
    let seeded = marked(nodes, seq![seed(root)]);
    lemma_postorder_topological(nodes, root);
    assert(seq![seed(root)][0].target.index == root.index);
    lemma_turn_comes(nodes, seeded, order, order.len() as int, p);
}

proof fn lemma_turn_comes(base: Seq<Node>, state: Seq<Node>, order: Seq<Tensor>, upto: int, p: int)
    requires
        well_formed(base),
        same_structure(base, state),
        topological(base, order.last(), order),
        0 <= p < upto <= order.len(),
        handed_on(base, state, order, upto),
    ensures
        at_turn(state, order, upto, p)[order[p].index as int].has_gradient,
    decreases upto,
{
    if upto == p + 1 {
        lemma_turn_is_handed(base, state, order, upto);
    } else {
        lemma_turn_hands_on(base, state, order, upto);
        lemma_turn_comes(base, marked(state, rule(state, order[upto - 1])), order, upto - 1, p);
    }
}

/// Every gradient that a step of the remaining sweep reads is noted in the
/// graph the sweep begins on or assigned by a step before it.
proof fn lemma_sweep_reads_assigned(
    base: Seq<Node>,
    state: Seq<Node>,
    order: Seq<Tensor>,
    upto: int,
    s: int,
    t: Tensor,
)
    requires
        well_formed(base),
        same_structure(base, state),
        topological(base, order.last(), order),
        0 <= upto <= order.len(),
        handed_on(base, state, order, upto),
        0 <= s < sweep(state, order, upto).len(),
        reads(sweep(state, order, upto)[s].value, t),
    ensures
        t.index < base.len(),
        state[t.index as int].has_gradient || exists|r: int|
            0 <= r < s && (#[trigger] sweep(state, order, upto)[r]).target == t,
    decreases upto,
{
    let steps = sweep(state, order, upto);
    let out = order[upto - 1];
    let first = rule(state, out);
    let next = marked(state, first);
    let rest = sweep(next, order, upto - 1);
    assert(steps == first + rest);
    lemma_flags_keep_wf(base, state);
    lemma_turn_is_handed(base, state, order, upto);
    if s < first.len() {
        assert(steps[s] == first[s]);
        lemma_steps_read(state, out, s, t);
        lemma_steps_assign_inputs(state, out, s);
    } else {
        assert(steps[s] == rest[s - first.len()]);
        lemma_turn_hands_on(base, state, order, upto);
        lemma_sweep_reads_assigned(base, next, order, upto - 1, s - first.len(), t);
        if next[t.index as int].has_gradient {
            if !state[t.index as int].has_gradient {
                let r = choose|r: int|
                    0 <= r < first.len() && (#[trigger] first[r]).target.index == t.index;
                assert(steps[r].target == t);
            }
        } else {
            let r = choose|r: int|
                0 <= r < s - first.len() && (#[trigger] rest[r]).target == t;
            assert(steps[r + first.len()].target == t);
        }
    }
}

/// A backward pass never reads a gradient that is absent: every gradient
/// that one of its steps reads was noted in the graph before the pass or is
/// assigned by an earlier step of the pass.
pub proof fn lemma_backward_reads_assigned(nodes: Seq<Node>, root: Tensor, s: int, t: Tensor)
    requires
        well_formed(nodes),
        root.index < nodes.len(),
        0 <= s < backward_steps(nodes, root).len(),
        reads(backward_steps(nodes, root)[s].value, t),
    ensures
        t.index < nodes.len(),
        nodes[t.index as int].has_gradient || exists|r: int|
            0 <= r < s && (#[trigger] backward_steps(nodes, root)[r]).target == t,
{
    let order = postorder(nodes, root);
    let seeded = marked(nodes, seq![seed(root)]);
    let steps = backward_steps(nodes, root);
    let rest = sweep(seeded, order, order.len() as int);
    lemma_postorder_topological(nodes, root);
    assert(seq![seed(root)][0].target.index == root.index);
    assert(steps == seq![seed(root)] + rest);
    if s == 0 {
        assert(steps[0] == seed(root));
    } else {
        assert(steps[s] == rest[s - 1]);
        lemma_sweep_reads_assigned(nodes, seeded, order, order.len() as int, s - 1, t);
        if seeded[t.index as int].has_gradient {
            if !nodes[t.index as int].has_gradient {
                assert(steps[0].target == t);
            }
        } else {
            let r = choose|r: int| 0 <= r < s - 1 && (#[trigger] rest[r]).target == t;
            assert(steps[r + 1].target == t);
        }
    }
}


/// The turn of a leaf in a sweep changes nothing: the steps and the graph
/// are those of the sweep without it.
pub proof fn lemma_leaf_turn_changes_nothing(nodes: Seq<Node>, order: Seq<Tensor>, upto: int)
    requires
        0 < upto <= order.len(),
        order[upto - 1].index < nodes.len(),
        nodes[order[upto - 1].index as int].operation is Leaf,
    ensures
        sweep(nodes, order, upto) == sweep(nodes, order, upto - 1),
        swept(nodes, order, upto) == swept(nodes, order, upto - 1),
{
    lemma_leaf_has_no_steps(nodes, order[upto - 1]);
    assert(Seq::<Step>::empty() + sweep(nodes, order, upto - 1) =~= sweep(nodes, order, upto - 1));
}

/// A sum of two different nodes passes its gradient through, whatever the
/// nodes are: in the backward pass from the sum, the seed is followed by
/// the two steps that add the gradient of the sum, unchanged, to what the
/// left and the right input had received.
pub proof fn lemma_sum_hands_gradient_on(nodes: Seq<Node>, out: Tensor)
    requires
        well_formed(nodes),
        out.index < nodes.len(),
        nodes[out.index as int].operation is Add,
        nodes[out.index as int].inputs[0] != nodes[out.index as int].inputs[1],
    ensures
        backward_steps(nodes, out).len() >= 3,
        backward_steps(nodes, out)[0] == seed(out),
        backward_steps(nodes, out)[1] == accumulate(
            nodes,
            nodes[out.index as int].inputs[0],
            Expr::Grad(out),
        ),
        backward_steps(nodes, out)[2] == accumulate(
            nodes,
            nodes[out.index as int].inputs[1],
            Expr::Grad(out),
        ),
{
    let left = nodes[out.index as int].inputs[0];
    let right = nodes[out.index as int].inputs[1];
    let order = postorder(nodes, out);
    let seeded = marked(nodes, seq![seed(out)]);
    lemma_postorder_topological(nodes, out);
    assert(left.index < out.index && right.index < out.index);
    assert(!assigns(seq![seed(out)], left.index as int));
    assert(!assigns(seq![seed(out)], right.index as int));
    let first = rule(seeded, out);
    let rest = sweep(marked(seeded, first), order, order.len() - 1);
    assert(sweep(seeded, order, order.len() as int) == first + rest);
    assert(first.len() == 2);
    let steps = backward_steps(nodes, out);
    assert(steps == seq![seed(out)] + (first + rest));
    assert(steps[1] == first[0]);
    assert(steps[2] == first[1]);
}

/// A sweep removes no note of a gradient.
pub proof fn lemma_sweep_keeps_notes(nodes: Seq<Node>, order: Seq<Tensor>, upto: int, i: int)
    requires
        0 <= i < nodes.len(),
        nodes[i].has_gradient,
    ensures
        swept(nodes, order, upto)[i].has_gradient,
    decreases upto,
{
    if upto > 0 {
        let next = marked(nodes, rule(nodes, order[upto - 1]));
        lemma_sweep_keeps_notes(next, order, upto - 1, i);
    }
}

/// A sweep notes gradients only for nodes of the order it follows.
proof fn lemma_sweep_notes_members(
    base: Seq<Node>,
    state: Seq<Node>,
    order: Seq<Tensor>,
    upto: int,
    i: int,
)
    requires
        well_formed(base),
        same_structure(base, state),
        sorted(base, order),
        0 <= upto <= order.len(),
        0 <= i < base.len(),
        swept(state, order, upto)[i].has_gradient,
    ensures
        state[i].has_gradient || exists|p: int|
            0 <= p < order.len() && (#[trigger] order[p]).index == i,
    decreases upto,
{
    if upto > 0 {
        let out = order[upto - 1];
        let first = rule(state, out);
        let next = marked(state, first);
        lemma_flags_keep_wf(base, state);
        lemma_sweep_notes_members(base, next, order, upto - 1, i);
        if next[i].has_gradient && !state[i].has_gradient {
            let s = choose|s: int| 0 <= s < first.len() && (#[trigger] first[s]).target.index == i;
            lemma_steps_assign_inputs(state, out, s);
            let inputs = base[out.index as int].inputs;
            assert(state[out.index as int].inputs == inputs);
            let k = choose|k: int| 0 <= k < inputs.len() && inputs[k] == first[s].target;
            assert(stands_before(order, upto - 1, base[order[upto - 1].index as int].inputs[k]));
            let q = choose|q: int| 0 <= q < upto - 1 && #[trigger] order[q] == inputs[k];
            assert(order[q].index == i);
        }
    }
}

/// At the end of a sweep everything that was to be handed on is noted.
proof fn lemma_sweep_hands_on(base: Seq<Node>, state: Seq<Node>, order: Seq<Tensor>, upto: int)
    requires
        well_formed(base),
        same_structure(base, state),
        topological(base, order.last(), order),
        0 <= upto <= order.len(),
        handed_on(base, state, order, upto),
    ensures
        handed_on(base, swept(state, order, upto), order, 0),
        same_structure(base, swept(state, order, upto)),
    decreases upto,
{
    if upto > 0 {
        lemma_turn_hands_on(base, state, order, upto);
        lemma_sweep_hands_on(base, marked(state, rule(state, order[upto - 1])), order, upto - 1);
    }
}

/// What a backward pass changes: after the pass from `root`, a node has a
/// gradient exactly if it had one before or `root` depends on it. The notes
/// of all other nodes stay as they were.
pub proof fn lemma_backward_notes_what_is_reached(nodes: Seq<Node>, root: Tensor, x: Tensor)
    requires
        well_formed(nodes),
        root.index < nodes.len(),
        x.index < nodes.len(),
    ensures
        backward_marks(nodes, root)[x.index as int].has_gradient <==> nodes[x.index as int].has_gradient
            || reaches(nodes, root, x),
{
    let order = postorder(nodes, root);
    let seeded = marked(nodes, seq![seed(root)]);
    let after = backward_marks(nodes, root);
    let i = x.index as int;
    lemma_postorder_topological(nodes, root);
    assert(seq![seed(root)][0].target.index == root.index);
    if nodes[i].has_gradient {
        lemma_sweep_keeps_notes(seeded, order, order.len() as int, i);
    }
    if reaches(nodes, root, x) {
        assert(order.contains(x));
        let p = choose|p: int| 0 <= p < order.len() && order[p] == x;
        lemma_sweep_hands_on(nodes, seeded, order, order.len() as int);
        if p < order.len() - 1 {
            let at = lemma_consumer_stands_later(nodes, root, order, p);
            assert(after[nodes[order[at.0].index as int].inputs[at.1].index as int].has_gradient);
        }
    }
    if after[i].has_gradient && !nodes[i].has_gradient {
        lemma_sweep_notes_members(nodes, seeded, order, order.len() as int, i);
        if seeded[i].has_gradient {
            assert(x == root);
        } else {
            let p = choose|p: int| 0 <= p < order.len() && (#[trigger] order[p]).index == i;
            assert(order[p] == x);
            assert(order.contains(x));
        }
    }
}

} // verus!
