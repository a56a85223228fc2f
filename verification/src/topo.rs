//! The order in which the backward pass walks the nodes.
//!
//! A depth-first walk from a node, guarded by the set of identities that it
//! has come by, lists every node that the node depends on once, each after
//! all of its own inputs, and the node itself last.

use std::collections::HashSet;
use vstd::prelude::*;

use crate::tensor::{well_formed, Graph, Node, Tensor};

verus! {

/// Whether the value of `from` depends on `to`: they are the same node, or
/// an input of `from` depends on `to`.
pub open spec fn reaches(nodes: Seq<Node>, from: Tensor, to: Tensor) -> bool
    decreases from.index,
{
    ||| from == to
    ||| from.index < nodes.len() && exists|k: int|
        {
            &&& 0 <= k < nodes[from.index as int].inputs.len()
            &&& (#[trigger] nodes[from.index as int].inputs[k]).index < from.index
            &&& reaches(nodes, nodes[from.index as int].inputs[k], to)
        }
}

/// The identity of the node that `t` names.
pub open spec fn identity_of(nodes: Seq<Node>, t: Tensor) -> u128 {
    nodes[t.index as int].identity
}

/// The identities of the nodes of `list`.
pub open spec fn marks(nodes: Seq<Node>, list: Seq<Tensor>) -> Set<u128> {
    Set::new(
        |identity: u128|
            exists|p: int| 0 <= p < list.len() && identity_of(nodes, #[trigger] list[p]) == identity,
    )
}

/// What a walk that arrives at `t` lists, `seen` being the identities it has
/// come by: nothing if `seen` holds the identity of `t`; otherwise what the
/// walks of its inputs list, in operand order, and then `t`.
pub open spec fn walk(nodes: Seq<Node>, t: Tensor, seen: Set<u128>) -> Seq<Tensor>
    decreases t.index, 1int, 0int,
{
    if t.index >= nodes.len() || seen.contains(identity_of(nodes, t)) {
        Seq::empty()
    } else {
        walk_inputs(nodes, t, 0, seen.insert(identity_of(nodes, t))).push(t)
    }
}

/// What the walks of the inputs of `t` from position `from` on list, each
/// under the identities that the walks before it have come by.
pub open spec fn walk_inputs(nodes: Seq<Node>, t: Tensor, from: int, seen: Set<u128>) -> Seq<
    Tensor,
>
    decreases t.index, 0int, nodes[t.index as int].inputs.len() - from,
{
    if t.index < nodes.len() && 0 <= from < nodes[t.index as int].inputs.len() {
        let input = nodes[t.index as int].inputs[from];
        let first = if input.index < t.index {
            walk(nodes, input, seen)
        } else {
            Seq::empty()
        };
        first + walk_inputs(nodes, t, from + 1, seen.union(marks(nodes, first)))
    } else {
        Seq::empty()
    }
}

/// The nodes that `root` depends on, in the order of the depth-first walk
/// that starts at `root` and has come by nothing yet.
pub open spec fn postorder(nodes: Seq<Node>, root: Tensor) -> Seq<Tensor> {
    walk(nodes, root, Set::empty())
}

/// Whether `t` stands in `order` before position `p`.
pub open spec fn stands_before(order: Seq<Tensor>, p: int, t: Tensor) -> bool {
    exists|q: int| 0 <= q < p && #[trigger] order[q] == t
}

/// Whether every input of every member of `order` stands in `order` before
/// that member.
pub open spec fn inputs_precede(nodes: Seq<Node>, order: Seq<Tensor>) -> bool {
    forall|p: int, k: int|
        0 <= p < order.len() && 0 <= k < nodes[order[p].index as int].inputs.len()
            ==> #[trigger] stands_before(order, p, nodes[order[p].index as int].inputs[k])
}

/// Whether `order` lists nodes of `nodes` only, none of them twice, and each
/// after all of its inputs.
pub open spec fn sorted(nodes: Seq<Node>, order: Seq<Tensor>) -> bool {
    &&& order.no_duplicates()
    &&& forall|p: int| 0 <= p < order.len() ==> (#[trigger] order[p]).index < nodes.len()
    &&& inputs_precede(nodes, order)
}

/// Whether `order` is a topological order of what `root` depends on: it is
/// sorted, it ends with `root`, it lists exactly the nodes that `root`
/// reaches, and no identity occurs in it twice.
pub open spec fn topological(nodes: Seq<Node>, root: Tensor, order: Seq<Tensor>) -> bool {
    &&& sorted(nodes, order)
    &&& order.len() > 0
    &&& order.last() == root
    &&& forall|t: Tensor| order.contains(t) <==> reaches(nodes, root, t)
    &&& forall|p: int, q: int|
        0 <= p < q < order.len() ==> nodes[(#[trigger] order[p]).index as int].identity
            != nodes[(#[trigger] order[q]).index as int].identity
}

/// Whether `seen` holds, with every node recorded before position `bound`
/// that it holds, the inputs of that node.
pub open spec fn closed_below(nodes: Seq<Node>, seen: Set<u128>, bound: int) -> bool {
    forall|x: Tensor, k: int|
        x.index < bound && x.index < nodes.len() && seen.contains(identity_of(nodes, x)) && 0 <= k
            < nodes[x.index as int].inputs.len() ==> seen.contains(
            identity_of(nodes, #[trigger] nodes[x.index as int].inputs[k]),
        )
}

/// Whether `list` holds nodes of `nodes` only, none twice and none that
/// `seen` holds, and every input of a member is held by `seen` or stands
/// before the member.
pub open spec fn fresh_and_sorted(nodes: Seq<Node>, seen: Set<u128>, list: Seq<Tensor>) -> bool {
    &&& list.no_duplicates()
    &&& forall|p: int|
        0 <= p < list.len() ==> (#[trigger] list[p]).index < nodes.len() && !seen.contains(
            identity_of(nodes, list[p]),
        )
    &&& forall|p: int, k: int|
        0 <= p < list.len() && 0 <= k < nodes[list[p].index as int].inputs.len() ==> seen.contains(
            identity_of(nodes, nodes[list[p].index as int].inputs[k]),
        ) || #[trigger] stands_before(list, p, nodes[list[p].index as int].inputs[k])
}

/// Whether an input of `t` at position `from` or later reaches `x`.
pub open spec fn input_reaches(nodes: Seq<Node>, t: Tensor, from: int, x: Tensor) -> bool {
    exists|k: int|
        from <= k < nodes[t.index as int].inputs.len() && reaches(
            nodes,
            #[trigger] nodes[t.index as int].inputs[k],
            x,
        )
}


/// The identities of a list of two parts are those of the parts.
pub proof fn lemma_marks_of_parts(nodes: Seq<Node>, first: Seq<Tensor>, rest: Seq<Tensor>)
    ensures
        marks(nodes, first + rest) == marks(nodes, first).union(marks(nodes, rest)),
{
    let whole = first + rest;
    assert forall|identity: u128|
        marks(nodes, whole).contains(identity) <==> marks(nodes, first).contains(identity) || marks(
            nodes,
            rest,
        ).contains(identity) by {
        if marks(nodes, whole).contains(identity) {
            let p = choose|p: int|
                0 <= p < whole.len() && identity_of(nodes, #[trigger] whole[p]) == identity;
            if p < first.len() {
                assert(identity_of(nodes, first[p]) == identity);
            } else {
                assert(identity_of(nodes, rest[p - first.len()]) == identity);
            }
        }
        if marks(nodes, first).contains(identity) {
            let p = choose|p: int|
                0 <= p < first.len() && identity_of(nodes, #[trigger] first[p]) == identity;
            assert(identity_of(nodes, whole[p]) == identity);
        }
        if marks(nodes, rest).contains(identity) {
            let p = choose|p: int|
                0 <= p < rest.len() && identity_of(nodes, #[trigger] rest[p]) == identity;
            assert(identity_of(nodes, whole[p + first.len()]) == identity);
        }
    }
    assert(marks(nodes, whole) =~= marks(nodes, first).union(marks(nodes, rest)));
}

/// The identities of a list with one node appended.
pub proof fn lemma_marks_of_push(nodes: Seq<Node>, list: Seq<Tensor>, t: Tensor)
    ensures
        marks(nodes, list.push(t)) == marks(nodes, list).insert(identity_of(nodes, t)),
{
    assert(list.push(t) =~= list + seq![t]);
    lemma_marks_of_parts(nodes, list, seq![t]);
    assert(marks(nodes, seq![t]) =~= Set::empty().insert(identity_of(nodes, t))) by {
        assert(identity_of(nodes, seq![t][0]) == identity_of(nodes, t));
    }
    assert(marks(nodes, list.push(t)) =~= marks(nodes, list).insert(identity_of(nodes, t)));
}

/// An empty list has no identities.
pub proof fn lemma_marks_of_nothing(nodes: Seq<Node>)
    ensures
        marks(nodes, Seq::empty()) == Set::<u128>::empty(),
{
    assert(marks(nodes, Seq::empty()) =~= Set::<u128>::empty());
}

/// In a well-formed graph, a listed node is the only node with its identity.
pub proof fn lemma_marked_is_listed(nodes: Seq<Node>, list: Seq<Tensor>, x: Tensor)
    requires
        well_formed(nodes),
        x.index < nodes.len(),
        forall|p: int| 0 <= p < list.len() ==> (#[trigger] list[p]).index < nodes.len(),
        marks(nodes, list).contains(identity_of(nodes, x)),
    ensures
        list.contains(x),
{
    let p = choose|p: int|
        0 <= p < list.len() && identity_of(nodes, #[trigger] list[p]) == identity_of(nodes, x);
    let i = list[p].index as int;
    let j = x.index as int;
    if i < j {
        assert(nodes[i].identity != nodes[j].identity);
    } else if j < i {
        assert(nodes[j].identity != nodes[i].identity);
    }
    assert(list[p] == x);
}

/// A node reaches only nodes recorded no later than itself.
pub proof fn lemma_reached_is_earlier(nodes: Seq<Node>, from: Tensor, to: Tensor)
    requires
        reaches(nodes, from, to),
    ensures
        to.index <= from.index,
    decreases from.index,
{
    if from != to {
        let k = choose|k: int|
            {
                &&& 0 <= k < nodes[from.index as int].inputs.len()
                &&& (#[trigger] nodes[from.index as int].inputs[k]).index < from.index
                &&& reaches(nodes, nodes[from.index as int].inputs[k], to)
            };
        lemma_reached_is_earlier(nodes, nodes[from.index as int].inputs[k], to);
    }
}


/// What a walk lists, when it arrives at a node under identities that are
/// closed below a bound above the node: exactly the nodes that the node
/// reaches and the walk has not come by, each once and after those of its
/// inputs that the walk had not come by, the node itself last. The
/// identities stay closed below the bound.
pub proof fn lemma_walk(nodes: Seq<Node>, t: Tensor, seen: Set<u128>, bound: int)
    requires
        well_formed(nodes),
        t.index < nodes.len(),
        t.index < bound,
        closed_below(nodes, seen, bound),
    ensures
        fresh_and_sorted(nodes, seen, walk(nodes, t, seen)),
        forall|p: int|
            0 <= p < walk(nodes, t, seen).len() ==> (#[trigger] walk(nodes, t, seen)[p]).index
                <= t.index,
        forall|x: Tensor|
            walk(nodes, t, seen).contains(x) <==> reaches(nodes, t, x) && !seen.contains(
                identity_of(nodes, x),
            ),
        closed_below(nodes, seen.union(marks(nodes, walk(nodes, t, seen))), bound),
        !seen.contains(identity_of(nodes, t)) ==> walk(nodes, t, seen).len() > 0 && walk(
            nodes,
            t,
            seen,
        ).last() == t,
    decreases t.index, 1int, 0int,
{
    let list = walk(nodes, t, seen);
    let after = seen.union(marks(nodes, list));
    if seen.contains(identity_of(nodes, t)) {
        assert(list == Seq::<Tensor>::empty());
        lemma_marks_of_nothing(nodes);
        assert(after =~= seen);
        assert forall|x: Tensor| reaches(nodes, t, x) implies seen.contains(
            identity_of(nodes, x),
        ) by {
            lemma_closed_holds_reached(nodes, seen, bound, t, x);
        }
    } else {
        let own = identity_of(nodes, t);
        let begun = seen.insert(own);
        assert(closed_below(nodes, begun, t.index as int)) by {
            assert forall|x: Tensor, k: int|
                x.index < t.index && x.index < nodes.len() && begun.contains(identity_of(nodes, x))
                    && 0 <= k < nodes[x.index as int].inputs.len() implies begun.contains(
                identity_of(nodes, #[trigger] nodes[x.index as int].inputs[k]),
            ) by {
                assert(nodes[x.index as int].identity != nodes[t.index as int].identity);
                assert(seen.contains(identity_of(nodes, nodes[x.index as int].inputs[k])));
            }
        }
        let inner = walk_inputs(nodes, t, 0, begun);
        lemma_walk_inputs(nodes, t, 0, begun);
        assert(list == inner.push(t));
        lemma_marks_of_push(nodes, inner, t);
        assert(after =~= begun.union(marks(nodes, inner)));
        assert(!inner.contains(t)) by {
            if inner.contains(t) {
                let p = choose|p: int| 0 <= p < inner.len() && inner[p] == t;
                assert(inner[p].index < t.index);
            }
        }
        assert forall|x: Tensor| list.contains(x) <==> reaches(nodes, t, x) && !seen.contains(
            identity_of(nodes, x),
        ) by {
            lemma_push_holds(inner, t, x);
            if inner.contains(x) {
                assert(input_reaches(nodes, t, 0, x));
                let k = choose|k: int|
                    0 <= k < nodes[t.index as int].inputs.len() && reaches(
                        nodes,
                        #[trigger] nodes[t.index as int].inputs[k],
                        x,
                    );
                assert(nodes[t.index as int].inputs[k].index < t.index);
                assert(reaches(nodes, t, x));
                assert(!begun.contains(identity_of(nodes, x)));
            }
            if reaches(nodes, t, x) && !seen.contains(identity_of(nodes, x)) && x != t {
                let k = choose|k: int|
                    {
                        &&& 0 <= k < nodes[t.index as int].inputs.len()
                        &&& (#[trigger] nodes[t.index as int].inputs[k]).index < t.index
                        &&& reaches(nodes, nodes[t.index as int].inputs[k], x)
                    };
                lemma_reached_is_earlier(nodes, nodes[t.index as int].inputs[k], x);
                assert(nodes[x.index as int].identity != nodes[t.index as int].identity);
                assert(input_reaches(nodes, t, 0, x));
            }
        }
        assert(fresh_and_sorted(nodes, seen, list)) by {
            assert forall|p: int, k: int|
                0 <= p < list.len() && 0 <= k < nodes[list[p].index as int].inputs.len() implies seen.contains(
                identity_of(nodes, nodes[list[p].index as int].inputs[k]),
            ) || #[trigger] stands_before(list, p, nodes[list[p].index as int].inputs[k]) by {
                let input = nodes[list[p].index as int].inputs[k];
                if !seen.contains(identity_of(nodes, input)) {
                    if p < inner.len() {
                        assert(list[p] == inner[p]);
                        assert(inner[p].index < t.index);
                        assert(input.index < inner[p].index);
                        assert(nodes[input.index as int].identity != nodes[t.index as int].identity);
                        assert(begun.contains(identity_of(nodes, input)) || stands_before(inner, p, nodes[inner[p].index as int].inputs[k]));
                        let q = choose|q: int| 0 <= q < p && #[trigger] inner[q] == input;
                        assert(list[q] == input);
                    } else {
                        assert(list[p] == t);
                        assert(input.index < t.index);
                        assert(nodes[input.index as int].identity != nodes[t.index as int].identity);
                        assert(reaches(nodes, input, input));
                        assert(input_reaches(nodes, t, 0, input));
                        assert(inner.contains(input));
                        let q = choose|q: int| 0 <= q < inner.len() && inner[q] == input;
                        assert(list[q] == input);
                    }
                }
            }
        }
        assert(closed_below(nodes, after, bound)) by {
            assert forall|x: Tensor, k: int|
                x.index < bound && x.index < nodes.len() && after.contains(identity_of(nodes, x))
                    && 0 <= k < nodes[x.index as int].inputs.len() implies after.contains(
                identity_of(nodes, #[trigger] nodes[x.index as int].inputs[k]),
            ) by {
                let input = nodes[x.index as int].inputs[k];
                if !seen.contains(identity_of(nodes, x)) {
                    lemma_marked_is_listed(nodes, list, x);
                    let p = choose|p: int| 0 <= p < list.len() && list[p] == x;
                    assert(seen.contains(identity_of(nodes, nodes[list[p].index as int].inputs[k]))
                        || stands_before(list, p, nodes[list[p].index as int].inputs[k]));
                    if !seen.contains(identity_of(nodes, input)) {
                        let q = choose|q: int| 0 <= q < p && #[trigger] list[q] == input;
                        assert(identity_of(nodes, list[q]) == identity_of(nodes, input));
                    }
                }
            }
        }
    }
}

/// What the walks of the inputs of a node list, from a position on, when
/// the node is marked and the identities are closed below it: exactly the
/// nodes that one of these inputs reaches and the walk has not come by.
pub proof fn lemma_walk_inputs(nodes: Seq<Node>, t: Tensor, from: int, seen: Set<u128>)
    requires
        well_formed(nodes),
        t.index < nodes.len(),
        0 <= from <= nodes[t.index as int].inputs.len(),
        closed_below(nodes, seen, t.index as int),
    ensures
        fresh_and_sorted(nodes, seen, walk_inputs(nodes, t, from, seen)),
        forall|p: int|
            0 <= p < walk_inputs(nodes, t, from, seen).len() ==> (#[trigger] walk_inputs(
                nodes,
                t,
                from,
                seen,
            )[p]).index < t.index,
        forall|x: Tensor|
            walk_inputs(nodes, t, from, seen).contains(x) <==> input_reaches(nodes, t, from, x)
                && !seen.contains(identity_of(nodes, x)),
        closed_below(
            nodes,
            seen.union(marks(nodes, walk_inputs(nodes, t, from, seen))),
            t.index as int,
        ),
    decreases t.index, 0int, nodes[t.index as int].inputs.len() - from,
{
    let inputs = nodes[t.index as int].inputs;
    let list = walk_inputs(nodes, t, from, seen);
    if from < inputs.len() {
        let input = inputs[from];
        assert(input.index < t.index);
        let first = walk(nodes, input, seen);
        lemma_walk(nodes, input, seen, t.index as int);
        let then = seen.union(marks(nodes, first));
        let rest = walk_inputs(nodes, t, from + 1, then);
        lemma_walk_inputs(nodes, t, from + 1, then);
        assert(list == first + rest);
        lemma_marks_of_parts(nodes, first, rest);
        assert(seen.union(marks(nodes, list)) =~= then.union(marks(nodes, rest)));
        assert forall|x: Tensor| list.contains(x) <==> input_reaches(nodes, t, from, x)
            && !seen.contains(identity_of(nodes, x)) by {
            lemma_parts_hold(first, rest, x);
            if first.contains(x) {
                assert(reaches(nodes, inputs[from], x));
            }
            if rest.contains(x) {
                assert(input_reaches(nodes, t, from + 1, x));
                let k = choose|k: int|
                    from + 1 <= k < inputs.len() && reaches(nodes, #[trigger] inputs[k], x);
                assert(input_reaches(nodes, t, from, x));
                assert(!then.contains(identity_of(nodes, x)));
            }
            if input_reaches(nodes, t, from, x) && !seen.contains(identity_of(nodes, x))
                && !first.contains(x) {
                let k = choose|k: int| from <= k < inputs.len() && reaches(nodes, #[trigger] inputs[k], x);
                assert(k != from);
                assert(input_reaches(nodes, t, from + 1, x));
                lemma_reached_is_earlier(nodes, inputs[k], x);
                if marks(nodes, first).contains(identity_of(nodes, x)) {
                    lemma_marked_is_listed(nodes, first, x);
                }
            }
        }
        assert(list.no_duplicates()) by {
            assert forall|i: int, j: int| 0 <= i < j < list.len() implies list[i] != list[j] by {
                if j < first.len() {
                    assert(first[i] != first[j]);
                } else if i >= first.len() {
                    assert(rest[i - first.len()] != rest[j - first.len()]);
                } else {
                    assert(list[i] == first[i]);
                    assert(list[j] == rest[j - first.len()]);
                    assert(!then.contains(identity_of(nodes, rest[j - first.len()])));
                    assert(identity_of(nodes, first[i]) == identity_of(nodes, list[i]));
                    assert(marks(nodes, first).contains(identity_of(nodes, first[i])));
                }
            }
        }
        assert forall|p: int|
            0 <= p < list.len() implies (#[trigger] list[p]).index < nodes.len() && !seen.contains(
            identity_of(nodes, list[p]),
        ) && list[p].index < t.index by {
            if p < first.len() {
                assert(list[p] == first[p]);
            } else {
                assert(list[p] == rest[p - first.len()]);
                assert(!then.contains(identity_of(nodes, rest[p - first.len()])));
            }
        }
        assert forall|p: int, k: int|
            0 <= p < list.len() && 0 <= k < nodes[list[p].index as int].inputs.len() implies seen.contains(
            identity_of(nodes, nodes[list[p].index as int].inputs[k]),
        ) || #[trigger] stands_before(list, p, nodes[list[p].index as int].inputs[k]) by {
            let wanted = nodes[list[p].index as int].inputs[k];
            if !seen.contains(identity_of(nodes, wanted)) {
                if p < first.len() {
                    assert(list[p] == first[p]);
                    assert(seen.contains(identity_of(nodes, nodes[first[p].index as int].inputs[k]))
                        || stands_before(first, p, nodes[first[p].index as int].inputs[k]));
                    let q = choose|q: int| 0 <= q < p && #[trigger] first[q] == wanted;
                    assert(list[q] == wanted);
                } else {
                    let r = p - first.len();
                    assert(list[p] == rest[r]);
                    assert(then.contains(identity_of(nodes, nodes[rest[r].index as int].inputs[k]))
                        || stands_before(rest, r, nodes[rest[r].index as int].inputs[k]));
                    if then.contains(identity_of(nodes, wanted)) {
                        assert(wanted.index < rest[r].index);
                        lemma_marked_is_listed(nodes, first, wanted);
                        let q = choose|q: int| 0 <= q < first.len() && first[q] == wanted;
                        assert(list[q] == wanted);
                    } else {
                        let q = choose|q: int| 0 <= q < r && #[trigger] rest[q] == wanted;
                        assert(list[q + first.len()] == wanted);
                    }
                }
            }
        }
    } else {
        assert(list == Seq::<Tensor>::empty());
        lemma_marks_of_nothing(nodes);
        assert(seen.union(marks(nodes, list)) =~= seen);
    }
}

/// Identities that are closed below a bound hold, with a node below the
/// bound, every node that it reaches.
pub proof fn lemma_closed_holds_reached(
    nodes: Seq<Node>,
    seen: Set<u128>,
    bound: int,
    from: Tensor,
    to: Tensor,
)
    requires
        from.index < bound,
        from.index < nodes.len(),
        closed_below(nodes, seen, bound),
        seen.contains(identity_of(nodes, from)),
        reaches(nodes, from, to),
    ensures
        seen.contains(identity_of(nodes, to)),
    decreases from.index,
{
    if from != to {
        let k = choose|k: int|
            {
                &&& 0 <= k < nodes[from.index as int].inputs.len()
                &&& (#[trigger] nodes[from.index as int].inputs[k]).index < from.index
                &&& reaches(nodes, nodes[from.index as int].inputs[k], to)
            };
        lemma_closed_holds_reached(nodes, seen, bound, nodes[from.index as int].inputs[k], to);
    }
}

/// A list with one node appended holds that node and what it held before.
proof fn lemma_push_holds(list: Seq<Tensor>, last: Tensor, t: Tensor)
    ensures
        list.push(last).contains(t) <==> list.contains(t) || t == last,
{
    let longer = list.push(last);
    if list.contains(t) {
        let p = choose|p: int| 0 <= p < list.len() && list[p] == t;
        assert(longer[p] == t);
    }
    if t == last {
        assert(longer[list.len() as int] == t);
    }
    if longer.contains(t) {
        let p = choose|p: int| 0 <= p < longer.len() && longer[p] == t;
        if p < list.len() {
            assert(list[p] == t);
        }
    }
}

/// A list of two parts holds what the parts hold.
proof fn lemma_parts_hold(first: Seq<Tensor>, rest: Seq<Tensor>, t: Tensor)
    ensures
        (first + rest).contains(t) <==> first.contains(t) || rest.contains(t),
{
    let whole = first + rest;
    if first.contains(t) {
        let p = choose|p: int| 0 <= p < first.len() && first[p] == t;
        assert(whole[p] == t);
    }
    if rest.contains(t) {
        let p = choose|p: int| 0 <= p < rest.len() && rest[p] == t;
        assert(whole[p + first.len()] == t);
    }
    if whole.contains(t) {
        let p = choose|p: int| 0 <= p < whole.len() && whole[p] == t;
        if p < first.len() {
            assert(first[p] == t);
        } else {
            assert(rest[p - first.len()] == t);
        }
    }
}


/// A sorted list that holds a node holds every node that it reaches.
pub proof fn lemma_sorted_holds_reached(
    nodes: Seq<Node>,
    order: Seq<Tensor>,
    from: Tensor,
    to: Tensor,
)
    requires
        sorted(nodes, order),
        order.contains(from),
        reaches(nodes, from, to),
    ensures
        order.contains(to),
    decreases from.index,
{
    if from != to {
        let k = choose|k: int|
            {
                &&& 0 <= k < nodes[from.index as int].inputs.len()
                &&& (#[trigger] nodes[from.index as int].inputs[k]).index < from.index
                &&& reaches(nodes, nodes[from.index as int].inputs[k], to)
            };
        let input = nodes[from.index as int].inputs[k];
        let p = choose|p: int| 0 <= p < order.len() && order[p] == from;
        assert(stands_before(order, p, nodes[order[p].index as int].inputs[k]));
        let q = choose|q: int| 0 <= q < p && #[trigger] order[q] == input;
        assert(order.contains(input));
        lemma_sorted_holds_reached(nodes, order, input, to);
    }
}

/// In a sorted list every node stands at a greater position than each of
/// its inputs.
pub proof fn lemma_inputs_stand_earlier(nodes: Seq<Node>, order: Seq<Tensor>, p: int, q: int)
    requires
        sorted(nodes, order),
        0 <= p < order.len(),
        0 <= q < order.len(),
        nodes[order[p].index as int].inputs.contains(order[q]),
    ensures
        q < p,
{
    let inputs = nodes[order[p].index as int].inputs;
    let k = choose|k: int| 0 <= k < inputs.len() && inputs[k] == order[q];
    assert(stands_before(order, p, nodes[order[p].index as int].inputs[k]));
    let earlier = choose|earlier: int| 0 <= earlier < p && #[trigger] order[earlier] == order[q];
    assert(earlier == q);
}

/// The depth-first walk from a node of a well-formed graph yields a
/// topological order of what the node depends on: every node stands after
/// each of its inputs, the node the walk started at stands last, and every
/// node it reaches is listed exactly once, however many paths lead to it.
pub proof fn lemma_postorder_topological(nodes: Seq<Node>, root: Tensor)
    requires
        well_formed(nodes),
        root.index < nodes.len(),
    ensures
        topological(nodes, root, postorder(nodes, root)),
{
    let order = postorder(nodes, root);
    let nothing = Set::<u128>::empty();
    lemma_walk(nodes, root, nothing, nodes.len() as int);
    assert forall|p: int, k: int|
        0 <= p < order.len() && 0 <= k < nodes[order[p].index as int].inputs.len()
        implies #[trigger] stands_before(order, p, nodes[order[p].index as int].inputs[k]) by {
        assert(nothing.contains(identity_of(nodes, nodes[order[p].index as int].inputs[k]))
            || stands_before(order, p, nodes[order[p].index as int].inputs[k]));
    }
    assert forall|p: int, q: int| 0 <= p < q < order.len() implies nodes[(
    #[trigger] order[p]).index as int].identity != nodes[(#[trigger] order[q]).index as int].identity by {
        assert(order[p] != order[q]);
        assert(order[p].index != order[q].index);
    }
}

impl Tensor {
    /// Walks the nodes that this node depends on, unless `visited` holds its
    /// identity already: marks it, walks its inputs in operand order, and
    /// appends it to `topo`.
    fn _build_topo(&self, graph: &Graph, topo: &mut Vec<Tensor>, visited: &mut HashSet<u128>)
        requires
            graph.wf(),
            graph.contains(*self),
        ensures
            final(topo)@ == old(topo)@ + walk(graph@, *self, old(visited)@),
            final(visited)@ == old(visited)@.union(
                marks(graph@, walk(graph@, *self, old(visited)@)),
            ),
        decreases self.index,
    {
        let ghost nodes = graph@;
        let ghost topo_before = topo@;
        let ghost seen = visited@;
        let data = match graph.node(*self) {
            Some(data) => data,
            None => { return ; },
        };
        assert(identity_of(nodes, *self) == data.identity);
        if visited.insert(data.identity) {
            let ghost begun = seen.insert(data.identity);
            let ghost inner = walk_inputs(nodes, *self, 0, begun);
            let count = data.inputs.len();
            let mut k: usize = 0;
            while k < count
                invariant
                    k <= count,
                    count == data.inputs.len(),
                    nodes == graph@,
                    graph.wf(),
                    graph.contains(*self),
                    data@ == nodes[self.index as int],
                    inner == walk_inputs(nodes, *self, 0, begun),
                    topo@ + walk_inputs(nodes, *self, k as int, visited@) == topo_before + inner,
                    visited@.union(marks(nodes, walk_inputs(nodes, *self, k as int, visited@)))
                        == begun.union(marks(nodes, inner)),
                decreases count - k,
            {
                let input = data.inputs[k];
                let ghost topo_here = topo@;
                let ghost seen_here = visited@;
                assert(input == nodes[self.index as int].inputs[k as int]);
                assert(input.index < self.index);
                input._build_topo(graph, topo, visited);
                proof {
                    let first = walk(nodes, input, seen_here);
                    let rest = walk_inputs(nodes, *self, k as int + 1, visited@);
                    assert(walk_inputs(nodes, *self, k as int, seen_here) == first + rest);
                    assert(topo@ + rest =~= topo_here + (first + rest));
                    lemma_marks_of_parts(nodes, first, rest);
                    assert(visited@.union(marks(nodes, rest)) =~= seen_here.union(
                        marks(nodes, first + rest),
                    ));
                }
                k += 1;
            }
            proof {
                assert(walk_inputs(nodes, *self, count as int, visited@) == Seq::<Tensor>::empty());
                lemma_marks_of_nothing(nodes);
                assert(topo@ =~= topo_before + inner);
                assert(visited@ =~= begun.union(marks(nodes, inner)));
            }
            topo.push(*self);
            proof {
                assert(walk(nodes, *self, seen) == inner.push(*self));
                assert(topo@ =~= topo_before + inner.push(*self));
                lemma_marks_of_push(nodes, inner, *self);
                assert(visited@ =~= seen.union(marks(nodes, inner.push(*self))));
            }
        } else {
            proof {
                assert(walk(nodes, *self, seen) == Seq::<Tensor>::empty());
                lemma_marks_of_nothing(nodes);
                assert(topo@ =~= topo_before + Seq::<Tensor>::empty());
                assert(visited@ =~= seen.union(Set::<u128>::empty()));
            }
        }
    }

    /// The nodes that this node depends on, each once and after all of its
    /// inputs, this node last: the order of the depth-first walk from it.
    pub fn build_topo(&self, graph: &Graph) -> (order: Vec<Tensor>)
        requires
            graph.wf(),
            graph.contains(*self),
        ensures
            order@ == postorder(graph@, *self),
            topological(graph@, *self, order@),
    {
        let mut topo: Vec<Tensor> = Vec::new();
        let mut visited: HashSet<u128> = HashSet::new();
        self._build_topo(graph, &mut topo, &mut visited);
        proof {
            assert(topo@ =~= postorder(graph@, *self));
            lemma_postorder_topological(graph@, *self);
        }
        topo
    }
}

} // verus!
