use tensorgrad::expr::Expr;
use tensorgrad::tensor::{Graph, Operation, Rejected, Tensor, TensorData};

fn leaf(graph: &mut Graph) -> Tensor {
    Tensor::new(TensorData::new(), graph).unwrap()
}

fn record(operation: Operation, inputs: Vec<Tensor>, identity: u128) -> TensorData {
    TensorData { has_gradient: false, operation, inputs, identity }
}

#[test]
fn arity_of_each_operation() {
    assert_eq!(Operation::Leaf.arity(), 0);
    assert_eq!(Operation::Add.arity(), 2);
    assert_eq!(Operation::Multiply.arity(), 2);
    assert_eq!(Operation::Tanh.arity(), 1);
    assert_eq!(Operation::Relu.arity(), 1);
}

#[test]
fn new_graph_is_empty() {
    let graph = Graph::new();
    assert_eq!(graph.len(), 0);
    assert!(!graph.contains(Tensor { index: 0 }));
    assert!(graph.node(Tensor { index: 0 }).is_none());
    assert!(!graph.has_identity(7));
}

#[test]
fn leaf_record_has_no_inputs_and_no_gradient() {
    let data = TensorData::leaf(42);
    assert_eq!(data.operation, Operation::Leaf);
    assert!(data.inputs.is_empty());
    assert!(!data.has_gradient);
    assert_eq!(data.identity, 42);
}

#[test]
fn fresh_record_is_a_leaf_with_a_random_identity() {
    let data = TensorData::new();
    assert_eq!(data.operation, Operation::Leaf);
    assert!(data.inputs.is_empty());
    assert!(!data.has_gradient);
    // version 4, RFC variant
    assert_eq!((data.identity >> 76) & 0xf, 4);
    assert_eq!((data.identity >> 62) & 0x3, 2);
}

#[test]
fn fresh_identities_differ() {
    let first = TensorData::new();
    let second = TensorData::new();
    assert_ne!(first.identity, second.identity);
}

#[test]
fn handles_count_up_from_zero() {
    let mut graph = Graph::new();
    let a = leaf(&mut graph);
    let b = leaf(&mut graph);
    assert_eq!(a, Tensor { index: 0 });
    assert_eq!(b, Tensor { index: 1 });
    assert_eq!(graph.len(), 2);
    assert!(graph.contains(a) && graph.contains(b));
    assert!(!graph.contains(Tensor { index: 2 }));
}

#[test]
fn nodes_with_equal_contents_are_distinct() {
    let mut graph = Graph::new();
    let a = leaf(&mut graph);
    let b = leaf(&mut graph);
    assert_ne!(a, b);
    assert_ne!(graph.node(a).unwrap().identity, graph.node(b).unwrap().identity);
}

#[test]
fn recorded_node_is_kept_as_given() {
    let mut graph = Graph::new();
    let a = Tensor::new(TensorData::leaf(1), &mut graph).unwrap();
    let b = Tensor::new(TensorData::leaf(2), &mut graph).unwrap();
    let c = Tensor::new(record(Operation::Multiply, vec![b, a], 3), &mut graph).unwrap();
    let data = graph.node(c).unwrap();
    assert_eq!(data.operation, Operation::Multiply);
    assert_eq!(data.inputs, vec![b, a]);
    assert_eq!(data.identity, 3);
    assert!(!data.has_gradient);
    assert!(graph.has_identity(1) && graph.has_identity(2) && graph.has_identity(3));
    assert!(!graph.has_identity(4));
}

#[test]
fn wrong_arity_is_rejected() {
    let mut graph = Graph::new();
    let a = Tensor::new(TensorData::leaf(1), &mut graph).unwrap();
    assert_eq!(
        Tensor::new(record(Operation::Add, vec![a], 2), &mut graph),
        Err(Rejected::Arity)
    );
    assert_eq!(
        Tensor::new(record(Operation::Tanh, vec![a, a], 2), &mut graph),
        Err(Rejected::Arity)
    );
    assert_eq!(
        Tensor::new(record(Operation::Leaf, vec![a], 2), &mut graph),
        Err(Rejected::Arity)
    );
    assert_eq!(graph.len(), 1);
    assert!(!graph.has_identity(2));
}

#[test]
fn unknown_input_is_rejected() {
    let mut graph = Graph::new();
    let a = Tensor::new(TensorData::leaf(1), &mut graph).unwrap();
    let stranger = Tensor { index: 1 };
    assert_eq!(
        Tensor::new(record(Operation::Add, vec![a, stranger], 2), &mut graph),
        Err(Rejected::UnknownInput)
    );
    assert_eq!(graph.len(), 1);
}

#[test]
fn identity_in_use_is_rejected() {
    let mut graph = Graph::new();
    let a = Tensor::new(TensorData::leaf(1), &mut graph).unwrap();
    assert_eq!(Tensor::new(TensorData::leaf(1), &mut graph), Err(Rejected::IdentityInUse));
    assert_eq!(
        Tensor::new(record(Operation::Relu, vec![a], 1), &mut graph),
        Err(Rejected::IdentityInUse)
    );
    assert_eq!(graph.len(), 1);
}

#[test]
fn arity_is_judged_before_inputs_and_inputs_before_identity() {
    let mut graph = Graph::new();
    let a = Tensor::new(TensorData::leaf(1), &mut graph).unwrap();
    let stranger = Tensor { index: 9 };
    assert_eq!(
        Tensor::new(record(Operation::Tanh, vec![stranger, stranger], 1), &mut graph),
        Err(Rejected::Arity)
    );
    assert_eq!(
        Tensor::new(record(Operation::Add, vec![a, stranger], 1), &mut graph),
        Err(Rejected::UnknownInput)
    );
}

#[test]
fn add_records_both_operands_in_order() {
    let mut graph = Graph::new();
    let a = leaf(&mut graph);
    let b = leaf(&mut graph);
    let c = b.add(&a, &mut graph).unwrap();
    assert_eq!(c, Tensor { index: 2 });
    let data = graph.node(c).unwrap();
    assert_eq!(data.operation, Operation::Add);
    assert_eq!(data.inputs, vec![b, a]);
    assert!(!data.has_gradient);
}

#[test]
fn mul_records_both_operands_in_order() {
    let mut graph = Graph::new();
    let a = leaf(&mut graph);
    let b = leaf(&mut graph);
    let c = a.mul(&b, &mut graph).unwrap();
    let data = graph.node(c).unwrap();
    assert_eq!(data.operation, Operation::Multiply);
    assert_eq!(data.inputs, vec![a, b]);
}

#[test]
fn an_operand_may_be_used_twice() {
    let mut graph = Graph::new();
    let a = leaf(&mut graph);
    let sum = a.add(&a, &mut graph).unwrap();
    let product = a.mul(&a, &mut graph).unwrap();
    assert_eq!(graph.node(sum).unwrap().inputs, vec![a, a]);
    assert_eq!(graph.node(product).unwrap().inputs, vec![a, a]);
}

#[test]
fn tanh_and_relu_record_their_input() {
    let mut graph = Graph::new();
    let a = leaf(&mut graph);
    let t = a.tanh(&mut graph).unwrap();
    let r = a.relu(&mut graph).unwrap();
    assert_eq!(graph.node(t).unwrap().operation, Operation::Tanh);
    assert_eq!(graph.node(t).unwrap().inputs, vec![a]);
    assert_eq!(graph.node(r).unwrap().operation, Operation::Relu);
    assert_eq!(graph.node(r).unwrap().inputs, vec![a]);
}

#[test]
fn operations_on_unknown_nodes_are_refused() {
    let mut graph = Graph::new();
    let a = leaf(&mut graph);
    let stranger = Tensor { index: 5 };
    assert_eq!(a.add(&stranger, &mut graph), Err(Rejected::UnknownInput));
    assert_eq!(stranger.add(&a, &mut graph), Err(Rejected::UnknownInput));
    assert_eq!(a.mul(&stranger, &mut graph), Err(Rejected::UnknownInput));
    assert_eq!(stranger.tanh(&mut graph), Err(Rejected::UnknownInput));
    assert_eq!(stranger.relu(&mut graph), Err(Rejected::UnknownInput));
    assert_eq!(graph.len(), 1);
}

#[test]
fn operation_results_get_fresh_identities() {
    let mut graph = Graph::new();
    let a = leaf(&mut graph);
    let b = a.tanh(&mut graph).unwrap();
    let c = a.tanh(&mut graph).unwrap();
    let ids = [
        graph.node(a).unwrap().identity,
        graph.node(b).unwrap().identity,
        graph.node(c).unwrap().identity,
    ];
    assert_ne!(ids[0], ids[1]);
    assert_ne!(ids[1], ids[2]);
    assert_ne!(ids[0], ids[2]);
    assert_eq!((ids[1] >> 76) & 0xf, 4);
}

#[test]
fn forward_of_each_operation() {
    let mut graph = Graph::new();
    let a = leaf(&mut graph);
    let b = leaf(&mut graph);
    let sum = a.add(&b, &mut graph).unwrap();
    let product = b.mul(&a, &mut graph).unwrap();
    let t = sum.tanh(&mut graph).unwrap();
    let r = product.relu(&mut graph).unwrap();
    assert_eq!(a.forward(&graph), None);
    assert_eq!(
        sum.forward(&graph),
        Some(Expr::Sum(Box::new(Expr::Data(a)), Box::new(Expr::Data(b))))
    );
    assert_eq!(
        product.forward(&graph),
        Some(Expr::Product(Box::new(Expr::Data(b)), Box::new(Expr::Data(a))))
    );
    assert_eq!(t.forward(&graph), Some(Expr::Tanh(Box::new(Expr::Data(sum)))));
    assert_eq!(r.forward(&graph), Some(Expr::Relu(Box::new(Expr::Data(product)))));
    assert_eq!(Tensor { index: 99 }.forward(&graph), None);
}

#[test]
fn forward_of_an_operation_on_given_inputs() {
    let a = Tensor { index: 3 };
    let b = Tensor { index: 5 };
    assert_eq!(
        Operation::Add.forward(&vec![a, b]),
        Some(Expr::Sum(Box::new(Expr::Data(a)), Box::new(Expr::Data(b))))
    );
    assert_eq!(
        Operation::Multiply.forward(&vec![b, a]),
        Some(Expr::Product(Box::new(Expr::Data(b)), Box::new(Expr::Data(a))))
    );
    assert_eq!(Operation::Tanh.forward(&vec![a]), Some(Expr::Tanh(Box::new(Expr::Data(a)))));
    assert_eq!(Operation::Relu.forward(&vec![b]), Some(Expr::Relu(Box::new(Expr::Data(b)))));
    assert_eq!(Operation::Leaf.forward(&vec![]), None);
    assert_eq!(Operation::Add.forward(&vec![a]), None);
    assert_eq!(Operation::Tanh.forward(&vec![a, b]), None);
}

#[test]
fn operations_succeed_where_no_identity_can_be_drawn_again() {
    // No identity of this graph has the layout of a random token, so the
    // first operation cannot be refused; the later ones could only be by a
    // second draw of the same token.
    let mut graph = Graph::new();
    let a = Tensor::new(TensorData::leaf(0), &mut graph).unwrap();
    let b = Tensor::new(TensorData::leaf(1), &mut graph).unwrap();
    let c = Tensor::new(record(Operation::Add, vec![a, b], 2), &mut graph).unwrap();
    assert!(a.add(&a, &mut graph).is_ok());
    assert!(a.mul(&b, &mut graph).is_ok());
    assert!(c.tanh(&mut graph).is_ok());
    assert!(c.relu(&mut graph).is_ok());
    assert_eq!(graph.len(), 7);
}

#[test]
fn expression_builders() {
    let a = Tensor { index: 0 };
    assert_eq!(
        Expr::sum_of(Expr::One, Expr::Data(a)),
        Expr::Sum(Box::new(Expr::One), Box::new(Expr::Data(a)))
    );
    assert_eq!(
        Expr::difference_of(Expr::One, Expr::Grad(a)),
        Expr::Difference(Box::new(Expr::One), Box::new(Expr::Grad(a)))
    );
    assert_eq!(
        Expr::product_of(Expr::ZerosLike(a), Expr::Data(a)),
        Expr::Product(Box::new(Expr::ZerosLike(a)), Box::new(Expr::Data(a)))
    );
}

#[test]
fn zero_grad_forgets_every_gradient() {
    let mut graph = Graph::new();
    let a = leaf(&mut graph);
    let b = a.add(&a, &mut graph).unwrap();
    b.backward(&mut graph);
    assert!(graph.node(a).unwrap().has_gradient);
    assert!(graph.node(b).unwrap().has_gradient);
    graph.zero_grad();
    assert!(!graph.node(a).unwrap().has_gradient);
    assert!(!graph.node(b).unwrap().has_gradient);
    assert_eq!(graph.node(b).unwrap().inputs, vec![a, a]);
    assert_eq!(graph.len(), 2);
}
