use tensorgrad::tensor::{Graph, Tensor, TensorData};

fn leaf(graph: &mut Graph) -> Tensor {
    Tensor::new(TensorData::new(), graph).unwrap()
}

fn position(order: &[Tensor], t: Tensor) -> usize {
    order.iter().position(|x| *x == t).unwrap()
}

fn assert_topological(graph: &Graph, root: Tensor, order: &[Tensor]) {
    assert_eq!(*order.last().unwrap(), root);
    for (p, t) in order.iter().enumerate() {
        assert_eq!(order.iter().filter(|x| *x == t).count(), 1);
        for input in &graph.node(*t).unwrap().inputs {
            assert!(position(order, *input) < p);
        }
    }
}

#[test]
fn order_of_a_leaf_is_the_leaf() {
    let mut graph = Graph::new();
    let a = leaf(&mut graph);
    assert_eq!(a.build_topo(&graph), vec![a]);
}

#[test]
fn inputs_are_walked_in_operand_order() {
    let mut graph = Graph::new();
    let a = leaf(&mut graph);
    let b = leaf(&mut graph);
    let c = b.add(&a, &mut graph).unwrap();
    assert_eq!(c.build_topo(&graph), vec![b, a, c]);
}

#[test]
fn a_node_used_twice_is_listed_once() {
    let mut graph = Graph::new();
    let a = leaf(&mut graph);
    let b = a.mul(&a, &mut graph).unwrap();
    assert_eq!(b.build_topo(&graph), vec![a, b]);
}

#[test]
fn a_node_reached_by_two_paths_is_listed_once() {
    let mut graph = Graph::new();
    let x = leaf(&mut graph);
    let left = x.tanh(&mut graph).unwrap();
    let right = x.relu(&mut graph).unwrap();
    let top = left.add(&right, &mut graph).unwrap();
    let order = top.build_topo(&graph);
    assert_eq!(order, vec![x, left, right, top]);
    assert_topological(&graph, top, &order);
}

#[test]
fn only_what_the_node_depends_on_is_listed() {
    let mut graph = Graph::new();
    let a = leaf(&mut graph);
    let b = leaf(&mut graph);
    let _unused = a.add(&b, &mut graph).unwrap();
    let c = a.tanh(&mut graph).unwrap();
    let _later = c.relu(&mut graph).unwrap();
    assert_eq!(c.build_topo(&graph), vec![a, c]);
}

#[test]
fn order_of_a_deeper_graph_is_topological() {
    let mut graph = Graph::new();
    let a = leaf(&mut graph);
    let b = leaf(&mut graph);
    let c = leaf(&mut graph);
    let d = a.mul(&b, &mut graph).unwrap();
    let e = d.add(&c, &mut graph).unwrap();
    let f = e.mul(&d, &mut graph).unwrap();
    let g = f.add(&a, &mut graph).unwrap();
    let h = g.tanh(&mut graph).unwrap();
    let order = h.build_topo(&graph);
    assert_eq!(order, vec![a, b, d, c, e, f, g, h]);
    assert_topological(&graph, h, &order);
    let mut identities: Vec<u128> =
        order.iter().map(|t| graph.node(*t).unwrap().identity).collect();
    identities.sort();
    identities.dedup();
    assert_eq!(identities.len(), order.len());
}

#[test]
fn order_does_not_change_the_graph() {
    let mut graph = Graph::new();
    let a = leaf(&mut graph);
    let b = a.add(&a, &mut graph).unwrap();
    b.build_topo(&graph);
    assert_eq!(graph.len(), 2);
    assert!(!graph.node(a).unwrap().has_gradient);
    assert!(!graph.node(b).unwrap().has_gradient);
}
