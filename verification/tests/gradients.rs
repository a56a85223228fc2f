use ndarray::{arr0, arr1, ArrayD};
use tensorgrad::expr::{Expr, Step};
use tensorgrad::tensor::{Graph, Tensor};
use tensorgrad::tensor::TensorData;

/// The arrays that belong to the nodes of a graph, by handle.
struct Arrays {
    data: Vec<ArrayD<f32>>,
    grad: Vec<Option<ArrayD<f32>>>,
}

fn eval(e: &Expr, arrays: &Arrays) -> ArrayD<f32> {
    match e {
        Expr::One => arr0(1.0f32).into_dyn(),
        Expr::ZerosLike(t) => ArrayD::zeros(arrays.data[t.index].raw_dim()),
        Expr::Data(t) => arrays.data[t.index].clone(),
        Expr::Grad(t) => arrays.grad[t.index].clone().unwrap(),
        Expr::Sum(a, b) => &eval(a, arrays) + &eval(b, arrays),
        Expr::Difference(a, b) => &eval(a, arrays) - &eval(b, arrays),
        Expr::Product(a, b) => &eval(a, arrays) * &eval(b, arrays),
        Expr::Tanh(a) => eval(a, arrays).mapv(|x| x.tanh()),
        Expr::Relu(a) => eval(a, arrays).mapv(|x| if x > 0.0 { x } else { 0.0 }),
        Expr::Positive(a) => eval(a, arrays).mapv(|x| if x > 0.0 { 1.0 } else { 0.0 }),
    }
}

struct Session {
    graph: Graph,
    arrays: Arrays,
}

impl Session {
    fn new() -> Session {
        Session { graph: Graph::new(), arrays: Arrays { data: Vec::new(), grad: Vec::new() } }
    }

    fn leaf(&mut self, values: &[f32]) -> Tensor {
        let t = Tensor::new(TensorData::new(), &mut self.graph).unwrap();
        self.arrays.data.push(arr1(values).into_dyn());
        self.arrays.grad.push(None);
        t
    }

    fn computed(&mut self, t: Tensor) -> Tensor {
        let value = eval(&t.forward(&self.graph).unwrap(), &self.arrays);
        self.arrays.data.push(value);
        self.arrays.grad.push(None);
        t
    }

    fn add(&mut self, a: Tensor, b: Tensor) -> Tensor {
        let t = a.add(&b, &mut self.graph).unwrap();
        self.computed(t)
    }

    fn mul(&mut self, a: Tensor, b: Tensor) -> Tensor {
        let t = a.mul(&b, &mut self.graph).unwrap();
        self.computed(t)
    }

    fn tanh(&mut self, a: Tensor) -> Tensor {
        let t = a.tanh(&mut self.graph).unwrap();
        self.computed(t)
    }

    fn relu(&mut self, a: Tensor) -> Tensor {
        let t = a.relu(&mut self.graph).unwrap();
        self.computed(t)
    }

    fn run(&mut self, steps: &[Step]) {
        for step in steps {
            let value = eval(&step.value, &self.arrays);
            self.arrays.grad[step.target.index] = Some(value);
        }
    }

    fn backward(&mut self, t: Tensor) {
        let steps = t.backward(&mut self.graph);
        self.run(&steps);
        for (index, grad) in self.arrays.grad.iter().enumerate() {
            assert_eq!(grad.is_some(), self.graph.node(Tensor { index }).unwrap().has_gradient);
        }
    }

    fn data(&self, t: Tensor) -> Vec<f32> {
        self.arrays.data[t.index].iter().cloned().collect()
    }

    fn grad(&self, t: Tensor) -> Vec<f32> {
        self.arrays.grad[t.index].as_ref().unwrap().iter().cloned().collect()
    }
}

fn sum(a: Expr, b: Expr) -> Expr {
    Expr::Sum(Box::new(a), Box::new(b))
}

fn product(a: Expr, b: Expr) -> Expr {
    Expr::Product(Box::new(a), Box::new(b))
}

fn difference(a: Expr, b: Expr) -> Expr {
    Expr::Difference(Box::new(a), Box::new(b))
}

/// Whether the gradient of `a` equals, element by element, the gradient of
/// `b` broadcast to its shape.
fn same_elementwise(s: &Session, a: Tensor, b: Tensor) -> bool {
    let left = s.arrays.grad[a.index].as_ref().unwrap();
    let right = s.arrays.grad[b.index].as_ref().unwrap();
    match right.broadcast(left.raw_dim()) {
        Some(view) => view == left.view(),
        None => false,
    }
}

fn close(a: f32, b: f32) -> bool {
    (a - b).abs() < 1e-5
}

#[test]
fn forward_values_of_add_and_multiply() {
    let mut s = Session::new();
    let a = s.leaf(&[2.0, 3.0]);
    let b = s.leaf(&[-1.0, 6.0]);
    let c = s.leaf(&[4.0, 0.0]);
    let d = s.add(b, a);
    let e = s.mul(d, c);
    assert_eq!(s.data(d), vec![1.0, 9.0]);
    assert_eq!(s.data(e), vec![4.0, 0.0]);
    assert_eq!(s.data(a), vec![2.0, 3.0]);
    assert_eq!(s.data(b), vec![-1.0, 6.0]);
    assert_eq!(s.data(c), vec![4.0, 0.0]);
}

#[test]
fn forward_values_of_a_small_expression() {
    let mut s = Session::new();
    let a = s.leaf(&[2.0]);
    let b = s.leaf(&[-3.0]);
    let c = s.leaf(&[10.0]);
    let d = s.add(a, b);
    let e = s.mul(a, b);
    let bc = s.mul(b, c);
    let f = s.add(a, bc);
    let g = s.leaf(&[4.0]);
    let l = s.mul(g, f);
    assert_eq!(s.data(d), vec![-1.0]);
    assert_eq!(s.data(e), vec![-6.0]);
    assert_eq!(s.data(f), vec![-28.0]);
    assert_eq!(s.data(l), vec![-112.0]);
}

#[test]
fn forward_values_of_tanh_and_relu() {
    let mut s = Session::new();
    let a = s.leaf(&[-2.0, 0.0, 0.5]);
    let t = s.tanh(a);
    let r = s.relu(a);
    let got = s.data(t);
    assert!(close(got[0], (-2.0f32).tanh()) && close(got[1], 0.0) && close(got[2], 0.5f32.tanh()));
    assert_eq!(s.data(r), vec![0.0, 0.0, 0.5]);
}

#[test]
fn gradient_accumulates_when_a_node_is_added_to_itself() {
    let mut s = Session::new();
    let x = s.leaf(&[3.0]);
    let y = s.add(x, x);
    assert_eq!(s.data(y), vec![6.0]);
    let steps = y.backward(&mut s.graph);
    assert_eq!(
        steps,
        vec![
            Step { target: y, value: Expr::One },
            Step {
                target: x,
                value: sum(Expr::ZerosLike(x), sum(Expr::Grad(y), Expr::Grad(y))),
            },
        ]
    );
    s.run(&steps);
    assert_eq!(s.grad(x), vec![2.0]);
    assert_eq!(s.grad(y), vec![1.0]);
}

#[test]
fn product_rule_when_a_node_is_multiplied_by_itself() {
    let mut s = Session::new();
    let x = s.leaf(&[3.0]);
    let y = s.mul(x, x);
    assert_eq!(s.data(y), vec![9.0]);
    let steps = y.backward(&mut s.graph);
    assert_eq!(
        steps,
        vec![
            Step { target: y, value: Expr::One },
            Step {
                target: x,
                value: sum(
                    Expr::ZerosLike(x),
                    product(Expr::Grad(y), sum(Expr::Data(x), Expr::Data(x))),
                ),
            },
        ]
    );
    s.run(&steps);
    assert_eq!(s.grad(x), vec![6.0]);
}

#[test]
fn product_rule_with_two_different_inputs() {
    let mut s = Session::new();
    let a = s.leaf(&[2.0]);
    let b = s.leaf(&[-5.0]);
    let y = s.mul(a, b);
    let steps = y.backward(&mut s.graph);
    assert_eq!(
        steps,
        vec![
            Step { target: y, value: Expr::One },
            Step {
                target: a,
                value: sum(Expr::ZerosLike(a), product(Expr::Grad(y), Expr::Data(b))),
            },
            Step {
                target: b,
                value: sum(Expr::ZerosLike(b), product(Expr::Grad(y), Expr::Data(a))),
            },
        ]
    );
    s.run(&steps);
    assert_eq!(s.grad(a), vec![-5.0]);
    assert_eq!(s.grad(b), vec![2.0]);
}

#[test]
fn chain_rule_through_tanh() {
    let mut s = Session::new();
    let a = s.leaf(&[2.0]);
    let b = s.leaf(&[0.0]);
    let c = s.leaf(&[-3.0]);
    let d = s.leaf(&[1.0]);
    let e = s.leaf(&[6.8813735870195432]);
    let f = s.mul(a, c);
    let g = s.mul(b, d);
    let h = s.add(f, g);
    let i = s.add(h, e);
    let j = s.tanh(i);
    s.backward(j);
    assert!(close(s.data(j)[0], 0.70710677));
    assert!(close(s.grad(j)[0], 1.0));
    assert!(close(s.grad(i)[0], 0.5));
    assert!(close(s.grad(h)[0], 0.5));
    assert!(close(s.grad(e)[0], 0.5));
    assert!(close(s.grad(f)[0], 0.5));
    assert!(close(s.grad(g)[0], 0.5));
    assert!(close(s.grad(a)[0], -1.5));
    assert!(close(s.grad(c)[0], 1.0));
    assert!(close(s.grad(b)[0], 0.5));
    assert!(close(s.grad(d)[0], 0.0));
}

#[test]
fn chain_rule_through_products_and_sums() {
    let mut s = Session::new();
    let a = s.leaf(&[2.0]);
    let b = s.leaf(&[-3.0]);
    let c = s.leaf(&[10.0]);
    let f = s.leaf(&[4.0]);
    let e = s.mul(a, b);
    let d = s.add(e, c);
    let l = s.mul(d, f);
    assert_eq!(s.data(l), vec![16.0]);
    s.backward(l);
    assert_eq!(s.grad(l), vec![1.0]);
    assert_eq!(s.grad(d), vec![4.0]);
    assert_eq!(s.grad(f), vec![4.0]);
    assert_eq!(s.grad(e), vec![4.0]);
    assert_eq!(s.grad(c), vec![4.0]);
    assert_eq!(s.grad(a), vec![-12.0]);
    assert_eq!(s.grad(b), vec![8.0]);
}

#[test]
fn add_passes_the_gradient_through() {
    let mut s = Session::new();
    let x = s.leaf(&[1.5, -2.0, 0.0]);
    let y = s.leaf(&[4.0, 4.0, 4.0]);
    let z = s.add(x, y);
    let steps = z.backward(&mut s.graph);
    assert_eq!(
        steps,
        vec![
            Step { target: z, value: Expr::One },
            Step { target: x, value: sum(Expr::ZerosLike(x), Expr::Grad(z)) },
            Step { target: y, value: sum(Expr::ZerosLike(y), Expr::Grad(z)) },
        ]
    );
    s.run(&steps);
    assert_eq!(s.grad(x), s.grad(y));
    assert_eq!(s.grad(x), vec![1.0, 1.0, 1.0]);
    assert_eq!(s.grad(z), vec![1.0]);
    assert!(same_elementwise(&s, x, z));
    assert!(same_elementwise(&s, y, z));
}

#[test]
fn add_passes_the_gradient_through_with_broadcast_shapes() {
    let mut s = Session::new();
    let x = s.leaf(&[1.0, 2.0]);
    let y = s.leaf(&[10.0]);
    let z = s.add(x, y);
    assert_eq!(s.data(z), vec![11.0, 12.0]);
    s.backward(z);
    assert_eq!(s.grad(x), vec![1.0, 1.0]);
    assert_eq!(s.grad(y), vec![1.0]);
    assert!(same_elementwise(&s, x, z));
    assert!(same_elementwise(&s, y, z));
}

#[test]
fn backward_leaves_forward_data_as_it_was() {
    let mut s = Session::new();
    let a = s.leaf(&[2.0, -1.0]);
    let b = s.leaf(&[0.5, 3.0]);
    let c = s.mul(a, b);
    let d = s.add(c, a);
    let e = s.tanh(d);
    let before: Vec<Vec<u32>> =
        s.arrays.data.iter().map(|x| x.iter().map(|v| v.to_bits()).collect()).collect();
    let inputs_before: Vec<Vec<Tensor>> =
        (0..s.graph.len()).map(|index| s.graph.node(Tensor { index }).unwrap().inputs.clone()).collect();
    let identities_before: Vec<u128> =
        (0..s.graph.len()).map(|index| s.graph.node(Tensor { index }).unwrap().identity).collect();
    s.backward(e);
    s.backward(e);
    s.backward(d);
    let after: Vec<Vec<u32>> =
        s.arrays.data.iter().map(|x| x.iter().map(|v| v.to_bits()).collect()).collect();
    assert_eq!(before, after);
    for index in 0..s.graph.len() {
        let node = s.graph.node(Tensor { index }).unwrap();
        assert_eq!(node.inputs, inputs_before[index]);
        assert_eq!(node.identity, identities_before[index]);
    }
    assert_eq!(s.graph.len(), 5);
}

#[test]
fn a_leaf_has_no_backward_steps() {
    let mut s = Session::new();
    let a = s.leaf(&[7.0]);
    assert_eq!(a.backward_step(&mut s.graph), vec![]);
    assert!(!s.graph.node(a).unwrap().has_gradient);
    let steps = a.backward(&mut s.graph);
    assert_eq!(steps, vec![Step { target: a, value: Expr::One }]);
    s.run(&steps);
    assert_eq!(s.grad(a), vec![1.0]);
}

#[test]
fn leaves_are_skipped_in_a_pass() {
    let mut s = Session::new();
    let a = s.leaf(&[1.0]);
    let b = s.leaf(&[2.0]);
    let c = s.add(a, b);
    let steps = c.backward(&mut s.graph);
    assert_eq!(steps.len(), 3);
    assert!(steps.iter().all(|step| step.target != c || step.value == Expr::One));
}

#[test]
fn tanh_step_uses_the_output_data() {
    let mut s = Session::new();
    let x = s.leaf(&[0.3, -1.2]);
    let y = s.tanh(x);
    let steps = y.backward_step(&mut s.graph);
    assert_eq!(
        steps,
        vec![Step {
            target: x,
            value: product(
                Expr::Grad(y),
                difference(Expr::One, product(Expr::Data(y), Expr::Data(y))),
            ),
        }]
    );
    assert!(s.graph.node(x).unwrap().has_gradient);
    s.graph.zero_grad();
    s.backward(y);
    let got = s.grad(x);
    assert!(close(got[0], 1.0 - 0.3f32.tanh().powi(2)));
    assert!(close(got[1], 1.0 - (-1.2f32).tanh().powi(2)));
}

#[test]
fn relu_step_uses_the_output_data() {
    let mut s = Session::new();
    let x = s.leaf(&[-1.0, 0.0, 2.5]);
    let y = s.relu(x);
    let steps = y.backward_step(&mut s.graph);
    assert_eq!(
        steps,
        vec![Step {
            target: x,
            value: product(Expr::Grad(y), Expr::Positive(Box::new(Expr::Data(y)))),
        }]
    );
    s.graph.zero_grad();
    s.backward(y);
    assert_eq!(s.grad(x), vec![0.0, 0.0, 1.0]);
}

#[test]
fn add_step_adds_to_a_gradient_that_is_present() {
    let mut s = Session::new();
    let a = s.leaf(&[1.0]);
    let b = s.leaf(&[2.0]);
    let c = s.add(a, b);
    a.backward(&mut s.graph);
    let steps = c.backward_step(&mut s.graph);
    assert_eq!(
        steps,
        vec![
            Step { target: a, value: sum(Expr::Grad(a), Expr::Grad(c)) },
            Step { target: b, value: sum(Expr::ZerosLike(b), Expr::Grad(c)) },
        ]
    );
}

#[test]
fn gradients_accumulate_over_two_paths() {
    let mut s = Session::new();
    let x = s.leaf(&[3.0]);
    let y = s.leaf(&[4.0]);
    let xy = s.mul(x, y);
    let xx = s.mul(x, x);
    let z = s.add(xy, xx);
    s.backward(z);
    // z = x*y + x*x
    assert_eq!(s.grad(x), vec![10.0]);
    assert_eq!(s.grad(y), vec![3.0]);
}

#[test]
fn gradients_accumulate_across_passes_until_cleared() {
    let mut s = Session::new();
    let x = s.leaf(&[3.0]);
    let y = s.add(x, x);
    s.backward(y);
    assert_eq!(s.grad(x), vec![2.0]);
    s.backward(y);
    assert_eq!(s.grad(x), vec![4.0]);
    assert_eq!(s.grad(y), vec![1.0]);
    s.graph.zero_grad();
    for grad in s.arrays.grad.iter_mut() {
        *grad = None;
    }
    s.backward(y);
    assert_eq!(s.grad(x), vec![2.0]);
}

#[test]
fn unary_step_replaces_the_gradient_of_its_input() {
    // x feeds a product and a tanh; the tanh is recorded first, so its turn
    // in the backward pass comes last and its step replaces what the
    // product had added.
    let mut s = Session::new();
    let x = s.leaf(&[0.5]);
    let t = s.tanh(x);
    let p = s.mul(x, x);
    let z = s.add(t, p);
    assert_eq!(z.build_topo(&s.graph), vec![x, t, p, z]);
    s.backward(z);
    let slope = 1.0 - 0.5f32.tanh().powi(2);
    assert!(close(s.grad(x)[0], slope));
    assert!(!close(s.grad(x)[0], slope + 1.0));
}

#[test]
fn steps_come_in_reverse_topological_order() {
    let mut s = Session::new();
    let a = s.leaf(&[1.0]);
    let b = s.leaf(&[2.0]);
    let c = s.mul(a, b);
    let d = s.relu(c);
    let steps = d.backward(&mut s.graph);
    let targets: Vec<Tensor> = steps.iter().map(|step| step.target).collect();
    assert_eq!(targets, vec![d, c, a, b]);
}
