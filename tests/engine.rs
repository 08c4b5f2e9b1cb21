use micrograd::nn::{ArityMismatch, Layer, Neuron, Tensor, MLP};
use micrograd::order::{backward_steps, topological_sort, trace_lines, Step};
use micrograd::scalar::Scalar;
use micrograd::value::{Graph, Value};
use rand::rngs::StdRng;
use rand::{Rng, SeedableRng};

#[derive(Clone, Copy, Debug, PartialEq)]
struct F(f64);

impl Scalar for F {
    fn spec_zero() -> F {
        F(0.0)
    }

    fn spec_one() -> F {
        F(1.0)
    }

    fn spec_add(self, rhs: F) -> F {
        F(self.0 + rhs.0)
    }

    fn spec_sub(self, rhs: F) -> F {
        F(self.0 - rhs.0)
    }

    fn spec_mul(self, rhs: F) -> F {
        F(self.0 * rhs.0)
    }

    fn spec_div(self, rhs: F) -> F {
        F(self.0 / rhs.0)
    }

    fn spec_exp(self) -> F {
        F(self.0.exp())
    }

    fn spec_powf(self, k: F) -> F {
        F(self.0.powf(k.0))
    }

    fn zero() -> F {
        F::spec_zero()
    }

    fn one() -> F {
        F::spec_one()
    }

    fn add(&self, rhs: &F) -> F {
        self.spec_add(*rhs)
    }

    fn sub(&self, rhs: &F) -> F {
        self.spec_sub(*rhs)
    }

    fn mul(&self, rhs: &F) -> F {
        self.spec_mul(*rhs)
    }

    fn div(&self, rhs: &F) -> F {
        self.spec_div(*rhs)
    }

    fn exp(&self) -> F {
        self.spec_exp()
    }

    fn powf(&self, k: &F) -> F {
        self.spec_powf(*k)
    }
}

fn float_equal(x: f64, y: f64) -> bool {
    (x - y).abs() < 0.001
}

fn val(g: &Graph<F>, v: Value) -> f64 {
    v.val(g).0
}

fn grad(g: &Graph<F>, v: Value) -> f64 {
    v.grad(g).0
}

fn leaf(g: &mut Graph<F>, x: f64, label: &str) -> Value {
    Value::with_label(g, F(x), label.to_string())
}

/// The fixed example: `o = tanh(x1 * w1 + x2 * w2 + b)`.
struct Example {
    g: Graph<F>,
    x1: Value,
    x2: Value,
    w1: Value,
    w2: Value,
    x1w1: Value,
    x2w2: Value,
    x1w1x2w2: Value,
    n: Value,
    o: Value,
}

fn example() -> Example {
    let mut g = Graph::new();
    let x1 = leaf(&mut g, 2.0, "x1");
    let x2 = leaf(&mut g, 0.0, "x2");
    let w1 = leaf(&mut g, -3.0, "w1");
    let w2 = leaf(&mut g, 1.0, "w2");
    let b = leaf(&mut g, 6.881373587019543, "b");
    let x1w1 = x1.mul(&mut g, &w1);
    let x2w2 = x2.mul(&mut g, &w2);
    let x1w1x2w2 = x1w1.add(&mut g, &x2w2);
    let n = x1w1x2w2.add(&mut g, &b);
    let o = n.tanh(&mut g);
    Example { g, x1, x2, w1, w2, x1w1, x2w2, x1w1x2w2, n, o }
}

#[test]
fn lib_test_forward() {
    let e = example();
    assert!(float_equal(val(&e.g, e.x1w1), -6.0));
    assert!(float_equal(val(&e.g, e.x2w2), 0.0));
    assert!(float_equal(val(&e.g, e.x1w1x2w2), -6.0));
    assert!(float_equal(val(&e.g, e.n), 0.881373587019543));
    assert!(float_equal(val(&e.g, e.o), 0.7071));
}

#[test]
fn lib_test_backward() {
    let mut e = example();
    e.o.backward(&mut e.g);
    assert!(float_equal(grad(&e.g, e.x1), -1.5));
    assert!(float_equal(grad(&e.g, e.w1), 1.0));
    assert!(float_equal(grad(&e.g, e.x2), 0.5));
    assert!(float_equal(grad(&e.g, e.w2), 0.0));
}

#[test]
fn value_test_forward() {
    let e = example();
    assert!(float_equal(val(&e.g, e.x1w1), -6.0));
    assert!(float_equal(val(&e.g, e.x2w2), 0.0));
    assert!(float_equal(val(&e.g, e.x1w1x2w2), -6.0));
    assert!(float_equal(val(&e.g, e.n), 0.881373587019543));
    assert!(float_equal(val(&e.g, e.o), 0.7071));
}

#[test]
fn value_test_backward() {
    let mut e = example();
    e.o.backward(&mut e.g);
    assert!(float_equal(grad(&e.g, e.x1), -1.5));
    assert!(float_equal(grad(&e.g, e.w1), 1.0));
    assert!(float_equal(grad(&e.g, e.x2), 0.5));
    assert!(float_equal(grad(&e.g, e.w2), 0.0));
}

#[test]
fn forward_output_is_exact_tanh() {
    let e = example();
    assert!((val(&e.g, e.o) - 0.7071067811865476).abs() < 1e-12);
    assert!((val(&e.g, e.n) - 0.881373587019543).abs() < 1e-12);
}

#[test]
fn backward_seeds_output_and_fills_every_node() {
    let mut e = example();
    e.o.backward(&mut e.g);
    assert_eq!(grad(&e.g, e.o), 1.0);
    assert!((grad(&e.g, e.n) - 0.5).abs() < 1e-12);
    assert!((grad(&e.g, e.x1w1x2w2) - 0.5).abs() < 1e-12);
    assert!((grad(&e.g, e.x1w1) - 0.5).abs() < 1e-12);
    assert!((grad(&e.g, e.x2w2) - 0.5).abs() < 1e-12);
}

#[test]
fn backward_leaves_unreached_nodes_alone() {
    let mut e = example();
    let other = leaf(&mut e.g, 5.0, "other");
    e.n.backward(&mut e.g);
    assert_eq!(grad(&e.g, other), 0.0);
    assert_eq!(grad(&e.g, e.o), 0.0);
    assert_eq!(grad(&e.g, e.n), 1.0);
}

#[test]
fn shared_operand_accumulates_both_uses() {
    let mut g = Graph::new();
    let a = leaf(&mut g, 3.0, "a");
    let c = a.mul(&mut g, &a);
    c.backward(&mut g);
    assert_eq!(val(&g, c), 9.0);
    assert_eq!(grad(&g, a), 6.0);

    let mut g = Graph::new();
    let a = leaf(&mut g, -1.25, "a");
    let c = a.add(&mut g, &a);
    c.backward(&mut g);
    assert_eq!(grad(&g, a), 2.0);
}

#[test]
fn shared_operand_gets_two_steps() {
    let mut g = Graph::new();
    let a = leaf(&mut g, 3.0, "a");
    let c = a.mul(&mut g, &a);
    let steps = backward_steps(&g, c);
    assert_eq!(
        steps,
        vec![
            Step { consumer: c, slot: 0, operand: a },
            Step { consumer: c, slot: 1, operand: a },
        ]
    );
}

#[test]
fn repeated_backward_accumulates_until_zeroed() {
    let mut g = Graph::new();
    let a = leaf(&mut g, 3.0, "a");
    let b = leaf(&mut g, 4.0, "b");
    let c = a.mul(&mut g, &b);
    c.backward(&mut g);
    assert_eq!(grad(&g, a), 4.0);
    c.backward(&mut g);
    assert_eq!(grad(&g, a), 8.0);
    for v in [a, b, c] {
        v.zero_grad(&mut g);
    }
    assert_eq!(grad(&g, a), 0.0);
    c.backward(&mut g);
    assert_eq!(grad(&g, a), 4.0);
    assert_eq!(grad(&g, b), 3.0);
}

#[test]
fn pow_forward_and_backward() {
    let mut g = Graph::new();
    let x = leaf(&mut g, 3.0, "x");
    let y = x.pow(&mut g, F(2.0));
    assert_eq!(val(&g, y), 9.0);
    y.backward(&mut g);
    assert_eq!(grad(&g, x), 6.0);
    assert!(matches!(y.prev(&g).as_slice(), [v] if *v == x));
}

#[test]
fn tanh_at_zero() {
    let mut g = Graph::new();
    let x = leaf(&mut g, 0.0, "x");
    let t = x.tanh(&mut g);
    assert_eq!(val(&g, t), 0.0);
    t.backward(&mut g);
    assert_eq!(grad(&g, x), 1.0);
}

#[test]
fn subtraction_identity() {
    let pairs = [(1.5, 2.25), (-3.0, 7.0), (0.0, -0.5), (1e6, 1e-3), (-2.0, -2.0)];
    for (x, y) in pairs {
        let mut g = Graph::new();
        let a = leaf(&mut g, x, "a");
        let b = leaf(&mut g, y, "b");
        let s = a.add(&mut g, &b);
        let d = s.sub(&mut g, &b);
        assert!((val(&g, d) - x).abs() < 1e-9 * x.abs().max(1.0));
    }
}

#[test]
fn subtraction_builds_three_nodes() {
    let mut g = Graph::new();
    let a = leaf(&mut g, 5.0, "a");
    let b = leaf(&mut g, 2.0, "b");
    let d = a.sub(&mut g, &b);
    assert_eq!(g.len(), 5);
    assert_eq!(d.id, 4);
    assert_eq!(val(&g, d), 3.0);
    assert_eq!(val(&g, Value { id: 2 }), -1.0);
    d.backward(&mut g);
    assert_eq!(grad(&g, a), 1.0);
    assert_eq!(grad(&g, b), -1.0);
}

#[test]
fn topological_order_puts_operands_first() {
    let mut g = Graph::new();
    let a = leaf(&mut g, 0.5, "n");
    let b = a.tanh(&mut g);
    let c = a.mul(&mut g, &b);
    let d = b.add(&mut g, &c);
    let unrelated = leaf(&mut g, 1.0, "n");
    let order = topological_sort(&g, d);
    assert_eq!(order, vec![a, b, c, d]);
    assert!(!order.contains(&unrelated));
}

#[test]
fn topological_order_tells_equal_labels_apart() {
    let mut g = Graph::new();
    let a = leaf(&mut g, 1.0, "x");
    let b = leaf(&mut g, 2.0, "x");
    let c = a.add(&mut g, &b);
    let order = topological_sort(&g, c);
    assert_eq!(order, vec![a, b, c]);
    c.backward(&mut g);
    assert_eq!(grad(&g, a), 1.0);
    assert_eq!(grad(&g, b), 1.0);
}

#[test]
fn topological_order_of_a_leaf() {
    let mut g = Graph::new();
    let a = leaf(&mut g, 1.0, "a");
    assert_eq!(topological_sort(&g, a), vec![a]);
}

#[test]
fn topological_order_of_the_example() {
    let e = example();
    let order = topological_sort(&e.g, e.o);
    assert_eq!(order.len(), 10);
    let pos = |v: Value| order.iter().position(|u| *u == v).unwrap();
    for (i, v) in order.iter().enumerate() {
        for p in v.prev(&e.g) {
            assert!(pos(p) < i);
        }
    }
    assert_eq!(*order.last().unwrap(), e.o);
}

#[test]
fn trace_lists_each_node_once_with_depth() {
    let mut g = Graph::new();
    let a = leaf(&mut g, 2.0, "a");
    let b = a.tanh(&mut g);
    let c = a.mul(&mut g, &b);
    let lines = trace_lines(&g, c);
    assert_eq!(lines, vec![(c, 0), (a, 1), (b, 1)]);

    let e = example();
    let lines = trace_lines(&e.g, e.o);
    assert_eq!(lines.len(), 10);
    assert_eq!(lines[0], (e.o, 0));
    assert_eq!(lines[1], (e.n, 1));
    assert_eq!(lines[2], (e.x1w1x2w2, 2));
    assert_eq!(lines[3], (e.x1w1, 3));
    assert_eq!(lines[4], (e.x1, 4));
}

#[test]
fn labels_adjust_and_truncate() {
    let mut g = Graph::new();
    let a = leaf(&mut g, 1.0, "a");
    let b = Value::of(&mut g, F(2.0));
    let c = a.add(&mut g, &b);
    assert_eq!(a.label(&g), &Some("a".to_string()));
    assert_eq!(b.label(&g), &None);
    assert_eq!(c.label(&g), &None);
    a.adjust_val(&mut g, &F(0.5));
    assert_eq!(val(&g, a), 1.5);
    assert_eq!(val(&g, c), 3.0);
    assert!(matches!(c.prev(&g).as_slice(), [x, y] if *x == a && *y == b));
    g.truncate(2);
    assert_eq!(g.len(), 2);
    assert_eq!(val(&g, a), 1.5);
}

/// A random graph: three leaves, then operations on random earlier nodes.
fn random_recipe(rng: &mut StdRng) -> Vec<(u8, usize, usize, f64)> {
    let mut recipe = Vec::new();
    for i in 3..9 {
        let kind: u8 = rng.gen_range(0..4);
        let lhs = rng.gen_range(0..i);
        let rhs = rng.gen_range(0..i);
        let k = [2.0, 3.0][rng.gen_range(0..2)];
        recipe.push((kind, lhs, rhs, k));
    }
    recipe
}

fn build(recipe: &[(u8, usize, usize, f64)], leaves: &[f64]) -> (Graph<F>, Vec<Value>) {
    let mut g = Graph::new();
    let mut nodes: Vec<Value> = leaves.iter().map(|x| Value::of(&mut g, F(*x))).collect();
    for &(kind, lhs, rhs, k) in recipe {
        let (a, b) = (nodes[lhs], nodes[rhs]);
        let v = match kind {
            0 => a.add(&mut g, &b),
            1 => a.mul(&mut g, &b),
            2 => a.pow(&mut g, F(k)),
            _ => a.tanh(&mut g),
        };
        nodes.push(v);
    }
    (g, nodes)
}

#[test]
fn gradients_match_central_differences() {
    let mut rng = StdRng::seed_from_u64(7);
    for _ in 0..200 {
        let recipe = random_recipe(&mut rng);
        let leaves: Vec<f64> = (0..3).map(|_| rng.gen_range(-1.0..1.0)).collect();
        let (mut g, nodes) = build(&recipe, &leaves);
        let out = *nodes.last().unwrap();
        out.backward(&mut g);
        for i in 0..3 {
            let h = 1e-6;
            let mut up = leaves.clone();
            up[i] += h;
            let mut down = leaves.clone();
            down[i] -= h;
            let (gu, nu) = build(&recipe, &up);
            let (gd, nd) = build(&recipe, &down);
            let numeric = (val(&gu, *nu.last().unwrap()) - val(&gd, *nd.last().unwrap())) / (2.0 * h);
            let analytic = grad(&g, nodes[i]);
            assert!(
                (numeric - analytic).abs() <= 1e-4 * analytic.abs().max(1.0),
                "leaf {}: analytic {} numeric {}",
                i,
                analytic,
                numeric
            );
        }
    }
}

#[test]
fn neuron_refuses_wrong_arity() {
    let mut g = Graph::new();
    let n = Neuron::new(&mut g, vec![F(0.5), F(-0.5)], F(0.1));
    assert_eq!(n.nin(), 2);
    assert_eq!(n.parameters(), vec![Value { id: 0 }, Value { id: 1 }, Value { id: 2 }]);
    let x: Tensor = (0..3).map(|i| Value::of(&mut g, F(i as f64))).collect();
    let before = g.len();
    assert_eq!(n.forward(&mut g, &x), Err(ArityMismatch { expected: 2, found: 3 }));
    assert_eq!(g.len(), before);
}

#[test]
fn neuron_forward_value() {
    let mut g = Graph::new();
    let n = Neuron::new(&mut g, vec![F(0.5), F(-0.25)], F(0.1));
    let x: Tensor = vec![Value::of(&mut g, F(2.0)), Value::of(&mut g, F(4.0))];
    let before = g.len();
    let y = n.forward(&mut g, &x).unwrap();
    assert_eq!(g.len(), before + 7);
    assert_eq!(y.id, g.len() - 1);
    assert!((val(&g, y) - 0.1f64.tanh()).abs() < 1e-12);
}

#[test]
fn layer_and_network_refuse_wrong_arity() {
    let mut g = Graph::new();
    let l = Layer::new(&mut g, 2, vec![(vec![F(1.0), F(1.0)], F(0.0)); 3]);
    assert_eq!(l.parameters().len(), 9);
    let x: Tensor = vec![Value::of(&mut g, F(1.0))];
    assert_eq!(l.forward(&mut g, &x), Err(ArityMismatch { expected: 2, found: 1 }));
    let x2: Tensor = vec![x[0], x[0]];
    assert_eq!(l.forward(&mut g, &x2).unwrap().len(), 3);

    let mut g = Graph::new();
    let m = MLP::new(&mut g, 2, vec![vec![(vec![F(0.1), F(0.2)], F(0.0)); 3], vec![(vec![F(0.3); 3], F(0.0))]]);
    assert_eq!(m.parameters().len(), 13);
    let x: Tensor = vec![Value::of(&mut g, F(1.0))];
    let before = g.len();
    assert_eq!(m.forward(&mut g, &x), Err(ArityMismatch { expected: 2, found: 1 }));
    assert_eq!(g.len(), before);
}

#[test]
fn layer_shapes_chain() {
    assert_eq!(MLP::layer_shapes(3, 4, &vec![4, 1]), vec![(3, 4), (4, 4), (4, 1)]);
    assert_eq!(MLP::layer_shapes(2, 5, &vec![]), vec![(2, 5)]);
}

fn random_network(g: &mut Graph<F>, nin: usize, first: usize, rest: Vec<usize>) -> MLP {
    let mut rng = rand::thread_rng();
    let dist = rand::distributions::Uniform::new(-1.0, 1.0);
    let init = MLP::layer_shapes(nin, first, &rest)
        .into_iter()
        .map(|(i, o)| (0..o).map(|_| ((0..i).map(|_| F(rng.sample(dist))).collect(), F(rng.sample(dist)))).collect())
        .collect();
    MLP::new(g, nin, init)
}

fn tensor1(g: &mut Graph<F>, xs: &[f64]) -> Tensor {
    xs.iter().map(|x| Value::of(g, F(*x))).collect()
}

fn predict(g: &mut Graph<F>, n: &MLP, xs: &[Tensor]) -> Tensor {
    xs.iter().map(|x| n.forward(g, x).unwrap()[0]).collect()
}

fn rmse(g: &mut Graph<F>, ypred: &Tensor, ys: &Tensor) -> Value {
    let mut acc = Value::of(g, F(0.0));
    for (yout, ygt) in ypred.iter().zip(ys.iter()) {
        let d = yout.sub(g, ygt);
        let l = d.pow(g, F(2.0));
        acc = acc.add(g, &l);
    }
    acc
}

fn train(g: &mut Graph<F>, n: &MLP, err: f64, step: f64, xs: &[Tensor], ys: &Tensor) {
    let mark = g.len();
    let mut ypred = predict(g, n, xs);
    let mut loss = rmse(g, &ypred, ys);
    while val(g, loss) >= err {
        loss.backward(g);
        for p in n.parameters() {
            let by = F(step * -grad(g, p));
            p.adjust_val(g, &by);
        }
        g.truncate(mark);
        ypred = predict(g, n, xs);
        loss = rmse(g, &ypred, ys);
    }
}

#[test]
fn test_train() {
    let mut g = Graph::new();
    let n = random_network(&mut g, 3, 4, vec![4, 1]);
    let xs = vec![
        tensor1(&mut g, &[2.0, 3.0, -1.0]),
        tensor1(&mut g, &[3.0, -1.0, 0.5]),
        tensor1(&mut g, &[0.5, 1.0, 1.0]),
        tensor1(&mut g, &[1.0, 1.0, -1.0]),
    ];
    let ys = tensor1(&mut g, &[1.0, -1.0, -1.0, 1.0]);
    train(&mut g, &n, 0.000000001, 0.01, &xs, &ys);
    let ypred = predict(&mut g, &n, &xs);
    for i in 0..ys.len() {
        println!("{:?}", ypred[i]);
        assert!(float_equal(val(&g, ys[i]), val(&g, ypred[i])));
    }
}

#[test]
fn op_records_operands() {
    let mut g = Graph::new();
    let a = leaf(&mut g, 1.0, "a");
    let b = a.pow(&mut g, F(3.0));
    assert_eq!(b.prev(&g), vec![a]);
    assert_eq!(a.prev(&g), vec![]);
}

#[test]
fn network_parameters_are_new_leaves_in_order() {
    let mut g = Graph::new();
    let first = vec![(vec![F(0.1), F(0.2)], F(0.3)), (vec![F(0.4), F(0.5)], F(0.6))];
    let second = vec![(vec![F(0.7), F(0.8)], F(0.9))];
    let m = MLP::new(&mut g, 2, vec![first, second]);
    let ps = m.parameters();
    let expected = [0.1, 0.2, 0.3, 0.4, 0.5, 0.6, 0.7, 0.8, 0.9];
    assert_eq!(ps.len(), expected.len());
    assert_eq!(g.len(), expected.len());
    for (k, p) in ps.iter().enumerate() {
        assert_eq!(p.id, k);
        assert_eq!(val(&g, *p), expected[k]);
        assert_eq!(grad(&g, *p), 0.0);
    }
    let x: Tensor = vec![Value::of(&mut g, F(1.0)), Value::of(&mut g, F(-1.0))];
    let y = m.forward(&mut g, &x).unwrap();
    let h0 = (0.0f64 + 1.0 * 0.1 + -1.0 * 0.2 + 0.3).tanh();
    let h1 = (0.0f64 + 1.0 * 0.4 + -1.0 * 0.5 + 0.6).tanh();
    let out = (0.0f64 + h0 * 0.7 + h1 * 0.8 + 0.9).tanh();
    assert!((val(&g, y[0]) - out).abs() < 1e-12);
}

#[test]
fn trace_is_depth_first_with_operands_in_order() {
    let mut g = Graph::new();
    let z = leaf(&mut g, 0.5, "z");
    let x = z.tanh(&mut g);
    let y = z.tanh(&mut g);
    let c = x.add(&mut g, &y);
    assert_eq!(trace_lines(&g, c), vec![(c, 0), (x, 1), (z, 2), (y, 1)]);
    assert_eq!(topological_sort(&g, c), vec![z, x, y, c]);
}

#[test]
fn backward_after_zeroing_repeats() {
    let mut e = example();
    e.o.backward(&mut e.g);
    let nodes = topological_sort(&e.g, e.o);
    let first: Vec<f64> = nodes.iter().map(|v| grad(&e.g, *v)).collect();
    for v in &nodes {
        v.zero_grad(&mut e.g);
    }
    e.o.backward(&mut e.g);
    let second: Vec<f64> = nodes.iter().map(|v| grad(&e.g, *v)).collect();
    assert_eq!(first, second);
}
