use micrograd_rs::{Graph, Op};

/// Values and gradients of the nodes of a graph, with the local rule of
/// each operation, to run a backward pass in a given order.
struct Numbers {
    data: Vec<f64>,
    grad: Vec<f64>,
}

impl Numbers {
    fn push(&mut self, x: f64) {
        self.data.push(x);
        self.grad.push(0.0);
    }

    fn run(&mut self, g: &Graph, out: usize, order: &[usize]) {
        self.grad[out] = 1.0;
        for &v in order {
            let d = g.deps(v).clone();
            let gv = self.grad[v];
            match g.op(v) {
                Op::Leaf => {}
                Op::Add => {
                    self.grad[d[0]] += gv;
                    self.grad[d[1]] += gv;
                }
                Op::Mul => {
                    let (a, b) = (self.data[d[0]], self.data[d[1]]);
                    self.grad[d[0]] += b * gv;
                    self.grad[d[1]] += a * gv;
                }
                Op::Pow => {
                    let (a, b) = (self.data[d[0]], self.data[d[1]]);
                    self.grad[d[0]] += b * a.powf(b - 1.0) * gv;
                }
                Op::Tanh => {
                    let t = self.data[v];
                    self.grad[d[0]] += (1.0 - t * t) * gv;
                }
            }
        }
    }
}

fn round_to(value: f64, digits: f64) -> f64 {
    let ten: f64 = 10.0;
    (ten.powf(digits) * value).round() / ten.powf(digits)
}

/// o = tanh(x1*w1 + x2*w2 + b), node by node.
fn neuron_graph() -> (Graph, Numbers, [usize; 4]) {
    let mut g = Graph::new();
    let mut n = Numbers { data: Vec::new(), grad: Vec::new() };
    let x1 = g.leaf();
    n.push(2.0);
    let x2 = g.leaf();
    n.push(0.0);
    let w1 = g.leaf();
    n.push(-3.0);
    let w2 = g.leaf();
    n.push(1.0);
    let b = g.leaf();
    n.push(6.8813735870195432);
    let x1w1 = g.mul(x1, w1);
    n.push(n.data[x1] * n.data[w1]);
    let x2w2 = g.mul(x2, w2);
    n.push(n.data[x2] * n.data[w2]);
    let s = g.add(x1w1, x2w2);
    n.push(n.data[x1w1] + n.data[x2w2]);
    let nn = g.add(s, b);
    n.push(n.data[s] + n.data[b]);
    let o = g.tanh(nn);
    n.push(n.data[nn].tanh());
    (g, n, [x1, x2, w1, o])
}

#[test]
fn leaf_has_no_operands() {
    let mut g = Graph::new();
    assert_eq!(g.len(), 0);
    let a = g.leaf();
    assert_eq!(a, 0);
    assert_eq!(g.len(), 1);
    assert_eq!(g.op(a), Op::Leaf);
    assert!(g.deps(a).is_empty());
}

#[test]
fn builders_record_operands_in_order() {
    let mut g = Graph::new();
    let a = g.leaf();
    let b = g.leaf();
    let s = g.add(b, a);
    let m = g.mul(a, s);
    let p = g.pow(m, b);
    let t = g.tanh(p);
    assert_eq!((s, m, p, t), (2, 3, 4, 5));
    assert_eq!(g.op(s), Op::Add);
    assert_eq!(g.deps(s), &vec![b, a]);
    assert_eq!(g.op(m), Op::Mul);
    assert_eq!(g.deps(m), &vec![a, s]);
    assert_eq!(g.op(p), Op::Pow);
    assert_eq!(g.deps(p), &vec![m, b]);
    assert_eq!(g.op(t), Op::Tanh);
    assert_eq!(g.deps(t), &vec![p]);
    assert_eq!(g.len(), 6);
}

#[test]
fn backward_order_is_depth_first() {
    let (g, _, [_, _, _, o]) = neuron_graph();
    // o=9, n=8 (s=7, b=4), s=7 (x1w1=5, x2w2=6), x1w1=5 (x1=0, w1=2), x2w2=6 (x2=1, w2=3)
    assert_eq!(g.backward_order(o), vec![9, 8, 7, 5, 0, 2, 6, 1, 3, 4]);
}

#[test]
fn backward_order_skips_unreached_nodes() {
    let mut g = Graph::new();
    let a = g.leaf();
    let b = g.leaf();
    let c = g.leaf();
    let m = g.mul(a, c);
    let _unused = g.add(b, m);
    assert_eq!(g.backward_order(m), vec![m, a, c]);
    assert_eq!(g.backward_order(b), vec![b]);
    assert_eq!(g.topological_order(m), vec![m, c, a]);
}

#[test]
fn shared_node_is_visited_once() {
    let mut g = Graph::new();
    let a = g.leaf();
    let s = g.add(a, a);
    let m = g.mul(s, a);
    assert_eq!(g.backward_order(m), vec![m, s, a]);
    assert_eq!(g.topological_order(m), vec![m, s, a]);
}

#[test]
fn topological_order_puts_consumers_first() {
    // a feeds t at depth one and m below it at depth three.
    let mut g = Graph::new();
    let a = g.leaf();
    let m = g.mul(a, a);
    let t = g.tanh(m);
    let o = g.add(t, a);
    assert_eq!(g.backward_order(o), vec![o, t, m, a]);
    assert_eq!(g.topological_order(o), vec![o, t, m, a]);

    let mut h = Graph::new();
    let x = h.leaf();
    let y = h.tanh(x);
    let z = h.add(x, y);
    // Depth first reaches x from z before y has pushed into it.
    assert_eq!(h.backward_order(z), vec![z, x, y]);
    assert_eq!(h.topological_order(z), vec![z, y, x]);
}

#[test]
fn shared_operand_gets_every_contribution() {
    // z = x + tanh(x) at x = 0.5: dz/dx = 1 + (1 - tanh(0.5)^2).
    let mut g = Graph::new();
    let mut n = Numbers { data: Vec::new(), grad: Vec::new() };
    let x = g.leaf();
    n.push(0.5);
    let y = g.tanh(x);
    n.push(n.data[x].tanh());
    let z = g.add(x, y);
    n.push(n.data[x] + n.data[y]);
    let order = g.topological_order(z);
    n.run(&g, z, &order);
    let t = 0.5f64.tanh();
    assert!((n.grad[x] - (2.0 - t * t)).abs() < 1e-12);
}

#[test]
fn two_input_neuron_end_to_end() {
    let (g, mut n, [x1, x2, w1, o]) = neuron_graph();
    let order = g.backward_order(o);
    n.run(&g, o, &order);
    assert_eq!(0.7071, round_to(n.data[o], 4.0));
    assert_eq!(-1.5, round_to(n.grad[x1], 3.0));
    assert_eq!(1.0, round_to(n.grad[w1], 3.0));
    assert_eq!(0.5, round_to(n.grad[x2], 3.0));
}

#[test]
fn same_expression_gives_same_gradients() {
    let (g1, mut n1, [x1, _, _, o1]) = neuron_graph();
    let (g2, mut n2, [y1, _, _, o2]) = neuron_graph();
    let order1 = g1.backward_order(o1);
    let order2 = g2.backward_order(o2);
    assert_eq!(order1, order2);
    n1.run(&g1, o1, &order1);
    n2.run(&g2, o2, &order2);
    assert_eq!(n1.grad, n2.grad);
    assert_eq!(n1.grad[x1], n2.grad[y1]);
}

#[test]
fn neg_is_product_with_new_leaf() {
    let mut g = Graph::new();
    let a = g.leaf();
    let (c, m) = g.neg(a);
    assert_eq!((c, m), (1, 2));
    assert_eq!(g.op(c), Op::Leaf);
    assert_eq!(g.op(m), Op::Mul);
    assert_eq!(g.deps(m), &vec![a, c]);
    assert_eq!(g.len(), 3);
}

#[test]
fn sub_adds_the_negation() {
    let mut g = Graph::new();
    let a = g.leaf();
    let b = g.leaf();
    let (c, m, s) = g.sub(a, b);
    assert_eq!((c, m, s), (2, 3, 4));
    assert_eq!(g.op(c), Op::Leaf);
    assert_eq!(g.deps(m), &vec![b, c]);
    assert_eq!(g.op(s), Op::Add);
    assert_eq!(g.deps(s), &vec![a, m]);
    assert_eq!(g.backward_order(s), vec![s, a, m, b, c]);
}

#[test]
fn sum_folds_from_a_zero_leaf() {
    let mut g = Graph::new();
    let a = g.leaf();
    let b = g.leaf();
    let c = g.leaf();
    let z = g.sum(&vec![c, a, b]);
    assert_eq!(z, 3);
    assert_eq!(g.len(), 7);
    assert_eq!(g.op(z), Op::Leaf);
    assert_eq!(g.deps(4), &vec![3, c]);
    assert_eq!(g.deps(5), &vec![4, a]);
    assert_eq!(g.deps(6), &vec![5, b]);
    assert_eq!(g.op(6), Op::Add);
}

#[test]
fn sum_of_nothing_is_the_zero_leaf() {
    let mut g = Graph::new();
    let _a = g.leaf();
    let z = g.sum(&Vec::new());
    assert_eq!(z, 1);
    assert_eq!(g.len(), 2);
    assert_eq!(g.backward_order(z), vec![z]);
}

#[test]
fn tanh_rule_matches_finite_difference() {
    // The tanh rule, 1 - t^2, against the slope of tanh around 0.3.
    let mut g = Graph::new();
    let mut n = Numbers { data: Vec::new(), grad: Vec::new() };
    let x = g.leaf();
    n.push(0.3);
    let t = g.tanh(x);
    n.push(n.data[x].tanh());
    let order = g.backward_order(t);
    n.run(&g, t, &order);
    let eps: f64 = 1e-6;
    let slope = ((0.3f64 + eps).tanh() - (0.3f64 - eps).tanh()) / (2.0 * eps);
    assert!((n.grad[x] - slope).abs() < 1e-6);
}
