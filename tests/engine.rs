use micrograd::label::{decimal_string, indexed_label};
use micrograd::{Graph, Op, Scalar, Value};

#[derive(Clone, Copy, Debug, PartialEq)]
struct F(f64);

impl Scalar for F {
    fn spec_add(self, other: F) -> F {
        F(self.0 + other.0)
    }
    fn spec_sub(self, other: F) -> F {
        F(self.0 - other.0)
    }
    fn spec_mul(self, other: F) -> F {
        F(self.0 * other.0)
    }
    fn spec_powf(self, exponent: F) -> F {
        F(self.0.powf(exponent.0))
    }
    fn spec_exp(self) -> F {
        F(self.0.exp())
    }
    fn spec_tanh(self) -> F {
        F(self.0.tanh())
    }
    fn spec_is_positive(self) -> bool {
        self.0 > 0.0
    }
    fn zero() -> F {
        F(0.0)
    }
    fn one() -> F {
        F(1.0)
    }
    fn neg_one() -> F {
        F(-1.0)
    }
    fn add(&self, other: &F) -> F {
        F(self.0 + other.0)
    }
    fn sub(&self, other: &F) -> F {
        F(self.0 - other.0)
    }
    fn mul(&self, other: &F) -> F {
        F(self.0 * other.0)
    }
    fn powf(&self, exponent: &F) -> F {
        F(self.0.powf(exponent.0))
    }
    fn exp(&self) -> F {
        F(self.0.exp())
    }
    fn tanh(&self) -> F {
        F(self.0.tanh())
    }
    fn is_positive(&self) -> bool {
        self.0 > 0.0
    }
}

fn leaf(g: &mut Graph<F>, v: f64, label: &str) -> Value {
    Value::new(g, F(v), label.to_string())
}

fn data(g: &Graph<F>, v: Value) -> f64 {
    v.get_data(g).0
}

fn grad(g: &Graph<F>, v: Value) -> f64 {
    v.get_grad(g).0
}

fn trunc2(x: f64) -> f64 {
    f64::trunc(x * 100.0) / 100.0
}

#[test]
fn test_add_values() {
    let mut g = Graph::new();
    let x = Value::newd(&mut g, F(3.0), "x".to_string());
    let y = Value::newd(&mut g, F(3.0), "y".to_string());
    let mut z = x.add(&mut g, y);
    z.set_label(&mut g, "z");
    assert_eq!(data(&g, z), 6.0);
    let three = Value::newd(&mut g, F(3.0), "".to_string());
    z = z.add(&mut g, three);
    assert_eq!(data(&g, z), 9.0);
    let zz = z.add_scalar(&mut g, F(1.0));
    assert_eq!(data(&g, zz), 10.0);
    let zz = zz.scalar_add(&mut g, F(1.0));
    assert_eq!(data(&g, zz), 11.0);
    zz.backward(&mut g);
    assert_eq!(grad(&g, x), 1.0);
    assert_eq!(grad(&g, y), 1.0);
}

#[test]
fn test_div_values() {
    let mut g = Graph::new();
    let x = Value::newd(&mut g, F(100.0), "x".to_string());
    let y = Value::newd(&mut g, F(2.0), "y".to_string());
    let mut z = x.div(&mut g, y);
    assert_eq!(data(&g, z), 50.0);
    let two = Value::newd(&mut g, F(2.0), "".to_string());
    z = z.div(&mut g, two);
    assert_eq!(data(&g, z), 25.0);
    let zz = z.div_scalar(&mut g, F(2.0));
    assert_eq!(data(&g, zz), 12.5);
    let zz = zz.scalar_div(&mut g, F(2.0));
    assert_eq!(data(&g, zz), 0.16);
    zz.backward(&mut g);
    assert_eq!(grad(&g, x), -0.0016);
    assert_eq!(grad(&g, y), 0.08);
}

#[test]
fn test_mul_values() {
    let mut g = Graph::new();
    let x = Value::newd(&mut g, F(3.0), "x".to_string());
    let y = Value::newd(&mut g, F(2.0), "y".to_string());
    let mut z = x.mul(&mut g, y);
    assert_eq!(data(&g, z), 6.0);
    let three = Value::newd(&mut g, F(3.0), "".to_string());
    z = z.mul(&mut g, three);
    assert_eq!(data(&g, z), 18.0);
    let zz = z.mul_scalar(&mut g, F(2.0));
    assert_eq!(data(&g, zz), 36.0);
    zz.backward(&mut g);
    assert_eq!(grad(&g, x), 12.0);
    assert_eq!(grad(&g, y), 18.0);
}

#[test]
fn test_sub_values() {
    let mut g = Graph::new();
    let x = Value::newd(&mut g, F(3.0), "x".to_string());
    let y = Value::newd(&mut g, F(5.0), "y".to_string());
    let z = x.sub(&mut g, y);
    z.set_label(&mut g, "z");
    assert_eq!(data(&g, z), -2.0);
    let eight = Value::newd(&mut g, F(8.0), "".to_string());
    let z1 = z.sub(&mut g, eight);
    z1.set_label(&mut g, "z1");
    assert_eq!(data(&g, z1), -10.0);
    let zz1 = z1.sub_scalar(&mut g, F(1.0));
    zz1.set_label(&mut g, "zz1");
    assert_eq!(data(&g, zz1), -11.0);
    let zz2 = zz1.scalar_sub(&mut g, F(1.0));
    zz2.set_label(&mut g, "zz2");
    assert_eq!(data(&g, zz2), 12.0);
    zz2.backward(&mut g);
    assert_eq!(grad(&g, x), -1.0);
    assert_eq!(grad(&g, y), 1.0);
}

#[test]
fn test_pow() {
    let mut g = Graph::new();
    let x = leaf(&mut g, 3.0, "x");
    let e = leaf(&mut g, 2.0, "e");
    let p = x.pow(&mut g, e);
    assert_eq!(data(&g, p), 9.0);
    assert_eq!(g.op(p.id), Op::Pow(x.id, e.id));
    p.backward(&mut g);
    // d(x^2)/dx = 2x; the exponent receives nothing
    assert_eq!(grad(&g, x), 6.0);
    assert_eq!(grad(&g, e), 0.0);
    let q = x.powf(&mut g, F(3.0));
    assert_eq!(data(&g, q), 27.0);
    assert_eq!(q.get_label(&g), "");
    let exponent = Value { id: q.id - 1 };
    assert_eq!(exponent.get_label(&g), "powf");
}

#[test]
fn test_relu() {
    let mut g = Graph::new();
    let a = leaf(&mut g, -2.0, "a");
    let b = leaf(&mut g, 3.0, "b");
    let ra = a.relu(&mut g);
    let rb = b.relu(&mut g);
    assert_eq!(data(&g, ra), 0.0);
    assert_eq!(data(&g, rb), 3.0);
    // the operand keeps its own value
    assert_eq!(data(&g, a), -2.0);
    let s = ra.add(&mut g, rb);
    s.backward(&mut g);
    assert_eq!(grad(&g, a), 0.0);
    assert_eq!(grad(&g, b), 1.0);
}

#[test]
fn test_tanh() {
    let mut g = Graph::new();
    let x = leaf(&mut g, 0.5, "x");
    let t = x.tanh(&mut g);
    assert_eq!(data(&g, t), 0.5f64.tanh());
    let y = t.mul_scalar(&mut g, F(3.0));
    y.backward(&mut g);
    let th = 0.5f64.tanh();
    assert!((grad(&g, x) - (1.0 - th * th) * 3.0).abs() < 1e-12);
}

#[test]
fn test_clone_values() {
    let mut g = Graph::new();
    let a = leaf(&mut g, -2.0, "a");
    let b = leaf(&mut g, 3.0, "b");
    let d = a.mul(&mut g, b);
    d.set_label(&mut g, "d");
    let e = a.add(&mut g, b);
    e.set_label(&mut g, "e");
    let f = d.mul(&mut g, e);
    f.set_label(&mut g, "f");
    f.backward(&mut g);
    assert_eq!(grad(&g, a), -3.0);
    assert_eq!(grad(&g, b), -8.0);
}

#[test]
fn test_values() {
    let mut g = Graph::new();
    let a = leaf(&mut g, 2.0, "a");
    let b = leaf(&mut g, -3.0, "b");
    let c = leaf(&mut g, 10.0, "c");
    let e = a.mul(&mut g, b);
    e.set_label(&mut g, "e");
    assert_eq!(data(&g, e), -6.0);
    let d = e.add(&mut g, c);
    d.set_label(&mut g, "d");
    assert_eq!(data(&g, d), 4.0);
    let f = leaf(&mut g, 2.0, "f");
    let l = d.mul(&mut g, f);
    assert_eq!(data(&g, l), 8.0);
    l.set_label(&mut g, "L");
    l.backward(&mut g);
    assert_eq!(grad(&g, a), -6.0);
    assert_eq!(grad(&g, b), 4.0);
    assert_eq!(grad(&g, c), 2.0);
    assert_eq!(grad(&g, d), 2.0);
    assert_eq!(grad(&g, e), 2.0);
    assert_eq!(grad(&g, f), 4.0);
}

/// Builds `x1*w1 + x2*w2 + b` and returns (x1, x2, w1, w2, n).
fn tanh_unit_inputs(g: &mut Graph<F>) -> (Value, Value, Value, Value, Value) {
    let x1 = leaf(g, 2.0, "x1");
    let x2 = leaf(g, 0.0, "x2");
    let w1 = leaf(g, -3.0, "w1");
    let w2 = leaf(g, 1.0, "w2");
    let b = leaf(g, 6.8813, "b");
    let x1w1 = x1.mul(g, w1);
    x1w1.set_label(g, "x1w1");
    let x2w2 = x2.mul(g, w2);
    x2w2.set_label(g, "x2w2");
    let x1w1x2w2 = x1w1.add(g, x2w2);
    x1w1x2w2.set_label(g, "x1w1 + x2w2");
    let n = x1w1x2w2.add(g, b);
    n.set_label(g, "x1w1x2w2 + b");
    (x1, x2, w1, w2, n)
}

#[test]
fn test_activation_unit() {
    let mut g = Graph::new();
    let (x1, x2, w1, w2, n) = tanh_unit_inputs(&mut g);
    let o = n.tanh(&mut g);
    o.set_label(&mut g, "tanh");
    o.backward(&mut g);
    assert_eq!(trunc2(grad(&g, x1)), -1.50);
    assert_eq!(trunc2(grad(&g, w1)), 1.00);
    assert_eq!(trunc2(grad(&g, x2)), 0.50);
    assert_eq!(trunc2(grad(&g, w2)), 0.0);
}

#[test]
fn test_activation_unit_exp() {
    let mut g = Graph::new();
    let (x1, x2, w1, w2, n) = tanh_unit_inputs(&mut g);
    let e = n.mul_scalar(&mut g, F(2.0));
    let ee = e.exp(&mut g);
    let num = ee.sub_scalar(&mut g, F(1.0));
    let den = ee.add_scalar(&mut g, F(1.0));
    let o = num.div(&mut g, den);
    assert_eq!(f64::trunc(data(&g, o) * 1000.0) / 1000.0, 0.707);
    o.set_label(&mut g, "exp");
    o.backward(&mut g);
    assert_eq!(trunc2(grad(&g, x1)), -1.50);
    assert_eq!(trunc2(grad(&g, w1)), 1.00);
    assert_eq!(trunc2(grad(&g, x2)), 0.50);
    assert_eq!(trunc2(grad(&g, w2)), 0.0);
}

#[test]
fn test_tanh_and_exp() {
    let mut g = Graph::new();
    let x1 = leaf(&mut g, 2.0, "x1");
    let x2 = leaf(&mut g, 3.0, "x2");
    let n = x1.mul(&mut g, x2);
    let o = n.tanh(&mut g);
    o.set_label(&mut g, "tanh");
    o.backward(&mut g);

    let xx1 = leaf(&mut g, 2.0, "x1");
    let xx2 = leaf(&mut g, 3.0, "x2");
    let n = xx1.mul(&mut g, xx2);
    n.set_label(&mut g, "n");
    let n1 = n.scalar_mul(&mut g, F(2.0));
    n1.set_label(&mut g, "n1");
    let e1 = n1.exp(&mut g);
    e1.set_label(&mut g, "e1");
    let n2 = n.scalar_mul(&mut g, F(2.0));
    n2.set_label(&mut g, "n2");
    let e2 = n2.exp(&mut g);
    e2.set_label(&mut g, "e2");
    let num = e1.sub_scalar(&mut g, F(1.0));
    let den = e2.add_scalar(&mut g, F(1.0));
    let oo = num.div(&mut g, den);
    oo.set_label(&mut g, "oo");
    oo.set_label(&mut g, "exp");
    oo.backward(&mut g);
    assert_eq!(trunc2(data(&g, o)), trunc2(data(&g, oo)));
    assert_eq!(trunc2(grad(&g, o)), trunc2(grad(&g, oo)));
    assert_eq!(trunc2(grad(&g, x1)), trunc2(grad(&g, xx1)));
    assert_eq!(trunc2(grad(&g, x2)), trunc2(grad(&g, xx2)));
    assert_eq!(
        f64::trunc(grad(&g, x1) * 1000000.0) / 1000000.0,
        f64::trunc(grad(&g, xx1) * 1000000.0) / 1000000.0
    );
    assert_eq!(
        f64::trunc(grad(&g, x2) * 1000000.0) / 1000000.0,
        f64::trunc(grad(&g, xx2) * 1000000.0) / 1000000.0
    );
}

#[test]
fn shared_node_accumulates() {
    let mut g = Graph::new();
    let w = leaf(&mut g, 3.0, "w");
    let r = w.mul(&mut g, w);
    r.backward(&mut g);
    assert_eq!(grad(&g, w), 6.0);

    // w feeds two independent products that are then added
    let mut g = Graph::new();
    let w = leaf(&mut g, 3.0, "w");
    let a = leaf(&mut g, 4.0, "a");
    let b = leaf(&mut g, 5.0, "b");
    let p = w.mul(&mut g, a);
    let q = w.mul(&mut g, b);
    let r = p.add(&mut g, q);
    r.backward(&mut g);
    assert_eq!(grad(&g, w), 9.0);
}

#[test]
fn zero_grad_then_backward_repeats() {
    let mut g = Graph::new();
    let (x1, x2, w1, w2, n) = tanh_unit_inputs(&mut g);
    let o = n.tanh(&mut g);
    o.backward(&mut g);
    let first: Vec<f64> = (0..g.size()).map(|i| g.grad(i).0).collect();
    for i in 0..g.size() {
        g.zero_grad(i);
    }
    assert_eq!(grad(&g, x1), 0.0);
    o.backward(&mut g);
    let second: Vec<f64> = (0..g.size()).map(|i| g.grad(i).0).collect();
    assert_eq!(first, second);
    let _ = (x2, w1, w2);
}

#[test]
fn backward_twice_accumulates() {
    let mut g = Graph::new();
    let a = leaf(&mut g, 2.0, "a");
    let b = leaf(&mut g, 5.0, "b");
    let p = a.mul(&mut g, b);
    p.backward(&mut g);
    p.backward(&mut g);
    assert_eq!(grad(&g, a), 10.0);
    assert_eq!(grad(&g, p), 1.0);
    a.zero_grad(&mut g);
    assert_eq!(grad(&g, a), 0.0);
    assert_eq!(grad(&g, b), 4.0);
}

#[test]
fn inverse_operators_recover_value() {
    let mut g = Graph::new();
    let a = leaf(&mut g, 7.25, "a");
    let b = leaf(&mut g, -1.5, "b");
    let d = a.sub(&mut g, b);
    let back = d.add(&mut g, b);
    assert!((data(&g, back) - 7.25).abs() < 1e-12);
    let q = a.div(&mut g, b);
    let back = q.mul(&mut g, b);
    assert!((data(&g, back) - 7.25).abs() < 1e-12);
}

#[test]
fn leaf_backward_sets_one() {
    let mut g = Graph::new();
    let a = leaf(&mut g, 4.0, "a");
    a.set_grad(&mut g, F(7.0));
    a.backward(&mut g);
    assert_eq!(grad(&g, a), 1.0);
    assert_eq!(g.topo_order(a.id), vec![a.id]);
}

#[test]
fn equal_values_are_distinct_nodes() {
    let mut g = Graph::new();
    let a = leaf(&mut g, 2.0, "a");
    let b = leaf(&mut g, 2.0, "b");
    assert_ne!(a, b);
    let p = a.mul(&mut g, b);
    p.backward(&mut g);
    assert_eq!(grad(&g, a), 2.0);
    assert_eq!(grad(&g, b), 2.0);
    assert_eq!(g.topo_order(p.id), vec![a.id, b.id, p.id]);
}

#[test]
fn topo_order_visits_shared_node_once() {
    let mut g = Graph::new();
    let a = leaf(&mut g, 1.0, "a");
    let b = a.exp(&mut g);
    let c = a.tanh(&mut g);
    let d = b.add(&mut g, c);
    let order = g.topo_order(d.id);
    assert_eq!(order, vec![a.id, b.id, c.id, d.id]);
    // a node not reached keeps its gradient
    let other = leaf(&mut g, 9.0, "other");
    other.set_grad(&mut g, F(5.0));
    d.backward(&mut g);
    assert_eq!(grad(&g, other), 5.0);
    let expected = 1.0f64.exp() + (1.0 - 1.0f64.tanh().powi(2));
    assert!((grad(&g, a) - expected).abs() < 1e-12);
}

#[test]
fn exp_and_neg_rules() {
    let mut g = Graph::new();
    let x = leaf(&mut g, 0.5, "x");
    let n = x.neg(&mut g);
    assert_eq!(data(&g, n), -0.5);
    let e = n.exp(&mut g);
    e.backward(&mut g);
    assert!((grad(&g, x) + (-0.5f64).exp()).abs() < 1e-12);
    assert_eq!(g.op(e.id).tag(), "exp");
    assert_eq!(g.op(n.id).tag(), "*");
}

#[test]
fn sum_and_vec_build_leaves() {
    let mut g = Graph::new();
    let xs = Value::vec(&mut g, &vec![F(1.0), F(2.0), F(4.5)]);
    assert_eq!(xs.len(), 3);
    assert_eq!(xs[2].get_label(&g), "x2");
    let s = Value::sum(&mut g, &xs);
    assert_eq!(data(&g, s), 7.5);
    s.backward(&mut g);
    for x in xs.iter() {
        assert_eq!(grad(&g, *x), 1.0);
    }
    x_label_roundtrip(&mut g, xs[0]);
}

fn x_label_roundtrip(g: &mut Graph<F>, v: Value) {
    v.set_label(g, "!");
    assert_eq!(v.get_label(g), "x0!");
    v.set_data(g, F(-4.0));
    assert_eq!(data(g, v), -4.0);
}

/// f(a, b) = tanh(a*b + a^2) / exp(b) - relu(a - b)
fn composite(g: &mut Graph<F>, a: f64, b: f64) -> (Value, Value, Value) {
    let va = leaf(g, a, "a");
    let vb = leaf(g, b, "b");
    let ab = va.mul(g, vb);
    let a2 = va.powf(g, F(2.0));
    let s = ab.add(g, a2);
    let t = s.tanh(g);
    let e = vb.exp(g);
    let q = t.div(g, e);
    let d = va.sub(g, vb);
    let r = d.relu(g);
    let f = q.sub(g, r);
    (va, vb, f)
}

#[test]
fn gradients_match_finite_differences() {
    let (a, b) = (0.7, -0.3);
    let mut g = Graph::new();
    let (va, vb, f) = composite(&mut g, a, b);
    f.backward(&mut g);
    let h = 1e-6;
    let eval = |a: f64, b: f64| {
        let mut g = Graph::new();
        let (_, _, f) = composite(&mut g, a, b);
        f.get_data(&g).0
    };
    let da = (eval(a + h, b) - eval(a - h, b)) / (2.0 * h);
    let db = (eval(a, b + h) - eval(a, b - h)) / (2.0 * h);
    assert!((grad(&g, va) - da).abs() < 1e-6);
    assert!((grad(&g, vb) - db).abs() < 1e-6);
}

#[test]
fn number_first_operators_put_the_leaf_first() {
    let mut g = Graph::new();
    let x = leaf(&mut g, 3.0, "x");
    let a = x.scalar_add(&mut g, F(2.0));
    assert_eq!(g.op(a.id), Op::Add(a.id - 1, x.id));
    assert_eq!(data(&g, a), 5.0);
    let m = x.scalar_mul(&mut g, F(4.0));
    assert_eq!(g.op(m.id), Op::Mul(m.id - 1, x.id));
    assert_eq!(data(&g, m), 12.0);
    m.backward(&mut g);
    assert_eq!(grad(&g, x), 4.0);
}

#[test]
fn labels_count_in_decimal() {
    assert_eq!(decimal_string(0), "0");
    assert_eq!(decimal_string(7), "7");
    assert_eq!(decimal_string(1203), "1203");
    assert_eq!(indexed_label("w", 12), "w12");
    let mut g = Graph::new();
    let inputs: Vec<F> = (0..12).map(|i| F(i as f64)).collect();
    let xs = Value::vec(&mut g, &inputs);
    assert_eq!(xs[11].get_label(&g), "x11");
    assert_eq!(xs[0].get_label(&g), "x0");
}
