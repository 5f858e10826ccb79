use micrograd::{Graph, Layer, Module, Neuron, Scalar, Value, MLP};
use rand::distributions::{Distribution, Uniform};

#[derive(Clone, Copy, Debug, PartialEq)]
struct R(f64);

impl Scalar for R {
    fn spec_add(self, other: R) -> R {
        R(self.0 + other.0)
    }
    fn spec_sub(self, other: R) -> R {
        R(self.0 - other.0)
    }
    fn spec_mul(self, other: R) -> R {
        R(self.0 * other.0)
    }
    fn spec_powf(self, exponent: R) -> R {
        R(self.0.powf(exponent.0))
    }
    fn spec_exp(self) -> R {
        R(self.0.exp())
    }
    fn spec_tanh(self) -> R {
        R(self.0.tanh())
    }
    fn spec_is_positive(self) -> bool {
        self.0 > 0.0
    }
    fn zero() -> R {
        R(0.0)
    }
    fn one() -> R {
        R(1.0)
    }
    fn neg_one() -> R {
        R(-1.0)
    }
    fn add(&self, other: &R) -> R {
        R(self.0 + other.0)
    }
    fn sub(&self, other: &R) -> R {
        R(self.0 - other.0)
    }
    fn mul(&self, other: &R) -> R {
        R(self.0 * other.0)
    }
    fn powf(&self, exponent: &R) -> R {
        R(self.0.powf(exponent.0))
    }
    fn exp(&self) -> R {
        R(self.0.exp())
    }
    fn tanh(&self) -> R {
        R(self.0.tanh())
    }
    fn is_positive(&self) -> bool {
        self.0 > 0.0
    }
}

fn random_weights(n: usize) -> Vec<R> {
    let mut rng = rand::thread_rng();
    let die = Uniform::from(-1.0..1.0);
    (0..n).map(|_| R(die.sample(&mut rng))).collect()
}

fn layer_weights(nin: usize, nout: usize) -> Vec<Vec<R>> {
    (0..nout).map(|_| random_weights(nin)).collect()
}

fn mlp_weights(nin: usize, nouts: &[usize]) -> Vec<Vec<Vec<R>>> {
    let mut sizes = vec![nin];
    sizes.extend_from_slice(nouts);
    (0..nouts.len()).map(|i| layer_weights(sizes[i], sizes[i + 1])).collect()
}

fn inputs(g: &mut Graph<R>, xs: &[f64]) -> Vec<Value> {
    let v: Vec<R> = xs.iter().map(|x| R(*x)).collect();
    Value::vec(g, &v)
}

#[test]
fn test_neuron() {
    let mut g = Graph::new();
    let neuron = Neuron::new(&mut g, &random_weights(3), true);
    let x = inputs(&mut g, &[1.0, 2.0, 3.0]);
    let output = neuron.call(&mut g, &x);
    output.backward(&mut g);
    assert_eq!(neuron.parameters().len(), 4);
    assert!(output.get_data(&g).0 >= 0.0);
}

#[test]
fn test_layer() {
    let mut g = Graph::new();
    let layer = Layer::new(&mut g, 4, 5, true, &layer_weights(4, 5));
    let x = inputs(&mut g, &[1.0, -2.0, 3.0]);
    let output = layer.call(&mut g, &x);
    assert_eq!(output.len(), 5);
    for o in output.iter() {
        o.backward(&mut g);
    }
    assert_eq!(layer.parameters().len(), 5 * (4 + 1));
}

#[test]
fn test_layer_large() {
    let mut g = Graph::new();
    let layer = Layer::new(&mut g, 10, 10, true, &layer_weights(10, 10));
    let x = inputs(&mut g, &[1.0, -2.0, 3.0]);
    let output = layer.call(&mut g, &x);
    assert_eq!(output.len(), 10);
    for o in output.iter() {
        o.backward(&mut g);
    }
    assert_eq!(layer.parameters().len(), 10 * (10 + 1));
}

#[test]
fn test_mlp() {
    let x = [2.0, 3.0, -1.0];
    let mut g = Graph::new();
    let mlp = MLP::new(&mut g, 2, &[4, 4, 1], &mlp_weights(2, &[4, 4, 1]));
    let output = mlp.call(&mut g, &x.iter().map(|v| R(*v)).collect());
    output.backward(&mut g);
    let params = mlp.parameters();
    let cal_params = ((2 * 4) + 4) + ((4 * 4) + 4) + (4 + 1);
    assert_eq!(params.len(), cal_params);
}

#[test]
fn test_nn() {
    let mut g = Graph::new();
    let mlp = MLP::new(&mut g, 3, &[4, 4, 1], &mlp_weights(3, &[4, 4, 1]));
    let xs = [
        [2.0, 3.0, -1.0],
        [3.0, -1.0, 0.5],
        [0.5, 1.0, 1.0],
        [1.0, 1.0, -1.0],
    ];
    let ys = [1.0, -1.0, -1.0, 1.0];
    let mut losses = vec![];
    for _ in 0..200 {
        let ypred: Vec<Value> = xs
            .iter()
            .map(|x| mlp.call(&mut g, &x.iter().map(|v| R(*v)).collect()))
            .collect();
        let terms: Vec<Value> = ys
            .iter()
            .zip(ypred.iter())
            .map(|(ygt, yout)| {
                let d = yout.sub_scalar(&mut g, R(*ygt));
                d.powf(&mut g, R(2.0))
            })
            .collect();
        let loss = Value::sum(&mut g, &terms);
        mlp.zero_grad(&mut g);
        loss.backward(&mut g);
        for p in mlp.parameters() {
            let data = p.get_data(&g).0 - 0.01 * p.get_grad(&g).0;
            p.set_data(&mut g, R(data));
        }
        losses.push(loss.get_data(&g).0);
    }
    let params = mlp.parameters();
    let cal_params = ((3 * 4) + 4) + ((4 * 4) + 4) + (4 + 1);
    assert_eq!(params.len(), cal_params);
    assert!(losses.iter().all(|l| l.is_finite()));
}

#[test]
fn zero_grad_clears_only_parameters() {
    let mut g = Graph::new();
    let neuron = Neuron::new(&mut g, &vec![R(0.5), R(-0.25)], false);
    let x = inputs(&mut g, &[2.0, 4.0]);
    let out = neuron.call(&mut g, &x);
    out.backward(&mut g);
    // linear unit: d out / d w_i = x_i, d out / d b = 1, d out / d x_i = w_i
    assert_eq!(neuron.w[0].get_grad(&g).0, 2.0);
    assert_eq!(neuron.w[1].get_grad(&g).0, 4.0);
    assert_eq!(neuron.b.get_grad(&g).0, 1.0);
    assert_eq!(x[1].get_grad(&g).0, -0.25);
    assert_eq!(out.get_data(&g).0, 0.0);
    neuron.zero_grad(&mut g);
    for p in neuron.parameters() {
        assert_eq!(p.get_grad(&g).0, 0.0);
    }
    assert_eq!(x[1].get_grad(&g).0, -0.25);
    assert_eq!(neuron.w[1].get_label(&g), "w1");
    assert_eq!(neuron.b.get_label(&g), "b");
}

#[test]
fn parameters_keep_layer_order() {
    let mut g = Graph::new();
    let mlp = MLP::new(&mut g, 1, &[2, 1], &vec![vec![vec![R(1.0)], vec![R(2.0)]], vec![vec![R(3.0), R(4.0)]]]);
    let ps: Vec<f64> = mlp.parameters().iter().map(|p| p.get_data(&g).0).collect();
    assert_eq!(ps, vec![1.0, 0.0, 2.0, 0.0, 3.0, 4.0, 0.0]);
    assert!(mlp.layers[0].neurons[0].nonlin);
    assert!(!mlp.layers[1].neurons[0].nonlin);
    // relu(1*2) = 2, relu(2*2) = 4, out = 3*2 + 4*4 = 22
    let out = mlp.call(&mut g, &vec![R(2.0)]);
    assert_eq!(out.get_data(&g).0, 22.0);
}

#[test]
fn neuron_backward_after_call() {
    // act = 0.5*2 + (-1.5)*1 + 0 = -0.5: the ReLU blocks the gradient
    let mut g = Graph::new();
    let neuron = Neuron::new(&mut g, &vec![R(0.5), R(-1.5)], true);
    let x = inputs(&mut g, &[2.0, 1.0]);
    let out = neuron.call(&mut g, &x);
    assert_eq!(out.get_data(&g).0, 0.0);
    out.backward(&mut g);
    for p in neuron.parameters() {
        assert_eq!(p.get_grad(&g).0, 0.0);
    }
    // act = 0.5*2 + 1.5*1 = 2.5 > 0: w_i gets x_i, b gets one
    let mut g = Graph::new();
    let neuron = Neuron::new(&mut g, &vec![R(0.5), R(1.5)], true);
    let x = inputs(&mut g, &[2.0, 1.0]);
    let before = g.size();
    let out = neuron.call(&mut g, &x);
    for i in before..g.size() {
        assert_eq!(g.grad(i).0, 0.0);
        assert_eq!(g.label(i), "");
    }
    assert_eq!(out.get_data(&g).0, 2.5);
    out.backward(&mut g);
    assert_eq!(neuron.w[0].get_grad(&g).0, 2.0);
    assert_eq!(neuron.w[1].get_grad(&g).0, 1.0);
    assert_eq!(neuron.b.get_grad(&g).0, 1.0);
}

#[test]
fn mlp_call_makes_fresh_input_leaves() {
    let mut g = Graph::new();
    let mlp = MLP::new(&mut g, 2, &[3, 1], &mlp_weights(2, &[3, 1]));
    let before = g.size();
    let _ = mlp.call(&mut g, &vec![R(1.0), R(-1.0)]);
    assert_eq!(Value { id: before }.get_label(&g), "x0");
    assert_eq!(Value { id: before + 1 }.get_label(&g), "x1");
    for i in before..g.size() {
        assert_eq!(g.grad(i).0, 0.0);
    }
}
