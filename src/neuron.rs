use vstd::prelude::*;
use vstd::string::*;
use crate::graph::{Graph, Op, computed, grads_zero_from, unlabelled_from, lemma_grads_zero_chain, lemma_unlabelled_chain, lemma_extends_refl, lemma_extends_trans, lemma_extends_at, lemma_computed_extends};
use crate::label::{decimal, indexed_label};
use crate::module::Module;
use crate::scalar::Scalar;
use crate::value::Value;

verus! {

/// One unit: `act(sum_i w_i * x_i + b)`, where `act` is ReLU when `nonlin`
/// holds and the identity otherwise.
pub struct Neuron {
    pub w: Vec<Value>,
    pub b: Value,
    pub nonlin: bool,
}

/// The smaller of two naturals.
pub open spec fn min_nat(a: nat, b: nat) -> nat {
    if a <= b { a } else { b }
}

impl Neuron {
    /// Every weight and the bias name nodes of `g`.
    pub open spec fn valid_in<S: Scalar>(&self, g: &Graph<S>) -> bool {
        &&& forall|k: int| 0 <= k < self.w@.len() ==> (#[trigger] self.w@[k]).valid_in(g)
        &&& self.b.valid_in(g)
    }

    /// Node `r` of `g` is this neuron applied to inputs `x`, built from index
    /// `s` on: with `m` the number of weight/input pairs, `m` products, a zero
    /// leaf, `m` sums folding the products, the sum with the bias, and, when
    /// nonlinear, a ReLU of it; each of these nodes holds the value computed
    /// from its operands.
    pub open spec fn built_at<S: Scalar>(&self, g: &Graph<S>, s: int, x: Seq<Value>, r: Value) -> bool {
        let m = min_nat(self.w@.len(), x.len()) as int;
        &&& forall|k: int| 0 <= k < m ==> #[trigger] g.ops()[s + k] == Op::Mul(self.w@[k].id, x[k].id)
        &&& g.ops()[s + m] == Op::Leaf
        &&& g.data()[s + m] == g.zero()
        &&& forall|k: int| 0 <= k < m ==> #[trigger] g.ops()[s + m + 1 + k] == Op::Add((s + m + k) as usize, (s + k) as usize)
        &&& g.ops()[s + 2 * m + 1] == Op::Add((s + 2 * m) as usize, self.b.id)
        &&& if self.nonlin {
            &&& g.ops()[s + 2 * m + 2] == Op::Relu((s + 2 * m + 1) as usize)
            &&& r.id == s + 2 * m + 2
        } else {
            r.id == s + 2 * m + 1
        }
        &&& forall|i: int| s <= i <= r.id ==> #[trigger] computed(g.ops()[i], g.data()[i], g.data(), g.zero())
    }

    /// How many nodes applying the neuron to `x` adds.
    pub open spec fn cost(&self, x: Seq<Value>) -> nat {
        2 * min_nat(self.w@.len(), x.len()) + 2 + if self.nonlin { 1nat } else { 0nat }
    }

    /// A neuron whose weights are fresh leaves holding `weights` (labelled
    /// `w0`, `w1`, ...), followed by a bias leaf holding zero (labelled `b`).
    pub fn new<S: Scalar>(g: &mut Graph<S>, weights: &Vec<S>, nonlin: bool) -> (r: Neuron)
        requires
            old(g).wf(),
        ensures
            final(g).wf(),
            final(g).extends(old(g)),
            final(g).len() == old(g).len() + weights@.len() + 1,
            r.valid_in(final(g)),
            r.nonlin == nonlin,
            r.w@.len() == weights@.len(),
            forall|k: int| 0 <= k < weights@.len() ==> (#[trigger] r.w@[k]).id == old(g).len() + k,
            forall|k: int| 0 <= k < weights@.len() ==> {
                &&& #[trigger] final(g).ops()[old(g).len() + k] == Op::Leaf
                &&& final(g).data()[old(g).len() + k] == weights@[k]
                &&& final(g).grads()[old(g).len() + k] == old(g).zero()
                &&& final(g).labels()[old(g).len() + k] == "w"@ + decimal(k as nat)
            },
            r.b.id == old(g).len() + weights@.len(),
            final(g).ops()[r.b.id as int] == Op::Leaf,
            final(g).data()[r.b.id as int] == old(g).zero(),
            final(g).grads()[r.b.id as int] == old(g).zero(),
            final(g).labels()[r.b.id as int] == "b"@,
    {
        let ghost g0 = *g;
        proof {
            lemma_extends_refl(g);
        }
        let mut w: Vec<Value> = Vec::new();
        let mut i: usize = 0;
        while i < weights.len()
            invariant
                g.wf(),
                g0.wf(),
                g.extends(&g0),
                i <= weights@.len(),
                g.len() == g0.len() + i,
                w@.len() == i,
                forall|k: int| 0 <= k < i ==> (#[trigger] w@[k]).id == g0.len() + k,
                forall|k: int| 0 <= k < i ==> {
                    &&& #[trigger] g.ops()[g0.len() + k] == Op::Leaf
                    &&& g.data()[g0.len() + k] == weights@[k]
                    &&& g.grads()[g0.len() + k] == g0.zero()
                    &&& g.labels()[g0.len() + k] == "w"@ + decimal(k as nat)
                },
            decreases weights@.len() - i,
        {
            let ghost g1 = *g;
            let label = indexed_label("w", i);
            let v = Value::new(g, weights[i], label);
            w.push(v);
            proof {
                lemma_extends_trans(g, &g1, &g0);
                assert forall|k: int| 0 <= k < i + 1 implies {
                    &&& #[trigger] g.ops()[g0.len() + k] == Op::Leaf
                    &&& g.data()[g0.len() + k] == weights@[k]
                    &&& g.grads()[g0.len() + k] == g0.zero()
                } by {
                    if k < i {
                        lemma_extends_at(g, &g1, g0.len() + k);
                    }
                }
            }
            i += 1;
        }
        let ghost g1 = *g;
        let z = g.zero_value();
        let b = Value::newd(g, z, String::from_str("b"));
        proof {
            lemma_extends_trans(g, &g1, &g0);
            assert forall|k: int| 0 <= k < weights@.len() implies {
                &&& #[trigger] g.ops()[g0.len() + k] == Op::Leaf
                &&& g.data()[g0.len() + k] == weights@[k]
                &&& g.grads()[g0.len() + k] == g0.zero()
                &&& g.labels()[g0.len() + k] == "w"@ + decimal(k as nat)
            } by {
                lemma_extends_at(g, &g1, g0.len() + k);
            }
        }
        Neuron { w, b, nonlin }
    }

    /// Applies the neuron to `x`, pairing weights and inputs in order up to
    /// the shorter of the two.
    pub fn call<S: Scalar>(&self, g: &mut Graph<S>, x: &Vec<Value>) -> (r: Value)
        requires
            old(g).wf(),
            self.valid_in(old(g)),
            forall|k: int| 0 <= k < x@.len() ==> (#[trigger] x@[k]).valid_in(old(g)),
        ensures
            final(g).wf(),
            final(g).extends(old(g)),
            r.valid_in(final(g)),
            final(g).len() == old(g).len() + self.cost(x@),
            self.built_at(final(g), old(g).len() as int, x@, r),
            grads_zero_from(final(g), old(g).len() as int, old(g).zero()),
            unlabelled_from(final(g), old(g).len() as int),
    {
        let ghost g0 = *g;
        proof {
            lemma_extends_refl(g);
        }
        let m = if self.w.len() <= x.len() {
            self.w.len()
        } else {
            x.len()
        };
        let mut prods: Vec<Value> = Vec::new();
        let mut i: usize = 0;
        while i < m
            invariant
                g.wf(),
                g0.wf(),
                g.extends(&g0),
                m == min_nat(self.w@.len(), x@.len()),
                i <= m,
                g.len() == g0.len() + i,
                prods@.len() == i,
                self.valid_in(&g0),
                forall|k: int| 0 <= k < x@.len() ==> (#[trigger] x@[k]).valid_in(&g0),
                forall|k: int| 0 <= k < i ==> (#[trigger] prods@[k]).id == g0.len() + k,
                forall|k: int| 0 <= k < i ==> #[trigger] g.ops()[g0.len() + k] == Op::Mul(self.w@[k].id, x@[k].id),
                forall|j: int| g0.len() <= j < g0.len() + i ==> #[trigger] computed(g.ops()[j], g.data()[j], g.data(), g.zero()),
                grads_zero_from(g, g0.len() as int, g0.zero()),
                unlabelled_from(g, g0.len() as int),
            decreases m - i,
        {
            let ghost g1 = *g;
            let p = self.w[i].mul(g, x[i]);
            prods.push(p);
            proof {
                lemma_extends_trans(g, &g1, &g0);
                lemma_grads_zero_chain(g, &g1, g0.len() as int, g0.zero());
                lemma_unlabelled_chain(g, &g1, g0.len() as int);
                assert forall|k: int| 0 <= k < i + 1 implies #[trigger] g.ops()[g0.len() + k] == Op::Mul(self.w@[k].id, x@[k].id) by {
                    if k < i {
                        lemma_extends_at(g, &g1, g0.len() + k);
                    }
                }
                assert forall|j: int| g0.len() <= j < g0.len() + i + 1 implies #[trigger] computed(g.ops()[j], g.data()[j], g.data(), g.zero()) by {
                    if j < g0.len() + i {
                        lemma_computed_extends(g, &g1, j);
                    }
                }
            }
            i += 1;
        }
        let ghost g1 = *g;
        let total = Value::sum(g, &prods);
        let ghost g2 = *g;
        let act = total.add(g, self.b);
        let ghost g3 = *g;
        proof {
            lemma_extends_trans(&g2, &g1, &g0);
            lemma_extends_trans(&g3, &g2, &g0);
            lemma_grads_zero_chain(&g2, &g1, g0.len() as int, g0.zero());
            lemma_unlabelled_chain(&g2, &g1, g0.len() as int);
            lemma_grads_zero_chain(&g3, &g2, g0.len() as int, g0.zero());
            lemma_unlabelled_chain(&g3, &g2, g0.len() as int);
            assert forall|k: int| 0 <= k < m implies #[trigger] g3.ops()[g0.len() + k] == Op::Mul(self.w@[k].id, x@[k].id) by {
                lemma_extends_at(&g2, &g1, g0.len() + k);
                lemma_extends_at(&g3, &g2, g0.len() + k);
            }
            lemma_extends_at(&g3, &g2, g1.len() as int);
            assert forall|k: int| 0 <= k < m implies #[trigger] g3.ops()[g0.len() + m + 1 + k] == Op::Add((g0.len() + m + k) as usize, (g0.len() + k) as usize) by {
                assert(crate::value::fresh_node(&g2, &g1, (g1.len() + 1 + k) as usize, Op::Add((g1.len() + k) as usize, prods@[k].id)));
                lemma_extends_at(&g3, &g2, g0.len() + m + 1 + k);
            }
            assert forall|j: int| g0.len() <= j <= act.id implies #[trigger] computed(g3.ops()[j], g3.data()[j], g3.data(), g3.zero()) by {
                if j < g1.len() {
                    lemma_computed_extends(&g2, &g1, j);
                    lemma_computed_extends(&g3, &g2, j);
                } else if j == g1.len() {
                    lemma_extends_at(&g3, &g2, j);
                } else if j < g2.len() {
                    let k = j - g1.len() - 1;
                    assert(crate::value::fresh_node(&g2, &g1, (g1.len() + 1 + k) as usize, Op::Add((g1.len() + k) as usize, prods@[k].id)));
                    lemma_computed_extends(&g3, &g2, j);
                }
            }
        }
        if self.nonlin {
            let r = act.relu(g);
            proof {
                lemma_extends_trans(g, &g3, &g0);
                lemma_grads_zero_chain(g, &g3, g0.len() as int, g0.zero());
                lemma_unlabelled_chain(g, &g3, g0.len() as int);
                assert forall|k: int| 0 <= k < m implies #[trigger] g.ops()[g0.len() + k] == Op::Mul(self.w@[k].id, x@[k].id) by {
                    lemma_extends_at(g, &g3, g0.len() + k);
                }
                assert forall|k: int| 0 <= k < m implies #[trigger] g.ops()[g0.len() + m + 1 + k] == Op::Add((g0.len() + m + k) as usize, (g0.len() + k) as usize) by {
                    lemma_extends_at(g, &g3, g0.len() + m + 1 + k);
                }
                lemma_extends_at(g, &g3, g1.len() as int);
                lemma_extends_at(g, &g3, act.id as int);
                assert forall|j: int| g0.len() <= j <= r.id implies #[trigger] computed(g.ops()[j], g.data()[j], g.data(), g.zero()) by {
                    if j <= act.id {
                        lemma_computed_extends(g, &g3, j);
                    }
                }
            }
            r
        } else {
            act
        }
    }
}

impl Module for Neuron {
    open spec fn params(&self) -> Seq<Value> {
        self.w@.push(self.b)
    }

    fn parameters(&self) -> (r: Vec<Value>) {
        let mut r = self.w.clone();
        r.push(self.b);
        r
    }
}

/// What a neuron built stays in place as the graph grows.
pub proof fn lemma_built_at_extends<S: Scalar>(n: &Neuron, g2: &Graph<S>, g1: &Graph<S>, s: int, x: Seq<Value>, r: Value)
    requires
        g1.wf(),
        g2.wf(),
        g2.extends(g1),
        n.built_at(g1, s, x, r),
        0 <= s,
        r.id < g1.len(),
    ensures
        n.built_at(g2, s, x, r),
{
    let m = min_nat(n.w@.len(), x.len()) as int;
    assert forall|k: int| 0 <= k < m implies #[trigger] g2.ops()[s + k] == Op::Mul(n.w@[k].id, x[k].id) by {
        lemma_extends_at(g2, g1, s + k);
    }
    assert forall|k: int| 0 <= k < m implies #[trigger] g2.ops()[s + m + 1 + k] == Op::Add((s + m + k) as usize, (s + k) as usize) by {
        lemma_extends_at(g2, g1, s + m + 1 + k);
    }
    lemma_extends_at(g2, g1, s + m);
    lemma_extends_at(g2, g1, s + 2 * m + 1);
    if n.nonlin {
        lemma_extends_at(g2, g1, s + 2 * m + 2);
    }
    assert forall|i: int| s <= i <= r.id implies #[trigger] computed(g2.ops()[i], g2.data()[i], g2.data(), g2.zero()) by {
        lemma_computed_extends(g2, g1, i);
    }
}

} // verus!
