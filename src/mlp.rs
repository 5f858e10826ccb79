use vstd::prelude::*;
use crate::graph::{Graph, Op, grads_zero_from, unlabelled_from, lemma_grads_zero_chain, lemma_unlabelled_chain, lemma_extends_refl, lemma_extends_trans, lemma_extends_at};
use crate::label::decimal;
use crate::layer::{Layer, lemma_neuron_params_len, lemma_holds_extends, lemma_built_extends};
use crate::module::Module;
use crate::scalar::Scalar;
use crate::value::Value;

verus! {

/// A multi-layer perceptron: layers applied in sequence, every layer but
/// the last nonlinear.
pub struct MLP {
    pub layers: Vec<Layer>,
}

/// The number of inputs of layer `i` of a network with `nin` inputs and
/// layer widths `nouts`.
pub open spec fn layer_in(nin: nat, nouts: Seq<usize>, i: int) -> nat {
    if i == 0 {
        nin
    } else {
        nouts[i - 1] as nat
    }
}

/// The number of parameters of such a network: each layer has, per neuron,
/// one weight per input and a bias.
pub open spec fn param_count(nin: nat, nouts: Seq<usize>) -> nat
    decreases nouts.len(),
{
    if nouts.len() == 0 {
        0
    } else {
        param_count(nin, nouts.drop_last()) + (nouts.last() as nat) * (layer_in(nin, nouts, nouts.len() - 1) + 1)
    }
}

/// The parameters of `ls`, layer after layer.
pub open spec fn layer_params(ls: Seq<Layer>) -> Seq<Value>
    decreases ls.len(),
{
    if ls.len() == 0 {
        seq![]
    } else {
        layer_params(ls.drop_last()) + ls.last().params()
    }
}

/// Layers of the widths `nouts`, reading `nin` inputs, hold
/// `param_count(nin, nouts)` parameters.
pub proof fn lemma_layer_params_len(ls: Seq<Layer>, nin: nat, nouts: Seq<usize>)
    requires
        ls.len() == nouts.len(),
        forall|i: int| 0 <= i < ls.len() ==> (#[trigger] ls[i]).neurons@.len() == nouts[i],
        forall|i: int, j: int| 0 <= i < ls.len() && 0 <= j < ls[i].neurons@.len()
            ==> (#[trigger] ls[i].neurons@[j]).w@.len() == layer_in(nin, nouts, i),
    ensures
        layer_params(ls).len() == param_count(nin, nouts),
    decreases ls.len(),
{
    if ls.len() > 0 {
        let n = ls.len() - 1;
        let ls0 = ls.drop_last();
        let nouts0 = nouts.drop_last();
        assert forall|i: int| 0 <= i < ls0.len() implies (#[trigger] ls0[i]).neurons@.len() == nouts0[i] by {
            assert(ls0[i] == ls[i]);
        }
        assert forall|i: int, j: int| 0 <= i < ls0.len() && 0 <= j < ls0[i].neurons@.len()
            implies (#[trigger] ls0[i].neurons@[j]).w@.len() == layer_in(nin, nouts0, i) by {
            assert(ls0[i] == ls[i]);
        }
        lemma_layer_params_len(ls0, nin, nouts0);
        let last = ls[n];
        assert(ls.last() == last);
        assert forall|j: int| 0 <= j < last.neurons@.len() implies (#[trigger] last.neurons@[j]).w@.len() == layer_in(nin, nouts, n) by {
            assert(ls[n].neurons@[j] == last.neurons@[j]);
        }
        lemma_neuron_params_len(last.neurons@, layer_in(nin, nouts, n));
    }
}

/// Where the nodes of layer `i` begin and what it reads, when `layers` are
/// applied in order to the inputs `x` with nodes starting at `lo`: layer 0
/// reads `x`, and each later layer reads the outputs of the one before.
pub open spec fn feed(layers: Seq<Layer>, i: nat, lo: int, x: Seq<Value>) -> (int, Seq<Value>)
    decreases i,
{
    if i == 0 {
        (lo, x)
    } else {
        let p = feed(layers, (i - 1) as nat, lo, x);
        (p.0 + layers[i - 1].layer_cost(p.1), layers[i - 1].layer_out(p.0, p.1))
    }
}

/// The input leaves `MLP::call` makes in `g`, from index `lo` on, one per
/// input.
pub open spec fn input_leaves(lo: nat, n: nat) -> Seq<Value> {
    Seq::new(n, |k: int| Value { id: (lo + k) as usize })
}

impl MLP {
    pub open spec fn valid_in<S: Scalar>(&self, g: &Graph<S>) -> bool {
        forall|i: int| 0 <= i < self.layers@.len() ==> (#[trigger] self.layers@[i]).valid_in(g)
    }

    /// Layer `i` has `nouts[i]` neurons reading `layer_in(nin, nouts, i)`
    /// inputs, and is nonlinear unless it is the last.
    pub open spec fn shape(&self, nin: nat, nouts: Seq<usize>) -> bool {
        &&& self.layers@.len() == nouts.len()
        &&& forall|i: int| 0 <= i < nouts.len()
            ==> (#[trigger] self.layers@[i]).shape(layer_in(nin, nouts, i), nouts[i] as nat, i + 1 < nouts.len())
    }

    /// A network with `nin` inputs and layers of widths `nouts`; neuron `j` of
    /// layer `i` starts from the weights `weights[i][j]`, and every bias from
    /// zero.
    pub fn new<S: Scalar>(g: &mut Graph<S>, nin: usize, nouts: &[usize], weights: &Vec<Vec<Vec<S>>>) -> (r: MLP)
        requires
            old(g).wf(),
            weights@.len() == nouts@.len(),
            forall|i: int| 0 <= i < nouts@.len() ==> (#[trigger] weights@[i])@.len() == nouts@[i],
            forall|i: int, j: int| 0 <= i < nouts@.len() && 0 <= j < nouts@[i]
                ==> (#[trigger] weights@[i]@[j])@.len() == layer_in(nin as nat, nouts@, i),
        ensures
            final(g).wf(),
            final(g).extends(old(g)),
            r.valid_in(final(g)),
            r.shape(nin as nat, nouts@),
            forall|i: int| 0 <= i < nouts@.len()
                ==> (#[trigger] r.layers@[i]).holds(final(g), weights@[i]@.map_values(|v: Vec<S>| v@)),
            r.params().len() == param_count(nin as nat, nouts@),
    {
        let ghost g0 = *g;
        proof {
            lemma_extends_refl(g);
        }
        let mut layers: Vec<Layer> = Vec::new();
        let n = nouts.len();
        let mut i: usize = 0;
        while i < n
            invariant
                g.wf(),
                g0.wf(),
                g.extends(&g0),
                n == nouts@.len(),
                i <= n,
                weights@.len() == n,
                forall|ii: int| 0 <= ii < n ==> (#[trigger] weights@[ii])@.len() == nouts@[ii],
                forall|ii: int, j: int| 0 <= ii < n && 0 <= j < nouts@[ii]
                    ==> (#[trigger] weights@[ii]@[j])@.len() == layer_in(nin as nat, nouts@, ii),
                layers@.len() == i,
                forall|ii: int| 0 <= ii < i ==> (#[trigger] layers@[ii]).valid_in(g),
                forall|ii: int| 0 <= ii < i
                    ==> (#[trigger] layers@[ii]).shape(layer_in(nin as nat, nouts@, ii), nouts@[ii] as nat, ii + 1 < n),
                forall|ii: int| 0 <= ii < i
                    ==> (#[trigger] layers@[ii]).holds(g, weights@[ii]@.map_values(|v: Vec<S>| v@)),
            decreases n - i,
        {
            let ghost g1 = *g;
            let lin = if i == 0 {
                nin
            } else {
                nouts[i - 1]
            };
            let nonlin = i + 1 < n;
            let l = Layer::new(g, lin, nouts[i], nonlin, &weights[i]);
            layers.push(l);
            proof {
                lemma_extends_trans(g, &g1, &g0);
                assert forall|ii: int| 0 <= ii < i + 1 implies (#[trigger] layers@[ii]).valid_in(g) by {
                    if ii < i {
                        assert(layers@[ii].valid_in(&g1));
                    }
                }
                assert forall|ii: int| 0 <= ii < i + 1
                    implies (#[trigger] layers@[ii]).holds(g, weights@[ii]@.map_values(|v: Vec<S>| v@)) by {
                    if ii < i {
                        lemma_holds_extends(&layers@[ii], g, &g1, weights@[ii]@.map_values(|v: Vec<S>| v@));
                    }
                }
            }
            i += 1;
        }
        let r = MLP { layers };
        proof {
            assert forall|ii: int, j: int| 0 <= ii < layers@.len() && 0 <= j < layers@[ii].neurons@.len()
                implies (#[trigger] layers@[ii].neurons@[j]).w@.len() == layer_in(nin as nat, nouts@, ii) by {
                assert(layers@[ii].shape(layer_in(nin as nat, nouts@, ii), nouts@[ii] as nat, ii + 1 < n));
            }
            assert forall|ii: int| 0 <= ii < layers@.len() implies (#[trigger] layers@[ii]).neurons@.len() == nouts@[ii] by {
                assert(layers@[ii].shape(layer_in(nin as nat, nouts@, ii), nouts@[ii] as nat, ii + 1 < n));
            }
            lemma_layer_params_len(layers@, nin as nat, nouts@);
        }
        r
    }

    /// Applies the network to the inputs `x`: makes them into leaves
    /// (labelled `x0`, `x1`, ...), applies each layer to the outputs of the
    /// one before, and returns the first output of the last layer (the first
    /// input leaf when there are no layers).
    #[verifier::rlimit(30)]
    pub fn call<S: Scalar>(&self, g: &mut Graph<S>, x: &Vec<S>) -> (r: Value)
        requires
            old(g).wf(),
            self.valid_in(old(g)),
            self.layers@.len() == 0 ==> x@.len() > 0,
            self.layers@.len() > 0 ==> self.layers@.last().neurons@.len() > 0,
        ensures
            final(g).wf(),
            final(g).extends(old(g)),
            r.valid_in(final(g)),
            forall|k: int| 0 <= k < x@.len() ==> #[trigger] final(g).ops()[old(g).len() + k] == Op::Leaf
                && final(g).data()[old(g).len() + k] == x@[k]
                && final(g).labels()[old(g).len() + k] == "x"@ + decimal(k as nat),
            final(g).len() == feed(self.layers@, self.layers@.len(), (old(g).len() + x@.len()) as int, input_leaves(old(g).len(), x@.len())).0,
            grads_zero_from(final(g), old(g).len() as int, old(g).zero()),
            unlabelled_from(final(g), (old(g).len() + x@.len()) as int),
            forall|i: int| 0 <= i < self.layers@.len() ==> {
                let p = feed(self.layers@, i as nat, (old(g).len() + x@.len()) as int, input_leaves(old(g).len(), x@.len()));
                let q = feed(self.layers@, (i + 1) as nat, (old(g).len() + x@.len()) as int, input_leaves(old(g).len(), x@.len()));
                (#[trigger] self.layers@[i]).built(final(g), p.0, p.1, q.1)
            },
            r == feed(self.layers@, self.layers@.len(), (old(g).len() + x@.len()) as int, input_leaves(old(g).len(), x@.len())).1[0],
    {
        let ghost g0 = *g;
        let mut y = Value::vec(g, x);
        let ghost lo0 = (g0.len() + x@.len()) as int;
        let ghost x0 = input_leaves(g0.len(), x@.len());
        proof {
            assert(y@ =~= x0);
        }
        let ghost gv = *g;
        proof {
            lemma_extends_refl(g);
        }
        let mut i: usize = 0;
        while i < self.layers.len()
            invariant
                g.wf(),
                g0.wf(),
                g.extends(&g0),
                i <= self.layers@.len(),
                self.valid_in(&g0),
                gv.wf(),
                g.extends(&gv),
                gv.len() == lo0,
                forall|k: int| 0 <= k < x@.len() ==> #[trigger] gv.ops()[g0.len() + k] == Op::Leaf
                    && gv.data()[g0.len() + k] == x@[k]
                    && gv.labels()[g0.len() + k] == "x"@ + decimal(k as nat),
                gv.zero() == g0.zero(),
                grads_zero_from(g, g0.len() as int, g0.zero()),
                unlabelled_from(g, lo0),
                forall|k: int| 0 <= k < y@.len() ==> (#[trigger] y@[k]).valid_in(g),
                y@ == feed(self.layers@, i as nat, lo0, x0).1,
                g.len() == feed(self.layers@, i as nat, lo0, x0).0,
                forall|ii: int| 0 <= ii < i ==> {
                    let p = feed(self.layers@, ii as nat, lo0, x0);
                    let q = feed(self.layers@, (ii + 1) as nat, lo0, x0);
                    &&& (#[trigger] self.layers@[ii]).built(g, p.0, p.1, q.1)
                    &&& 0 <= p.0
                    &&& forall|j: int| 0 <= j < q.1.len() ==> (#[trigger] q.1[j]).valid_in(g)
                },
            decreases self.layers@.len() - i,
        {
            let ghost g1 = *g;
            proof {
                assert(self.layers@[i as int].valid_in(&g0));
            }
            let next = self.layers[i].call(g, &y);
            proof {
                lemma_extends_trans(g, &g1, &g0);
                lemma_extends_trans(g, &g1, &gv);
                assert(grads_zero_from(g, g0.len() as int, g0.zero()) && unlabelled_from(g, lo0)) by {
                    lemma_grads_zero_chain(g, &g1, g0.len() as int, g0.zero());
                    lemma_unlabelled_chain(g, &g1, lo0);
                }
                assert forall|ii: int| 0 <= ii < i + 1 implies {
                    let p = feed(self.layers@, ii as nat, lo0, x0);
                    let q = feed(self.layers@, (ii + 1) as nat, lo0, x0);
                    &&& (#[trigger] self.layers@[ii]).built(g, p.0, p.1, q.1)
                    &&& 0 <= p.0
                    &&& forall|j: int| 0 <= j < q.1.len() ==> (#[trigger] q.1[j]).valid_in(g)
                } by {
                    let p = feed(self.layers@, ii as nat, lo0, x0);
                    let q = feed(self.layers@, (ii + 1) as nat, lo0, x0);
                    if ii < i {
                        lemma_built_extends(&self.layers@[ii], g, &g1, p.0, p.1, q.1);
                    }
                }
            }
            y = next;
            i += 1;
        }
        let r = y[0];
        proof {
            assert forall|k: int| 0 <= k < x@.len() implies #[trigger] g.ops()[g0.len() + k] == Op::Leaf
                && g.data()[g0.len() + k] == x@[k]
                && g.labels()[g0.len() + k] == "x"@ + decimal(k as nat) by {
                lemma_extends_at(g, &gv, g0.len() + k);
            }
        }
        r
    }
}

impl Module for MLP {
    open spec fn params(&self) -> Seq<Value> {
        layer_params(self.layers@)
    }

    fn parameters(&self) -> (r: Vec<Value>) {
        let mut r: Vec<Value> = Vec::new();
        let mut i: usize = 0;
        while i < self.layers.len()
            invariant
                i <= self.layers@.len(),
                r@ == layer_params(self.layers@.subrange(0, i as int)),
            decreases self.layers@.len() - i,
        {
            let mut ps = self.layers[i].parameters();
            r.append(&mut ps);
            proof {
                let pre = self.layers@.subrange(0, i as int);
                let post = self.layers@.subrange(0, i + 1);
                assert(post.drop_last() =~= pre);
                assert(post.last() == self.layers@[i as int]);
            }
            i += 1;
        }
        proof {
            assert(self.layers@.subrange(0, self.layers@.len() as int) =~= self.layers@);
        }
        r
    }
}

} // verus!
