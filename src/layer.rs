use vstd::prelude::*;
use crate::graph::{Graph, Op, grads_zero_from, unlabelled_from, lemma_grads_zero_chain, lemma_unlabelled_chain, lemma_extends_refl, lemma_extends_trans, lemma_extends_at};
use crate::module::Module;
use crate::neuron::{Neuron, lemma_built_at_extends};
use crate::scalar::Scalar;
use crate::value::Value;

verus! {

/// A row of neurons that all read the same inputs.
pub struct Layer {
    pub neurons: Vec<Neuron>,
}

/// The parameters of `ns`, neuron after neuron.
pub open spec fn neuron_params(ns: Seq<Neuron>) -> Seq<Value>
    decreases ns.len(),
{
    if ns.len() == 0 {
        seq![]
    } else {
        neuron_params(ns.drop_last()) + ns.last().params()
    }
}

/// Where the nodes of neuron `j` begin, relative to the first neuron's, when
/// the neurons of `ns` are applied to `x` in order.
pub open spec fn start(ns: Seq<Neuron>, j: int, x: Seq<Value>) -> nat
    decreases j,
{
    if j <= 0 {
        0
    } else {
        start(ns, j - 1, x) + ns[j - 1].cost(x)
    }
}

/// `ns` holds neurons of `nin` weights each: `ns.len() * (nin + 1)` parameters.
pub proof fn lemma_neuron_params_len(ns: Seq<Neuron>, nin: nat)
    requires
        forall|j: int| 0 <= j < ns.len() ==> (#[trigger] ns[j]).w@.len() == nin,
    ensures
        neuron_params(ns).len() == ns.len() * (nin + 1),
    decreases ns.len(),
{
    if ns.len() > 0 {
        let init = ns.drop_last();
        assert forall|j: int| 0 <= j < init.len() implies (#[trigger] init[j]).w@.len() == nin by {
            assert(init[j] == ns[j]);
        }
        lemma_neuron_params_len(init, nin);
        assert(ns.last() == ns[ns.len() - 1]);
        assert((ns.len() - 1) * (nin + 1) + (nin + 1) == ns.len() * (nin + 1)) by (nonlinear_arith);
    }
}

impl Layer {
    pub open spec fn valid_in<S: Scalar>(&self, g: &Graph<S>) -> bool {
        forall|j: int| 0 <= j < self.neurons@.len() ==> (#[trigger] self.neurons@[j]).valid_in(g)
    }

    /// `nout` neurons of `nin` weights each, all nonlinear or all linear.
    pub open spec fn shape(&self, nin: nat, nout: nat, nonlin: bool) -> bool {
        &&& self.neurons@.len() == nout
        &&& forall|j: int| 0 <= j < nout ==> (#[trigger] self.neurons@[j]).w@.len() == nin
        &&& forall|j: int| 0 <= j < nout ==> (#[trigger] self.neurons@[j]).nonlin == nonlin
    }

    /// The weights of neuron `j` hold `weights[j]`, and every bias holds zero,
    /// all as leaves of `g`.
    pub open spec fn holds<S: Scalar>(&self, g: &Graph<S>, weights: Seq<Seq<S>>) -> bool {
        &&& forall|j: int, k: int| 0 <= j < self.neurons@.len() && 0 <= k < self.neurons@[j].w@.len()
            ==> g.ops()[#[trigger] self.neurons@[j].w@[k].id as int] == Op::Leaf
                && g.data()[self.neurons@[j].w@[k].id as int] == weights[j][k]
        &&& forall|j: int| 0 <= j < self.neurons@.len()
            ==> g.ops()[#[trigger] self.neurons@[j].b.id as int] == Op::Leaf
                && g.data()[self.neurons@[j].b.id as int] == g.zero()
    }

    /// Output `j` in `r` is neuron `j` applied to `x`, the neurons built one
    /// after another from index `lo` on.
    pub open spec fn built<S: Scalar>(&self, g: &Graph<S>, lo: int, x: Seq<Value>, r: Seq<Value>) -> bool {
        forall|j: int| 0 <= j < r.len()
            ==> #[trigger] self.neurons@[j].built_at(g, lo + start(self.neurons@, j, x), x, r[j])
    }

    /// The outputs of the layer applied to `x` with its nodes starting at
    /// `lo`: the last node each neuron builds.
    pub open spec fn layer_out(&self, lo: int, x: Seq<Value>) -> Seq<Value> {
        Seq::new(self.neurons@.len(), |j: int|
            Value { id: (lo + start(self.neurons@, j, x) + self.neurons@[j].cost(x) - 1) as usize })
    }

    /// How many nodes applying the layer to `x` adds.
    pub open spec fn layer_cost(&self, x: Seq<Value>) -> nat {
        start(self.neurons@, self.neurons@.len() as int, x)
    }

    /// `nout` neurons reading `nin` inputs; neuron `j` starts from the
    /// weights `weights[j]`.
    pub fn new<S: Scalar>(g: &mut Graph<S>, nin: usize, nout: usize, nonlin: bool, weights: &Vec<Vec<S>>) -> (r: Layer)
        requires
            old(g).wf(),
            weights@.len() == nout,
            forall|j: int| 0 <= j < nout ==> (#[trigger] weights@[j])@.len() == nin,
        ensures
            final(g).wf(),
            final(g).extends(old(g)),
            r.valid_in(final(g)),
            r.shape(nin as nat, nout as nat, nonlin),
            r.holds(final(g), weights@.map_values(|v: Vec<S>| v@)),
    {
        let ghost g0 = *g;
        let ghost ws = weights@.map_values(|v: Vec<S>| v@);
        proof {
            lemma_extends_refl(g);
        }
        let mut neurons: Vec<Neuron> = Vec::new();
        let mut j: usize = 0;
        while j < nout
            invariant
                g.wf(),
                g0.wf(),
                g.extends(&g0),
                j <= nout,
                weights@.len() == nout,
                ws == weights@.map_values(|v: Vec<S>| v@),
                forall|jj: int| 0 <= jj < nout ==> (#[trigger] weights@[jj])@.len() == nin,
                neurons@.len() == j,
                forall|jj: int| 0 <= jj < j ==> (#[trigger] neurons@[jj]).valid_in(g),
                forall|jj: int| 0 <= jj < j ==> (#[trigger] neurons@[jj]).w@.len() == nin,
                forall|jj: int| 0 <= jj < j ==> (#[trigger] neurons@[jj]).nonlin == nonlin,
                (Layer { neurons }).holds(g, ws),
                g.zero() == g0.zero(),
            decreases nout - j,
        {
            let ghost g1 = *g;
            let n = Neuron::new(g, &weights[j], nonlin);
            neurons.push(n);
            proof {
                lemma_extends_trans(g, &g1, &g0);
                let l = Layer { neurons };
                assert forall|jj: int, k: int| 0 <= jj < l.neurons@.len() && 0 <= k < l.neurons@[jj].w@.len()
                    implies g.ops()[#[trigger] l.neurons@[jj].w@[k].id as int] == Op::Leaf
                        && g.data()[l.neurons@[jj].w@[k].id as int] == ws[jj][k] by {
                    if jj < j {
                        assert(l.neurons@[jj] == neurons@[jj]);
                        lemma_extends_at(g, &g1, l.neurons@[jj].w@[k].id as int);
                    } else {
                        assert(l.neurons@[jj] == n);
                    }
                }
                assert forall|jj: int| 0 <= jj < l.neurons@.len()
                    implies g.ops()[#[trigger] l.neurons@[jj].b.id as int] == Op::Leaf
                        && g.data()[l.neurons@[jj].b.id as int] == g.zero() by {
                    if jj < j {
                        lemma_extends_at(g, &g1, l.neurons@[jj].b.id as int);
                    }
                }
            }
            j += 1;
        }
        Layer { neurons }
    }

    /// Applies every neuron to `x`; output `j` is neuron `j`'s.
    pub fn call<S: Scalar>(&self, g: &mut Graph<S>, x: &Vec<Value>) -> (r: Vec<Value>)
        requires
            old(g).wf(),
            self.valid_in(old(g)),
            forall|k: int| 0 <= k < x@.len() ==> (#[trigger] x@[k]).valid_in(old(g)),
        ensures
            final(g).wf(),
            final(g).extends(old(g)),
            r@.len() == self.neurons@.len(),
            r@ == self.layer_out(old(g).len() as int, x@),
            final(g).len() == old(g).len() + self.layer_cost(x@),
            grads_zero_from(final(g), old(g).len() as int, old(g).zero()),
            unlabelled_from(final(g), old(g).len() as int),
            forall|j: int| 0 <= j < r@.len() ==> (#[trigger] r@[j]).valid_in(final(g)),
            self.built(final(g), old(g).len() as int, x@, r@),
    {
        let ghost g0 = *g;
        proof {
            lemma_extends_refl(g);
        }
        let mut out: Vec<Value> = Vec::new();
        let mut j: usize = 0;
        while j < self.neurons.len()
            invariant
                g.wf(),
                g0.wf(),
                g.extends(&g0),
                j <= self.neurons@.len(),
                self.valid_in(&g0),
                forall|k: int| 0 <= k < x@.len() ==> (#[trigger] x@[k]).valid_in(&g0),
                out@.len() == j,
                g.len() == g0.len() + start(self.neurons@, j as int, x@),
                forall|jj: int| 0 <= jj < j ==> (#[trigger] out@[jj]).valid_in(g),
                forall|jj: int| 0 <= jj < j ==> (#[trigger] out@[jj]) == self.layer_out(g0.len() as int, x@)[jj],
                grads_zero_from(g, g0.len() as int, g0.zero()),
                unlabelled_from(g, g0.len() as int),
                forall|jj: int| 0 <= jj < j ==> #[trigger] self.neurons@[jj].built_at(g,
                    g0.len() as int + start(self.neurons@, jj, x@), x@, out@[jj]),
            decreases self.neurons@.len() - j,
        {
            let ghost g1 = *g;
            let o = self.neurons[j].call(g, x);
            out.push(o);
            proof {
                assert(o == self.layer_out(g0.len() as int, x@)[j as int]);
                lemma_grads_zero_chain(g, &g1, g0.len() as int, g0.zero());
                lemma_unlabelled_chain(g, &g1, g0.len() as int);
                lemma_extends_trans(g, &g1, &g0);
                assert forall|jj: int| 0 <= jj < j + 1 implies #[trigger] self.neurons@[jj].built_at(g,
                    g0.len() as int + start(self.neurons@, jj, x@), x@, out@[jj]) by {
                    if jj < j {
                        assert(out@[jj].valid_in(&g1));
                        lemma_built_at_extends(&self.neurons@[jj], g, &g1, g0.len() as int + start(self.neurons@, jj, x@), x@, out@[jj]);
                    }
                }
            }
            j += 1;
        }
        proof {
            assert(out@ =~= self.layer_out(g0.len() as int, x@));
        }
        out
    }
}

/// What a layer built stays in place as the graph grows.
pub proof fn lemma_built_extends<S: Scalar>(l: &Layer, g2: &Graph<S>, g1: &Graph<S>, lo: int, x: Seq<Value>, r: Seq<Value>)
    requires
        g1.wf(),
        g2.wf(),
        g2.extends(g1),
        l.built(g1, lo, x, r),
        0 <= lo,
        forall|j: int| 0 <= j < r.len() ==> (#[trigger] r[j]).valid_in(g1),
    ensures
        l.built(g2, lo, x, r),
{
    assert forall|j: int| 0 <= j < r.len()
        implies #[trigger] l.neurons@[j].built_at(g2, lo + start(l.neurons@, j, x), x, r[j]) by {
        assert(r[j].valid_in(g1));
        lemma_built_at_extends(&l.neurons@[j], g2, g1, lo + start(l.neurons@, j, x), x, r[j]);
    }
}

/// The leaves a layer holds stay in place as the graph grows.
pub proof fn lemma_holds_extends<S: Scalar>(l: &Layer, g2: &Graph<S>, g1: &Graph<S>, weights: Seq<Seq<S>>)
    requires
        g1.wf(),
        g2.wf(),
        g2.extends(g1),
        l.holds(g1, weights),
        l.valid_in(g1),
    ensures
        l.holds(g2, weights),
{
    assert forall|j: int, k: int| 0 <= j < l.neurons@.len() && 0 <= k < l.neurons@[j].w@.len()
        implies g2.ops()[#[trigger] l.neurons@[j].w@[k].id as int] == Op::Leaf
            && g2.data()[l.neurons@[j].w@[k].id as int] == weights[j][k] by {
        assert(l.neurons@[j].valid_in(g1));
        assert(l.neurons@[j].w@[k].valid_in(g1));
        lemma_extends_at(g2, g1, l.neurons@[j].w@[k].id as int);
    }
    assert forall|j: int| 0 <= j < l.neurons@.len()
        implies g2.ops()[#[trigger] l.neurons@[j].b.id as int] == Op::Leaf
            && g2.data()[l.neurons@[j].b.id as int] == g2.zero() by {
        assert(l.neurons@[j].valid_in(g1));
        lemma_extends_at(g2, g1, l.neurons@[j].b.id as int);
    }
}

impl Module for Layer {
    open spec fn params(&self) -> Seq<Value> {
        neuron_params(self.neurons@)
    }

    fn parameters(&self) -> (r: Vec<Value>) {
        let mut r: Vec<Value> = Vec::new();
        let mut j: usize = 0;
        while j < self.neurons.len()
            invariant
                j <= self.neurons@.len(),
                r@ == neuron_params(self.neurons@.subrange(0, j as int)),
            decreases self.neurons@.len() - j,
        {
            let mut ps = self.neurons[j].parameters();
            r.append(&mut ps);
            proof {
                let pre = self.neurons@.subrange(0, j as int);
                let post = self.neurons@.subrange(0, j + 1);
                assert(post.drop_last() =~= pre);
                assert(post.last() == self.neurons@[j as int]);
            }
            j += 1;
        }
        proof {
            assert(self.neurons@.subrange(0, self.neurons@.len() as int) =~= self.neurons@);
        }
        r
    }
}

} // verus!
