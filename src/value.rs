use vstd::prelude::*;
use vstd::string::*;
use crate::graph::{Graph, Op, backprop, computed, grads_zero_from, unlabelled_from, lemma_grads_zero_chain, lemma_unlabelled_chain, lemma_extends_refl, lemma_extends_trans, lemma_extends_at};
use crate::label::{decimal, indexed_label};
use crate::scalar::Scalar;
use crate::graph::rule;
use crate::topo::{reaches, schedule, visit, acyclic, lemma_reaches_operand, lemma_reaches_below, lemma_schedule_users_first};

verus! {

/// A handle on a node of a `Graph`: its index in the arena. Two handles are
/// the same node exactly when their indices are equal, whatever the values.
#[derive(Clone, Copy, PartialEq, Eq, Structural, Debug)]
pub struct Value {
    pub id: usize,
}

/// Node `r`, just appended to `g` (which extends `old`), was produced by `op`:
/// its value is computed from its operands' values, it starts with a zero
/// gradient and an empty label.
pub open spec fn fresh_node<S: Scalar>(g: &Graph<S>, old: &Graph<S>, r: usize, op: Op) -> bool {
    &&& g.ops()[r as int] == op
    &&& computed(op, g.data()[r as int], g.data(), old.zero())
    &&& g.grads()[r as int] == old.zero()
    &&& g.labels()[r as int] == Seq::<char>::empty()
}

/// The left-to-right sum, through `spec_add` from `zero`, of the values in
/// `data` of the nodes `vals`.
pub open spec fn sum_of<S: Scalar>(zero: S, data: Seq<S>, vals: Seq<Value>) -> S
    decreases vals.len(),
{
    if vals.len() == 0 {
        zero
    } else {
        sum_of(zero, data, vals.drop_last()).spec_add(data[vals.last().id as int])
    }
}

/// A node built in `g1` stays as built in any extension of `g1`.
pub proof fn lemma_fresh_node_extends<S: Scalar>(g2: &Graph<S>, g1: &Graph<S>, old: &Graph<S>, r: usize, op: Op)
    requires
        g1.wf(),
        g2.wf(),
        g2.extends(g1),
        fresh_node(g1, old, r, op),
        r < g1.len(),
    ensures
        fresh_node(g2, old, r, op),
{
    assert(g1.ops()[r as int].operands_below(r as nat));
    lemma_extends_at(g2, g1, r as int);
    if op.arity() >= 1 {
        lemma_extends_at(g2, g1, op.arg0() as int);
    }
    if op.arity() == 2 {
        lemma_extends_at(g2, g1, op.arg1() as int);
    }
}

/// Node `i` of `g` is a fresh unlabelled leaf holding `data`.
pub open spec fn fresh_leaf<S: Scalar>(g: &Graph<S>, old: &Graph<S>, i: int, data: S) -> bool {
    &&& g.ops()[i] == Op::Leaf
    &&& g.data()[i] == data
    &&& g.grads()[i] == old.zero()
    &&& g.labels()[i] == Seq::<char>::empty()
}

/// The gradients a backward pass from `root` leaves, starting from `grads`:
/// the root seeded with one, then every rule of the schedule applied.
pub open spec fn after_backward<S: Scalar>(ops: Seq<Op>, data: Seq<S>, grads: Seq<S>, root: usize, one: S) -> Seq<S> {
    backprop(ops, data, grads.update(root as int, one), schedule(ops, root), one)
}

/// `grads` with the gradient of every node reached from `root` set to `zero`.
pub open spec fn zero_reached<S: Scalar>(ops: Seq<Op>, root: usize, grads: Seq<S>, zero: S) -> Seq<S> {
    Seq::new(grads.len(), |i: int| if reaches(ops, root, i as usize) { zero } else { grads[i] })
}

/// Running rules changes no gradient but those of the rules' operands.
pub proof fn lemma_backprop_frame<S: Scalar>(ops: Seq<Op>, data: Seq<S>, grads: Seq<S>, sched: Seq<usize>, one: S, i: int)
    requires
        forall|k: int| 0 <= k < sched.len() ==> !(#[trigger] ops[sched[k] as int]).has_operand(i as usize),
        forall|k: int| 0 <= k < sched.len() ==> (#[trigger] ops[sched[k] as int]).operands_below(grads.len()),
        0 <= i < grads.len(),
    ensures
        backprop(ops, data, grads, sched, one)[i] == grads[i],
    decreases sched.len(),
{
    if sched.len() > 0 {
        let init = sched.drop_last();
        assert forall|k: int| 0 <= k < init.len() implies !(#[trigger] ops[init[k] as int]).has_operand(i as usize) by {
            assert(init[k] == sched[k]);
        }
        assert forall|k: int| 0 <= k < init.len() implies (#[trigger] ops[init[k] as int]).operands_below(grads.len()) by {
            assert(init[k] == sched[k]);
        }
        lemma_backprop_frame(ops, data, grads, init, one, i);
        lemma_backprop_len(ops, data, grads, init, one);
        assert(ops[sched[sched.len() - 1] as int].operands_below(grads.len()));
        assert(!ops[sched[sched.len() - 1] as int].has_operand(i as usize));
    }
}

/// Zero-then-backward is repeatable: zeroing the gradients of the nodes
/// reached from `root` and running a backward pass from `root` gives the same
/// gradients as the pass before it did, on an unchanged graph.
pub proof fn lemma_zero_then_backward_repeats<S: Scalar>(g: &Graph<S>, root: usize)
    requires
        g.wf(),
        root < g.len(),
    ensures
        ({
            let first = after_backward(g.ops(), g.data(), zero_reached(g.ops(), root, g.grads(), g.zero()), root, g.one());
            after_backward(g.ops(), g.data(), zero_reached(g.ops(), root, first, g.zero()), root, g.one()) == first
        }),
{
    let ops = g.ops();
    let z1 = zero_reached(ops, root, g.grads(), g.zero());
    let first = after_backward(ops, g.data(), z1, root, g.one());
    let sched = schedule(ops, root);
    assert(acyclic(ops));
    lemma_schedule_users_first(ops, root);
    assert forall|k: int| 0 <= k < sched.len() implies (#[trigger] ops[sched[k] as int]).operands_below(z1.len()) by {
        assert(sched.contains(sched[k]));
        lemma_reaches_below(ops, root, sched[k]);
        assert(ops[sched[k] as int].operands_below(sched[k] as nat));
    }
    assert forall|i: int| 0 <= i < z1.len() && !reaches(ops, root, i as usize)
        implies #[trigger] first[i] == z1[i] by {
        assert(reaches(ops, root, root));
        assert forall|k: int| 0 <= k < sched.len() implies !(#[trigger] ops[sched[k] as int]).has_operand(i as usize) by {
            assert(sched.contains(sched[k]));
            lemma_reaches_below(ops, root, sched[k]);
            if ops[sched[k] as int].has_operand(i as usize) {
                lemma_reaches_operand(ops, root, sched[k], i as usize);
            }
        }
        lemma_backprop_frame(ops, g.data(), z1.update(root as int, g.one()), sched, g.one(), i);
    }
    lemma_backprop_len(ops, g.data(), z1.update(root as int, g.one()), sched, g.one());
    assert(zero_reached(ops, root, first, g.zero()) =~= z1);
}

/// Running rules whose operands are in range keeps the number of gradients.
pub proof fn lemma_backprop_len<S: Scalar>(ops: Seq<Op>, data: Seq<S>, grads: Seq<S>, sched: Seq<usize>, one: S)
    requires
        forall|k: int| 0 <= k < sched.len() ==> (#[trigger] ops[sched[k] as int]).operands_below(grads.len()),
    ensures
        backprop(ops, data, grads, sched, one).len() == grads.len(),
    decreases sched.len(),
{
    if sched.len() > 0 {
        let init = sched.drop_last();
        assert forall|k: int| 0 <= k < init.len() implies (#[trigger] ops[init[k] as int]).operands_below(grads.len()) by {
            assert(init[k] == sched[k]);
        }
        lemma_backprop_len(ops, data, grads, init, one);
        assert(ops[sched[sched.len() - 1] as int].operands_below(grads.len()));
    }
}

/// Accumulation over a shared node: when `r = w * w` for a leaf `w`, a
/// backward pass from `r` adds to the gradient of `w` the contribution of
/// each operand slot, `w * 1` twice, not once.
pub proof fn lemma_square_accumulates<S: Scalar>(g: &Graph<S>, w: usize, r: usize)
    requires
        g.wf(),
        r < g.len(),
        g.ops()[r as int] == Op::Mul(w, w),
        g.ops()[w as int] == Op::Leaf,
    ensures
        after_backward(g.ops(), g.data(), g.grads(), r, g.one())[w as int]
            == g.grads()[w as int].spec_add(g.data()[w as int].spec_mul(g.one())).spec_add(
                g.data()[w as int].spec_mul(g.one())),
{
    let ops = g.ops();
    assert(ops[r as int].operands_below(r as nat));
    let e: Seq<usize> = seq![];
    assert(!e.contains(w));
    assert(visit(ops, w, e) == e.push(w));
    let dw = seq![w];
    assert(e.push(w) =~= dw);
    assert(dw.contains(w)) by {
        assert(dw[0] == w);
    }
    assert(visit(ops, w, dw) == dw);
    assert(!e.contains(r));
    assert(visit(ops, r, e) == dw.push(r));
    let order = seq![w, r];
    assert(dw.push(r) =~= order);
    let sched = schedule(ops, r);
    assert(sched =~= seq![r, w]);
    let seeded = g.grads().update(r as int, g.one());
    assert(sched.drop_last() =~= seq![r]);
    assert(seq![r].drop_last() =~= Seq::<usize>::empty());
    let after_r = rule(ops[r as int], r, g.data(), seeded, g.one());
    assert(backprop(ops, g.data(), seeded, Seq::<usize>::empty(), g.one()) == seeded);
    assert(seq![r].last() == r);
    assert(sched.last() == w);
    assert(backprop(ops, g.data(), seeded, seq![r], g.one()) == after_r);
    assert(backprop(ops, g.data(), seeded, sched, g.one()) == rule(ops[w as int], w, g.data(), after_r, g.one()));
}

impl Value {
    /// The handle names a node of `g`.
    pub open spec fn valid_in<S: Scalar>(self, g: &Graph<S>) -> bool {
        self.id < g.len()
    }

    /// A leaf node holding `data`, with a zero gradient.
    pub fn new<S: Scalar>(g: &mut Graph<S>, data: S, label: String) -> (r: Value)
        requires
            old(g).wf(),
        ensures
            final(g).wf(),
            final(g).extends(old(g)),
            r.id == old(g).len(),
            final(g).ops() == old(g).ops().push(Op::Leaf),
            final(g).data() == old(g).data().push(data),
            final(g).grads() == old(g).grads().push(old(g).zero()),
            final(g).labels() == old(g).labels().push(label@),
    {
        let id = g.push_node(Op::Leaf, data, label);
        Value { id }
    }

    /// A leaf node holding `data`, with a zero gradient (same as `new`).
    pub fn newd<S: Scalar>(g: &mut Graph<S>, data: S, label: String) -> (r: Value)
        requires
            old(g).wf(),
        ensures
            final(g).wf(),
            final(g).extends(old(g)),
            r.id == old(g).len(),
            final(g).ops() == old(g).ops().push(Op::Leaf),
            final(g).data() == old(g).data().push(data),
            final(g).grads() == old(g).grads().push(old(g).zero()),
            final(g).labels() == old(g).labels().push(label@),
    {
        Value::new(g, data, label)
    }

    /// An unlabelled leaf node holding `data`.
    fn constant<S: Scalar>(g: &mut Graph<S>, data: S) -> (r: Value)
        requires
            old(g).wf(),
        ensures
            final(g).wf(),
            final(g).extends(old(g)),
            r.id == old(g).len(),
            final(g).len() == old(g).len() + 1,
            fresh_node(final(g), old(g), r.id, Op::Leaf),
            final(g).data()[r.id as int] == data,
            grads_zero_from(final(g), old(g).len() as int, old(g).zero()),
            unlabelled_from(final(g), old(g).len() as int),
    {
        Value::new(g, data, String::new())
    }

    /// The sum of the two nodes, as a new node.
    pub fn add<S: Scalar>(self, g: &mut Graph<S>, other: Value) -> (r: Value)
        requires
            old(g).wf(),
            self.valid_in(old(g)),
            other.valid_in(old(g)),
        ensures
            final(g).wf(),
            final(g).extends(old(g)),
            r.id == old(g).len(),
            final(g).len() == old(g).len() + 1,
            fresh_node(final(g), old(g), r.id, Op::Add(self.id, other.id)),
            grads_zero_from(final(g), old(g).len() as int, old(g).zero()),
            unlabelled_from(final(g), old(g).len() as int),
            final(g).data()[r.id as int] == old(g).data()[self.id as int].spec_add(old(g).data()[other.id as int]),
    {
        let v = g.value(self.id).add(&g.value(other.id));
        let id = g.push_node(Op::Add(self.id, other.id), v, String::new());
        Value { id }
    }

    /// The product of the two nodes, as a new node.
    pub fn mul<S: Scalar>(self, g: &mut Graph<S>, other: Value) -> (r: Value)
        requires
            old(g).wf(),
            self.valid_in(old(g)),
            other.valid_in(old(g)),
        ensures
            final(g).wf(),
            final(g).extends(old(g)),
            r.id == old(g).len(),
            final(g).len() == old(g).len() + 1,
            fresh_node(final(g), old(g), r.id, Op::Mul(self.id, other.id)),
            grads_zero_from(final(g), old(g).len() as int, old(g).zero()),
            unlabelled_from(final(g), old(g).len() as int),
            final(g).data()[r.id as int] == old(g).data()[self.id as int].spec_mul(old(g).data()[other.id as int]),
    {
        let v = g.value(self.id).mul(&g.value(other.id));
        let id = g.push_node(Op::Mul(self.id, other.id), v, String::new());
        Value { id }
    }

    /// `self` raised to the power `other`, as a new node; the exponent
    /// receives no gradient.
    pub fn pow<S: Scalar>(self, g: &mut Graph<S>, other: Value) -> (r: Value)
        requires
            old(g).wf(),
            self.valid_in(old(g)),
            other.valid_in(old(g)),
        ensures
            final(g).wf(),
            final(g).extends(old(g)),
            r.id == old(g).len(),
            final(g).len() == old(g).len() + 1,
            fresh_node(final(g), old(g), r.id, Op::Pow(self.id, other.id)),
            grads_zero_from(final(g), old(g).len() as int, old(g).zero()),
            unlabelled_from(final(g), old(g).len() as int),
            final(g).data()[r.id as int] == old(g).data()[self.id as int].spec_powf(old(g).data()[other.id as int]),
    {
        let v = g.value(self.id).powf(&g.value(other.id));
        let id = g.push_node(Op::Pow(self.id, other.id), v, String::new());
        Value { id }
    }

    /// `self` raised to the constant power `exponent`: a leaf holding the
    /// exponent, then a power node.
    pub fn powf<S: Scalar>(self, g: &mut Graph<S>, exponent: S) -> (r: Value)
        requires
            old(g).wf(),
            self.valid_in(old(g)),
        ensures
            final(g).wf(),
            final(g).extends(old(g)),
            r.id == old(g).len() + 1,
            final(g).len() == old(g).len() + 2,
            final(g).ops()[old(g).len() as int] == Op::Leaf,
            final(g).data()[old(g).len() as int] == exponent,
            final(g).labels()[old(g).len() as int] == "powf"@,
            fresh_node(final(g), old(g), r.id, Op::Pow(self.id, old(g).len() as usize)),
            final(g).data()[r.id as int] == old(g).data()[self.id as int].spec_powf(exponent),
    {
        let ghost g0 = *g;
        let e = Value::new(g, exponent, String::from_str("powf"));
        let ghost g1 = *g;
        let r = self.pow(g, e);
        proof {
            lemma_extends_trans(g, &g1, &g0);
            lemma_extends_at(g, &g1, e.id as int);
        }
        r
    }

    /// e raised to the power `self`, as a new node.
    pub fn exp<S: Scalar>(self, g: &mut Graph<S>) -> (r: Value)
        requires
            old(g).wf(),
            self.valid_in(old(g)),
        ensures
            final(g).wf(),
            final(g).extends(old(g)),
            r.id == old(g).len(),
            final(g).len() == old(g).len() + 1,
            fresh_node(final(g), old(g), r.id, Op::Exp(self.id)),
            grads_zero_from(final(g), old(g).len() as int, old(g).zero()),
            unlabelled_from(final(g), old(g).len() as int),
            final(g).data()[r.id as int] == old(g).data()[self.id as int].spec_exp(),
    {
        let v = g.value(self.id).exp();
        let id = g.push_node(Op::Exp(self.id), v, String::new());
        Value { id }
    }

    /// The hyperbolic tangent of `self`, as a new node.
    pub fn tanh<S: Scalar>(self, g: &mut Graph<S>) -> (r: Value)
        requires
            old(g).wf(),
            self.valid_in(old(g)),
        ensures
            final(g).wf(),
            final(g).extends(old(g)),
            r.id == old(g).len(),
            final(g).len() == old(g).len() + 1,
            fresh_node(final(g), old(g), r.id, Op::Tanh(self.id)),
            grads_zero_from(final(g), old(g).len() as int, old(g).zero()),
            unlabelled_from(final(g), old(g).len() as int),
            final(g).data()[r.id as int] == old(g).data()[self.id as int].spec_tanh(),
    {
        let v = g.value(self.id).tanh();
        let id = g.push_node(Op::Tanh(self.id), v, String::new());
        Value { id }
    }

    /// `max(self, 0)`, as a new node; `self` itself is left untouched.
    pub fn relu<S: Scalar>(self, g: &mut Graph<S>) -> (r: Value)
        requires
            old(g).wf(),
            self.valid_in(old(g)),
        ensures
            final(g).wf(),
            final(g).extends(old(g)),
            r.id == old(g).len(),
            final(g).len() == old(g).len() + 1,
            fresh_node(final(g), old(g), r.id, Op::Relu(self.id)),
            grads_zero_from(final(g), old(g).len() as int, old(g).zero()),
            unlabelled_from(final(g), old(g).len() as int),
            final(g).data()[r.id as int] == if old(g).data()[self.id as int].spec_is_positive() {
                old(g).data()[self.id as int]
            } else {
                old(g).zero()
            },
    {
        let x = g.value(self.id);
        let v = if x.is_positive() {
            x
        } else {
            g.zero_value()
        };
        let id = g.push_node(Op::Relu(self.id), v, String::new());
        Value { id }
    }

    /// `self - other`, built as `self + other * (-1)`: a leaf holding minus
    /// one, a product node and a sum node.
    pub fn sub<S: Scalar>(self, g: &mut Graph<S>, other: Value) -> (r: Value)
        requires
            old(g).wf(),
            self.valid_in(old(g)),
            other.valid_in(old(g)),
        ensures
            final(g).wf(),
            final(g).extends(old(g)),
            final(g).len() == old(g).len() + 3,
            r.id == old(g).len() + 2,
            fresh_leaf(final(g), old(g), old(g).len() as int, old(g).neg_one()),
            fresh_node(final(g), old(g), (old(g).len() + 1) as usize, Op::Mul(other.id, old(g).len() as usize)),
            fresh_node(final(g), old(g), r.id, Op::Add(self.id, (old(g).len() + 1) as usize)),
            final(g).data()[r.id as int] == old(g).data()[self.id as int].spec_add(old(g).data()[other.id as int].spec_mul(old(g).neg_one())),
    {
        let ghost g0 = *g;
        let c = Value::constant(g, g.neg_one_value());
        let ghost g1 = *g;
        let m = other.mul(g, c);
        let ghost g2 = *g;
        let r = self.add(g, m);
        proof {
            lemma_extends_trans(&g2, &g1, &g0);
            lemma_extends_trans(g, &g2, &g0);
            lemma_extends_at(g, &g2, c.id as int);
            lemma_extends_at(&g2, &g1, c.id as int);
            lemma_extends_at(g, &g2, m.id as int);
        }
        r
    }

    /// `-self`, built as `self * (-1)`.
    pub fn neg<S: Scalar>(self, g: &mut Graph<S>) -> (r: Value)
        requires
            old(g).wf(),
            self.valid_in(old(g)),
        ensures
            final(g).wf(),
            final(g).extends(old(g)),
            final(g).len() == old(g).len() + 2,
            r.id == old(g).len() + 1,
            fresh_leaf(final(g), old(g), old(g).len() as int, old(g).neg_one()),
            fresh_node(final(g), old(g), r.id, Op::Mul(self.id, old(g).len() as usize)),
            final(g).data()[r.id as int] == old(g).data()[self.id as int].spec_mul(old(g).neg_one()),
    {
        let ghost g0 = *g;
        let c = Value::constant(g, g.neg_one_value());
        let ghost g1 = *g;
        let r = self.mul(g, c);
        proof {
            lemma_extends_trans(g, &g1, &g0);
            lemma_extends_at(g, &g1, c.id as int);
        }
        r
    }

    /// `self / other`, built as `self * other.powf(-1)`.
    pub fn div<S: Scalar>(self, g: &mut Graph<S>, other: Value) -> (r: Value)
        requires
            old(g).wf(),
            self.valid_in(old(g)),
            other.valid_in(old(g)),
        ensures
            final(g).wf(),
            final(g).extends(old(g)),
            final(g).len() == old(g).len() + 3,
            r.id == old(g).len() + 2,
            final(g).ops()[old(g).len() as int] == Op::Leaf,
            final(g).data()[old(g).len() as int] == old(g).neg_one(),
            fresh_node(final(g), old(g), (old(g).len() + 1) as usize, Op::Pow(other.id, old(g).len() as usize)),
            fresh_node(final(g), old(g), r.id, Op::Mul(self.id, (old(g).len() + 1) as usize)),
            final(g).data()[r.id as int] == old(g).data()[self.id as int].spec_mul(old(g).data()[other.id as int].spec_powf(old(g).neg_one())),
    {
        let ghost g0 = *g;
        let p = other.powf(g, g.neg_one_value());
        let ghost g1 = *g;
        let r = self.mul(g, p);
        proof {
            lemma_extends_trans(g, &g1, &g0);
            lemma_extends_at(g, &g1, g0.len() as int);
            lemma_extends_at(g, &g1, p.id as int);
        }
        r
    }

    /// `self + c`: a leaf holding `c`, then a sum node.
    pub fn add_scalar<S: Scalar>(self, g: &mut Graph<S>, c: S) -> (r: Value)
        requires
            old(g).wf(),
            self.valid_in(old(g)),
        ensures
            final(g).wf(),
            final(g).extends(old(g)),
            final(g).len() == old(g).len() + 2,
            r.id == old(g).len() + 1,
            fresh_leaf(final(g), old(g), old(g).len() as int, c),
            fresh_node(final(g), old(g), r.id, Op::Add(self.id, old(g).len() as usize)),
            final(g).data()[r.id as int] == old(g).data()[self.id as int].spec_add(c),
    {
        let ghost g0 = *g;
        let k = Value::constant(g, c);
        let ghost g1 = *g;
        let r = self.add(g, k);
        proof {
            lemma_extends_trans(g, &g1, &g0);
            lemma_extends_at(g, &g1, k.id as int);
        }
        r
    }

    /// `self * c`: a leaf holding `c`, then a product node.
    pub fn mul_scalar<S: Scalar>(self, g: &mut Graph<S>, c: S) -> (r: Value)
        requires
            old(g).wf(),
            self.valid_in(old(g)),
        ensures
            final(g).wf(),
            final(g).extends(old(g)),
            final(g).len() == old(g).len() + 2,
            r.id == old(g).len() + 1,
            fresh_leaf(final(g), old(g), old(g).len() as int, c),
            fresh_node(final(g), old(g), r.id, Op::Mul(self.id, old(g).len() as usize)),
            final(g).data()[r.id as int] == old(g).data()[self.id as int].spec_mul(c),
    {
        let ghost g0 = *g;
        let k = Value::constant(g, c);
        let ghost g1 = *g;
        let r = self.mul(g, k);
        proof {
            lemma_extends_trans(g, &g1, &g0);
            lemma_extends_at(g, &g1, k.id as int);
        }
        r
    }

    /// `c + self`: a leaf holding `c`, then a sum node with the leaf first.
    pub fn scalar_add<S: Scalar>(self, g: &mut Graph<S>, c: S) -> (r: Value)
        requires
            old(g).wf(),
            self.valid_in(old(g)),
        ensures
            final(g).wf(),
            final(g).extends(old(g)),
            final(g).len() == old(g).len() + 2,
            r.id == old(g).len() + 1,
            fresh_leaf(final(g), old(g), old(g).len() as int, c),
            fresh_node(final(g), old(g), r.id, Op::Add(old(g).len() as usize, self.id)),
            final(g).data()[r.id as int] == c.spec_add(old(g).data()[self.id as int]),
    {
        let ghost g0 = *g;
        let k = Value::constant(g, c);
        let ghost g1 = *g;
        let r = k.add(g, self);
        proof {
            lemma_extends_trans(g, &g1, &g0);
            lemma_extends_at(g, &g1, k.id as int);
            lemma_extends_at(&g1, &g0, self.id as int);
        }
        r
    }

    /// `c * self`: a leaf holding `c`, then a product node with the leaf first.
    pub fn scalar_mul<S: Scalar>(self, g: &mut Graph<S>, c: S) -> (r: Value)
        requires
            old(g).wf(),
            self.valid_in(old(g)),
        ensures
            final(g).wf(),
            final(g).extends(old(g)),
            final(g).len() == old(g).len() + 2,
            r.id == old(g).len() + 1,
            fresh_leaf(final(g), old(g), old(g).len() as int, c),
            fresh_node(final(g), old(g), r.id, Op::Mul(old(g).len() as usize, self.id)),
            final(g).data()[r.id as int] == c.spec_mul(old(g).data()[self.id as int]),
    {
        let ghost g0 = *g;
        let k = Value::constant(g, c);
        let ghost g1 = *g;
        let r = k.mul(g, self);
        proof {
            lemma_extends_trans(g, &g1, &g0);
            lemma_extends_at(g, &g1, k.id as int);
            lemma_extends_at(&g1, &g0, self.id as int);
        }
        r
    }

    /// `self - c`: a leaf holding `c`, then `sub`.
    pub fn sub_scalar<S: Scalar>(self, g: &mut Graph<S>, c: S) -> (r: Value)
        requires
            old(g).wf(),
            self.valid_in(old(g)),
        ensures
            final(g).wf(),
            final(g).extends(old(g)),
            final(g).len() == old(g).len() + 4,
            r.id == old(g).len() + 3,
            fresh_leaf(final(g), old(g), old(g).len() as int, c),
            fresh_leaf(final(g), old(g), old(g).len() + 1int, old(g).neg_one()),
            fresh_node(final(g), old(g), (old(g).len() + 2) as usize,
                Op::Mul(old(g).len() as usize, (old(g).len() + 1) as usize)),
            fresh_node(final(g), old(g), r.id, Op::Add(self.id, (old(g).len() + 2) as usize)),
            final(g).data()[r.id as int] == old(g).data()[self.id as int].spec_add(c.spec_mul(old(g).neg_one())),
    {
        let ghost g0 = *g;
        let k = Value::constant(g, c);
        let ghost g1 = *g;
        let r = self.sub(g, k);
        proof {
            lemma_extends_trans(g, &g1, &g0);
            lemma_extends_at(g, &g1, k.id as int);
        }
        r
    }

    /// `c - self`: a leaf holding `c`, then `sub`.
    pub fn scalar_sub<S: Scalar>(self, g: &mut Graph<S>, c: S) -> (r: Value)
        requires
            old(g).wf(),
            self.valid_in(old(g)),
        ensures
            final(g).wf(),
            final(g).extends(old(g)),
            final(g).len() == old(g).len() + 4,
            r.id == old(g).len() + 3,
            fresh_leaf(final(g), old(g), old(g).len() as int, c),
            fresh_leaf(final(g), old(g), old(g).len() + 1int, old(g).neg_one()),
            fresh_node(final(g), old(g), (old(g).len() + 2) as usize,
                Op::Mul(self.id, (old(g).len() + 1) as usize)),
            fresh_node(final(g), old(g), r.id, Op::Add(old(g).len() as usize, (old(g).len() + 2) as usize)),
            final(g).data()[r.id as int] == c.spec_add(old(g).data()[self.id as int].spec_mul(old(g).neg_one())),
    {
        let ghost g0 = *g;
        let k = Value::constant(g, c);
        let ghost g1 = *g;
        let r = k.sub(g, self);
        proof {
            lemma_extends_trans(g, &g1, &g0);
            lemma_extends_at(g, &g1, k.id as int);
        }
        r
    }

    /// `self / c`: a leaf holding `c`, then `div`.
    pub fn div_scalar<S: Scalar>(self, g: &mut Graph<S>, c: S) -> (r: Value)
        requires
            old(g).wf(),
            self.valid_in(old(g)),
        ensures
            final(g).wf(),
            final(g).extends(old(g)),
            final(g).len() == old(g).len() + 4,
            r.id == old(g).len() + 3,
            fresh_leaf(final(g), old(g), old(g).len() as int, c),
            final(g).ops()[old(g).len() + 1int] == Op::Leaf,
            final(g).data()[old(g).len() + 1int] == old(g).neg_one(),
            fresh_node(final(g), old(g), (old(g).len() + 2) as usize,
                Op::Pow(old(g).len() as usize, (old(g).len() + 1) as usize)),
            fresh_node(final(g), old(g), r.id, Op::Mul(self.id, (old(g).len() + 2) as usize)),
            final(g).data()[r.id as int] == old(g).data()[self.id as int].spec_mul(c.spec_powf(old(g).neg_one())),
    {
        let ghost g0 = *g;
        let k = Value::constant(g, c);
        let ghost g1 = *g;
        let r = self.div(g, k);
        proof {
            lemma_extends_trans(g, &g1, &g0);
            lemma_extends_at(g, &g1, k.id as int);
        }
        r
    }

    /// `c / self`: a leaf holding `c`, then `div`.
    pub fn scalar_div<S: Scalar>(self, g: &mut Graph<S>, c: S) -> (r: Value)
        requires
            old(g).wf(),
            self.valid_in(old(g)),
        ensures
            final(g).wf(),
            final(g).extends(old(g)),
            final(g).len() == old(g).len() + 4,
            r.id == old(g).len() + 3,
            fresh_leaf(final(g), old(g), old(g).len() as int, c),
            final(g).ops()[old(g).len() + 1int] == Op::Leaf,
            final(g).data()[old(g).len() + 1int] == old(g).neg_one(),
            fresh_node(final(g), old(g), (old(g).len() + 2) as usize,
                Op::Pow(self.id, (old(g).len() + 1) as usize)),
            fresh_node(final(g), old(g), r.id, Op::Mul(old(g).len() as usize, (old(g).len() + 2) as usize)),
            final(g).data()[r.id as int] == c.spec_mul(old(g).data()[self.id as int].spec_powf(old(g).neg_one())),
    {
        let ghost g0 = *g;
        let k = Value::constant(g, c);
        let ghost g1 = *g;
        let r = k.div(g, self);
        proof {
            lemma_extends_trans(g, &g1, &g0);
            lemma_extends_at(g, &g1, k.id as int);
        }
        r
    }

    /// A leaf for each number of `inv`, in order, labelled `x0`, `x1`, ...
    pub fn vec<S: Scalar>(g: &mut Graph<S>, inv: &Vec<S>) -> (r: Vec<Value>)
        requires
            old(g).wf(),
        ensures
            final(g).wf(),
            final(g).extends(old(g)),
            final(g).len() == old(g).len() + inv@.len(),
            r@.len() == inv@.len(),
            forall|k: int| 0 <= k < inv@.len() ==> (#[trigger] r@[k]).id == old(g).len() + k,
            forall|k: int| 0 <= k < inv@.len() ==> {
                &&& #[trigger] final(g).ops()[old(g).len() + k] == Op::Leaf
                &&& final(g).data()[old(g).len() + k] == inv@[k]
                &&& final(g).grads()[old(g).len() + k] == old(g).zero()
                &&& final(g).labels()[old(g).len() + k] == "x"@ + decimal(k as nat)
            },
            grads_zero_from(final(g), old(g).len() as int, old(g).zero()),
    {
        let ghost g0 = *g;
        proof {
            lemma_extends_refl(g);
        }
        let mut r: Vec<Value> = Vec::new();
        let mut i: usize = 0;
        while i < inv.len()
            invariant
                g.wf(),
                g.extends(&g0),
                g0.wf(),
                i <= inv@.len(),
                g.len() == g0.len() + i,
                r@.len() == i,
                forall|k: int| 0 <= k < i ==> (#[trigger] r@[k]).id == g0.len() + k,
                forall|k: int| 0 <= k < i ==> {
                    &&& #[trigger] g.ops()[g0.len() + k] == Op::Leaf
                    &&& g.data()[g0.len() + k] == inv@[k]
                    &&& g.grads()[g0.len() + k] == g0.zero()
                    &&& g.labels()[g0.len() + k] == "x"@ + decimal(k as nat)
                },
                grads_zero_from(g, g0.len() as int, g0.zero()),
            decreases inv@.len() - i,
        {
            let ghost g1 = *g;
            let label = indexed_label("x", i);
            let v = Value::new(g, inv[i], label);
            r.push(v);
            proof {
                lemma_extends_trans(g, &g1, &g0);
                assert(grads_zero_from(g, g1.len() as int, g0.zero()));
                lemma_grads_zero_chain(g, &g1, g0.len() as int, g0.zero());
                assert forall|k: int| 0 <= k < i + 1 implies {
                    &&& #[trigger] g.ops()[g0.len() + k] == Op::Leaf
                    &&& g.data()[g0.len() + k] == inv@[k]
                    &&& g.grads()[g0.len() + k] == g0.zero()
                    &&& g.labels()[g0.len() + k] == "x"@ + decimal(k as nat)
                } by {
                    if k < i {
                        lemma_extends_at(g, &g1, g0.len() + k);
                    }
                }
            }
            i += 1;
        }
        r
    }

    /// The left-to-right sum of `vals`, folded through `add` from a leaf
    /// holding zero.
    pub fn sum<S: Scalar>(g: &mut Graph<S>, vals: &Vec<Value>) -> (r: Value)
        requires
            old(g).wf(),
            forall|k: int| 0 <= k < vals@.len() ==> (#[trigger] vals@[k]).valid_in(old(g)),
        ensures
            final(g).wf(),
            final(g).extends(old(g)),
            final(g).len() == old(g).len() + 1 + vals@.len(),
            r.id == old(g).len() + vals@.len(),
            fresh_leaf(final(g), old(g), old(g).len() as int, old(g).zero()),
            forall|k: int| 0 <= k < vals@.len() ==> #[trigger] fresh_node(final(g), old(g), (old(g).len() + 1 + k) as usize,
                Op::Add((old(g).len() + k) as usize, vals@[k].id)),
            final(g).data()[r.id as int] == sum_of(old(g).zero(), old(g).data(), vals@),
            grads_zero_from(final(g), old(g).len() as int, old(g).zero()),
            unlabelled_from(final(g), old(g).len() as int),
    {
        let ghost g0 = *g;
        let mut acc = Value::constant(g, g.zero_value());
        proof {
            assert(vals@.subrange(0, 0) =~= Seq::<Value>::empty());
        }
        let mut i: usize = 0;
        while i < vals.len()
            invariant
                g.wf(),
                g0.wf(),
                g.extends(&g0),
                i <= vals@.len(),
                g.len() == g0.len() + 1 + i,
                acc.id == g0.len() + i,
                forall|k: int| 0 <= k < vals@.len() ==> (#[trigger] vals@[k]).valid_in(&g0),
                fresh_leaf(g, &g0, g0.len() as int, g0.zero()),
                forall|k: int| 0 <= k < i ==> #[trigger] fresh_node(g, &g0, (g0.len() + 1 + k) as usize,
                    Op::Add((g0.len() + k) as usize, vals@[k].id)),
                g.data()[acc.id as int] == sum_of(g0.zero(), g0.data(), vals@.subrange(0, i as int)),
                grads_zero_from(g, g0.len() as int, g0.zero()),
                unlabelled_from(g, g0.len() as int),
            decreases vals@.len() - i,
        {
            let ghost g1 = *g;
            acc = acc.add(g, vals[i]);
            proof {
                let pre = vals@.subrange(0, i as int);
                let post = vals@.subrange(0, i + 1);
                assert(post.drop_last() =~= pre);
                assert(post.last() == vals@[i as int]);
                lemma_extends_at(&g1, &g0, vals@[i as int].id as int);
                lemma_grads_zero_chain(g, &g1, g0.len() as int, g0.zero());
                lemma_unlabelled_chain(g, &g1, g0.len() as int);
                lemma_extends_trans(g, &g1, &g0);
                lemma_extends_at(g, &g1, g0.len() as int);
                assert forall|k: int| 0 <= k < i + 1 implies #[trigger] fresh_node(g, &g0, (g0.len() + 1 + k) as usize,
                    Op::Add((g0.len() + k) as usize, vals@[k].id)) by {
                    if k < i {
                        assert(fresh_node(&g1, &g0, (g0.len() + 1 + k) as usize, Op::Add((g0.len() + k) as usize, vals@[k].id)));
                        lemma_extends_at(g, &g1, g0.len() + 1 + k);
                    }
                }
            }
            i += 1;
        }
        proof {
            assert(vals@.subrange(0, vals@.len() as int) =~= vals@);
        }
        acc
    }

    /// The current value of the node.
    pub fn get_data<S: Scalar>(self, g: &Graph<S>) -> (r: S)
        requires
            g.wf(),
            self.valid_in(g),
        ensures
            r == g.data()[self.id as int],
    {
        g.value(self.id)
    }

    /// Overwrites the value of the node (an optimizer's update); nothing
    /// else changes.
    pub fn set_data<S: Scalar>(self, g: &mut Graph<S>, d: S)
        requires
            old(g).wf(),
            self.valid_in(old(g)),
        ensures
            final(g).wf(),
            final(g).ops() == old(g).ops(),
            final(g).data() == old(g).data().update(self.id as int, d),
            final(g).grads() == old(g).grads(),
            final(g).labels() == old(g).labels(),
            final(g).zero() == old(g).zero(),
            final(g).one() == old(g).one(),
            final(g).neg_one() == old(g).neg_one(),
    {
        g.set_value(self.id, d);
    }

    /// The accumulated gradient of the node.
    pub fn get_grad<S: Scalar>(self, g: &Graph<S>) -> (r: S)
        requires
            g.wf(),
            self.valid_in(g),
        ensures
            r == g.grads()[self.id as int],
    {
        g.grad(self.id)
    }

    /// Overwrites the gradient of the node; nothing else changes.
    pub fn set_grad<S: Scalar>(self, g: &mut Graph<S>, d: S)
        requires
            old(g).wf(),
            self.valid_in(old(g)),
        ensures
            final(g).wf(),
            final(g).same_but_grads(old(g)),
            final(g).grads() == old(g).grads().update(self.id as int, d),
    {
        g.set_grad(self.id, d);
    }

    /// The label of the node.
    pub fn get_label<S: Scalar>(self, g: &Graph<S>) -> (r: String)
        requires
            g.wf(),
            self.valid_in(g),
        ensures
            r@ == g.labels()[self.id as int],
    {
        g.label(self.id)
    }

    /// Appends `l` to the label of the node; nothing else changes.
    pub fn set_label<S: Scalar>(self, g: &mut Graph<S>, l: &str)
        requires
            old(g).wf(),
            self.valid_in(old(g)),
        ensures
            final(g).wf(),
            final(g).ops() == old(g).ops(),
            final(g).data() == old(g).data(),
            final(g).grads() == old(g).grads(),
            final(g).labels() == old(g).labels().update(self.id as int, old(g).labels()[self.id as int] + l@),
            final(g).zero() == old(g).zero(),
            final(g).one() == old(g).one(),
            final(g).neg_one() == old(g).neg_one(),
    {
        g.append_label(self.id, l);
    }

    /// Resets the gradient of the node to zero; nothing else changes.
    pub fn zero_grad<S: Scalar>(self, g: &mut Graph<S>)
        requires
            old(g).wf(),
            self.valid_in(old(g)),
        ensures
            final(g).wf(),
            final(g).same_but_grads(old(g)),
            final(g).grads() == old(g).grads().update(self.id as int, old(g).zero()),
    {
        g.zero_grad(self.id);
    }

    /// Computes gradients for the node and everything it reaches: sets its
    /// own gradient to one, then applies the local rule of each reachable
    /// node exactly once, in reverse topological order (`schedule`), so that
    /// a node's gradient is complete before it is propagated to its operands.
    /// Gradients accumulate: nodes outside the reached part keep theirs.
    pub fn backward<S: Scalar>(self, g: &mut Graph<S>)
        requires
            old(g).wf(),
            self.valid_in(old(g)),
        ensures
            final(g).wf(),
            final(g).same_but_grads(old(g)),
            final(g).grads()[self.id as int] == old(g).one(),
            forall|i: usize| i < old(g).len() && !reaches(old(g).ops(), self.id, i)
                ==> #[trigger] final(g).grads()[i as int] == old(g).grads()[i as int],
            final(g).fired() == old(g).fired() + schedule(old(g).ops(), self.id),
            final(g).grads() == after_backward(old(g).ops(), old(g).data(), old(g).grads(), self.id, old(g).one()),
    {
        let ghost g0 = *g;
        let order = g.topo_order(self.id);
        let one = g.one_value();
        g.set_grad(self.id, one);
        let n = order.len();
        let mut k = n;
        proof {
            assert(g.fired() =~= g0.fired() + Seq::new((n - k) as nat, |i: int| order@[n - 1 - i]));
            assert(Seq::new((n - k) as nat, |i: int| order@[n - 1 - i]) =~= Seq::<usize>::empty());
        }
        while k > 0
            invariant
                n == order@.len(),
                order@ == visit(g0.ops(), self.id, seq![]),
                g.fired() == g0.fired() + Seq::new((n - k) as nat, |i: int| order@[n - 1 - i]),
                g.grads() == backprop(g0.ops(), g0.data(), g0.grads().update(self.id as int, g0.one()),
                    Seq::new((n - k) as nat, |i: int| order@[n - 1 - i]), g0.one()),
                g.wf(),
                g0.wf(),
                g.same_but_grads(&g0),
                k <= order@.len(),
                forall|x: usize| #[trigger] order@.contains(x) <==> reaches(g0.ops(), self.id, x),
                forall|j: int| 0 <= j < order@.len() ==> #[trigger] order@[j] <= self.id,
                self.id < g0.len(),
                g.grads()[self.id as int] == g0.one(),
                forall|i: usize| i < g0.len() && !reaches(g0.ops(), self.id, i)
                    ==> #[trigger] g.grads()[i as int] == g0.grads()[i as int],
            decreases k,
        {
            k -= 1;
            let v = order[k];
            proof {
                assert(order@.contains(v));
                lemma_reaches_below(g0.ops(), self.id, v);
            }
            g.apply_rule(v);
            proof {
                let pre = Seq::new((n - (k + 1)) as nat, |i: int| order@[n - 1 - i]);
                let post = Seq::new((n - k) as nat, |i: int| order@[n - 1 - i]);
                assert(post =~= pre.push(v));
                assert(post.drop_last() =~= pre);
                assert(post.last() == v);
                assert(g.fired() =~= g0.fired() + Seq::new((n - k) as nat, |i: int| order@[n - 1 - i]));
                let ops = g0.ops();
                assert(ops[v as int].operands_below(v as nat));
                assert forall|i: usize| i < g0.len() && !reaches(g0.ops(), self.id, i)
                    implies #[trigger] g.grads()[i as int] == g0.grads()[i as int] by {
                    if ops[v as int].has_operand(i) {
                        lemma_reaches_operand(ops, self.id, v, i);
                    }
                }
            }
        }
        proof {
            assert(Seq::new(n as nat, |i: int| order@[n - 1 - i]) =~= schedule(g0.ops(), self.id));
        }
    }
}

} // verus!
