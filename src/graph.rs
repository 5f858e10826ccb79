use vstd::prelude::*;
use vstd::string::*;
use crate::scalar::Scalar;

verus! {

/// The operator that produced a node, with the arena indices of its operands
/// in order.
#[derive(Clone, Copy, PartialEq, Eq, Structural, Debug)]
pub enum Op {
    Leaf,
    Add(usize, usize),
    Mul(usize, usize),
    /// Base and exponent; no gradient flows to the exponent.
    Pow(usize, usize),
    Exp(usize),
    Tanh(usize),
    Relu(usize),
}

impl Op {
    /// How many operands the operator takes: 0, 1 or 2.
    pub open spec fn arity(self) -> nat {
        match self {
            Op::Leaf => 0,
            Op::Add(_, _) => 2,
            Op::Mul(_, _) => 2,
            Op::Pow(_, _) => 2,
            Op::Exp(_) => 1,
            Op::Tanh(_) => 1,
            Op::Relu(_) => 1,
        }
    }

    /// The first operand (meaningful when the arity is at least 1).
    pub open spec fn arg0(self) -> usize {
        match self {
            Op::Leaf => 0,
            Op::Add(a, _) => a,
            Op::Mul(a, _) => a,
            Op::Pow(a, _) => a,
            Op::Exp(a) => a,
            Op::Tanh(a) => a,
            Op::Relu(a) => a,
        }
    }

    /// The second operand (meaningful when the arity is 2).
    pub open spec fn arg1(self) -> usize {
        match self {
            Op::Add(_, b) => b,
            Op::Mul(_, b) => b,
            Op::Pow(_, b) => b,
            _ => 0,
        }
    }

    /// `x` is one of the operands.
    pub open spec fn has_operand(self, x: usize) -> bool {
        (self.arity() >= 1 && self.arg0() == x) || (self.arity() == 2 && self.arg1() == x)
    }

    /// Every operand index is below `n`.
    pub open spec fn operands_below(self, n: nat) -> bool {
        &&& (self.arity() >= 1 ==> self.arg0() < n)
        &&& (self.arity() == 2 ==> self.arg1() < n)
    }

    /// The arity and the operands, with 0 for an absent operand.
    pub fn args(&self) -> (r: (usize, usize, usize))
        ensures
            r.0 == self.arity(),
            r.0 >= 1 ==> r.1 == self.arg0(),
            r.0 == 2 ==> r.2 == self.arg1(),
    {
        match *self {
            Op::Leaf => (0, 0, 0),
            Op::Add(a, b) => (2, a, b),
            Op::Mul(a, b) => (2, a, b),
            Op::Pow(a, b) => (2, a, b),
            Op::Exp(a) => (1, a, 0),
            Op::Tanh(a) => (1, a, 0),
            Op::Relu(a) => (1, a, 0),
        }
    }

    /// The operator's label.
    pub open spec fn tag_view(self) -> Seq<char> {
        match self {
            Op::Leaf => ""@,
            Op::Add(_, _) => "+"@,
            Op::Mul(_, _) => "*"@,
            Op::Pow(_, _) => "^"@,
            Op::Exp(_) => "exp"@,
            Op::Tanh(_) => "tanh"@,
            Op::Relu(_) => "relu"@,
        }
    }

    /// The operator's label: `""` for a leaf.
    pub fn tag(&self) -> (r: &'static str)
        ensures
            r@ == self.tag_view(),
    {
        match *self {
            Op::Leaf => "",
            Op::Add(_, _) => "+",
            Op::Mul(_, _) => "*",
            Op::Pow(_, _) => "^",
            Op::Exp(_) => "exp",
            Op::Tanh(_) => "tanh",
            Op::Relu(_) => "relu",
        }
    }
}

/// `grads` with `delta` added to the gradient of node `i`.
pub open spec fn bump<S: Scalar>(grads: Seq<S>, i: usize, delta: S) -> Seq<S> {
    grads.update(i as int, grads[i as int].spec_add(delta))
}

/// The gradients after the local rule of node `v`, produced by `op`, runs:
/// each operand slot receives the partial derivative of `v` with respect to
/// that slot times the gradient of `v`, slots applied in order (so a node in
/// both slots receives both contributions). The exponent of a power receives
/// nothing, and a ReLU passes the gradient only when its output is positive.
pub open spec fn rule<S: Scalar>(op: Op, v: usize, data: Seq<S>, grads: Seq<S>, one: S) -> Seq<S> {
    let out = grads[v as int];
    match op {
        Op::Leaf => grads,
        Op::Add(a, b) => bump(bump(grads, a, out), b, out),
        Op::Mul(a, b) => bump(
            bump(grads, a, data[b as int].spec_mul(out)),
            b,
            data[a as int].spec_mul(out),
        ),
        Op::Pow(a, b) => {
            let x = data[a as int];
            let y = data[b as int];
            bump(grads, a, y.spec_mul(x.spec_powf(y.spec_sub(one))).spec_mul(out))
        },
        Op::Exp(a) => bump(grads, a, data[v as int].spec_mul(out)),
        Op::Tanh(a) => {
            let t = data[v as int];
            bump(grads, a, one.spec_sub(t.spec_mul(t)).spec_mul(out))
        },
        Op::Relu(a) => if data[v as int].spec_is_positive() {
            bump(grads, a, out)
        } else {
            grads
        },
    }
}

/// The gradients after the rules of the nodes in `sched` run one after
/// another, starting from `grads`.
pub open spec fn backprop<S: Scalar>(ops: Seq<Op>, data: Seq<S>, grads: Seq<S>, sched: Seq<usize>, one: S) -> Seq<S>
    decreases sched.len(),
{
    if sched.len() == 0 {
        grads
    } else {
        let prev = backprop(ops, data, grads, sched.drop_last(), one);
        rule(ops[sched.last() as int], sched.last(), data, prev, one)
    }
}

/// The value of a node produced by `op`, computed from the values of its
/// operands (a leaf is unconstrained: any value is its own).
pub open spec fn computed<S: Scalar>(op: Op, value: S, data: Seq<S>, zero: S) -> bool {
    match op {
        Op::Leaf => true,
        Op::Add(a, b) => value == data[a as int].spec_add(data[b as int]),
        Op::Mul(a, b) => value == data[a as int].spec_mul(data[b as int]),
        Op::Pow(a, b) => value == data[a as int].spec_powf(data[b as int]),
        Op::Exp(a) => value == data[a as int].spec_exp(),
        Op::Tanh(a) => value == data[a as int].spec_tanh(),
        Op::Relu(a) => value == if data[a as int].spec_is_positive() {
            data[a as int]
        } else {
            zero
        },
    }
}

/// An arena of nodes addressed by index. Operands always precede the node
/// that uses them, so the graph is acyclic by construction.
pub struct Graph<S> {
    ops: Vec<Op>,
    data: Vec<S>,
    grads: Vec<S>,
    labels: Vec<String>,
    zero: S,
    one: S,
    neg_one: S,
    /// The nodes whose local rule has been applied, in order.
    fired: Ghost<Seq<usize>>,
}

impl<S: Scalar> Graph<S> {
    pub closed spec fn ops(&self) -> Seq<Op> {
        self.ops@
    }

    pub closed spec fn data(&self) -> Seq<S> {
        self.data@
    }

    pub closed spec fn grads(&self) -> Seq<S> {
        self.grads@
    }

    pub closed spec fn labels(&self) -> Seq<Seq<char>> {
        self.labels@.map_values(|l: String| l@)
    }

    /// The value this graph uses as zero.
    pub closed spec fn zero(&self) -> S {
        self.zero
    }

    /// The value this graph uses as one.
    pub closed spec fn one(&self) -> S {
        self.one
    }

    /// The value this graph uses as minus one.
    pub closed spec fn neg_one(&self) -> S {
        self.neg_one
    }

    /// The nodes whose local gradient rule has been applied so far, in the
    /// order the rules ran.
    pub closed spec fn fired(&self) -> Seq<usize> {
        self.fired@
    }

    pub open spec fn len(&self) -> nat {
        self.ops().len()
    }

    pub open spec fn wf(&self) -> bool {
        &&& self.data().len() == self.len()
        &&& self.grads().len() == self.len()
        &&& self.labels().len() == self.len()
        &&& forall|i: int| 0 <= i < self.len() ==> (#[trigger] self.ops()[i]).operands_below(i as nat)
    }

    /// An empty graph.
    pub fn new() -> (g: Self)
        ensures
            g.wf(),
            g.len() == 0,
    {
        Graph {
            ops: Vec::new(),
            data: Vec::new(),
            grads: Vec::new(),
            labels: Vec::new(),
            zero: S::zero(),
            one: S::one(),
            neg_one: S::neg_one(),
            fired: Ghost(Seq::empty()),
        }
    }
}

impl<S: Scalar> Graph<S> {
    /// `self` and `other` hold the same nodes, values, labels and constants;
    /// only gradients may differ.
    pub open spec fn same_but_grads(&self, other: &Self) -> bool {
        &&& self.ops() == other.ops()
        &&& self.data() == other.data()
        &&& self.labels() == other.labels()
        &&& self.zero() == other.zero()
        &&& self.one() == other.one()
        &&& self.neg_one() == other.neg_one()
    }

    /// `self` extends `other` by new nodes; existing nodes keep their
    /// operator, value, gradient and label.
    pub open spec fn extends(&self, other: &Self) -> bool {
        &&& other.len() <= self.len()
        &&& self.ops().subrange(0, other.len() as int) == other.ops()
        &&& self.data().subrange(0, other.len() as int) == other.data()
        &&& self.grads().subrange(0, other.len() as int) == other.grads()
        &&& self.labels().subrange(0, other.len() as int) == other.labels()
        &&& self.zero() == other.zero()
        &&& self.one() == other.one()
        &&& self.neg_one() == other.neg_one()
    }

    /// The value this graph uses as zero.
    pub fn zero_value(&self) -> (r: S)
        ensures
            r == self.zero(),
    {
        self.zero
    }

    /// The value this graph uses as one.
    pub fn one_value(&self) -> (r: S)
        ensures
            r == self.one(),
    {
        self.one
    }

    /// The value this graph uses as minus one.
    pub fn neg_one_value(&self) -> (r: S)
        ensures
            r == self.neg_one(),
    {
        self.neg_one
    }

    /// The number of nodes.
    pub fn size(&self) -> (r: usize)
        requires
            self.wf(),
        ensures
            r == self.len(),
    {
        self.ops.len()
    }

    /// Appends a node with a zero gradient and returns its index.
    pub(crate) fn push_node(&mut self, op: Op, value: S, label: String) -> (r: usize)
        requires
            old(self).wf(),
            op.operands_below(old(self).len()),
        ensures
            final(self).wf(),
            r == old(self).len(),
            final(self).ops() == old(self).ops().push(op),
            final(self).data() == old(self).data().push(value),
            final(self).grads() == old(self).grads().push(old(self).zero()),
            final(self).labels() == old(self).labels().push(label@),
            final(self).extends(old(self)),
            final(self).fired() == old(self).fired(),
    {
        let r = self.ops.len();
        self.ops.push(op);
        self.data.push(value);
        let z = self.zero;
        self.grads.push(z);
        self.labels.push(label);
        proof {
            assert(self.labels() =~= old(self).labels().push(label@));
            assert(self.ops().subrange(0, old(self).len() as int) =~= old(self).ops());
            assert(self.data().subrange(0, old(self).len() as int) =~= old(self).data());
            assert(self.grads().subrange(0, old(self).len() as int) =~= old(self).grads());
            assert(self.labels().subrange(0, old(self).len() as int) =~= old(self).labels());
        }
        r
    }

    /// The operator that produced node `i`.
    pub fn op(&self, i: usize) -> (r: Op)
        requires
            self.wf(),
            i < self.len(),
        ensures
            r == self.ops()[i as int],
    {
        self.ops[i]
    }

    /// The value of node `i`.
    pub fn value(&self, i: usize) -> (r: S)
        requires
            self.wf(),
            i < self.len(),
        ensures
            r == self.data()[i as int],
    {
        self.data[i]
    }

    /// The gradient of node `i`.
    pub fn grad(&self, i: usize) -> (r: S)
        requires
            self.wf(),
            i < self.len(),
        ensures
            r == self.grads()[i as int],
    {
        self.grads[i]
    }

    /// The label of node `i`.
    pub fn label(&self, i: usize) -> (r: String)
        requires
            self.wf(),
            i < self.len(),
        ensures
            r@ == self.labels()[i as int],
    {
        self.labels[i].clone()
    }

    /// Overwrites the value of node `i`.
    pub fn set_value(&mut self, i: usize, v: S)
        requires
            old(self).wf(),
            i < old(self).len(),
        ensures
            final(self).wf(),
            final(self).ops() == old(self).ops(),
            final(self).data() == old(self).data().update(i as int, v),
            final(self).grads() == old(self).grads(),
            final(self).labels() == old(self).labels(),
            final(self).zero() == old(self).zero(),
            final(self).one() == old(self).one(),
            final(self).neg_one() == old(self).neg_one(),
            final(self).fired() == old(self).fired(),
    {
        self.data.set(i, v);
    }

    /// Overwrites the gradient of node `i`.
    pub fn set_grad(&mut self, i: usize, v: S)
        requires
            old(self).wf(),
            i < old(self).len(),
        ensures
            final(self).wf(),
            final(self).same_but_grads(old(self)),
            final(self).grads() == old(self).grads().update(i as int, v),
            final(self).fired() == old(self).fired(),
    {
        self.grads.set(i, v);
    }

    /// Resets the gradient of node `i` to zero.
    pub fn zero_grad(&mut self, i: usize)
        requires
            old(self).wf(),
            i < old(self).len(),
        ensures
            final(self).wf(),
            final(self).same_but_grads(old(self)),
            final(self).grads() == old(self).grads().update(i as int, old(self).zero()),
            final(self).fired() == old(self).fired(),
    {
        let z = self.zero;
        self.grads.set(i, z);
    }

    /// Appends `suffix` to the label of node `i`.
    pub fn append_label(&mut self, i: usize, suffix: &str)
        requires
            old(self).wf(),
            i < old(self).len(),
        ensures
            final(self).wf(),
            final(self).ops() == old(self).ops(),
            final(self).data() == old(self).data(),
            final(self).grads() == old(self).grads(),
            final(self).labels() == old(self).labels().update(i as int, old(self).labels()[i as int] + suffix@),
            final(self).zero() == old(self).zero(),
            final(self).one() == old(self).one(),
            final(self).neg_one() == old(self).neg_one(),
            final(self).fired() == old(self).fired(),
    {
        let mut l = self.labels[i].clone();
        l.append(suffix);
        self.labels.set(i, l);
        proof {
            assert(self.labels() =~= old(self).labels().update(i as int, old(self).labels()[i as int] + suffix@));
        }
    }

    /// Adds `delta` to the gradient of node `i`.
    fn accumulate(&mut self, i: usize, delta: S)
        requires
            old(self).wf(),
            i < old(self).len(),
        ensures
            final(self).wf(),
            final(self).same_but_grads(old(self)),
            final(self).grads().len() == old(self).grads().len(),
            final(self).grads() == bump(old(self).grads(), i, delta),
            final(self).fired() == old(self).fired(),
    {
        let g = self.grads[i].add(&delta);
        self.grads.set(i, g);
    }

    /// Applies the local gradient rule of node `v` once: adds to each
    /// operand's gradient the partial derivative of `v` with respect to that
    /// operand, scaled by the gradient of `v`. Nothing but the gradients of
    /// `v`'s operands changes.
    pub fn apply_rule(&mut self, v: usize)
        requires
            old(self).wf(),
            v < old(self).len(),
        ensures
            final(self).wf(),
            final(self).same_but_grads(old(self)),
            forall|j: usize| j < old(self).len() && !old(self).ops()[v as int].has_operand(j)
                ==> #[trigger] final(self).grads()[j as int] == old(self).grads()[j as int],
            final(self).fired() == old(self).fired().push(v),
            final(self).grads() == rule(old(self).ops()[v as int], v, old(self).data(), old(self).grads(), old(self).one()),
    {
        proof {
            self.fired@ = self.fired@.push(v);
        }
        let out = self.grads[v];
        match self.ops[v] {
            Op::Leaf => {},
            Op::Add(a, b) => {
                self.accumulate(a, out);
                self.accumulate(b, out);
            },
            Op::Mul(a, b) => {
                let da = self.data[b].mul(&out);
                self.accumulate(a, da);
                let db = self.data[a].mul(&out);
                self.accumulate(b, db);
            },
            Op::Pow(a, b) => {
                let x = self.data[a];
                let y = self.data[b];
                let y1 = y.sub(&self.one);
                let d = y.mul(&x.powf(&y1)).mul(&out);
                self.accumulate(a, d);
            },
            Op::Exp(a) => {
                let d = self.data[v].mul(&out);
                self.accumulate(a, d);
            },
            Op::Tanh(a) => {
                let t = self.data[v];
                let d = self.one.sub(&t.mul(&t)).mul(&out);
                self.accumulate(a, d);
            },
            Op::Relu(a) => {
                if self.data[v].is_positive() {
                    self.accumulate(a, out);
                }
            },
        }
    }
}

/// Every graph extends itself.
pub proof fn lemma_extends_refl<S: Scalar>(a: &Graph<S>)
    requires
        a.wf(),
    ensures
        a.extends(a),
{
    assert(a.ops().subrange(0, a.len() as int) =~= a.ops());
    assert(a.data().subrange(0, a.len() as int) =~= a.data());
    assert(a.grads().subrange(0, a.len() as int) =~= a.grads());
    assert(a.labels().subrange(0, a.len() as int) =~= a.labels());
}

/// Extension is transitive.
pub proof fn lemma_extends_trans<S: Scalar>(c: &Graph<S>, b: &Graph<S>, a: &Graph<S>)
    requires
        a.wf(),
        b.wf(),
        c.wf(),
        c.extends(b),
        b.extends(a),
    ensures
        c.extends(a),
{
    assert(c.ops().subrange(0, a.len() as int) =~= c.ops().subrange(0, b.len() as int).subrange(0, a.len() as int));
    assert(c.data().subrange(0, a.len() as int) =~= c.data().subrange(0, b.len() as int).subrange(0, a.len() as int));
    assert(c.grads().subrange(0, a.len() as int) =~= c.grads().subrange(0, b.len() as int).subrange(0, a.len() as int));
    assert(c.labels().subrange(0, a.len() as int) =~= c.labels().subrange(0, b.len() as int).subrange(0, a.len() as int));
}

/// A node of `a` is the same node in any extension of `a`.
pub proof fn lemma_extends_at<S: Scalar>(b: &Graph<S>, a: &Graph<S>, i: int)
    requires
        a.wf(),
        b.wf(),
        b.extends(a),
        0 <= i < a.len(),
    ensures
        b.ops()[i] == a.ops()[i],
        b.data()[i] == a.data()[i],
        b.grads()[i] == a.grads()[i],
        b.labels()[i] == a.labels()[i],
{
    assert(b.ops().subrange(0, a.len() as int)[i] == b.ops()[i]);
    assert(b.data().subrange(0, a.len() as int)[i] == b.data()[i]);
    assert(b.grads().subrange(0, a.len() as int)[i] == b.grads()[i]);
    assert(b.labels().subrange(0, a.len() as int)[i] == b.labels()[i]);
}

/// A node whose value is computed from its operands stays so in any
/// extension.
pub proof fn lemma_computed_extends<S: Scalar>(b: &Graph<S>, a: &Graph<S>, i: int)
    requires
        a.wf(),
        b.wf(),
        b.extends(a),
        0 <= i < a.len(),
        computed(a.ops()[i], a.data()[i], a.data(), a.zero()),
    ensures
        computed(b.ops()[i], b.data()[i], b.data(), b.zero()),
{
    let op = a.ops()[i];
    assert(op.operands_below(i as nat));
    lemma_extends_at(b, a, i);
    if op.arity() >= 1 {
        lemma_extends_at(b, a, op.arg0() as int);
    }
    if op.arity() == 2 {
        lemma_extends_at(b, a, op.arg1() as int);
    }
}

/// Every node of `g` from index `lo` on has gradient `zero`.
pub open spec fn grads_zero_from<S: Scalar>(g: &Graph<S>, lo: int, zero: S) -> bool {
    forall|i: int| lo <= i < g.len() ==> #[trigger] g.grads()[i] == zero
}

/// Every node of `g` from index `lo` on has an empty label.
pub open spec fn unlabelled_from<S: Scalar>(g: &Graph<S>, lo: int) -> bool {
    forall|i: int| lo <= i < g.len() ==> #[trigger] g.labels()[i] == Seq::<char>::empty()
}

/// Zero gradients from `lo` in `a`, and from the end of `a` in its extension
/// `b`, make zero gradients from `lo` in `b`.
pub proof fn lemma_grads_zero_chain<S: Scalar>(b: &Graph<S>, a: &Graph<S>, lo: int, zero: S)
    requires
        a.wf(),
        b.wf(),
        b.extends(a),
        0 <= lo,
        grads_zero_from(a, lo, zero),
        grads_zero_from(b, a.len() as int, zero),
    ensures
        grads_zero_from(b, lo, zero),
{
    assert forall|i: int| lo <= i < b.len() implies #[trigger] b.grads()[i] == zero by {
        if i < a.len() {
            lemma_extends_at(b, a, i);
        }
    }
}

/// Empty labels from `lo` in `a`, and from the end of `a` in its extension
/// `b`, make empty labels from `lo` in `b`.
pub proof fn lemma_unlabelled_chain<S: Scalar>(b: &Graph<S>, a: &Graph<S>, lo: int)
    requires
        a.wf(),
        b.wf(),
        b.extends(a),
        0 <= lo,
        unlabelled_from(a, lo),
        unlabelled_from(b, a.len() as int),
    ensures
        unlabelled_from(b, lo),
{
    assert forall|i: int| lo <= i < b.len() implies #[trigger] b.labels()[i] == Seq::<char>::empty() by {
        if i < a.len() {
            lemma_extends_at(b, a, i);
        }
    }
}

} // verus!
