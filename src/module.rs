use vstd::prelude::*;
use crate::graph::Graph;
use crate::scalar::Scalar;
use crate::value::Value;

verus! {

/// Resets the gradient of every node in `params` to zero; every other node
/// keeps its gradient.
pub fn zero_grads<S: Scalar>(g: &mut Graph<S>, params: &Vec<Value>)
    requires
        old(g).wf(),
        forall|k: int| 0 <= k < params@.len() ==> (#[trigger] params@[k]).valid_in(old(g)),
    ensures
        final(g).wf(),
        final(g).same_but_grads(old(g)),
        forall|i: usize| i < old(g).len() ==> #[trigger] final(g).grads()[i as int] == if params@.contains(Value { id: i }) {
            old(g).zero()
        } else {
            old(g).grads()[i as int]
        },
{
    let ghost g0 = *g;
    let mut k: usize = 0;
    while k < params.len()
        invariant
            g.wf(),
            g0.wf(),
            g.same_but_grads(&g0),
            k <= params@.len(),
            forall|j: int| 0 <= j < params@.len() ==> (#[trigger] params@[j]).valid_in(&g0),
            forall|i: usize| i < g0.len() ==> #[trigger] g.grads()[i as int] == if params@.subrange(0, k as int).contains(Value { id: i }) {
                g0.zero()
            } else {
                g0.grads()[i as int]
            },
        decreases params@.len() - k,
    {
        let p = params[k];
        p.zero_grad(g);
        proof {
            assert forall|i: usize| i < g0.len() implies #[trigger] g.grads()[i as int] == if params@.subrange(0, k + 1).contains(Value { id: i }) {
                g0.zero()
            } else {
                g0.grads()[i as int]
            } by {
                let pre = params@.subrange(0, k as int);
                let post = params@.subrange(0, k + 1);
                assert(post =~= pre.push(p));
                if pre.contains(Value { id: i }) {
                    let j = choose|j: int| 0 <= j < pre.len() && pre[j] == Value { id: i };
                    assert(post[j] == pre[j]);
                }
                if i == p.id {
                    assert(post[k as int] == p);
                }
            }
        }
        k += 1;
    }
    proof {
        assert(params@.subrange(0, params@.len() as int) =~= params@);
    }
}

/// A composite that owns trainable leaves.
pub trait Module {
    /// The leaves owned, in a fixed order.
    spec fn params(&self) -> Seq<Value>;

    /// The leaves owned, in a fixed order; no copies: the handles name the
    /// nodes themselves.
    fn parameters(&self) -> (r: Vec<Value>)
        ensures
            r@ == self.params(),
    ;

    /// Resets the gradient of every owned leaf to zero.
    fn zero_grad<S: Scalar>(&self, g: &mut Graph<S>)
        requires
            old(g).wf(),
            forall|k: int| 0 <= k < self.params().len() ==> (#[trigger] self.params()[k]).valid_in(old(g)),
        ensures
            final(g).wf(),
            final(g).same_but_grads(old(g)),
            forall|i: usize| i < old(g).len() ==> #[trigger] final(g).grads()[i as int] == if self.params().contains(Value { id: i }) {
                old(g).zero()
            } else {
                old(g).grads()[i as int]
            },
    {
        let ps = self.parameters();
        zero_grads(g, &ps);
    }
}

} // verus!
