use vstd::prelude::*;
use crate::graph::{Graph, Op};
use crate::scalar::Scalar;

verus! {

/// `x` can be reached from `v` by following operand edges (every node
/// reaches itself).
pub open spec fn reaches(ops: Seq<Op>, v: usize, x: usize) -> bool
    decreases v,
{
    let op = ops[v as int];
    ||| v == x
    ||| (op.arity() >= 1 && op.arg0() < v && reaches(ops, op.arg0(), x))
    ||| (op.arity() == 2 && op.arg1() < v && reaches(ops, op.arg1(), x))
}

/// Depth-first post-order traversal from `v`, skipping nodes already in
/// `done`: the operands are visited in order, then `v` is appended.
pub open spec fn visit(ops: Seq<Op>, v: usize, done: Seq<usize>) -> Seq<usize>
    decreases v,
{
    if done.contains(v) {
        done
    } else {
        let op = ops[v as int];
        let d1 = if op.arity() >= 1 && op.arg0() < v {
            visit(ops, op.arg0(), done)
        } else {
            done
        };
        let d2 = if op.arity() == 2 && op.arg1() < v {
            visit(ops, op.arg1(), d1)
        } else {
            d1
        };
        d2.push(v)
    }
}

/// `x` occurs in `s` strictly before position `k`.
pub open spec fn occurs_before(s: Seq<usize>, x: usize, k: int) -> bool {
    exists|j: int| 0 <= j < k && s[j] == x
}

/// Every node of `s` comes after all of its operands.
pub open spec fn operands_first(ops: Seq<Op>, s: Seq<usize>) -> bool {
    forall|k: int| 0 <= k < s.len() ==> {
        let op = #[trigger] ops[s[k] as int];
        &&& (op.arity() >= 1 ==> occurs_before(s, op.arg0(), k))
        &&& (op.arity() == 2 ==> occurs_before(s, op.arg1(), k))
    }
}

/// The operands of every node of the graph precede it.
pub open spec fn acyclic(ops: Seq<Op>) -> bool {
    forall|i: int| 0 <= i < ops.len() ==> (#[trigger] ops[i]).operands_below(i as nat)
}

/// A traversal state: no repeats, indices in range, operands first.
pub open spec fn good_prefix(ops: Seq<Op>, s: Seq<usize>) -> bool {
    &&& s.no_duplicates()
    &&& forall|k: int| 0 <= k < s.len() ==> #[trigger] s[k] < ops.len()
    &&& operands_first(ops, s)
}

/// A node reaches only nodes with an index no larger than its own.
pub proof fn lemma_reaches_below(ops: Seq<Op>, v: usize, x: usize)
    requires
        reaches(ops, v, x),
    ensures
        x <= v,
    decreases v,
{
    let op = ops[v as int];
    if v != x {
        if op.arity() >= 1 && op.arg0() < v && reaches(ops, op.arg0(), x) {
            lemma_reaches_below(ops, op.arg0(), x);
        } else {
            lemma_reaches_below(ops, op.arg1(), x);
        }
    }
}

/// Reachability is transitive.
pub proof fn lemma_reaches_trans(ops: Seq<Op>, u: usize, v: usize, x: usize)
    requires
        reaches(ops, u, v),
        reaches(ops, v, x),
    ensures
        reaches(ops, u, x),
    decreases u,
{
    let op = ops[u as int];
    if u != v {
        if op.arity() >= 1 && op.arg0() < u && reaches(ops, op.arg0(), v) {
            lemma_reaches_trans(ops, op.arg0(), v, x);
        } else {
            lemma_reaches_trans(ops, op.arg1(), v, x);
        }
    }
}

/// An operand of a node reachable from `root` is reachable from `root`.
pub proof fn lemma_reaches_operand(ops: Seq<Op>, root: usize, v: usize, x: usize)
    requires
        acyclic(ops),
        v < ops.len(),
        reaches(ops, root, v),
        ops[v as int].has_operand(x),
    ensures
        reaches(ops, root, x),
{
    assert(ops[v as int].operands_below(v as nat));
    assert(reaches(ops, x, x));
    assert(reaches(ops, v, x));
    lemma_reaches_trans(ops, root, v, x);
}

/// A state whose nodes come after their operands holds everything its
/// nodes reach.
proof fn lemma_closed(ops: Seq<Op>, s: Seq<usize>, v: usize, x: usize)
    requires
        operands_first(ops, s),
        s.contains(v),
        reaches(ops, v, x),
    ensures
        s.contains(x),
    decreases v,
{
    let op = ops[v as int];
    if v != x {
        let k = choose|k: int| 0 <= k < s.len() && s[k] == v;
        assert(ops[s[k] as int] == op);
        if op.arity() >= 1 && op.arg0() < v && reaches(ops, op.arg0(), x) {
            assert(occurs_before(s, op.arg0(), k));
            let j = choose|j: int| 0 <= j < k && s[j] == op.arg0();
            assert(s.contains(op.arg0()));
            lemma_closed(ops, s, op.arg0(), x);
        } else {
            assert(occurs_before(s, op.arg1(), k));
            let j = choose|j: int| 0 <= j < k && s[j] == op.arg1();
            assert(s.contains(op.arg1()));
            lemma_closed(ops, s, op.arg1(), x);
        }
    }
}

/// Extending a good state by one node whose operands it already holds keeps
/// it good.
proof fn lemma_push_good(ops: Seq<Op>, s: Seq<usize>, v: usize)
    requires
        good_prefix(ops, s),
        v < ops.len(),
        !s.contains(v),
        ops[v as int].arity() >= 1 ==> s.contains(ops[v as int].arg0()),
        ops[v as int].arity() == 2 ==> s.contains(ops[v as int].arg1()),
    ensures
        good_prefix(ops, s.push(v)),
{
    let t = s.push(v);
    assert forall|k: int| 0 <= k < t.len() implies {
        let op = #[trigger] ops[t[k] as int];
        &&& (op.arity() >= 1 ==> occurs_before(t, op.arg0(), k))
        &&& (op.arity() == 2 ==> occurs_before(t, op.arg1(), k))
    } by {
        let op = ops[t[k] as int];
        if k < s.len() {
            assert(t[k] == s[k]);
            if op.arity() >= 1 {
                assert(occurs_before(s, op.arg0(), k));
                let j = choose|j: int| 0 <= j < k && s[j] == op.arg0();
                assert(t[j] == s[j]);
            }
            if op.arity() == 2 {
                assert(occurs_before(s, op.arg1(), k));
                let j = choose|j: int| 0 <= j < k && s[j] == op.arg1();
                assert(t[j] == s[j]);
            }
        } else {
            assert(t[k] == v);
            if op.arity() >= 1 {
                let j = choose|j: int| 0 <= j < s.len() && s[j] == op.arg0();
                assert(t[j] == s[j]);
            }
            if op.arity() == 2 {
                let j = choose|j: int| 0 <= j < s.len() && s[j] == op.arg1();
                assert(t[j] == s[j]);
            }
        }
    }
    assert forall|k: int| 0 <= k < t.len() implies #[trigger] t[k] < ops.len() by {
        if k < s.len() {
            assert(t[k] == s[k]);
        }
    }
    assert forall|i: int, j: int| 0 <= i < t.len() && 0 <= j < t.len() && i != j implies t[i] != t[j] by {
        if i < s.len() && j < s.len() {
            assert(t[i] == s[i] && t[j] == s[j]);
        } else if i < s.len() {
            assert(t[i] == s[i]);
        } else if j < s.len() {
            assert(t[j] == s[j]);
        }
    }
}

/// The traversal from `v` keeps a good state good, keeps it as a prefix, and
/// adds exactly the nodes that `v` reaches.
pub proof fn lemma_visit(ops: Seq<Op>, v: usize, done: Seq<usize>)
    requires
        acyclic(ops),
        v < ops.len(),
        good_prefix(ops, done),
    ensures
        good_prefix(ops, visit(ops, v, done)),
        done.len() <= visit(ops, v, done).len(),
        visit(ops, v, done).subrange(0, done.len() as int) == done,
        forall|x: usize| #[trigger] visit(ops, v, done).contains(x) <==> (done.contains(x) || reaches(ops, v, x)),
    decreases v,
{
    let r = visit(ops, v, done);
    let op = ops[v as int];
    assert(op.operands_below(v as nat));
    if done.contains(v) {
        assert(done.subrange(0, done.len() as int) =~= done);
        assert forall|x: usize| #[trigger] r.contains(x) <==> (done.contains(x) || reaches(ops, v, x)) by {
            if reaches(ops, v, x) {
                lemma_closed(ops, done, v, x);
            }
        }
    } else {
        let d1 = if op.arity() >= 1 && op.arg0() < v {
            visit(ops, op.arg0(), done)
        } else {
            done
        };
        let d2 = if op.arity() == 2 && op.arg1() < v {
            visit(ops, op.arg1(), d1)
        } else {
            d1
        };
        assert(r == d2.push(v));
        if op.arity() >= 1 {
            lemma_visit(ops, op.arg0(), done);
            assert(reaches(ops, op.arg0(), op.arg0()));
        } else {
            assert(d1.subrange(0, done.len() as int) =~= done);
        }
        if op.arity() == 2 {
            lemma_visit(ops, op.arg1(), d1);
            assert(reaches(ops, op.arg1(), op.arg1()));
            assert(d2.subrange(0, done.len() as int) =~= d2.subrange(0, d1.len() as int).subrange(0, done.len() as int));
        } else {
            assert(d2.subrange(0, d1.len() as int) =~= d1);
        }
        // every node of d2 is in done or reached from an operand, so below v
        assert forall|x: usize| #[trigger] d2.contains(x) implies (done.contains(x) || reaches(ops, v, x)) by {
            if !done.contains(x) {
                if op.arity() >= 1 && d1.contains(x) && reaches(ops, op.arg0(), x) {
                } else {
                }
            }
        }
        assert(!d2.contains(v)) by {
            if d2.contains(v) {
                if op.arity() >= 1 && visit(ops, op.arg0(), done).contains(v) && !done.contains(v) {
                    lemma_reaches_below(ops, op.arg0(), v);
                }
                if op.arity() == 2 && d2.contains(v) && !d1.contains(v) {
                    lemma_reaches_below(ops, op.arg1(), v);
                }
            }
        }
        lemma_push_good(ops, d2, v);
        assert(r.subrange(0, done.len() as int) =~= d2.subrange(0, done.len() as int));
        assert forall|x: usize| #[trigger] r.contains(x) <==> (done.contains(x) || reaches(ops, v, x)) by {
            if r.contains(x) && x != v {
                let k = choose|k: int| 0 <= k < r.len() && r[k] == x;
                assert(d2[k] == x);
                assert(d2.contains(x));
            }
            if x == v {
                assert(r[d2.len() as int] == v);
            } else if done.contains(x) || reaches(ops, v, x) {
                assert(d2.contains(x));
                let k = choose|k: int| 0 <= k < d2.len() && d2[k] == x;
                assert(r[k] == x);
            }
        }
    }
}

/// Topological correctness of the backward schedule: in the order built
/// from `root`, no node uses a node placed after it. Processing that order in
/// reverse therefore runs the rule of every node that uses `x` before the
/// rule of `x`, so the gradient of `x` is complete when it is propagated; and
/// since the order holds each reachable node exactly once, each rule runs once.
pub proof fn lemma_users_first(ops: Seq<Op>, root: usize)
    requires
        acyclic(ops),
        root < ops.len(),
    ensures
        visit(ops, root, seq![]).no_duplicates(),
        forall|x: usize| #[trigger] visit(ops, root, seq![]).contains(x) <==> reaches(ops, root, x),
        forall|p: int, q: int| 0 <= p < q < visit(ops, root, seq![]).len()
            ==> !(#[trigger] ops[visit(ops, root, seq![])[p] as int]).has_operand(#[trigger] visit(ops, root, seq![])[q]),
{
    let r = visit(ops, root, seq![]);
    assert(good_prefix(ops, seq![]));
    lemma_visit(ops, root, seq![]);
    assert forall|p: int, q: int| 0 <= p < q < r.len() implies !(#[trigger] ops[r[p] as int]).has_operand(#[trigger] r[q]) by {
        let op = ops[r[p] as int];
        if op.has_operand(r[q]) {
            if op.arity() >= 1 && op.arg0() == r[q] {
                assert(occurs_before(r, op.arg0(), p));
                let j = choose|j: int| 0 <= j < p && r[j] == op.arg0();
                assert(r[j] == r[q]);
            } else {
                assert(occurs_before(r, op.arg1(), p));
                let j = choose|j: int| 0 <= j < p && r[j] == op.arg1();
                assert(r[j] == r[q]);
            }
        }
    }
}

/// `s` back to front.
pub open spec fn reversed(s: Seq<usize>) -> Seq<usize> {
    Seq::new(s.len(), |i: int| s[s.len() - 1 - i])
}

/// The rules a backward pass from `root` applies, in order: the reachable
/// nodes in reverse topological order, starting with `root`.
pub open spec fn schedule(ops: Seq<Op>, root: usize) -> Seq<usize> {
    reversed(visit(ops, root, seq![]))
}

/// The backward schedule depends on the graph's structure alone: a graph
/// that differs only in its gradients (for instance after zeroing them) gets
/// the same sequence of rule applications from the same root.
pub proof fn lemma_schedule_ignores_grads<S: Scalar>(g1: &Graph<S>, g2: &Graph<S>, root: usize)
    requires
        g2.same_but_grads(g1),
    ensures
        schedule(g2.ops(), root) == schedule(g1.ops(), root),
{
}

/// In the schedule from `root`, every reachable node appears exactly once,
/// and every node comes after all the reachable nodes that use it: when its
/// rule runs, its gradient has received every contribution.
pub proof fn lemma_schedule_users_first(ops: Seq<Op>, root: usize)
    requires
        acyclic(ops),
        root < ops.len(),
    ensures
        schedule(ops, root).no_duplicates(),
        forall|x: usize| #[trigger] schedule(ops, root).contains(x) <==> reaches(ops, root, x),
        schedule(ops, root)[0] == root,
        forall|p: int, q: int| 0 <= p < q < schedule(ops, root).len()
            ==> !(#[trigger] ops[schedule(ops, root)[q] as int]).has_operand(#[trigger] schedule(ops, root)[p]),
{
    let r = visit(ops, root, seq![]);
    let s = schedule(ops, root);
    lemma_users_first(ops, root);
    assert(good_prefix(ops, seq![]));
    lemma_visit(ops, root, seq![]);
    assert(r.contains(root));
    assert(r.last() == root);
    assert forall|x: usize| #[trigger] s.contains(x) <==> r.contains(x) by {
        if s.contains(x) {
            let k = choose|k: int| 0 <= k < s.len() && s[k] == x;
            assert(r[r.len() - 1 - k] == x);
        }
        if r.contains(x) {
            let k = choose|k: int| 0 <= k < r.len() && r[k] == x;
            assert(s[r.len() - 1 - k] == x);
        }
    }
    assert forall|p: int, q: int| 0 <= p < q < s.len()
        implies !(#[trigger] ops[s[q] as int]).has_operand(#[trigger] s[p]) by {
        assert(s[q] == r[r.len() - 1 - q]);
        assert(s[p] == r[r.len() - 1 - p]);
        assert(!ops[r[r.len() - 1 - q] as int].has_operand(r[r.len() - 1 - p]));
    }
    assert forall|i: int, j: int| 0 <= i < s.len() && 0 <= j < s.len() && i != j implies s[i] != s[j] by {
        assert(s[i] == r[r.len() - 1 - i]);
        assert(s[j] == r[r.len() - 1 - j]);
    }
}

impl<S: Scalar> Graph<S> {
    /// Post-order depth-first traversal from `v`, appending to `topo` every
    /// node not yet marked in `visited` (marked by identity, i.e. index).
    fn build_topo(&self, v: usize, topo: &mut Vec<usize>, visited: &mut Vec<bool>)
        requires
            self.wf(),
            v < self.len(),
            old(visited)@.len() == self.len(),
            forall|k: int| 0 <= k < old(topo)@.len() ==> #[trigger] old(topo)@[k] < self.len(),
            forall|i: usize| i < self.len() ==> #[trigger] old(visited)@[i as int] == old(topo)@.contains(i),
        ensures
            final(topo)@ == visit(self.ops(), v, old(topo)@),
            final(visited)@.len() == self.len(),
            forall|k: int| 0 <= k < final(topo)@.len() ==> #[trigger] final(topo)@[k] < self.len(),
            forall|i: usize| i < self.len() ==> #[trigger] final(visited)@[i as int] == final(topo)@.contains(i),
        decreases v,
    {
        if visited[v] {
            return;
        }
        let op = self.op(v);
        assert(self.ops()[v as int].operands_below(v as nat));
        let (n, a, b) = op.args();
        if n >= 1 {
            self.build_topo(a, topo, visited);
        }
        if n == 2 {
            self.build_topo(b, topo, visited);
        }
        let ghost before = topo@;
        let ghost marks = visited@;
        topo.push(v);
        visited.set(v, true);
        proof {
            assert(topo@ == before.push(v));
            assert(visited@ == marks.update(v as int, true));
            assert forall|i: usize| i < self.len() implies #[trigger] visited@[i as int] == topo@.contains(i) by {
                if i == v {
                    assert(topo@[before.len() as int] == v);
                } else {
                    if topo@.contains(i) {
                        let k = choose|k: int| 0 <= k < topo@.len() && topo@[k] == i;
                        assert(before[k] == i);
                    }
                    if before.contains(i) {
                        let k = choose|k: int| 0 <= k < before.len() && before[k] == i;
                        assert(topo@[k] == i);
                    }
                }
            }
        }
    }

    /// A topological order of the nodes reachable from `root`: each appears
    /// exactly once and after all of its operands, and `root` comes last.
    pub fn topo_order(&self, root: usize) -> (r: Vec<usize>)
        requires
            self.wf(),
            root < self.len(),
        ensures
            r@ == visit(self.ops(), root, seq![]),
            r@.no_duplicates(),
            forall|x: usize| #[trigger] r@.contains(x) <==> reaches(self.ops(), root, x),
            operands_first(self.ops(), r@),
            forall|p: int, q: int| 0 <= p < q < r@.len()
                ==> !(#[trigger] self.ops()[r@[p] as int]).has_operand(#[trigger] r@[q]),
            r@.len() > 0 && r@.last() == root,
            forall|k: int| 0 <= k < r@.len() ==> #[trigger] r@[k] <= root,
    {
        let mut topo: Vec<usize> = Vec::new();
        let mut visited: Vec<bool> = Vec::new();
        let n = self.size();
        let mut i: usize = 0;
        while i < n
            invariant
                n == self.len(),
                i <= n,
                visited@.len() == i,
                forall|j: int| 0 <= j < i ==> !(#[trigger] visited@[j]),
            decreases n - i,
        {
            visited.push(false);
            i += 1;
        }
        proof {
            assert(acyclic(self.ops()));
            assert(good_prefix(self.ops(), seq![]));
        }
        self.build_topo(root, &mut topo, &mut visited);
        proof {
            let ops = self.ops();
            lemma_visit(ops, root, seq![]);
            lemma_users_first(ops, root);
            assert(seq![].contains(root) == false);
            assert forall|k: int| 0 <= k < topo@.len() implies #[trigger] topo@[k] <= root by {
                assert(topo@.contains(topo@[k]));
                lemma_reaches_below(ops, root, topo@[k]);
            }
        }
        topo
    }
}

} // verus!
