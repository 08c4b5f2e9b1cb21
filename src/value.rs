use vstd::prelude::*;

use crate::order::{
    backward_schedule, backward_steps, is_backward_schedule, lemma_reaches_below, lemma_reaches_operand, scheduled, Step,
};
use crate::scalar::{tanh_of, Scalar};

verus! {

/// A handle to a node of a [`Graph`]: its position in the arena.
///
/// Identity of a node is its handle, never its label.
#[derive(Clone, Copy, Debug, PartialEq, Eq, Structural)]
pub struct Value {
    pub id: usize,
}

/// The operation that produced a node, with the handles of its operands.
#[derive(Debug)]
pub enum Op<T> {
    Leaf,
    Add(Value, Value),
    Mul(Value, Value),
    Tanh(Value),
    /// The exponent is a plain scalar, not a node: no gradient flows to it.
    Pow(Value, T),
}

impl<T> Op<T> {
    /// How many operands the operation reads.
    pub open spec fn arity(self) -> nat {
        match self {
            Op::Leaf => 0,
            Op::Add(_, _) => 2,
            Op::Mul(_, _) => 2,
            Op::Tanh(_) => 1,
            Op::Pow(_, _) => 1,
        }
    }

    /// The node index of operand `k` (`0` is the left operand or the base).
    pub open spec fn operand(self, k: int) -> int {
        match self {
            Op::Leaf => 0,
            Op::Add(a, b) => if k == 0 { a.id as int } else { b.id as int },
            Op::Mul(a, b) => if k == 0 { a.id as int } else { b.id as int },
            Op::Tanh(a) => a.id as int,
            Op::Pow(a, _) => a.id as int,
        }
    }

    /// Every operand is a node created before position `i`.
    pub open spec fn operands_below(self, i: int) -> bool {
        forall|k: int| 0 <= k < self.arity() ==> 0 <= #[trigger] self.operand(k) < i
    }
}

/// Node `to` is reachable from node `from` through operand edges (a node
/// reaches itself).
pub open spec fn reaches<T>(ops: Seq<Op<T>>, from: int, to: int) -> bool
    decreases from,
{
    if from == to {
        true
    } else if 0 <= from < ops.len() {
        let op = ops[from];
        (op.arity() > 0 && 0 <= op.operand(0) < from && reaches(ops, op.operand(0), to)) || (
        op.arity() > 1 && 0 <= op.operand(1) < from && reaches(ops, op.operand(1), to))
    } else {
        false
    }
}

/// The share of a gradient `up` of node `s.consumer` that its operand in
/// position `s.slot` receives, by the consumer's local rule: a sum passes
/// `up` on, a product scales it by the other factor, `x^k` by
/// `k * x^(k-1)`, and a `tanh` node of value `t` by `1 - t * t`.
pub open spec fn local_share<T: Scalar>(ops: Seq<Op<T>>, vals: Seq<T>, up: T, s: Step) -> T {
    let c = s.consumer.id as int;
    match ops[c] {
        Op::Leaf => T::spec_zero(),
        Op::Add(_, _) => up,
        Op::Mul(a, b) => if s.slot == 0 {
            vals[b.id as int].spec_mul(up)
        } else {
            vals[a.id as int].spec_mul(up)
        },
        Op::Tanh(_) => T::spec_one().spec_sub(vals[c].spec_mul(vals[c])).spec_mul(up),
        Op::Pow(a, k) => k.spec_mul(vals[a.id as int].spec_powf(k.spec_sub(T::spec_one()))).spec_mul(
            up,
        ),
    }
}

/// The gradients `grads` after the steps of `steps`, in order: each adds to
/// its operand's gradient the consumer's share, taken from the consumer's
/// gradient as it stands at that point.
pub open spec fn apply_steps<T: Scalar>(
    ops: Seq<Op<T>>,
    vals: Seq<T>,
    grads: Seq<T>,
    steps: Seq<Step>,
) -> Seq<T>
    decreases steps.len(),
{
    if steps.len() == 0 {
        grads
    } else {
        let before = apply_steps(ops, vals, grads, steps.drop_last());
        let s = steps.last();
        let o = s.operand.id as int;
        before.update(o, before[o].spec_add(local_share(ops, vals, before[s.consumer.id as int], s)))
    }
}

/// Gradient accumulation under sharing: for an output `c = a * a` over a
/// leaf `a`, every backward schedule from `c` brings `a` both shares, one per
/// use, so its gradient becomes `ga + a * gc + a * gc` (where `ga`, `gc` are
/// the gradients before the pass, `c`'s being the seed), not `ga + a * gc`.
pub proof fn lemma_square_gets_both_shares<T: Scalar>(
    g: &Graph<T>,
    c: Value,
    grads: Seq<T>,
    steps: Seq<Step>,
)
    requires
        g.wf(),
        g.has(c),
        g.ops()[c.id as int].arity() == 2,
        g.ops()[c.id as int] is Mul,
        g.ops()[c.id as int].operand(0) == g.ops()[c.id as int].operand(1),
        g.ops()[g.ops()[c.id as int].operand(0)] == Op::<T>::Leaf,
        grads.len() == g.size(),
        is_backward_schedule(g, c, steps),
    ensures
        ({
            let a = g.ops()[c.id as int].operand(0);
            let share = g.values()[a].spec_mul(grads[c.id as int]);
            apply_steps(g.ops(), g.values(), grads, steps)[a] == grads[a].spec_add(share).spec_add(
                share,
            )
        }),
{
    let ops = g.ops();
    let ci = c.id as int;
    let a = ops[ci].operand(0);
    assert(ops[ci].operands_below(ci));
    assert(0 <= a < ci);
    // Only `c` and `a` are reached, and only `c` has operands.
    assert forall|u: int| reaches(ops, ci, u) implies u == ci || u == a by {
        if u != ci {
            assert(reaches(ops, a, u));
            if u != a {
                assert(!reaches(ops, a, u));
            }
        }
    }
    assert forall|p: int| 0 <= p < steps.len() implies (#[trigger] steps[p]).consumer.id == ci
        && steps[p].slot < 2 && steps[p].operand.id == a by {
        assert(reaches(ops, ci, steps[p].consumer.id as int));
    }
    assert(reaches(ops, ci, ci));
    assert(scheduled(steps, ci, 0));
    assert(scheduled(steps, ci, 1));
    let p0 = choose|p: int| 0 <= p < steps.len() && #[trigger] steps[p].consumer.id == ci && steps[p].slot == 0;
    let p1 = choose|p: int| 0 <= p < steps.len() && #[trigger] steps[p].consumer.id == ci && steps[p].slot == 1;
    assert(steps.len() >= 2);
    if steps.len() > 2 {
        let (x, y, z) = (steps[0], steps[1], steps[2]);
        assert(x.consumer == y.consumer && y.consumer == z.consumer);
        assert(false);
    }
    assert(steps.len() == 2);
    let s0 = steps[0];
    let s1 = steps[1];
    assert(s0.consumer == s1.consumer);
    let vals = g.values();
    let up = grads[ci];
    let share = vals[a].spec_mul(up);
    assert(steps.drop_last().drop_last() =~= Seq::<Step>::empty());
    assert(steps.drop_last() =~= seq![s0]);
    assert(local_share(ops, vals, up, s0) == share);
    let g1 = apply_steps(ops, vals, grads, steps.drop_last());
    assert(apply_steps(ops, vals, grads, seq![s0].drop_last()) == grads);
    assert(g1 == grads.update(a, grads[a].spec_add(share)));
    assert(g1[ci] == up);
    assert(local_share(ops, vals, g1[ci], s1) == share);
}

/// Repeated passes agree: if a backward pass from `root` on `g0`, whose
/// reached gradients are zero, leaves `g1`, and `g2` is `g1` with the reached
/// gradients zeroed again, then a backward pass from `root` on `g2` ends with
/// exactly the gradients that the first pass left.
pub proof fn lemma_backward_repeatable<T: Scalar>(
    g0: &Graph<T>,
    g1: &Graph<T>,
    g2: &Graph<T>,
    root: Value,
)
    requires
        g0.wf(),
        g0.has(root),
        forall|u: int|
            0 <= u < g0.size() && reaches(g0.ops(), root.id as int, u) ==> #[trigger] g0.grads()[u]
                == T::spec_zero(),
        g1.same_but_grads(g0),
        forall|u: int|
            0 <= u < g0.size() && !reaches(g0.ops(), root.id as int, u) ==> #[trigger] g1.grads()[u]
                == g0.grads()[u],
        g1.grads() == apply_steps(
            g0.ops(),
            g0.values(),
            g0.grads().update(root.id as int, T::spec_one()),
            backward_schedule(g0.ops(), root),
        ),
        g2.same_but_grads(g1),
        forall|u: int|
            0 <= u < g0.size() && reaches(g0.ops(), root.id as int, u) ==> #[trigger] g2.grads()[u]
                == T::spec_zero(),
        forall|u: int|
            0 <= u < g0.size() && !reaches(g0.ops(), root.id as int, u) ==> #[trigger] g2.grads()[u]
                == g1.grads()[u],
    ensures
        apply_steps(
            g2.ops(),
            g2.values(),
            g2.grads().update(root.id as int, T::spec_one()),
            backward_schedule(g2.ops(), root),
        ) == g1.grads(),
{
    assert(g2.grads() =~= g0.grads()) by {
        assert forall|u: int| 0 <= u < g0.size() implies g2.grads()[u] == g0.grads()[u] by {
            if reaches(g0.ops(), root.id as int, u) {
                assert(g2.grads()[u] == T::spec_zero());
                assert(g0.grads()[u] == T::spec_zero());
            } else {
                assert(g2.grads()[u] == g1.grads()[u]);
                assert(g1.grads()[u] == g0.grads()[u]);
            }
        }
    }
}

/// An append-only arena of nodes: for each node its operation, its value,
/// its accumulated gradient and an optional label for diagnostics.
pub struct Graph<T> {
    ops: Vec<Op<T>>,
    vals: Vec<T>,
    grads: Vec<T>,
    labels: Vec<Option<String>>,
}

impl<T> Graph<T> {
    pub closed spec fn ops(&self) -> Seq<Op<T>> {
        self.ops@
    }

    pub closed spec fn values(&self) -> Seq<T> {
        self.vals@
    }

    pub closed spec fn grads(&self) -> Seq<T> {
        self.grads@
    }

    pub closed spec fn labels(&self) -> Seq<Option<String>> {
        self.labels@
    }

    /// The number of nodes.
    pub open spec fn size(&self) -> nat {
        self.ops().len()
    }

    /// `v` names a node of this graph.
    pub open spec fn has(&self, v: Value) -> bool {
        v.id < self.size()
    }

    /// One value, gradient and label per node, and every operand edge points
    /// to an earlier node, so the graph is acyclic.
    pub open spec fn wf(&self) -> bool {
        &&& self.values().len() == self.size()
        &&& self.grads().len() == self.size()
        &&& self.labels().len() == self.size()
        &&& forall|i: int| 0 <= i < self.size() ==> (#[trigger] self.ops()[i]).operands_below(i)
    }

    /// `self` is well formed and holds every node of `old` unchanged, in its
    /// place, possibly followed by new ones.
    pub open spec fn grows(&self, old: &Graph<T>) -> bool {
        &&& self.wf()
        &&& old.size() <= self.size()
        &&& forall|k: int| 0 <= k < old.size() ==> #[trigger] self.ops()[k] == old.ops()[k]
        &&& forall|k: int| 0 <= k < old.size() ==> #[trigger] self.values()[k] == old.values()[k]
        &&& forall|k: int| 0 <= k < old.size() ==> #[trigger] self.grads()[k] == old.grads()[k]
        &&& forall|k: int| 0 <= k < old.size() ==> #[trigger] self.labels()[k] == old.labels()[k]
    }

    /// `self` is `old` with one node appended, whose operation is `op`.
    pub open spec fn appended(&self, old: &Graph<T>, op: Op<T>) -> bool {
        &&& self.grows(old)
        &&& self.size() == old.size() + 1
        &&& self.ops()[old.size() as int] == op
    }

    /// `self` differs from `old` in gradients alone.
    pub open spec fn same_but_grads(&self, old: &Graph<T>) -> bool {
        &&& self.ops() == old.ops()
        &&& self.values() == old.values()
        &&& self.labels() == old.labels()
        &&& self.grads().len() == old.grads().len()
    }
}

impl<T: Scalar> Graph<T> {
    /// An empty graph.
    pub fn new() -> (g: Graph<T>)
        ensures
            g.wf(),
            g.size() == 0,
    {
        Graph { ops: Vec::new(), vals: Vec::new(), grads: Vec::new(), labels: Vec::new() }
    }

    /// The number of nodes.
    pub fn len(&self) -> (n: usize)
        requires
            self.wf(),
        ensures
            n == self.size(),
    {
        self.ops.len()
    }

    /// Drops every node after the first `n` and keeps those unchanged: the
    /// graph built for one round of training goes, while the parameters made
    /// before it stay.
    pub fn truncate(&mut self, n: usize)
        requires
            old(self).wf(),
            n <= old(self).size(),
        ensures
            final(self).wf(),
            final(self).size() == n,
            old(self).grows(final(self)),
    {
        self.ops.truncate(n);
        self.vals.truncate(n);
        self.grads.truncate(n);
        self.labels.truncate(n);
    }

    fn push_node(&mut self, op: Op<T>, val: T, label: Option<String>) -> (v: Value)
        requires
            old(self).wf(),
            op.operands_below(old(self).size() as int),
        ensures
            final(self).appended(old(self), op),
            final(self).values().last() == val,
            final(self).labels().last() == label,
            final(self).grads().last() == T::spec_zero(),
            v.id == old(self).size(),
    {
        let id = self.ops.len();
        self.ops.push(op);
        self.vals.push(val);
        self.grads.push(T::zero());
        self.labels.push(label);
        assert forall|i: int| 0 <= i < self.size() implies (#[trigger] self.ops()[i]).operands_below(
            i,
        ) by {
            if i < old(self).size() {
                assert(self.ops()[i] == old(self).ops()[i]);
            }
        }
        Value { id }
    }
}

impl Value {
    /// A new leaf node holding `val`, with no label.
    pub fn of<T: Scalar>(g: &mut Graph<T>, val: T) -> (r: Value)
        requires
            old(g).wf(),
        ensures
            final(g).appended(old(g), Op::Leaf),
            final(g).values().last() == val,
            final(g).labels().last() == None::<String>,
            r.id == old(g).size(),
            final(g).grads().last() == T::spec_zero(),
    {
        g.push_node(Op::Leaf, val, None)
    }

    /// A new leaf node holding `val`, labelled `label`.
    pub fn with_label<T: Scalar>(g: &mut Graph<T>, val: T, label: String) -> (r: Value)
        requires
            old(g).wf(),
        ensures
            final(g).appended(old(g), Op::Leaf),
            final(g).values().last() == val,
            final(g).labels().last() == Some(label),
            r.id == old(g).size(),
            final(g).grads().last() == T::spec_zero(),
    {
        g.push_node(Op::Leaf, val, Some(label))
    }

    /// A new node `tanh(self)`, computed as `(e^(2x) - 1) / (e^(2x) + 1)`.
    pub fn tanh<T: Scalar>(&self, g: &mut Graph<T>) -> (r: Value)
        requires
            old(g).wf(),
            old(g).has(*self),
        ensures
            final(g).appended(old(g), Op::Tanh(*self)),
            final(g).labels().last() == None::<String>,
            r.id == old(g).size(),
            final(g).grads().last() == T::spec_zero(),
            final(g).values().last() == tanh_of(old(g).values()[self.id as int]),
    {
        let x = &g.vals[self.id];
        let e2x = x.add(x).exp();
        let val = e2x.sub(&T::one()).div(&e2x.add(&T::one()));
        g.push_node(Op::Tanh(*self), val, None)
    }

    /// A new node `self * rhs`.
    pub fn mul<T: Scalar>(&self, g: &mut Graph<T>, rhs: &Value) -> (r: Value)
        requires
            old(g).wf(),
            old(g).has(*self),
            old(g).has(*rhs),
        ensures
            final(g).appended(old(g), Op::Mul(*self, *rhs)),
            final(g).labels().last() == None::<String>,
            r.id == old(g).size(),
            final(g).grads().last() == T::spec_zero(),
            final(g).values().last() == old(g).values()[self.id as int].spec_mul(
                old(g).values()[rhs.id as int],
            ),
    {
        let val = g.vals[self.id].mul(&g.vals[rhs.id]);
        g.push_node(Op::Mul(*self, *rhs), val, None)
    }

    /// A new node `self + rhs`.
    pub fn add<T: Scalar>(&self, g: &mut Graph<T>, rhs: &Value) -> (r: Value)
        requires
            old(g).wf(),
            old(g).has(*self),
            old(g).has(*rhs),
        ensures
            final(g).appended(old(g), Op::Add(*self, *rhs)),
            final(g).labels().last() == None::<String>,
            r.id == old(g).size(),
            final(g).grads().last() == T::spec_zero(),
            final(g).values().last() == old(g).values()[self.id as int].spec_add(
                old(g).values()[rhs.id as int],
            ),
    {
        let val = g.vals[self.id].add(&g.vals[rhs.id]);
        g.push_node(Op::Add(*self, *rhs), val, None)
    }

    /// A new node `self ^ k`; the exponent is a constant, not a node.
    pub fn pow<T: Scalar>(&self, g: &mut Graph<T>, k: T) -> (r: Value)
        requires
            old(g).wf(),
            old(g).has(*self),
        ensures
            final(g).appended(old(g), Op::Pow(*self, k)),
            final(g).labels().last() == None::<String>,
            r.id == old(g).size(),
            final(g).grads().last() == T::spec_zero(),
            final(g).values().last() == old(g).values()[self.id as int].spec_powf(k),
    {
        let val = g.vals[self.id].powf(&k);
        g.push_node(Op::Pow(*self, k), val, None)
    }

    /// `self - rhs`, built as `self + rhs * (-1)`: three new nodes, a leaf
    /// holding `-1`, their product, and the sum, which is returned.
    pub fn sub<T: Scalar>(&self, g: &mut Graph<T>, rhs: &Value) -> (r: Value)
        requires
            old(g).wf(),
            old(g).has(*self),
            old(g).has(*rhs),
        ensures
            final(g).grows(old(g)),
            final(g).size() == old(g).size() + 3,
            final(g).ops()[old(g).size() as int] == Op::<T>::Leaf,
            final(g).ops()[old(g).size() + 1int] == Op::<T>::Mul(
                *rhs,
                Value { id: old(g).size() as usize },
            ),
            final(g).ops()[old(g).size() + 2int] == Op::<T>::Add(
                *self,
                Value { id: (old(g).size() + 1) as usize },
            ),
            r.id == old(g).size() + 2,
            final(g).values()[old(g).size() as int] == T::spec_zero().spec_sub(T::spec_one()),
            final(g).values()[old(g).size() + 2int] == old(g).values()[self.id as int].spec_add(
                old(g).values()[rhs.id as int].spec_mul(T::spec_zero().spec_sub(T::spec_one())),
            ),
            forall|k: int|
                old(g).size() <= k < final(g).size() ==> #[trigger] final(g).grads()[k]
                    == T::spec_zero(),
    {
        let minus_one = T::zero().sub(&T::one());
        let m = Value::of(g, minus_one);
        let neg = rhs.mul(g, &m);
        self.add(g, &neg)
    }

    /// The node's current value.
    pub fn val<'a, T: Scalar>(&self, g: &'a Graph<T>) -> (r: &'a T)
        requires
            g.wf(),
            g.has(*self),
        ensures
            *r == g.values()[self.id as int],
    {
        &g.vals[self.id]
    }

    /// Adds `by` to the node's value: a gradient-descent step on a parameter.
    pub fn adjust_val<T: Scalar>(&self, g: &mut Graph<T>, by: &T)
        requires
            old(g).wf(),
            old(g).has(*self),
        ensures
            final(g).wf(),
            final(g).ops() == old(g).ops(),
            final(g).grads() == old(g).grads(),
            final(g).labels() == old(g).labels(),
            final(g).values().len() == old(g).values().len(),
            final(g).values()[self.id as int] == old(g).values()[self.id as int].spec_add(*by),
            forall|i: int| 0 <= i < old(g).size() && i != self.id ==> #[trigger] final(g).values()[i] == old(g).values()[i],
    {
        let v = g.vals[self.id].add(by);
        g.vals.set(self.id, v);
    }

    /// The gradient accumulated in the node.
    pub fn grad<'a, T: Scalar>(&self, g: &'a Graph<T>) -> (r: &'a T)
        requires
            g.wf(),
            g.has(*self),
        ensures
            *r == g.grads()[self.id as int],
    {
        &g.grads[self.id]
    }

    /// Resets the node's gradient to zero.
    pub fn zero_grad<T: Scalar>(&self, g: &mut Graph<T>)
        requires
            old(g).wf(),
            old(g).has(*self),
        ensures
            final(g).wf(),
            final(g).same_but_grads(old(g)),
            final(g).grads()[self.id as int] == T::spec_zero(),
            forall|i: int| 0 <= i < old(g).size() && i != self.id ==> #[trigger] final(g).grads()[i] == old(g).grads()[i],
    {
        g.grads.set(self.id, T::zero());
    }

    /// The node's label, if it was given one.
    pub fn label<'a, T: Scalar>(&self, g: &'a Graph<T>) -> (r: &'a Option<String>)
        requires
            g.wf(),
            g.has(*self),
        ensures
            *r == g.labels()[self.id as int],
    {
        &g.labels[self.id]
    }

    /// The node's operands, left one first; empty for a leaf.
    pub fn prev<T: Scalar>(&self, g: &Graph<T>) -> (r: Vec<Value>)
        requires
            g.wf(),
            g.has(*self),
        ensures
            r@.len() == g.ops()[self.id as int].arity(),
            forall|k: int|
                0 <= k < r@.len() ==> (#[trigger] r@[k]).id == g.ops()[self.id as int].operand(k),
    {
        match &g.ops[self.id] {
            Op::Leaf => Vec::new(),
            Op::Add(a, b) => vec![*a, *b],
            Op::Mul(a, b) => vec![*a, *b],
            Op::Tanh(a) => vec![*a],
            Op::Pow(a, _) => vec![*a],
        }
    }

    /// The share of `s.consumer`'s gradient owed to its operand in position
    /// `s.slot`, by the consumer's local rule: a sum passes the gradient on,
    /// a product scales it by the other factor, `x^k` by `k * x^(k-1)`, and a
    /// `tanh` node with value `t` by `1 - t * t`.
    fn local_backward<T: Scalar>(g: &Graph<T>, s: Step) -> (r: T)
        requires
            g.wf(),
            g.has(s.consumer),
            s.slot < g.ops()[s.consumer.id as int].arity(),
        ensures
            r == local_share(g.ops(), g.values(), g.grads()[s.consumer.id as int], s),
    {
        let c = s.consumer.id;
        let up = &g.grads[c];
        assert(g.ops()[c as int].operands_below(c as int));
        match &g.ops[c] {
            // A leaf has no operand, so no step starts from it.
            Op::Leaf => T::zero(),
            Op::Add(_, _) => *up,
            Op::Mul(a, b) => {
                assert(g.ops()[c as int].operand(0) == a.id);
                assert(g.ops()[c as int].operand(1) == b.id);
                if s.slot == 0 {
                    g.vals[b.id].mul(up)
                } else {
                    g.vals[a.id].mul(up)
                }
            },
            Op::Tanh(_) => {
                let t = &g.vals[c];
                T::one().sub(&t.mul(t)).mul(up)
            },
            Op::Pow(a, k) => {
                assert(g.ops()[c as int].operand(0) == a.id);
                k.mul(&g.vals[a.id].powf(&k.sub(&T::one()))).mul(up)
            },
        }
    }

    /// Reverse-mode differentiation with `self` as output: seeds the
    /// gradient of `self` with one, then walks the nodes it reaches from
    /// `self` towards the leaves, each adding its local contribution to the
    /// gradients of its operands, in the order of [`backward_steps`].
    ///
    /// So the gradient of `self` ends at one, and every other gradient is
    /// its old value plus the shares of [`local_share`] that the steps of
    /// [`backward_schedule`] bring it, in that order: the result depends on
    /// the graph and the old gradients alone, so zeroing the reached
    /// gradients and running again gives the same gradients. Gradients accumulate: a second pass without
    /// [`Value::zero_grad`] on the reached nodes adds to what the first one
    /// left. Nodes that `self` does not reach keep their gradients.
    pub fn backward<T: Scalar>(&self, g: &mut Graph<T>)
        requires
            old(g).wf(),
            old(g).has(*self),
        ensures
            final(g).wf(),
            final(g).same_but_grads(old(g)),
            final(g).grads()[self.id as int] == T::spec_one(),
            is_backward_schedule(old(g), *self, backward_schedule(old(g).ops(), *self)),
            final(g).grads() == apply_steps(
                old(g).ops(),
                old(g).values(),
                old(g).grads().update(self.id as int, T::spec_one()),
                backward_schedule(old(g).ops(), *self),
            ),
            forall|u: int|
                0 <= u < old(g).size() && !reaches(old(g).ops(), self.id as int, u)
                    ==> #[trigger] final(g).grads()[u] == old(g).grads()[u],
    {
        let ghost g0 = *g;
        let steps = backward_steps(g, *self);
        g.grads.set(self.id, T::one());
        let mut p: usize = 0;
        while p < steps.len()
            invariant
                g0.wf(),
                g.wf(),
                g.same_but_grads(&g0),
                g0.has(*self),
                is_backward_schedule(&g0, *self, steps@),
                p <= steps@.len(),
                g.grads()[self.id as int] == T::spec_one(),
                g.grads() == apply_steps(
                    g0.ops(),
                    g0.values(),
                    g0.grads().update(self.id as int, T::spec_one()),
                    steps@.subrange(0, p as int),
                ),
                forall|u: int|
                    0 <= u < g0.size() && !reaches(g0.ops(), self.id as int, u)
                        ==> #[trigger] g.grads()[u] == g0.grads()[u],
            decreases steps@.len() - p,
        {
            let s = steps[p];
            assert(g0.has(s.consumer));
            proof {
                lemma_reaches_operand(&g0, self.id as int, s.consumer.id as int, s.slot as int);
                lemma_reaches_below(&g0, self.id as int, s.consumer.id as int);
                assert(g0.ops()[s.consumer.id as int].operands_below(s.consumer.id as int));
                assert(steps@.subrange(0, p + 1).drop_last() =~= steps@.subrange(0, p as int));
                assert(steps@.subrange(0, p + 1).last() == s);
            }
            let amount = Value::local_backward(g, s);
            let sum = g.grads[s.operand.id].add(&amount);
            g.grads.set(s.operand.id, sum);
            p = p + 1;
        }
        assert(steps@.subrange(0, p as int) =~= steps@);
        assert(is_backward_schedule(&g0, *self, steps@));
    }
}

} // verus!
