use vstd::prelude::*;

use crate::scalar::{tanh_of, Scalar};
use crate::value::{Graph, Op, Value};

verus! {

/// A vector of nodes: the inputs or outputs of a layer.
pub type Tensor = Vec<Value>;

/// An input vector whose length is not the number of inputs of the unit it
/// was given to.
#[derive(Clone, Copy, Debug, PartialEq, Eq, Structural)]
pub struct ArityMismatch {
    pub expected: usize,
    pub found: usize,
}

/// Every handle of `s` names a node of `g`.
pub open spec fn all_in<T>(g: &Graph<T>, s: Seq<Value>) -> bool {
    forall|i: int| 0 <= i < s.len() ==> g.has(#[trigger] s[i])
}

/// Position of the product of input `i` and weight `i` in a neuron's nodes
/// that start at `s`.
pub open spec fn product_at(s: int, i: int) -> int {
    s + 1 + 2 * i
}

/// Position of the running sum after `i` terms (the zero leaf when `i` is 0).
pub open spec fn sum_at(s: int, i: int) -> int {
    if i == 0 {
        s
    } else {
        s + 2 * i
    }
}

/// The `2 * w.len() + 3` nodes of `g` from position `s` on are
/// `tanh(((0 + x[0] * w[0]) + ...) + b)`, built left to right: a zero leaf,
/// then a product and a running sum for each term, then the bias added, then
/// `tanh`, each holding the value of its operation on its operands.
pub open spec fn builds_unit<T: Scalar>(
    g: &Graph<T>,
    s: int,
    x: Seq<Value>,
    w: Seq<Value>,
    b: Value,
) -> bool {
    let n = w.len() as int;
    &&& x.len() == n
    &&& 0 <= s
    &&& s + 2 * n + 3 <= g.size()
    &&& g.ops()[s] == Op::<T>::Leaf
    &&& forall|i: int|
        0 <= i < n ==> #[trigger] g.ops()[product_at(s, i)] == Op::<T>::Mul(x[i], w[i])
    &&& forall|i: int|
        0 <= i < n ==> #[trigger] g.ops()[sum_at(s, i + 1)] == Op::<T>::Add(
            Value { id: sum_at(s, i) as usize },
            Value { id: product_at(s, i) as usize },
        )
    &&& g.ops()[s + 2 * n + 1] == Op::<T>::Add(Value { id: sum_at(s, n) as usize }, b)
    &&& g.ops()[s + 2 * n + 2] == Op::<T>::Tanh(Value { id: (s + 2 * n + 1) as usize })
    &&& g.values()[s] == T::spec_zero()
    &&& forall|i: int|
        0 <= i < n ==> #[trigger] g.values()[product_at(s, i)] == g.values()[x[i].id as int].spec_mul(
            g.values()[w[i].id as int],
        )
    &&& forall|i: int|
        0 <= i < n ==> #[trigger] g.values()[sum_at(s, i + 1)] == g.values()[sum_at(
            s,
            i,
        )].spec_add(g.values()[product_at(s, i)])
    &&& g.values()[s + 2 * n + 1] == g.values()[sum_at(s, n)].spec_add(g.values()[b.id as int])
    &&& g.values()[s + 2 * n + 2] == tanh_of(g.values()[s + 2 * n + 1])
}

/// One unit: `tanh` of a weighted sum of its inputs plus a bias.
#[derive(Debug)]
pub struct Neuron {
    w: Vec<Value>,
    b: Value,
}

impl Neuron {
    pub closed spec fn weights(&self) -> Seq<Value> {
        self.w@
    }

    pub closed spec fn bias(&self) -> Value {
        self.b
    }

    /// The weights, then the bias.
    pub open spec fn params(&self) -> Seq<Value> {
        self.weights().push(self.bias())
    }

    /// A unit with `w.len()` inputs whose weights and bias are new leaves of
    /// `g` holding `w` and `b`, created in that order.
    pub fn new<T: Scalar>(g: &mut Graph<T>, w: Vec<T>, b: T) -> (n: Neuron)
        requires
            old(g).wf(),
        ensures
            final(g).grows(old(g)),
            final(g).size() == old(g).size() + w@.len() + 1,
            forall|k: int|
                old(g).size() <= k < final(g).size() ==> #[trigger] final(g).ops()[k]
                    == Op::<T>::Leaf,
            forall|k: int|
                old(g).size() <= k < final(g).size() ==> #[trigger] final(g).grads()[k]
                    == T::spec_zero(),
            forall|k: int|
                0 <= k < w@.len() ==> #[trigger] final(g).values()[old(g).size() + k] == w@[k],
            final(g).values()[old(g).size() + w@.len() as int] == b,
            n.params().len() == w@.len() + 1,
            forall|k: int| 0 <= k < n.params().len() ==> (#[trigger] n.params()[k]).id == old(g).size() + k,
    {
        let ghost init = w@;
        let mut w = w;
        let mut handles: Vec<Value> = Vec::new();
        while w.len() > 0
            invariant
                g.grows(old(g)),
                handles@.len() + w@.len() == init.len(),
                w@ == init.subrange(handles@.len() as int, init.len() as int),
                g.size() == old(g).size() + handles@.len(),
                forall|k: int|
                    old(g).size() <= k < g.size() ==> #[trigger] g.ops()[k] == Op::<T>::Leaf,
                forall|k: int|
                    old(g).size() <= k < g.size() ==> #[trigger] g.grads()[k] == T::spec_zero(),
                forall|k: int|
                    0 <= k < handles@.len() ==> #[trigger] g.values()[old(g).size() + k] == init[k],
                forall|k: int| 0 <= k < handles@.len() ==> (#[trigger] handles@[k]).id == old(g).size() + k,
            decreases w@.len(),
        {
            let ghost taken = handles@.len() as int;
            let v = w.remove(0);
            assert(v == init[taken]);
            let h = Value::of(g, v);
            handles.push(h);
            assert(w@ =~= init.subrange(handles@.len() as int, init.len() as int));
        }
        let bias = Value::of(g, b);
        let n = Neuron { w: handles, b: bias };
        assert forall|k: int| 0 <= k < n.params().len() implies (#[trigger] n.params()[k]).id
            == old(g).size() + k by {
            if k < handles@.len() {
                assert(n.params()[k] == handles@[k]);
            }
        }
        n
    }

    /// The number of inputs.
    pub fn nin(&self) -> (r: usize)
        ensures
            r == self.weights().len(),
    {
        self.w.len()
    }

    /// Builds `tanh(x[0] * w[0] + ... + x[n-1] * w[n-1] + b)` in `g`, summing
    /// from a zero leaf, left to right. An input of another length than the
    /// unit's is refused, and `g` is left as it was.
    pub fn forward<T: Scalar>(&self, g: &mut Graph<T>, x: &Tensor) -> (r: Result<Value, ArityMismatch>)
        requires
            old(g).wf(),
            all_in(old(g), self.params()),
            all_in(old(g), x@),
        ensures
            r is Err <==> x@.len() != self.weights().len(),
            r is Err ==> *final(g) == *old(g) && r == Err::<Value, ArityMismatch>(
                ArityMismatch { expected: self.weights().len() as usize, found: x@.len() as usize },
            ),
            r is Ok ==> final(g).grows(old(g)) && final(g).size() == old(g).size() + 2
                * self.weights().len() + 3 && builds_unit(
                final(g),
                old(g).size() as int,
                x@,
                self.weights(),
                self.bias(),
            ) && r->Ok_0.id == final(g).size() - 1,
    {
        if x.len() != self.w.len() {
            return Err(ArityMismatch { expected: self.w.len(), found: x.len() });
        }
        let ghost s = old(g).size() as int;
        let n = self.w.len();
        assert(g.has(self.params()[n as int]));
        assert forall|i: int| 0 <= i < n implies g.has(#[trigger] self.weights()[i]) by {
            assert(g.has(self.params()[i]));
        }
        let mut acc = Value::of(g, T::zero());
        let mut i: usize = 0;
        while i < n
            invariant
                n == self.weights().len(),
                n == x@.len(),
                0 <= i <= n,
                g.grows(old(g)),
                s == old(g).size(),
                all_in(old(g), x@),
                forall|j: int| 0 <= j < n ==> old(g).has(#[trigger] self.weights()[j]),
                g.size() == s + 2 * i + 1,
                acc.id == sum_at(s, i as int),
                g.ops()[s] == Op::<T>::Leaf,
                g.values()[s] == T::spec_zero(),
                forall|j: int|
                    0 <= j < i ==> #[trigger] g.values()[product_at(s, j)] == old(g).values()[x@[
                        j].id as int].spec_mul(old(g).values()[self.weights()[j].id as int]),
                forall|j: int|
                    0 <= j < i ==> #[trigger] g.values()[sum_at(s, j + 1)] == g.values()[sum_at(
                        s,
                        j,
                    )].spec_add(g.values()[product_at(s, j)]),
                forall|j: int|
                    0 <= j < i ==> #[trigger] g.ops()[product_at(s, j)] == Op::<T>::Mul(
                        x@[j],
                        self.weights()[j],
                    ),
                forall|j: int|
                    0 <= j < i ==> #[trigger] g.ops()[sum_at(s, j + 1)] == Op::<T>::Add(
                        Value { id: sum_at(s, j) as usize },
                        Value { id: product_at(s, j) as usize },
                    ),
            decreases n - i,
        {
            let ghost before = *g;
            assert(g.has(x@[i as int]));
            let m = x[i].mul(g, &self.w[i]);
            let ghost mid = *g;
            acc = acc.add(g, &m);
            assert forall|j: int| 0 <= j <= i implies #[trigger] g.ops()[product_at(s, j)]
                == Op::<T>::Mul(x@[j], self.weights()[j]) by {
                if j < i {
                    assert(before.ops()[product_at(s, j)] == Op::<T>::Mul(x@[j], self.weights()[j]));
                    assert(mid.ops()[product_at(s, j)] == before.ops()[product_at(s, j)]);
                }
            }
            assert forall|j: int| 0 <= j <= i implies #[trigger] g.ops()[sum_at(s, j + 1)]
                == Op::<T>::Add(
                Value { id: sum_at(s, j) as usize },
                Value { id: product_at(s, j) as usize },
            ) by {
                if j < i {
                    assert(mid.ops()[sum_at(s, j + 1)] == before.ops()[sum_at(s, j + 1)]);
                }
            }
            assert(g.ops()[s] == mid.ops()[s]);
            assert(g.values()[s] == mid.values()[s] && mid.values()[s] == before.values()[s]);
            assert forall|j: int| 0 <= j <= i implies #[trigger] g.values()[product_at(s, j)]
                == old(g).values()[x@[j].id as int].spec_mul(
                old(g).values()[self.weights()[j].id as int],
            ) by {
                assert(g.values()[product_at(s, j)] == mid.values()[product_at(s, j)]);
                if j < i {
                    assert(mid.values()[product_at(s, j)] == before.values()[product_at(s, j)]);
                } else {
                    assert(before.values()[x@[j].id as int] == old(g).values()[x@[j].id as int]);
                    assert(before.values()[self.weights()[j].id as int] == old(g).values()[self.weights()[
                        j].id as int]);
                }
            }
            assert forall|j: int| 0 <= j <= i implies #[trigger] g.values()[sum_at(s, j + 1)]
                == g.values()[sum_at(s, j)].spec_add(g.values()[product_at(s, j)]) by {
                assert(g.values()[sum_at(s, j)] == mid.values()[sum_at(s, j)]);
                assert(g.values()[product_at(s, j)] == mid.values()[product_at(s, j)]);
                if j < i {
                    assert(g.values()[sum_at(s, j + 1)] == mid.values()[sum_at(s, j + 1)]);
                    assert(mid.values()[sum_at(s, j + 1)] == before.values()[sum_at(s, j + 1)]);
                    assert(mid.values()[sum_at(s, j)] == before.values()[sum_at(s, j)]);
                    assert(mid.values()[product_at(s, j)] == before.values()[product_at(s, j)]);
                }
            }
            i = i + 1;
        }
        let ghost before = *g;
        assert(g.has(self.bias()));
        let biased = acc.add(g, &self.b);
        let ghost mid = *g;
        let out = biased.tanh(g);
        assert(g.values()[s] == before.values()[s]);
        assert(g.values()[biased.id as int] == mid.values()[biased.id as int]);
        assert(g.values()[acc.id as int] == before.values()[acc.id as int]);
        assert(g.values()[self.bias().id as int] == before.values()[self.bias().id as int]);
        assert forall|j: int| 0 <= j < n implies #[trigger] g.values()[product_at(s, j)]
            == g.values()[x@[j].id as int].spec_mul(g.values()[self.weights()[j].id as int]) by {
            assert(g.values()[product_at(s, j)] == before.values()[product_at(s, j)]);
            assert(g.values()[x@[j].id as int] == old(g).values()[x@[j].id as int]);
            assert(g.values()[self.weights()[j].id as int] == old(g).values()[self.weights()[
                j].id as int]);
        }
        assert forall|j: int| 0 <= j < n implies #[trigger] g.values()[sum_at(s, j + 1)]
            == g.values()[sum_at(s, j)].spec_add(g.values()[product_at(s, j)]) by {
            assert(g.values()[sum_at(s, j + 1)] == before.values()[sum_at(s, j + 1)]);
            assert(g.values()[sum_at(s, j)] == before.values()[sum_at(s, j)]);
            assert(g.values()[product_at(s, j)] == before.values()[product_at(s, j)]);
        }
        assert forall|j: int| 0 <= j < n implies #[trigger] g.ops()[product_at(s, j)]
            == Op::<T>::Mul(x@[j], self.weights()[j]) by {
            assert(before.ops()[product_at(s, j)] == Op::<T>::Mul(x@[j], self.weights()[j]));
        }
        assert forall|j: int| 0 <= j < n implies #[trigger] g.ops()[sum_at(s, j + 1)]
            == Op::<T>::Add(
            Value { id: sum_at(s, j) as usize },
            Value { id: product_at(s, j) as usize },
        ) by {
            assert(before.ops()[sum_at(s, j + 1)] == Op::<T>::Add(
                Value { id: sum_at(s, j) as usize },
                Value { id: product_at(s, j) as usize },
            ));
        }
        Ok(out)
    }

    /// The weights, then the bias.
    pub fn parameters(&self) -> (r: Vec<Value>)
        ensures
            r@ == self.params(),
    {
        let mut r = self.w.clone();
        r.push(self.b);
        r
    }
}

/// A unit that a graph holds stays in place as the graph grows.
pub proof fn lemma_unit_kept<T: Scalar>(
    g: &Graph<T>,
    h: &Graph<T>,
    s: int,
    x: Seq<Value>,
    w: Seq<Value>,
    b: Value,
)
    requires
        g.wf(),
        builds_unit(g, s, x, w, b),
        h.grows(g),
    ensures
        builds_unit(h, s, x, w, b),
{
    let n = w.len() as int;
    assert(h.ops()[s] == g.ops()[s]);
    assert(h.ops()[s + 2 * n + 1] == g.ops()[s + 2 * n + 1]);
    assert(h.ops()[s + 2 * n + 2] == g.ops()[s + 2 * n + 2]);
    assert(h.values()[s] == g.values()[s]);
    assert(h.values()[s + 2 * n + 1] == g.values()[s + 2 * n + 1]);
    assert(h.values()[s + 2 * n + 2] == g.values()[s + 2 * n + 2]);
    assert(h.values()[sum_at(s, n)] == g.values()[sum_at(s, n)]);
    assert(g.ops()[s + 2 * n + 1].operands_below(s + 2 * n + 1));
    assert(g.ops()[s + 2 * n + 1].operand(1) == b.id);
    assert(h.values()[b.id as int] == g.values()[b.id as int]);
    assert forall|i: int| 0 <= i < n implies #[trigger] h.values()[product_at(s, i)] == h.values()[x[
        i].id as int].spec_mul(h.values()[w[i].id as int]) by {
        assert(g.values()[product_at(s, i)] == g.values()[x[i].id as int].spec_mul(
            g.values()[w[i].id as int],
        ));
        assert(g.ops()[product_at(s, i)].operands_below(product_at(s, i)));
        assert(g.ops()[product_at(s, i)].operand(0) == x[i].id);
        assert(g.ops()[product_at(s, i)].operand(1) == w[i].id);
        assert(h.values()[x[i].id as int] == g.values()[x[i].id as int]);
        assert(h.values()[w[i].id as int] == g.values()[w[i].id as int]);
    }
    assert forall|i: int| 0 <= i < n implies #[trigger] h.values()[sum_at(s, i + 1)] == h.values()[sum_at(
        s,
        i,
    )].spec_add(h.values()[product_at(s, i)]) by {
        assert(g.values()[sum_at(s, i + 1)] == g.values()[sum_at(s, i)].spec_add(
            g.values()[product_at(s, i)],
        ));
        assert(h.values()[sum_at(s, i)] == g.values()[sum_at(s, i)]);
        assert(h.values()[product_at(s, i)] == g.values()[product_at(s, i)]);
    }
    assert forall|i: int| 0 <= i < n implies #[trigger] h.ops()[product_at(s, i)] == Op::<T>::Mul(
        x[i],
        w[i],
    ) by {
        assert(g.ops()[product_at(s, i)] == Op::<T>::Mul(x[i], w[i]));
    }
    assert forall|i: int| 0 <= i < n implies #[trigger] h.ops()[sum_at(s, i + 1)] == Op::<T>::Add(
        Value { id: sum_at(s, i) as usize },
        Value { id: product_at(s, i) as usize },
    ) by {
        assert(g.ops()[sum_at(s, i + 1)] == Op::<T>::Add(
            Value { id: sum_at(s, i) as usize },
            Value { id: product_at(s, i) as usize },
        ));
    }
}

/// The parameters of `units`, unit after unit.
pub open spec fn params_of(units: Seq<Neuron>) -> Seq<Value>
    decreases units.len(),
{
    if units.len() == 0 {
        Seq::empty()
    } else {
        params_of(units.drop_last()) + units.last().params()
    }
}

/// The initial values of `rows`, row after row, each its weights and then
/// its bias.
pub open spec fn init_values<T>(rows: Seq<(Vec<T>, T)>) -> Seq<T>
    decreases rows.len(),
{
    if rows.len() == 0 {
        Seq::empty()
    } else {
        init_values(rows.drop_last()) + rows.last().0@.push(rows.last().1)
    }
}

/// A layer of units that all read the same inputs.
#[derive(Debug)]
pub struct Layer {
    nin: usize,
    neurons: Vec<Neuron>,
}

impl Layer {
    pub closed spec fn inputs(&self) -> nat {
        self.nin as nat
    }

    pub closed spec fn units(&self) -> Seq<Neuron> {
        self.neurons@
    }

    /// Every unit reads exactly `inputs()` values.
    pub open spec fn wf(&self) -> bool {
        forall|i: int| 0 <= i < self.units().len() ==> (#[trigger] self.units()[i]).weights().len() == self.inputs()
    }

    /// Every parameter of every unit is a node of `g`.
    pub open spec fn in_graph<T>(&self, g: &Graph<T>) -> bool {
        forall|i: int| 0 <= i < self.units().len() ==> all_in(g, #[trigger] self.units()[i].params())
    }

    /// A layer of `init.len()` units with `nin` inputs each; unit `i` gets
    /// new leaves holding the weights `init[i].0` and the bias `init[i].1`.
    pub fn new<T: Scalar>(g: &mut Graph<T>, nin: usize, init: Vec<(Vec<T>, T)>) -> (l: Layer)
        requires
            old(g).wf(),
            forall|i: int| 0 <= i < init@.len() ==> (#[trigger] init@[i]).0@.len() == nin,
        ensures
            final(g).grows(old(g)),
            forall|k: int|
                old(g).size() <= k < final(g).size() ==> #[trigger] final(g).ops()[k]
                    == Op::<T>::Leaf,
            forall|k: int|
                old(g).size() <= k < final(g).size() ==> #[trigger] final(g).grads()[k]
                    == T::spec_zero(),
            l.wf(),
            l.inputs() == nin,
            l.units().len() == init@.len(),
            l.in_graph(final(g)),
            final(g).size() == old(g).size() + params_of(l.units()).len(),
            params_of(l.units()).len() == init_values(init@).len(),
            forall|k: int|
                0 <= k < params_of(l.units()).len() ==> (#[trigger] params_of(l.units())[k]).id
                    == old(g).size() + k,
            forall|k: int|
                0 <= k < init_values(init@).len() ==> #[trigger] final(g).values()[old(g).size() + k]
                    == init_values(init@)[k],
    {
        let ghost n0 = init@.len();
        let ghost orig = init@;
        let mut init = init;
        let mut neurons: Vec<Neuron> = Vec::new();
        while init.len() > 0
            invariant
                g.grows(old(g)),
                forall|k: int|
                    old(g).size() <= k < g.size() ==> #[trigger] g.ops()[k] == Op::<T>::Leaf,
                forall|k: int|
                    old(g).size() <= k < g.size() ==> #[trigger] g.grads()[k] == T::spec_zero(),
                forall|i: int| 0 <= i < init@.len() ==> (#[trigger] init@[i]).0@.len() == nin,
                neurons@.len() + init@.len() == n0,
                forall|i: int|
                    0 <= i < neurons@.len() ==> (#[trigger] neurons@[i]).weights().len() == nin,
                forall|i: int| 0 <= i < neurons@.len() ==> all_in(g, #[trigger] neurons@[i].params()),
                n0 == orig.len(),
                init@ == orig.subrange(neurons@.len() as int, n0 as int),
                g.size() == old(g).size() + params_of(neurons@).len(),
                params_of(neurons@).len() == init_values(orig.subrange(0, neurons@.len() as int)).len(),
                forall|k: int|
                    0 <= k < params_of(neurons@).len() ==> (#[trigger] params_of(neurons@)[k]).id
                        == old(g).size() + k,
                forall|k: int|
                    0 <= k < params_of(neurons@).len() ==> #[trigger] g.values()[old(g).size() + k]
                        == init_values(orig.subrange(0, neurons@.len() as int))[k],
            decreases init@.len(),
        {
            let ghost before = *g;
            let ghost i = neurons@.len() as int;
            let ghost old_neurons = neurons@;
            let ghost old_params = params_of(neurons@);
            let ghost old_vals = init_values(orig.subrange(0, i));
            let (w, b) = init.remove(0);
            assert((w, b) == orig[i]);
            let ghost row = w@.push(b);
            let n = Neuron::new(g, w, b);
            assert forall|i: int| 0 <= i < n.params().len() implies g.has(#[trigger] n.params()[i]) by {
                assert(n.params()[i].id == before.size() + i);
            }
            assert forall|i: int| 0 <= i < neurons@.len() implies all_in(g, #[trigger] neurons@[i].params()) by {
                assert forall|j: int| 0 <= j < neurons@[i].params().len() implies g.has(#[trigger] neurons@[i].params()[j]) by {
                    assert(before.has(neurons@[i].params()[j]));
                }
            }
            neurons.push(n);
            proof {
                assert(neurons@.drop_last() =~= old_neurons);
                assert(neurons@.last() == n);
                assert(params_of(neurons@) == old_params + n.params());
                assert(orig.subrange(0, i + 1).drop_last() =~= orig.subrange(0, i));
                assert(orig.subrange(0, i + 1).last() == orig[i]);
                assert(init_values(orig.subrange(0, i + 1)) == old_vals + row);
                assert(init@ =~= orig.subrange(neurons@.len() as int, n0 as int));
                assert forall|k: int| 0 <= k < params_of(neurons@).len() implies (#[trigger] params_of(
                    neurons@,
                )[k]).id == old(g).size() + k by {
                    if k >= old_params.len() {
                        assert(params_of(neurons@)[k] == n.params()[k - old_params.len()]);
                    } else {
                        assert(params_of(neurons@)[k] == old_params[k]);
                    }
                }
                assert forall|k: int| 0 <= k < params_of(neurons@).len() implies #[trigger] g.values()[old(
                    g,
                ).size() + k] == init_values(orig.subrange(0, neurons@.len() as int))[k] by {
                    if k >= old_params.len() {
                        let k2 = k - old_params.len();
                        if k2 < row.len() - 1 {
                            assert(g.values()[before.size() + k2] == row[k2]);
                        }
                    } else {
                        assert(before.values()[old(g).size() + k] == old_vals[k]);
                    }
                }
            }
        }
        assert(orig.subrange(0, neurons@.len() as int) =~= orig);
        Layer { nin, neurons }
    }

    /// Builds one unit output per unit, in order. An input of another length
    /// than the layer's is refused, and `g` is left as it was.
    pub fn forward<T: Scalar>(&self, g: &mut Graph<T>, x: &Tensor) -> (r: Result<Tensor, ArityMismatch>)
        requires
            old(g).wf(),
            self.wf(),
            self.in_graph(old(g)),
            all_in(old(g), x@),
        ensures
            r is Err <==> x@.len() != self.inputs(),
            r is Err ==> *final(g) == *old(g) && r == Err::<Tensor, ArityMismatch>(
                ArityMismatch { expected: self.inputs() as usize, found: x@.len() as usize },
            ),
            r is Ok ==> final(g).grows(old(g)) && applies_layer(final(g), *self, x@, r->Ok_0@),
    {
        if x.len() != self.nin {
            return Err(ArityMismatch { expected: self.nin, found: x.len() });
        }
        let mut out: Vec<Value> = Vec::new();
        let mut i: usize = 0;
        while i < self.neurons.len()
            invariant
                self.wf(),
                self.in_graph(old(g)),
                all_in(old(g), x@),
                x@.len() == self.inputs(),
                g.grows(old(g)),
                out@.len() == i,
                i <= self.units().len(),
                all_in(g, out@),
                forall|j: int|
                    0 <= j < i ==> builds_unit(
                        g,
                        (#[trigger] out@[j]).id - 2 * self.inputs() - 2,
                        x@,
                        self.units()[j].weights(),
                        self.units()[j].bias(),
                    ),
            decreases self.units().len() - i,
        {
            let ghost before = *g;
            let unit = &self.neurons[i];
            assert(all_in(old(g), self.units()[i as int].params()));
            assert forall|j: int| 0 <= j < unit.params().len() implies g.has(#[trigger] unit.params()[j]) by {
                assert(old(g).has(unit.params()[j]));
            }
            assert forall|j: int| 0 <= j < x@.len() implies g.has(#[trigger] x@[j]) by {
                assert(old(g).has(x@[j]));
            }
            let y = match unit.forward(g, x) {
                Ok(y) => y,
                Err(e) => return Err(e),
            };
            proof {
                assert forall|j: int| 0 <= j < i implies builds_unit(
                    g,
                    (#[trigger] out@[j]).id - 2 * self.inputs() - 2,
                    x@,
                    self.units()[j].weights(),
                    self.units()[j].bias(),
                ) by {
                    lemma_unit_kept(
                        &before,
                        g,
                        out@[j].id - 2 * self.inputs() - 2,
                        x@,
                        self.units()[j].weights(),
                        self.units()[j].bias(),
                    );
                }
            }
            out.push(y);
            i = i + 1;
        }
        Ok(out)
    }

    /// The parameters of every unit, unit after unit.
    pub fn parameters(&self) -> (r: Vec<Value>)
        ensures
            r@ == params_of(self.units()),
    {
        let mut r: Vec<Value> = Vec::new();
        let mut i: usize = 0;
        while i < self.neurons.len()
            invariant
                i <= self.units().len(),
                r@ == params_of(self.units().subrange(0, i as int)),
            decreases self.units().len() - i,
        {
            let mut p = self.neurons[i].parameters();
            r.append(&mut p);
            assert(self.units().subrange(0, i + 1).drop_last() =~= self.units().subrange(0, i as int));
            i = i + 1;
        }
        assert(self.units().subrange(0, i as int) =~= self.units());
        r
    }
}

/// The parameters of `layers`, layer after layer.
pub open spec fn layer_params(layers: Seq<Layer>) -> Seq<Value>
    decreases layers.len(),
{
    if layers.len() == 0 {
        Seq::empty()
    } else {
        layer_params(layers.drop_last()) + params_of(layers.last().units())
    }
}

/// The initial values of a whole network, layer after layer.
pub open spec fn network_init_values<T>(layers: Seq<Vec<(Vec<T>, T)>>) -> Seq<T>
    decreases layers.len(),
{
    if layers.len() == 0 {
        Seq::empty()
    } else {
        network_init_values(layers.drop_last()) + init_values(layers.last()@)
    }
}

/// `out` is what `layer` yields on `x` in `g`: one output per unit, each
/// the last node of that unit built over `x`.
pub open spec fn applies_layer<T: Scalar>(g: &Graph<T>, layer: Layer, x: Seq<Value>, out: Seq<Value>) -> bool {
    &&& all_in(g, out)
    &&& out.len() == layer.units().len()
    &&& forall|i: int|
        0 <= i < out.len() ==> builds_unit(
            g,
            (#[trigger] out[i]).id - 2 * layer.inputs() - 2,
            x,
            layer.units()[i].weights(),
            layer.units()[i].bias(),
        )
}

/// A layer's outputs stay what they are as the graph grows.
pub proof fn lemma_layer_kept<T: Scalar>(g: &Graph<T>, h: &Graph<T>, layer: Layer, x: Seq<Value>, out: Seq<Value>)
    requires
        g.wf(),
        applies_layer(g, layer, x, out),
        h.grows(g),
    ensures
        applies_layer(h, layer, x, out),
{
    assert forall|i: int| 0 <= i < out.len() implies builds_unit(
        h,
        (#[trigger] out[i]).id - 2 * layer.inputs() - 2,
        x,
        layer.units()[i].weights(),
        layer.units()[i].bias(),
    ) by {
        lemma_unit_kept(
            g,
            h,
            out[i].id - 2 * layer.inputs() - 2,
            x,
            layer.units()[i].weights(),
            layer.units()[i].bias(),
        );
    }
    assert forall|i: int| 0 <= i < out.len() implies h.has(#[trigger] out[i]) by {
        assert(g.has(out[i]));
    }
}

/// A stack of layers, each reading the outputs of the one before.
#[derive(Debug)]
pub struct MLP {
    nin: usize,
    layers: Vec<Layer>,
}

impl MLP {
    pub closed spec fn inputs(&self) -> nat {
        self.nin as nat
    }

    pub closed spec fn stack(&self) -> Seq<Layer> {
        self.layers@
    }

    /// The number of inputs that layer `l` reads: the network's inputs for
    /// the first layer, else the width of the layer before.
    pub open spec fn inputs_of(&self, l: int) -> nat {
        if l == 0 {
            self.inputs()
        } else {
            self.stack()[l - 1].units().len()
        }
    }

    /// The number of outputs.
    pub open spec fn outputs(&self) -> nat {
        if self.stack().len() == 0 {
            self.inputs()
        } else {
            self.stack().last().units().len()
        }
    }

    /// The layers are well formed and chained: each reads as many values as
    /// the one before yields.
    pub open spec fn wf(&self) -> bool {
        forall|l: int|
            0 <= l < self.stack().len() ==> (#[trigger] self.stack()[l]).wf()
                && self.stack()[l].inputs() == self.inputs_of(l)
    }

    /// Every parameter of every layer is a node of `g`.
    pub open spec fn in_graph<T>(&self, g: &Graph<T>) -> bool {
        forall|l: int| 0 <= l < self.stack().len() ==> (#[trigger] self.stack()[l]).in_graph(g)
    }

    /// The (inputs, outputs) shape of each layer of a network with `nin`
    /// inputs and layers of widths `first`, then `rest`.
    pub fn layer_shapes(nin: usize, first: usize, rest: &Vec<usize>) -> (r: Vec<(usize, usize)>)
        ensures
            r@.len() == rest@.len() + 1,
            r@[0] == (nin, first),
            forall|l: int| 1 <= l < r@.len() ==> #[trigger] r@[l] == (r@[l - 1].1, rest@[l - 1]),
    {
        let mut r: Vec<(usize, usize)> = Vec::new();
        r.push((nin, first));
        let mut width = first;
        let mut i: usize = 0;
        while i < rest.len()
            invariant
                i <= rest@.len(),
                r@.len() == i + 1,
                r@[0] == (nin, first),
                width == r@.last().1,
                forall|l: int| 1 <= l < r@.len() ==> #[trigger] r@[l] == (r@[l - 1].1, rest@[l - 1]),
            decreases rest@.len() - i,
        {
            r.push((width, rest[i]));
            width = rest[i];
            i = i + 1;
        }
        r
    }

    /// A network with `nin` inputs and one layer for each entry of `init`:
    /// layer `l` has a unit for each `(weights, bias)` of `init[l]`, whose
    /// weights must number as many as the inputs of that layer.
    pub fn new<T: Scalar>(g: &mut Graph<T>, nin: usize, init: Vec<Vec<(Vec<T>, T)>>) -> (m: MLP)
        requires
            old(g).wf(),
            forall|l: int, i: int|
                0 <= l < init@.len() && 0 <= i < init@[l]@.len() ==> (#[trigger] init@[l]@[i]).0@.len()
                    == if l == 0 {
                    nin as nat
                } else {
                    init@[l - 1]@.len()
                },
        ensures
            final(g).grows(old(g)),
            forall|k: int|
                old(g).size() <= k < final(g).size() ==> #[trigger] final(g).ops()[k]
                    == Op::<T>::Leaf,
            forall|k: int|
                old(g).size() <= k < final(g).size() ==> #[trigger] final(g).grads()[k]
                    == T::spec_zero(),
            m.wf(),
            m.inputs() == nin,
            m.stack().len() == init@.len(),
            forall|l: int|
                0 <= l < init@.len() ==> (#[trigger] m.stack()[l]).units().len() == init@[l]@.len(),
            m.in_graph(final(g)),
            final(g).size() == old(g).size() + layer_params(m.stack()).len(),
            layer_params(m.stack()).len() == network_init_values(init@).len(),
            forall|k: int|
                0 <= k < layer_params(m.stack()).len() ==> (#[trigger] layer_params(m.stack())[k]).id
                    == old(g).size() + k,
            forall|k: int|
                0 <= k < network_init_values(init@).len() ==> #[trigger] final(g).values()[old(g).size()
                    + k] == network_init_values(init@)[k],
    {
        let ghost orig = init@;
        let mut init = init;
        let mut layers: Vec<Layer> = Vec::new();
        let mut width = nin;
        while init.len() > 0
            invariant
                g.grows(old(g)),
                forall|k: int|
                    old(g).size() <= k < g.size() ==> #[trigger] g.ops()[k] == Op::<T>::Leaf,
                forall|k: int|
                    old(g).size() <= k < g.size() ==> #[trigger] g.grads()[k] == T::spec_zero(),
                layers@.len() + init@.len() == orig.len(),
                init@ == orig.subrange(layers@.len() as int, orig.len() as int),
                forall|l: int, i: int|
                    0 <= l < orig.len() && 0 <= i < orig[l]@.len() ==> (#[trigger] orig[l]@[i]).0@.len()
                        == if l == 0 {
                        nin as nat
                    } else {
                        orig[l - 1]@.len()
                    },
                width == if layers@.len() == 0 {
                    nin as nat
                } else {
                    orig[layers@.len() - 1]@.len()
                },
                forall|l: int|
                    0 <= l < layers@.len() ==> (#[trigger] layers@[l]).wf() && layers@[l].inputs() == (
                    if l == 0 {
                        nin as nat
                    } else {
                        orig[l - 1]@.len()
                    }) && layers@[l].units().len() == orig[l]@.len() && layers@[l].in_graph(g),
                g.size() == old(g).size() + layer_params(layers@).len(),
                layer_params(layers@).len() == network_init_values(
                    orig.subrange(0, layers@.len() as int),
                ).len(),
                forall|k: int|
                    0 <= k < layer_params(layers@).len() ==> (#[trigger] layer_params(layers@)[k]).id
                        == old(g).size() + k,
                forall|k: int|
                    0 <= k < layer_params(layers@).len() ==> #[trigger] g.values()[old(g).size() + k]
                        == network_init_values(orig.subrange(0, layers@.len() as int))[k],
            decreases init@.len(),
        {
            let ghost before = *g;
            let ghost at = layers@.len() as int;
            let ghost old_layers = layers@;
            let ghost old_params = layer_params(layers@);
            let ghost old_vals = network_init_values(orig.subrange(0, at));
            let rows = init.remove(0);
            assert(rows@ == orig[at]@);
            let count = rows.len();
            assert forall|i: int| 0 <= i < rows@.len() implies (#[trigger] rows@[i]).0@.len() == width by {
                assert(orig[at]@[i].0@.len() == if at == 0 {
                    nin as nat
                } else {
                    orig[at - 1]@.len()
                });
            }
            let layer = Layer::new(g, width, rows);
            assert forall|l: int| 0 <= l < layers@.len() implies (#[trigger] layers@[l]).in_graph(g) by {
                assert forall|i: int| 0 <= i < layers@[l].units().len() implies all_in(
                    g,
                    #[trigger] layers@[l].units()[i].params(),
                ) by {
                    assert(all_in(&before, layers@[l].units()[i].params()));
                    assert forall|j: int| 0 <= j < layers@[l].units()[i].params().len() implies g.has(
                        #[trigger] layers@[l].units()[i].params()[j],
                    ) by {
                        assert(before.has(layers@[l].units()[i].params()[j]));
                    }
                }
            }
            let ghost row = init_values(orig[at]@);
            let ghost lp = params_of(layer.units());
            layers.push(layer);
            width = count;
            assert(init@ =~= orig.subrange(layers@.len() as int, orig.len() as int));
            proof {
                assert(layers@.drop_last() =~= old_layers);
                assert(layer_params(layers@) == old_params + lp);
                assert(orig.subrange(0, at + 1).drop_last() =~= orig.subrange(0, at));
                assert(orig.subrange(0, at + 1).last() == orig[at]);
                assert(network_init_values(orig.subrange(0, at + 1)) == old_vals + row);
                assert forall|k: int| 0 <= k < layer_params(layers@).len() implies (
                #[trigger] layer_params(layers@)[k]).id == old(g).size() + k by {
                    if k >= old_params.len() {
                        assert(layer_params(layers@)[k] == lp[k - old_params.len()]);
                    } else {
                        assert(layer_params(layers@)[k] == old_params[k]);
                    }
                }
                assert forall|k: int| 0 <= k < layer_params(layers@).len() implies #[trigger] g.values()[old(
                    g,
                ).size() + k] == network_init_values(orig.subrange(0, layers@.len() as int))[k] by {
                    if k >= old_params.len() {
                        let k2 = k - old_params.len();
                        assert(g.values()[before.size() + k2] == row[k2]);
                    } else {
                        assert(before.values()[old(g).size() + k] == old_vals[k]);
                    }
                }
            }
        }
        assert(orig.subrange(0, layers@.len() as int) =~= orig);
        let m = MLP { nin, layers };
        assert forall|l: int| 0 <= l < m.stack().len() implies (#[trigger] m.stack()[l]).wf()
            && m.stack()[l].inputs() == m.inputs_of(l) by {
            if l > 0 {
                assert(m.stack()[l - 1].units().len() == orig[l - 1]@.len());
            }
        }
        m
    }

    /// Feeds `x` through every layer in turn. An input of another length
    /// than the network's is refused, and `g` is left as it was.
    pub fn forward<T: Scalar>(&self, g: &mut Graph<T>, x: &Tensor) -> (r: Result<Tensor, ArityMismatch>)
        requires
            old(g).wf(),
            self.wf(),
            self.in_graph(old(g)),
            all_in(old(g), x@),
        ensures
            r is Err <==> x@.len() != self.inputs(),
            r is Err ==> *final(g) == *old(g) && r == Err::<Tensor, ArityMismatch>(
                ArityMismatch { expected: self.inputs() as usize, found: x@.len() as usize },
            ),
            r is Ok ==> final(g).grows(old(g)) && all_in(final(g), r->Ok_0@) && r->Ok_0@.len()
                == self.outputs(),
            r is Ok ==> exists|outs: Seq<Seq<Value>>|
                #![trigger outs.len()]
                outs.len() == self.stack().len() + 1 && outs[0] == x@ && outs.last() == r->Ok_0@
                    && forall|l: int|
                    0 <= l < self.stack().len() ==> applies_layer(
                        final(g),
                        #[trigger] self.stack()[l],
                        outs[l],
                        outs[l + 1],
                    ),
    {
        if x.len() != self.nin {
            return Err(ArityMismatch { expected: self.nin, found: x.len() });
        }
        let mut cur: Vec<Value> = x.clone();
        let ghost mut outs: Seq<Seq<Value>> = seq![x@];
        let mut l: usize = 0;
        while l < self.layers.len()
            invariant
                self.wf(),
                self.in_graph(old(g)),
                g.grows(old(g)),
                l <= self.stack().len(),
                outs.len() == l + 1,
                outs[0] == x@,
                outs.last() == cur@,
                forall|j: int|
                    0 <= j < l ==> applies_layer(&*g, #[trigger] self.stack()[j], outs[j], outs[j + 1]),
                all_in(g, cur@),
                cur@.len() == if l == 0 {
                    self.inputs()
                } else {
                    self.stack()[l - 1].units().len()
                },
            decreases self.stack().len() - l,
        {
            let layer = &self.layers[l];
            assert(layer.wf() && layer.inputs() == self.inputs_of(l as int));
            assert(layer.in_graph(old(g)));
            assert forall|i: int| 0 <= i < layer.units().len() implies all_in(
                g,
                #[trigger] layer.units()[i].params(),
            ) by {
                assert(all_in(old(g), layer.units()[i].params()));
                assert forall|j: int| 0 <= j < layer.units()[i].params().len() implies g.has(
                    #[trigger] layer.units()[i].params()[j],
                ) by {
                    assert(old(g).has(layer.units()[i].params()[j]));
                }
            }
            let ghost before = *g;
            let ghost input = cur@;
            cur = match layer.forward(g, &cur) {
                Ok(y) => y,
                Err(e) => return Err(e),
            };
            proof {
                let old_outs = outs;
                outs = outs.push(cur@);
                assert(applies_layer(&*g, self.stack()[l as int], input, cur@));
                assert forall|j: int| 0 <= j < l + 1 implies applies_layer(
                    &*g,
                    #[trigger] self.stack()[j],
                    outs[j],
                    outs[j + 1],
                ) by {
                    if j < l {
                        assert(outs[j] == old_outs[j] && outs[j + 1] == old_outs[j + 1]);
                        lemma_layer_kept(&before, &*g, self.stack()[j], outs[j], outs[j + 1]);
                    }
                }
            }
            l = l + 1;
        }
        assert(outs.len() == self.stack().len() + 1);
        Ok(cur)
    }

    /// The parameters of every layer, layer after layer.
    pub fn parameters(&self) -> (r: Vec<Value>)
        ensures
            r@ == layer_params(self.stack()),
    {
        let mut r: Vec<Value> = Vec::new();
        let mut l: usize = 0;
        while l < self.layers.len()
            invariant
                l <= self.stack().len(),
                r@ == layer_params(self.stack().subrange(0, l as int)),
            decreases self.stack().len() - l,
        {
            let mut p = self.layers[l].parameters();
            r.append(&mut p);
            assert(self.stack().subrange(0, l + 1).drop_last() =~= self.stack().subrange(0, l as int));
            l = l + 1;
        }
        assert(self.stack().subrange(0, l as int) =~= self.stack());
        r
    }
}

} // verus!
