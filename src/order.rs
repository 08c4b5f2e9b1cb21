use vstd::prelude::*;

use crate::scalar::Scalar;
use crate::value::{reaches, Graph, Op, Value};

verus! {

/// The node indices of a sequence of handles.
pub open spec fn ids(s: Seq<Value>) -> Seq<int> {
    s.map_values(|v: Value| v.id as int)
}

/// Each node of `order` comes strictly after every one of its operands that
/// `order` holds.
pub open spec fn operands_first<T>(ops: Seq<Op<T>>, order: Seq<Value>) -> bool {
    forall|i: int, j: int, k: int|
        0 <= i < order.len() && 0 <= j < order.len() && 0 <= k < ops[order[i].id as int].arity()
            && #[trigger] ops[order[i].id as int].operand(k) == #[trigger] order[j].id ==> j < i
}

/// `order` is a topological order of exactly the nodes reachable from `root`:
/// each such node once, every node after its operands, and `root` last.
pub open spec fn is_topological_order<T>(g: &Graph<T>, root: Value, order: Seq<Value>) -> bool {
    &&& ids(order).no_duplicates()
    &&& forall|u: int| #[trigger]
        ids(order).contains(u) <==> 0 <= u < g.size() && reaches(g.ops(), root.id as int, u)
    &&& operands_first(g.ops(), order)
    &&& forall|i: int| 0 <= i < order.len() ==> g.has(#[trigger] order[i])
    &&& order.len() > 0
    &&& order.last() == root
}

/// A node reaches only itself and earlier nodes.
pub proof fn lemma_reaches_below<T>(g: &Graph<T>, from: int, to: int)
    requires
        g.wf(),
        0 <= from < g.size(),
        reaches(g.ops(), from, to),
    ensures
        0 <= to <= from,
    decreases from,
{
    if from != to {
        let op = g.ops()[from];
        assert(op.operands_below(from));
        if op.arity() > 0 && 0 <= op.operand(0) < from && reaches(g.ops(), op.operand(0), to) {
            lemma_reaches_below(g, op.operand(0), to);
        } else {
            lemma_reaches_below(g, op.operand(1), to);
        }
    }
}

/// A set of nodes that holds the operands of each of its members holds every
/// node reachable from any member.
proof fn lemma_closed_holds_reach<T>(g: &Graph<T>, marked: Seq<bool>, from: int, to: int)
    requires
        g.wf(),
        marked.len() == g.size(),
        0 <= from < g.size(),
        marked[from],
        forall|u: int, k: int|
            0 <= u < g.size() && marked[u] && 0 <= k < g.ops()[u].arity() ==> #[trigger] marked[
                #[trigger] g.ops()[u].operand(k)],
        reaches(g.ops(), from, to),
    ensures
        marked[to],
    decreases from,
{
    if from != to {
        let op = g.ops()[from];
        assert(op.operands_below(from));
        if op.arity() > 0 && 0 <= op.operand(0) < from && reaches(g.ops(), op.operand(0), to) {
            assert(marked[op.operand(0)]);
            lemma_closed_holds_reach(g, marked, op.operand(0), to);
        } else {
            assert(marked[op.operand(1)]);
            lemma_closed_holds_reach(g, marked, op.operand(1), to);
        }
    }
}

/// A node that `root` reaches passes that reach on to each of its operands.
pub proof fn lemma_reaches_operand<T>(g: &Graph<T>, root: int, c: int, k: int)
    requires
        g.wf(),
        0 <= root < g.size(),
        reaches(g.ops(), root, c),
        0 <= k < g.ops()[c].arity(),
    ensures
        reaches(g.ops(), root, g.ops()[c].operand(k)),
    decreases root,
{
    lemma_reaches_below(g, root, c);
    let o = g.ops()[c].operand(k);
    assert(g.ops()[c].operands_below(c));
    if root == c {
        assert(reaches(g.ops(), o, o));
    } else if root != o {
        let op = g.ops()[root];
        assert(op.operands_below(root));
        if op.arity() > 0 && 0 <= op.operand(0) < root && reaches(g.ops(), op.operand(0), c) {
            lemma_reaches_operand(g, op.operand(0), c, k);
        } else {
            lemma_reaches_operand(g, op.operand(1), c, k);
        }
    }
}

/// The depth-first post-order walk from node `v`: `order` followed by every
/// node reachable from `v` that `order` does not hold yet, each after its
/// operands, which are walked in slot order; `v` itself comes last.
pub open spec fn post_order_walk<T>(ops: Seq<Op<T>>, v: int, order: Seq<Value>) -> Seq<Value>
    decreases v, 3int,
{
    if !(0 <= v < ops.len()) || ids(order).contains(v) {
        order
    } else {
        post_order_operands(ops, v, ops[v].arity() as int, order).push(Value { id: v as usize })
    }
}

/// `order` after the post-order walks from the first `k` operands of node
/// `v`, in slot order.
pub open spec fn post_order_operands<T>(ops: Seq<Op<T>>, v: int, k: int, order: Seq<Value>) -> Seq<
    Value,
>
    decreases v, k,
{
    if k <= 0 || !(0 <= v < ops.len()) || k > 2 {
        order
    } else {
        let before = post_order_operands(ops, v, k - 1, order);
        let w = ops[v].operand(k - 1);
        if 0 <= w < v {
            post_order_walk(ops, w, before)
        } else {
            before
        }
    }
}

/// The depth-first post-order listing of the nodes reachable from `root`:
/// operands before the node, in slot order, each node once, `root` last.
pub open spec fn depth_first_order<T>(ops: Seq<Op<T>>, root: Value) -> Seq<Value> {
    post_order_walk(ops, root.id as int, Seq::empty())
}

/// The state of the depth-first walk: `visited` marks exactly the nodes of
/// `order`, each once, with its operands marked and placed before it.
spec fn walk_state<T>(g: &Graph<T>, order: Seq<Value>, visited: Seq<bool>) -> bool {
    &&& visited.len() == g.size()
    &&& forall|i: int| 0 <= i < order.len() ==> g.has(#[trigger] order[i])
    &&& ids(order).no_duplicates()
    &&& forall|u: int| 0 <= u < g.size() ==> (#[trigger] visited[u] <==> ids(order).contains(u))
    &&& forall|u: int, k: int|
        0 <= u < g.size() && visited[u] && 0 <= k < g.ops()[u].arity() ==> #[trigger] visited[
            #[trigger] g.ops()[u].operand(k)]
    &&& operands_first(g.ops(), order)
}

/// Appends to `order`, operands first, every node reachable from `v` that is
/// not yet visited.
fn visit<T: Scalar>(g: &Graph<T>, v: Value, visited: &mut Vec<bool>, order: &mut Vec<Value>)
    requires
        g.wf(),
        g.has(v),
        walk_state(g, old(order)@, old(visited)@),
    ensures
        walk_state(g, final(order)@, final(visited)@),
        final(visited)@[v.id as int],
        forall|u: int| 0 <= u < g.size() && old(visited)@[u] ==> #[trigger] final(visited)@[u],
        forall|u: int|
            0 <= u < g.size() && #[trigger] final(visited)@[u] && !old(visited)@[u] ==> reaches(
                g.ops(),
                v.id as int,
                u,
            ),
        !old(visited)@[v.id as int] ==> final(order)@.len() > 0 && final(order)@.last() == v,
        final(order)@ == post_order_walk(g.ops(), v.id as int, old(order)@),
    decreases v.id,
{
    if visited[v.id] {
        assert(ids(order@).contains(v.id as int));
        return ;
    }
    assert(!ids(order@).contains(v.id as int));
    let operands = v.prev(g);
    let ghost op = g.ops()[v.id as int];
    assert(op.operands_below(v.id as int));
    let mut k: usize = 0;
    while k < operands.len()
        invariant
            g.wf(),
            g.has(v),
            op == g.ops()[v.id as int],
            operands@.len() == op.arity(),
            forall|k: int| 0 <= k < operands@.len() ==> (#[trigger] operands@[k]).id == op.operand(k),
            forall|k: int| 0 <= k < op.arity() ==> 0 <= #[trigger] op.operand(k) < v.id,
            old(visited)@.len() == g.size(),
            walk_state(g, order@, visited@),
            !visited@[v.id as int],
            !ids(old(order)@).contains(v.id as int),
            0 <= k <= operands@.len(),
            order@ == post_order_operands(g.ops(), v.id as int, k as int, old(order)@),
            forall|j: int| 0 <= j < k ==> visited@[#[trigger] op.operand(j)],
            forall|u: int| 0 <= u < g.size() && old(visited)@[u] ==> #[trigger] visited@[u],
            forall|u: int|
                0 <= u < g.size() && #[trigger] visited@[u] && !old(visited)@[u] ==> u < v.id
                    && reaches(g.ops(), v.id as int, u),
        decreases operands@.len() - k,
    {
        let ghost before = visited@;
        let ghost before_order = order@;
        let w = operands[k];
        assert(w.id == op.operand(k as int));
        assert(op.arity() <= 2);
        visit(g, w, visited, order);
        assert(order@ == post_order_operands(g.ops(), v.id as int, k + 1, old(order)@));
        assert forall|u: int|
            0 <= u < g.size() && #[trigger] visited@[u] && !old(visited)@[u] implies u < v.id
                && reaches(g.ops(), v.id as int, u) by {
            if !before[u] {
                lemma_reaches_below(g, w.id as int, u);
                assert(op.arity() > k);
                if k == 0 {
                    assert(reaches(g.ops(), v.id as int, u));
                } else {
                    assert(op.arity() > 1);
                    assert(reaches(g.ops(), v.id as int, u));
                }
            }
        }
        k = k + 1;
    }
    let ghost prev_order = order@;
    let ghost prev_visited = visited@;
    assert(post_order_walk(g.ops(), v.id as int, old(order)@) == prev_order.push(
        Value { id: v.id },
    ));
    order.push(v);
    visited.set(v.id, true);
    assert(ids(order@) =~= ids(prev_order).push(v.id as int));
    assert(!prev_visited[v.id as int]);
    assert(!ids(prev_order).contains(v.id as int));
    assert forall|u: int| 0 <= u < g.size() implies (#[trigger] visited@[u] <==> ids(
        order@,
    ).contains(u)) by {
        if u != v.id {
            assert(prev_visited[u] <==> ids(prev_order).contains(u));
            if ids(order@).contains(u) {
                let i = choose|i: int| 0 <= i < ids(order@).len() && ids(order@)[i] == u;
                assert(ids(prev_order)[i] == u);
            }
            if ids(prev_order).contains(u) {
                let i = choose|i: int| 0 <= i < ids(prev_order).len() && ids(prev_order)[i] == u;
                assert(ids(order@)[i] == u);
            }
        } else {
            assert(ids(order@)[prev_order.len() as int] == u);
        }
    }
    assert forall|i: int, j: int, k: int|
        0 <= i < order@.len() && 0 <= j < order@.len() && 0 <= k < g.ops()[order@[i].id as int].arity()
            && #[trigger] g.ops()[order@[i].id as int].operand(k) == #[trigger] order@[j].id implies j
        < i by {
        let last = prev_order.len() as int;
        if i == last {
            if j == last {
                assert(op.operand(k) < v.id);
            }
        } else if j == last {
            assert(ids(prev_order)[i] == prev_order[i].id);
            assert(ids(prev_order).contains(prev_order[i].id as int));
            assert(prev_visited[prev_order[i].id as int]);
            assert(prev_visited[g.ops()[prev_order[i].id as int].operand(k)]);
        } else {
            assert(prev_order[i] == order@[i]);
            assert(prev_order[j] == order@[j]);
        }
    }
}

/// The nodes reachable from `root` in depth-first post-order, operands
/// walked in slot order: each exactly once, every node strictly after all of
/// its operands, and `root` last. Nodes are told apart by handle.
pub fn topological_sort<T: Scalar>(g: &Graph<T>, root: Value) -> (order: Vec<Value>)
    requires
        g.wf(),
        g.has(root),
    ensures
        is_topological_order(g, root, order@),
        order@ == depth_first_order(g.ops(), root),
{
    let n = g.len();
    let mut visited: Vec<bool> = Vec::new();
    let mut i: usize = 0;
    while i < n
        invariant
            n == g.size(),
            i <= n,
            visited@.len() == i,
            forall|u: int| 0 <= u < i ==> !(#[trigger] visited@[u]),
        decreases n - i,
    {
        visited.push(false);
        i = i + 1;
    }
    let mut order: Vec<Value> = Vec::new();
    assert(ids(order@) =~= Seq::<int>::empty());
    visit(g, root, &mut visited, &mut order);
    assert forall|u: int| #[trigger]
        ids(order@).contains(u) <==> 0 <= u < g.size() && reaches(g.ops(), root.id as int, u) by {
        if ids(order@).contains(u) {
            let i = choose|i: int| 0 <= i < ids(order@).len() && ids(order@)[i] == u;
            assert(g.has(order@[i]));
            assert(visited@[u]);
        }
        if 0 <= u < g.size() && reaches(g.ops(), root.id as int, u) {
            lemma_closed_holds_reach(g, visited@, root.id as int, u);
        }
    }
    order
}

/// One gradient contribution of the backward pass: the operand in position
/// `slot` of `consumer`, which is `operand`, receives its share of the
/// consumer's gradient.
#[derive(Clone, Copy, Debug, PartialEq, Eq, Structural)]
pub struct Step {
    pub consumer: Value,
    pub slot: usize,
    pub operand: Value,
}

/// Some step of `steps` carries the edge in position `k` of node `c`.
pub open spec fn scheduled(steps: Seq<Step>, c: int, k: int) -> bool {
    exists|p: int| 0 <= p < steps.len() && #[trigger] steps[p].consumer.id == c && steps[p].slot == k
}

/// `steps` is a schedule of the backward pass from `root`: one step for each
/// operand edge of each node that `root` reaches, and every step into a node
/// before any step out of it, so that a node's gradient is complete before it
/// is passed on.
pub open spec fn is_backward_schedule<T>(g: &Graph<T>, root: Value, steps: Seq<Step>) -> bool {
    &&& forall|p: int|
        0 <= p < steps.len() ==> {
            let s = #[trigger] steps[p];
            &&& g.has(s.consumer)
            &&& reaches(g.ops(), root.id as int, s.consumer.id as int)
            &&& s.slot < g.ops()[s.consumer.id as int].arity()
            &&& s.operand.id == g.ops()[s.consumer.id as int].operand(s.slot as int)
        }
    &&& forall|c: int, k: int|
        0 <= c < g.size() && reaches(g.ops(), root.id as int, c) && 0 <= k < g.ops()[c].arity()
            ==> #[trigger] scheduled(steps, c, k)
    &&& forall|p: int, q: int|
        0 <= p < q < steps.len() && (#[trigger] steps[p]).consumer == (#[trigger] steps[q]).consumer
            ==> steps[p].slot != steps[q].slot
    &&& forall|p: int, q: int|
        0 <= p < steps.len() && 0 <= q < steps.len() && (#[trigger] steps[q]).operand == (
        #[trigger] steps[p]).consumer ==> q < p
}

/// The steps of node `c`: one per operand, in slot order.
pub open spec fn node_steps<T>(ops: Seq<Op<T>>, c: Value) -> Seq<Step> {
    Seq::new(
        ops[c.id as int].arity(),
        |k: int| Step { consumer: c, slot: k as usize, operand: Value { id: ops[c.id as int].operand(k) as usize } },
    )
}

/// The steps of the nodes of `order` from position `i` on, the last node's
/// first.
pub open spec fn steps_from<T>(ops: Seq<Op<T>>, order: Seq<Value>, i: int) -> Seq<Step>
    decreases order.len() - i,
{
    if i < 0 || i >= order.len() {
        Seq::empty()
    } else {
        steps_from(ops, order, i + 1) + node_steps(ops, order[i])
    }
}

/// The backward schedule from `root`: the nodes of the depth-first
/// post-order in reverse, root first, each with its operands in slot order.
pub open spec fn backward_schedule<T>(ops: Seq<Op<T>>, root: Value) -> Seq<Step> {
    steps_from(ops, depth_first_order(ops, root), 0)
}

/// Step `s` belongs to the node in position `at` of `order` and follows one of
/// its operand edges.
spec fn step_placed<T>(g: &Graph<T>, order: Seq<Value>, at: int, s: Step) -> bool {
    &&& 0 <= at < order.len()
    &&& order[at] == s.consumer
    &&& g.has(s.consumer)
    &&& s.slot < g.ops()[s.consumer.id as int].arity()
    &&& s.operand.id == g.ops()[s.consumer.id as int].operand(s.slot as int)
}

/// The order in which the backward pass from `root` hands gradients from
/// consumers to operands: the nodes of [`topological_sort`] in reverse, each
/// with its operands left to right.
pub fn backward_steps<T: Scalar>(g: &Graph<T>, root: Value) -> (steps: Vec<Step>)
    requires
        g.wf(),
        g.has(root),
    ensures
        is_backward_schedule(g, root, steps@),
        steps@ == backward_schedule(g.ops(), root),
{
    let order = topological_sort(g, root);
    let mut steps: Vec<Step> = Vec::new();
    let ghost mut owner: Seq<int> = Seq::empty();
    let mut i: usize = order.len();
    while i > 0
        invariant
            g.wf(),
            g.has(root),
            is_topological_order(g, root, order@),
            i <= order@.len(),
            steps@ == steps_from(g.ops(), order@, i as int),
            owner.len() == steps@.len(),
            forall|p: int|
                #![trigger steps@[p]]
                #![trigger owner[p]]
                0 <= p < steps@.len() ==> i <= owner[p] && step_placed(g, order@, owner[p], steps@[p]),
            forall|p: int, q: int|
                0 <= p < q < steps@.len() ==> #[trigger] owner[p] >= #[trigger] owner[q] && (owner[p]
                    == owner[q] ==> steps@[p].slot < steps@[q].slot),
            forall|m: int, k: int|
                i <= m < order@.len() && 0 <= k < g.ops()[order@[m].id as int].arity()
                    ==> #[trigger] scheduled(steps@, order@[m].id as int, k),
        decreases i,
    {
        i = i - 1;
        let c = order[i];
        assert(ids(order@)[i as int] == c.id);
        assert(ids(order@).contains(c.id as int));
        let operands = c.prev(g);
        let start = steps.len();
        assert forall|p: int| 0 <= p < start implies #[trigger] owner[p] > i by {
            assert(step_placed(g, order@, owner[p], steps@[p]));
        }
        let mut k: usize = 0;
        while k < operands.len()
            invariant
                g.wf(),
                is_topological_order(g, root, order@),
                i < order@.len(),
                c == order@[i as int],
                g.has(c),
                operands@.len() == g.ops()[c.id as int].arity(),
                forall|j: int|
                    0 <= j < operands@.len() ==> (#[trigger] operands@[j]).id == g.ops()[
                        c.id as int].operand(j),
                k <= operands@.len(),
                steps@ == steps_from(g.ops(), order@, i + 1) + node_steps(g.ops(), c).subrange(
                    0,
                    k as int,
                ),
                start <= steps@.len(),
                steps@.len() == start + k,
                owner.len() == steps@.len(),
                forall|p: int|
                    #![trigger steps@[p]]
                    #![trigger owner[p]]
                    0 <= p < steps@.len() ==> i <= owner[p] && step_placed(
                        g,
                        order@,
                        owner[p],
                        steps@[p],
                    ),
                forall|p: int| start <= p < steps@.len() ==> #[trigger] owner[p] == i && steps@[p].slot
                    == p - start,
                forall|p: int| 0 <= p < start ==> #[trigger] owner[p] > i,
                forall|p: int, q: int|
                    0 <= p < q < steps@.len() ==> #[trigger] owner[p] >= #[trigger] owner[q] && (
                    owner[p] == owner[q] ==> steps@[p].slot < steps@[q].slot),
                forall|m: int, j: int|
                    i < m < order@.len() && 0 <= j < g.ops()[order@[m].id as int].arity()
                        ==> #[trigger] scheduled(steps@, order@[m].id as int, j),
                forall|j: int| 0 <= j < k ==> #[trigger] scheduled(steps@, c.id as int, j),
            decreases operands@.len() - k,
        {
            let ghost before = steps@;
            steps.push(Step { consumer: c, slot: k, operand: operands[k] });
            proof {
                let ns = node_steps(g.ops(), c);
                assert(operands@[k as int] == Value { id: g.ops()[c.id as int].operand(k as int) as usize });
                assert(ns[k as int] == Step { consumer: c, slot: k, operand: operands@[k as int] });
                assert(ns.subrange(0, k + 1) =~= ns.subrange(0, k as int).push(ns[k as int]));
                assert(steps@ =~= steps_from(g.ops(), order@, i + 1) + ns.subrange(0, k + 1));
                owner = owner.push(i as int);
                assert forall|m: int, j: int|
                    i < m < order@.len() && 0 <= j < g.ops()[order@[m].id as int].arity() implies #[trigger] scheduled(
                        steps@,
                        order@[m].id as int,
                        j,
                    ) by {
                    assert(scheduled(before, order@[m].id as int, j));
                    let p = choose|p: int|
                        0 <= p < before.len() && #[trigger] before[p].consumer.id == order@[m].id as int
                            && before[p].slot == j;
                    assert(steps@[p] == before[p]);
                }
                assert forall|j: int| 0 <= j <= k implies #[trigger] scheduled(steps@, c.id as int, j) by {
                    if j < k {
                        assert(scheduled(before, c.id as int, j));
                        let p = choose|p: int|
                            0 <= p < before.len() && #[trigger] before[p].consumer.id == c.id as int
                                && before[p].slot == j;
                        assert(steps@[p] == before[p]);
                    } else {
                        assert(steps@[before.len() as int].consumer.id == c.id);
                    }
                }
            }
            k = k + 1;
        }
        assert(node_steps(g.ops(), c).subrange(0, k as int) =~= node_steps(g.ops(), c));
    }
    proof {
        let ops = g.ops();
        assert forall|c: int, k: int|
            0 <= c < g.size() && reaches(ops, root.id as int, c) && 0 <= k < ops[c].arity()
                implies #[trigger] scheduled(steps@, c, k) by {
            assert(ids(order@).contains(c));
            let m = choose|m: int| 0 <= m < ids(order@).len() && ids(order@)[m] == c;
            assert(order@[m].id == c);
        }
        assert forall|p: int| 0 <= p < steps@.len() implies {
            let s = #[trigger] steps@[p];
            &&& g.has(s.consumer)
            &&& reaches(ops, root.id as int, s.consumer.id as int)
        } by {
            let m = owner[p];
            assert(step_placed(g, order@, m, steps@[p]));
            assert(ids(order@)[m] == order@[m].id);
            assert(ids(order@).contains(order@[m].id as int));
        }
        assert forall|p: int, q: int|
            0 <= p < q < steps@.len() && (#[trigger] steps@[p]).consumer == (
            #[trigger] steps@[q]).consumer implies steps@[p].slot != steps@[q].slot by {
            let (a, b) = (owner[p], owner[q]);
            assert(step_placed(g, order@, a, steps@[p]));
            assert(step_placed(g, order@, b, steps@[q]));
            assert(ids(order@)[a] == ids(order@)[b]);
        }
        assert forall|p: int, q: int|
            0 <= p < steps@.len() && 0 <= q < steps@.len() && (#[trigger] steps@[q]).operand == (
            #[trigger] steps@[p]).consumer implies q < p by {
            let (a, b) = (owner[p], owner[q]);
            assert(step_placed(g, order@, a, steps@[p]));
            assert(step_placed(g, order@, b, steps@[q]));
            let s = steps@[q];
            assert(ops[order@[b].id as int].operand(s.slot as int) == order@[a].id);
            assert(a < b);
            if p <= q {
                if p < q {
                    assert(owner[p] >= owner[q]);
                }
            }
        }
    }
    steps
}

/// Gradient accumulation under sharing: when a reached node reads the same
/// operand in both positions (as in `a * a`), the backward schedule holds two
/// distinct steps from that node into that operand, one for each use, so the
/// operand receives both contributions rather than one.
pub proof fn lemma_shared_operand_gets_both_shares<T>(
    g: &Graph<T>,
    root: Value,
    steps: Seq<Step>,
    c: int,
)
    requires
        g.wf(),
        g.has(root),
        is_backward_schedule(g, root, steps),
        0 <= c < g.size(),
        reaches(g.ops(), root.id as int, c),
        g.ops()[c].arity() == 2,
        g.ops()[c].operand(0) == g.ops()[c].operand(1),
    ensures
        exists|p: int, q: int|
            0 <= p < steps.len() && 0 <= q < steps.len() && p != q && #[trigger] steps[p].consumer.id
                == c && #[trigger] steps[q].consumer.id == c && steps[p].operand.id == g.ops()[c].operand(0)
                && steps[q].operand.id == g.ops()[c].operand(0),
{
    assert(scheduled(steps, c, 0));
    assert(scheduled(steps, c, 1));
    let p = choose|p: int| 0 <= p < steps.len() && #[trigger] steps[p].consumer.id == c && steps[p].slot == 0;
    let q = choose|q: int| 0 <= q < steps.len() && #[trigger] steps[q].consumer.id == c && steps[q].slot == 1;
    assert(steps[p].consumer.id == c && steps[q].consumer.id == c && steps[p].operand.id
        == g.ops()[c].operand(0) && steps[q].operand.id == g.ops()[c].operand(0));
}

/// Operation `op` reads node `n` as one of its operands.
pub open spec fn uses<T>(op: Op<T>, n: int) -> bool {
    (op.arity() > 0 && op.operand(0) == n) || (op.arity() > 1 && op.operand(1) == n)
}

/// The nodes of a list of trace lines.
pub open spec fn line_ids(lines: Seq<(Value, usize)>) -> Seq<int> {
    lines.map_values(|l: (Value, usize)| l.0.id as int)
}

/// Line `k` of `lines` sits one level below an earlier line, at or after
/// `from`, whose node uses it, and no line between the two is shallower than
/// line `k`: the parent is the nearest line one level up, as in a depth-first
/// listing.
pub open spec fn has_parent<T>(g: &Graph<T>, lines: Seq<(Value, usize)>, from: int, k: int) -> bool {
    exists|j: int|
        from <= j < k && lines[j].1 + 1 == lines[k].1 && #[trigger] uses(
            g.ops()[lines[j].0.id as int],
            lines[k].0.id as int,
        ) && forall|m: int| j < m < k ==> (#[trigger] lines[m]).1 >= lines[k].1
}

/// The depth-first pre-order walk from node `v` at `depth`: `lines`, then,
/// unless `lines` already lists it, `v` at `depth` followed by the walks from
/// its operands one level deeper, in slot order.
pub open spec fn pre_order_walk<T>(
    ops: Seq<Op<T>>,
    v: int,
    depth: int,
    lines: Seq<(Value, usize)>,
) -> Seq<(Value, usize)>
    decreases v, 3int,
{
    if !(0 <= v < ops.len()) || line_ids(lines).contains(v) {
        lines
    } else {
        pre_order_operands(
            ops,
            v,
            depth,
            ops[v].arity() as int,
            lines.push((Value { id: v as usize }, depth as usize)),
        )
    }
}

/// `lines` after the pre-order walks from the first `k` operands of node `v`,
/// which sits at `depth`.
pub open spec fn pre_order_operands<T>(
    ops: Seq<Op<T>>,
    v: int,
    depth: int,
    k: int,
    lines: Seq<(Value, usize)>,
) -> Seq<(Value, usize)>
    decreases v, k,
{
    if k <= 0 || !(0 <= v < ops.len()) || k > 2 {
        lines
    } else {
        let before = pre_order_operands(ops, v, depth, k - 1, lines);
        let w = ops[v].operand(k - 1);
        if 0 <= w < v {
            pre_order_walk(ops, w, depth + 1, before)
        } else {
            before
        }
    }
}

/// The depth-first pre-order listing below `root`: `root` at depth zero,
/// then each operand's listing one level deeper, in slot order, skipping
/// nodes already listed.
pub open spec fn depth_first_listing<T>(ops: Seq<Op<T>>, root: Value) -> Seq<(Value, usize)> {
    pre_order_walk(ops, root.id as int, 0, Seq::empty())
}

/// `lines` is a depth-first listing of the nodes reachable from `root`, each
/// once, as (node, depth) pairs: `root` first at depth zero, and every other
/// node one level below the nearest earlier line one level up, whose node
/// uses it.
pub open spec fn is_trace<T>(g: &Graph<T>, root: Value, lines: Seq<(Value, usize)>) -> bool {
    &&& lines.len() > 0
    &&& lines[0] == (root, 0usize)
    &&& line_ids(lines).no_duplicates()
    &&& forall|u: int| #[trigger]
        line_ids(lines).contains(u) <==> 0 <= u < g.size() && reaches(g.ops(), root.id as int, u)
    &&& forall|k: int| 1 <= k < lines.len() ==> #[trigger] has_parent(g, lines, 0, k)
}

/// The state of the trace walk: `visited` marks exactly the nodes of `lines`,
/// each once.
spec fn trace_state<T>(g: &Graph<T>, lines: Seq<(Value, usize)>, visited: Seq<bool>) -> bool {
    &&& visited.len() == g.size()
    &&& forall|i: int| 0 <= i < lines.len() ==> g.has(#[trigger] lines[i].0)
    &&& line_ids(lines).no_duplicates()
    &&& forall|u: int| 0 <= u < g.size() ==> (#[trigger] visited[u] <==> line_ids(lines).contains(u))
}

/// Lists `v` at `depth`, then its operands one level deeper, skipping nodes
/// that are already listed.
fn trace_visit<T: Scalar>(
    g: &Graph<T>,
    v: Value,
    depth: usize,
    visited: &mut Vec<bool>,
    lines: &mut Vec<(Value, usize)>,
)
    requires
        g.wf(),
        g.has(v),
        depth + v.id <= usize::MAX,
        trace_state(g, old(lines)@, old(visited)@),
    ensures
        trace_state(g, final(lines)@, final(visited)@),
        final(visited)@[v.id as int],
        forall|u: int| 0 <= u < g.size() && old(visited)@[u] ==> #[trigger] final(visited)@[u],
        forall|u: int|
            0 <= u < g.size() && #[trigger] final(visited)@[u] && !old(visited)@[u] ==> reaches(
                g.ops(),
                v.id as int,
                u,
            ) && forall|k: int|
                0 <= k < g.ops()[u].arity() ==> final(visited)@[#[trigger] g.ops()[u].operand(k)],
        final(lines)@.subrange(0, old(lines)@.len() as int) == old(lines)@,
        old(visited)@[v.id as int] ==> final(lines)@ == old(lines)@,
        !old(visited)@[v.id as int] ==> final(lines)@.len() > old(lines)@.len()
            && final(lines)@[old(lines)@.len() as int] == (v, depth),
        forall|k: int|
            old(lines)@.len() < k < final(lines)@.len() ==> #[trigger] has_parent(
                g,
                final(lines)@,
                old(lines)@.len() as int,
                k,
            ),
        forall|k: int|
            old(lines)@.len() <= k < final(lines)@.len() ==> (#[trigger] final(lines)@[k]).1 >= depth,
        final(lines)@ == pre_order_walk(g.ops(), v.id as int, depth as int, old(lines)@),
    decreases v.id,
{
    if visited[v.id] {
        assert(line_ids(lines@).contains(v.id as int));
        return ;
    }
    assert(!line_ids(lines@).contains(v.id as int));
    let ghost entered = old(lines)@.push((Value { id: v.id }, depth));
    let ghost start = lines@.len() as int;
    let ghost prev_lines = lines@;
    let ghost prev_visited = visited@;
    lines.push((v, depth));
    visited.set(v.id, true);
    proof {
        assert(line_ids(lines@) =~= line_ids(prev_lines).push(v.id as int));
        assert(!prev_visited[v.id as int]);
        assert(!line_ids(prev_lines).contains(v.id as int));
        assert forall|u: int| 0 <= u < g.size() implies (#[trigger] visited@[u] <==> line_ids(
            lines@,
        ).contains(u)) by {
            if u != v.id {
                assert(prev_visited[u] <==> line_ids(prev_lines).contains(u));
                if line_ids(lines@).contains(u) {
                    let i = choose|i: int| 0 <= i < line_ids(lines@).len() && line_ids(lines@)[i] == u;
                    assert(line_ids(prev_lines)[i] == u);
                }
                if line_ids(prev_lines).contains(u) {
                    let i = choose|i: int|
                        0 <= i < line_ids(prev_lines).len() && line_ids(prev_lines)[i] == u;
                    assert(line_ids(lines@)[i] == u);
                }
            } else {
                assert(line_ids(lines@)[start] == u);
            }
        }
    }
    let operands = v.prev(g);
    let ghost op = g.ops()[v.id as int];
    assert(op.operands_below(v.id as int));
    let mut k: usize = 0;
    while k < operands.len()
        invariant
            g.wf(),
            g.has(v),
            depth + v.id <= usize::MAX,
            op == g.ops()[v.id as int],
            operands@.len() == op.arity(),
            forall|k: int| 0 <= k < operands@.len() ==> (#[trigger] operands@[k]).id == op.operand(k),
            forall|k: int| 0 <= k < op.arity() ==> 0 <= #[trigger] op.operand(k) < v.id,
            old(visited)@.len() == g.size(),
            !old(visited)@[v.id as int],
            trace_state(g, lines@, visited@),
            visited@[v.id as int],
            forall|j: int| 0 <= j < k ==> visited@[#[trigger] op.operand(j)],
            forall|u: int| 0 <= u < g.size() && old(visited)@[u] ==> #[trigger] visited@[u],
            forall|u: int|
                0 <= u < g.size() && #[trigger] visited@[u] && !old(visited)@[u] && u != v.id ==> u
                    < v.id && reaches(g.ops(), v.id as int, u) && forall|k: int|
                    0 <= k < g.ops()[u].arity() ==> visited@[#[trigger] g.ops()[u].operand(k)],
            start == old(lines)@.len(),
            entered == old(lines)@.push((Value { id: v.id }, depth)),
            !line_ids(old(lines)@).contains(v.id as int),
            0 <= k <= operands@.len(),
            lines@ == pre_order_operands(g.ops(), v.id as int, depth as int, k as int, entered),
            lines@.len() > start,
            lines@.subrange(0, start) == old(lines)@,
            lines@[start] == (v, depth),
            forall|k: int| start < k < lines@.len() ==> #[trigger] has_parent(g, lines@, start, k),
            forall|k: int| start < k < lines@.len() ==> (#[trigger] lines@[k]).1 >= depth + 1,
        decreases operands@.len() - k,
    {
        let ghost before = visited@;
        let ghost before_lines = lines@;
        let w = operands[k];
        assert(w.id == op.operand(k as int));
        assert(op.arity() <= 2);
        trace_visit(g, w, depth + 1, visited, lines);
        assert(lines@ == pre_order_operands(g.ops(), v.id as int, depth as int, k + 1, entered));
        proof {
            assert forall|u: int|
                0 <= u < g.size() && #[trigger] visited@[u] && !old(visited)@[u] && u != v.id implies u
                < v.id && reaches(g.ops(), v.id as int, u) && forall|k: int|
                0 <= k < g.ops()[u].arity() ==> visited@[#[trigger] g.ops()[u].operand(k)] by {
                if !before[u] {
                    lemma_reaches_below(g, w.id as int, u);
                    assert(op.arity() > k);
                    if k == 0 {
                        assert(reaches(g.ops(), v.id as int, u));
                    } else {
                        assert(reaches(g.ops(), v.id as int, u));
                    }
                } else {
                    assert forall|j: int| 0 <= j < g.ops()[u].arity() implies visited@[
                        #[trigger] g.ops()[u].operand(j)] by {
                        assert(before[g.ops()[u].operand(j)]);
                    }
                }
            }
            assert(lines@.subrange(0, before_lines.len() as int) == before_lines);
            assert forall|i: int| 0 <= i < before_lines.len() implies lines@[i] == before_lines[i] by {
                assert(lines@.subrange(0, before_lines.len() as int)[i] == lines@[i]);
            }
            assert(lines@.subrange(0, start) =~= old(lines)@) by {
                assert forall|i: int| 0 <= i < start implies lines@[i] == old(lines)@[i] by {
                    assert(before_lines.subrange(0, start)[i] == before_lines[i]);
                }
            }
            assert forall|m: int| start < m < lines@.len() implies #[trigger] has_parent(
                g,
                lines@,
                start,
                m,
            ) by {
                if m < before_lines.len() {
                    assert(has_parent(g, before_lines, start, m));
                    let j = choose|j: int|
                        start <= j < m && before_lines[j].1 + 1 == before_lines[m].1 && #[trigger] uses(
                            g.ops()[before_lines[j].0.id as int],
                            before_lines[m].0.id as int,
                        ) && forall|q: int| j < q < m ==> (#[trigger] before_lines[q]).1 >= before_lines[m].1;
                    assert(uses(g.ops()[lines@[j].0.id as int], lines@[m].0.id as int));
                    assert forall|q: int| j < q < m implies (#[trigger] lines@[q]).1 >= lines@[m].1 by {
                        assert(before_lines[q].1 >= before_lines[m].1);
                    }
                } else if m == before_lines.len() {
                    assert(lines@[m] == (w, (depth + 1) as usize));
                    assert(uses(g.ops()[lines@[start].0.id as int], lines@[m].0.id as int));
                    assert forall|q: int| start < q < m implies (#[trigger] lines@[q]).1 >= lines@[m].1 by {
                        assert(before_lines[q].1 >= depth + 1);
                    }
                } else {
                    assert(has_parent(g, lines@, before_lines.len() as int, m));
                    let j = choose|j: int|
                        before_lines.len() <= j < m && lines@[j].1 + 1 == lines@[m].1 && #[trigger] uses(
                            g.ops()[lines@[j].0.id as int],
                            lines@[m].0.id as int,
                        ) && forall|q: int| j < q < m ==> (#[trigger] lines@[q]).1 >= lines@[m].1;
                    assert(uses(g.ops()[lines@[j].0.id as int], lines@[m].0.id as int));
                }
            }
        }
        assert forall|q: int| start < q < lines@.len() implies (#[trigger] lines@[q]).1 >= depth + 1 by {
            if q < before_lines.len() {
                assert(before_lines[q].1 >= depth + 1);
            }
        }
        k = k + 1;
    }
    assert forall|j: int| 0 <= j < g.ops()[v.id as int].arity() implies visited@[
        #[trigger] g.ops()[v.id as int].operand(j)] by {
        assert(visited@[op.operand(j)]);
    }
}

/// The lines of a depth-first listing of the graph below `root`: each node
/// it reaches once, as (node, depth) pairs, `root` first at depth zero and
/// the operands of a node listed after it, one level deeper, unless they were
/// listed already. Nodes are told apart by handle, never by label.
pub fn trace_lines<T: Scalar>(g: &Graph<T>, root: Value) -> (lines: Vec<(Value, usize)>)
    requires
        g.wf(),
        g.has(root),
    ensures
        is_trace(g, root, lines@),
        lines@ == depth_first_listing(g.ops(), root),
{
    let n = g.len();
    let mut visited: Vec<bool> = Vec::new();
    let mut i: usize = 0;
    while i < n
        invariant
            n == g.size(),
            i <= n,
            visited@.len() == i,
            forall|u: int| 0 <= u < i ==> !(#[trigger] visited@[u]),
        decreases n - i,
    {
        visited.push(false);
        i = i + 1;
    }
    let mut lines: Vec<(Value, usize)> = Vec::new();
    assert(line_ids(lines@) =~= Seq::<int>::empty());
    trace_visit(g, root, 0, &mut visited, &mut lines);
    assert forall|u: int| #[trigger]
        line_ids(lines@).contains(u) <==> 0 <= u < g.size() && reaches(g.ops(), root.id as int, u) by {
        if line_ids(lines@).contains(u) {
            let i = choose|i: int| 0 <= i < line_ids(lines@).len() && line_ids(lines@)[i] == u;
            assert(g.has(lines@[i].0));
            assert(visited@[u]);
        }
        if 0 <= u < g.size() && reaches(g.ops(), root.id as int, u) {
            lemma_closed_holds_reach(g, visited@, root.id as int, u);
        }
    }
    lines
}

} // verus!
