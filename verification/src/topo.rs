use vstd::prelude::*;

use crate::id::NodeId;
use crate::paths::{
    has_cycle, ids_where, is_edge, is_walk, lemma_covering_bound, lemma_distinct_bound,
    lemma_distinct_full, lemma_ids_where, total_degree, targets_valid, walk_step,
};

verus! {

broadcast use crate::id::group_node_id;

/// How many times `v` occurs in `s`.
pub open spec fn occurrences(s: Seq<NodeId>, v: NodeId) -> int
    decreases s.len(),
{
    if s.len() == 0 {
        0
    } else {
        occurrences(s.drop_last(), v) + if s.last() == v {
            1int
        } else {
            0int
        }
    }
}

/// Number of edges into `v` whose source is among the first `k` nodes and is
/// not marked in `done`.
pub open spec fn pending_in(adj: Seq<Seq<NodeId>>, done: Seq<bool>, v: NodeId, k: int) -> int
    decreases k,
{
    if k <= 0 {
        0
    } else {
        pending_in(adj, done, v, k - 1) + if done[k - 1] {
            0int
        } else {
            occurrences(adj[k - 1], v)
        }
    }
}

/// Marks of the nodes `0..n` that occur in `order`.
pub open spec fn taken_marks(order: Seq<NodeId>, n: nat) -> Seq<bool> {
    Seq::new(n, |i: int| order.contains(NodeId::from_index(i)))
}

/// The in-degree of every node, counting parallel edges.
pub open spec fn in_degrees(adj: Seq<Seq<NodeId>>) -> Seq<u32> {
    Seq::new(
        adj.len(),
        |i: int| pending_in(adj, taken_marks(Seq::empty(), adj.len()), NodeId::from_index(i), adj.len() as int) as u32,
    )
}

/// The nodes whose count in `indeg` is zero, in index order.
pub open spec fn sources(indeg: Seq<u32>) -> Seq<NodeId> {
    ids_where(indeg.len(), |x: NodeId| indeg[x@ as int] == 0)
}

/// Walks `nbrs` in order, lowering the count of each neighbor (never below
/// zero) and collecting every neighbor whose count is then zero.
pub open spec fn release(nbrs: Seq<NodeId>, indeg: Seq<u32>) -> (Seq<u32>, Seq<NodeId>)
    decreases nbrs.len(),
{
    if nbrs.len() == 0 {
        (indeg, Seq::empty())
    } else {
        let (d, pushed) = release(nbrs.drop_last(), indeg);
        let x = nbrs.last();
        let c = d[x@ as int];
        let nc: u32 = if c > 0 {
            (c - 1) as u32
        } else {
            0
        };
        (d.update(x@ as int, nc), if nc == 0 {
            pushed.push(x)
        } else {
            pushed
        })
    }
}

/// One step of Kahn's algorithm: take the front of the queue and release its neighbors.
pub open spec fn kahn_step(adj: Seq<Seq<NodeId>>, indeg: Seq<u32>, queue: Seq<NodeId>) -> (Seq<u32>, Seq<NodeId>) {
    let (d, pushed) = release(adj[queue[0]@ as int], indeg);
    (d, queue.drop_first() + pushed)
}

/// Runs up to `fuel` steps of Kahn's algorithm until the queue is empty.
/// Returns the nodes in the order taken, and the final counts.
pub open spec fn kahn_run(adj: Seq<Seq<NodeId>>, indeg: Seq<u32>, queue: Seq<NodeId>, fuel: nat) -> (Seq<NodeId>, Seq<u32>)
    decreases fuel,
{
    if fuel == 0 || queue.len() == 0 {
        (Seq::empty(), indeg)
    } else {
        let (d, q) = kahn_step(adj, indeg, queue);
        let (out, last) = kahn_run(adj, d, q, (fuel - 1) as nat);
        (seq![queue[0]] + out, last)
    }
}

/// The order in which Kahn's algorithm, started from the nodes of in-degree
/// zero in index order with a FIFO queue, takes the nodes.
pub open spec fn kahn_order(adj: Seq<Seq<NodeId>>) -> Seq<NodeId> {
    kahn_run(adj, in_degrees(adj), sources(in_degrees(adj)), adj.len()).0
}

/// `order` lists every node exactly once, and every edge goes from an
/// earlier node to a later one.
pub open spec fn is_topological_order(adj: Seq<Seq<NodeId>>, order: Seq<NodeId>) -> bool {
    &&& order.len() == adj.len()
    &&& order.no_duplicates()
    &&& forall|i: int| 0 <= i < order.len() ==> (#[trigger] order[i])@ < adj.len()
    &&& forall|i: int, j: int|
        0 <= i < order.len() && 0 <= j < order.len() && #[trigger] is_edge(adj, order[i], order[j]) ==> i < j
}

/// What holds throughout Kahn's algorithm once `order` has been taken.
pub open spec fn kahn_inv(adj: Seq<Seq<NodeId>>, order: Seq<NodeId>, indeg: Seq<u32>, queue: Seq<NodeId>) -> bool {
    let n = adj.len();
    &&& targets_valid(adj)
    &&& n <= u32::MAX
    &&& indeg.len() == n
    &&& forall|v: NodeId| v@ < n ==> #[trigger] indeg[v@ as int] as int == pending_in(adj, taken_marks(order, n), v, n as int)
    &&& order.no_duplicates()
    &&& queue.no_duplicates()
    &&& order.disjoint(queue)
    &&& forall|i: int| 0 <= i < order.len() ==> (#[trigger] order[i])@ < n
    &&& forall|i: int| 0 <= i < queue.len() ==> (#[trigger] queue[i])@ < n
    &&& forall|v: NodeId| v@ < n ==> (#[trigger] indeg[v@ as int] == 0 <==> (order.contains(v) || queue.contains(v)))
    &&& forall|i: int, u: NodeId| 0 <= i < order.len() && #[trigger] is_edge(adj, u, order[i]) ==> order.take(i).contains(u)
    &&& forall|j: int, u: NodeId| 0 <= j < queue.len() && #[trigger] is_edge(adj, u, queue[j]) ==> order.contains(u)
}

pub proof fn lemma_occurrences(s: Seq<NodeId>, v: NodeId)
    ensures
        0 <= occurrences(s, v) <= s.len(),
        occurrences(s, v) > 0 <==> s.contains(v),
    decreases s.len(),
{
    if s.len() > 0 {
        lemma_occurrences(s.drop_last(), v);
        if s.drop_last().contains(v) {
            let i = choose|i: int| 0 <= i < s.drop_last().len() && s.drop_last()[i] == v;
            assert(s[i] == v);
        }
        if s.contains(v) && s.last() != v {
            let i = choose|i: int| 0 <= i < s.len() && s[i] == v;
            assert(s.drop_last()[i] == v);
        }
    }
}

/// A pending count is zero exactly when no unmarked node among the first `k`
/// has an edge into `v`.
pub proof fn lemma_pending_zero(adj: Seq<Seq<NodeId>>, done: Seq<bool>, v: NodeId, k: int)
    requires
        0 <= k <= adj.len(),
        done.len() == adj.len(),
    ensures
        pending_in(adj, done, v, k) >= 0,
        pending_in(adj, done, v, k) == 0 <==> forall|u: int| 0 <= u < k && !done[u] ==> !(#[trigger] adj[u]).contains(v),
    decreases k,
{
    if k > 0 {
        lemma_pending_zero(adj, done, v, k - 1);
        lemma_occurrences(adj[k - 1], v);
    }
}

/// Marking node `u` removes its edges into `v` from the pending count.
pub proof fn lemma_pending_mark(adj: Seq<Seq<NodeId>>, done: Seq<bool>, u: int, v: NodeId, k: int)
    requires
        0 <= u < done.len(),
        0 <= k <= done.len(),
    ensures
        pending_in(adj, done.update(u, true), v, k) == pending_in(adj, done, v, k) - (if u < k && !done[u] {
            occurrences(adj[u], v)
        } else {
            0
        }),
    decreases k,
{
    if k > 0 {
        lemma_pending_mark(adj, done, u, v, k - 1);
    }
}

/// An unmarked node's edges into `v` are part of the pending count.
pub proof fn lemma_pending_ge(adj: Seq<Seq<NodeId>>, done: Seq<bool>, u: int, v: NodeId, k: int)
    requires
        0 <= u < k <= adj.len(),
        done.len() == adj.len(),
        !done[u],
    ensures
        pending_in(adj, done, v, k) >= occurrences(adj[u], v),
    decreases k,
{
    lemma_pending_zero(adj, done, v, k - 1);
    if u < k - 1 {
        lemma_pending_ge(adj, done, u, v, k - 1);
        lemma_occurrences(adj[k - 1], v);
    }
}

/// What releasing the neighbors `nbrs` does, when no count can drop below zero.
pub proof fn lemma_release(nbrs: Seq<NodeId>, indeg: Seq<u32>, n: nat)
    requires
        indeg.len() == n,
        forall|i: int| 0 <= i < nbrs.len() ==> (#[trigger] nbrs[i])@ < n,
        forall|v: NodeId| v@ < n ==> occurrences(nbrs, v) <= #[trigger] indeg[v@ as int],
    ensures
        ({
            let (d, pushed) = release(nbrs, indeg);
            &&& d.len() == n
            &&& forall|v: NodeId| v@ < n ==> #[trigger] d[v@ as int] == indeg[v@ as int] - occurrences(nbrs, v)
            &&& pushed.no_duplicates()
            &&& forall|i: int| 0 <= i < pushed.len() ==> (#[trigger] pushed[i])@ < n
            &&& forall|v: NodeId| v@ < n ==> (#[trigger] pushed.contains(v) <==> (occurrences(nbrs, v) > 0 && d[v@ as int] == 0))
        }),
    decreases nbrs.len(),
{
    if nbrs.len() > 0 {
        let rest = nbrs.drop_last();
        let x = nbrs.last();
        assert forall|v: NodeId| v@ < n implies occurrences(rest, v) <= #[trigger] indeg[v@ as int] by {
            lemma_occurrences(rest, v);
        }
        assert forall|i: int| 0 <= i < rest.len() implies (#[trigger] rest[i])@ < n by {
            assert(rest[i] == nbrs[i]);
        }
        lemma_release(rest, indeg, n);
        let (d0, p0) = release(rest, indeg);
        let (d, pushed) = release(nbrs, indeg);
        assert(x == nbrs[nbrs.len() - 1]);
        assert(d0[x@ as int] >= 1);
        assert forall|v: NodeId| v@ < n implies (#[trigger] pushed.contains(v) <==> (occurrences(nbrs, v) > 0 && d[v@ as int] == 0)) by {
            lemma_occurrences(rest, v);
            if pushed.contains(v) {
                let i = choose|i: int| 0 <= i < pushed.len() && pushed[i] == v;
                if i < p0.len() {
                    assert(p0[i] == v);
                    assert(p0.contains(v));
                }
            }
            if p0.contains(v) {
                let i = choose|i: int| 0 <= i < p0.len() && p0[i] == v;
                assert(pushed[i] == v);
            }
            if v == x && d[v@ as int] == 0 {
                assert(pushed[pushed.len() - 1] == x);
            }
        }
        if d[x@ as int] == 0 {
            assert forall|i: int, j: int| 0 <= i < j < pushed.len() implies pushed[i] != pushed[j] by {
                if j == pushed.len() - 1 {
                    assert(p0.contains(p0[i]));
                }
            }
        }
    }
}

/// Marks after taking one more node.
pub proof fn lemma_taken_marks_push(order: Seq<NodeId>, u: NodeId, n: nat)
    requires
        u@ < n,
        n <= u32::MAX,
    ensures
        taken_marks(order.push(u), n) == taken_marks(order, n).update(u@ as int, true),
{
    assert forall|i: int| 0 <= i < n implies #[trigger] taken_marks(order.push(u), n)[i] == taken_marks(order, n).update(u@ as int, true)[i] by {
        let x = NodeId::from_index(i);
        if order.contains(x) {
            let j = choose|j: int| 0 <= j < order.len() && order[j] == x;
            assert(order.push(u)[j] == x);
        }
        if order.push(u).contains(x) && x != u {
            let j = choose|j: int| 0 <= j < order.push(u).len() && order.push(u)[j] == x;
            assert(order[j] == x);
        }
        if i == u@ {
            assert(order.push(u)[order.len() as int] == u);
        }
    }
    assert(taken_marks(order.push(u), n) =~= taken_marks(order, n).update(u@ as int, true));
}

/// The taken nodes and the queue together never exceed the node count.
pub proof fn lemma_kahn_size(adj: Seq<Seq<NodeId>>, order: Seq<NodeId>, indeg: Seq<u32>, queue: Seq<NodeId>)
    requires
        kahn_inv(adj, order, indeg, queue),
    ensures
        order.len() + queue.len() <= adj.len(),
{
    let s = order + queue;
    assert forall|i: int, j: int| 0 <= i < s.len() && 0 <= j < s.len() && i != j implies s[i] != s[j] by {
        if i < order.len() && j >= order.len() {
            assert(queue[j - order.len()] == s[j]);
        } else if j < order.len() && i >= order.len() {
            assert(queue[i - order.len()] == s[i]);
        }
    }
    assert forall|i: int| 0 <= i < s.len() implies (#[trigger] s[i])@ < adj.len() by {
        if i >= order.len() {
            assert(s[i] == queue[i - order.len()]);
        }
    }
    lemma_distinct_bound(s, adj.len() as int);
}

/// One step of Kahn's algorithm keeps its invariant.
pub proof fn lemma_kahn_step(adj: Seq<Seq<NodeId>>, order: Seq<NodeId>, indeg: Seq<u32>, queue: Seq<NodeId>)
    requires
        kahn_inv(adj, order, indeg, queue),
        queue.len() > 0,
    ensures
        ({
            let (d, q) = kahn_step(adj, indeg, queue);
            kahn_inv(adj, order.push(queue[0]), d, q)
        }),
{
    let n = adj.len();
    let u = queue[0];
    let nbrs = adj[u@ as int];
    let done = taken_marks(order, n);
    let order2 = order.push(u);
    let done2 = taken_marks(order2, n);
    lemma_taken_marks_push(order, u, n);
    assert(!order.contains(u));
    assert(!done[u@ as int]);
    assert forall|i: int| 0 <= i < nbrs.len() implies (#[trigger] nbrs[i])@ < n by {
        assert(adj[u@ as int][i]@ < n);
    }
    assert forall|v: NodeId| v@ < n implies occurrences(nbrs, v) <= #[trigger] indeg[v@ as int] by {
        lemma_pending_ge(adj, done, u@ as int, v, n as int);
    }
    lemma_release(nbrs, indeg, n);
    let (d, pushed) = release(nbrs, indeg);
    let rest = queue.drop_first();
    let q2 = rest + pushed;
    assert forall|v: NodeId| v@ < n implies #[trigger] d[v@ as int] as int == pending_in(adj, done2, v, n as int) by {
        lemma_pending_mark(adj, done, u@ as int, v, n as int);
    }
    // No self-loop on a node of in-degree zero.
    assert(occurrences(nbrs, u) == 0) by {
        assert(queue.contains(u));
        assert(indeg[u@ as int] == 0);
        lemma_pending_ge(adj, done, u@ as int, u, n as int);
        lemma_occurrences(nbrs, u);
    }
    assert forall|v: NodeId| v@ < n && #[trigger] pushed.contains(v) implies !order2.contains(v) && !rest.contains(v) by {
        lemma_occurrences(nbrs, v);
        assert(indeg[v@ as int] > 0);
        if order2.contains(v) && v != u {
            let i = choose|i: int| 0 <= i < order2.len() && order2[i] == v;
            assert(order[i] == v);
        }
        if rest.contains(v) {
            let i = choose|i: int| 0 <= i < rest.len() && rest[i] == v;
            assert(queue[i + 1] == v);
        }
    }
    assert(order2.no_duplicates()) by {
        assert forall|i: int, j: int| 0 <= i < order2.len() && 0 <= j < order2.len() && i != j implies order2[i] != order2[j] by {
            if j == order.len() {
                assert(order2[i] == order[i]);
                assert(queue.contains(u));
            } else if i == order.len() {
                assert(order2[j] == order[j]);
                assert(queue.contains(u));
            }
        }
    }
    assert(q2.no_duplicates()) by {
        assert forall|i: int, j: int| 0 <= i < q2.len() && 0 <= j < q2.len() && i != j implies q2[i] != q2[j] by {
            if i < rest.len() && j < rest.len() {
                assert(q2[i] == queue[i + 1]);
                assert(q2[j] == queue[j + 1]);
            } else if i < rest.len() && j >= rest.len() {
                assert(pushed.contains(pushed[j - rest.len()]));
                assert(rest.contains(rest[i]));
            } else if j < rest.len() && i >= rest.len() {
                assert(pushed.contains(pushed[i - rest.len()]));
                assert(rest.contains(rest[j]));
            }
        }
    }
    assert(order2.disjoint(q2)) by {
        assert forall|i: int, j: int| 0 <= i < order2.len() && 0 <= j < q2.len() implies order2[i] != q2[j] by {
            if j < rest.len() {
                assert(q2[j] == queue[j + 1]);
                if i < order.len() {
                    assert(order2[i] == order[i]);
                }
            } else {
                assert(pushed.contains(pushed[j - rest.len()]));
                assert(order2.contains(order2[i]));
            }
        }
    }
    assert forall|i: int| 0 <= i < order2.len() implies (#[trigger] order2[i])@ < n by {
        if i < order.len() {
            assert(order2[i] == order[i]);
        }
    }
    assert forall|i: int| 0 <= i < q2.len() implies (#[trigger] q2[i])@ < n by {
        if i < rest.len() {
            assert(q2[i] == queue[i + 1]);
        } else {
            assert(q2[i] == pushed[i - rest.len()]);
        }
    }
    assert forall|v: NodeId| v@ < n implies (#[trigger] d[v@ as int] == 0 <==> (order2.contains(v) || q2.contains(v))) by {
        lemma_occurrences(nbrs, v);
        if order2.contains(v) {
            let i = choose|i: int| 0 <= i < order2.len() && order2[i] == v;
            if i < order.len() {
                assert(order[i] == v);
                assert(order.contains(v));
            }
        }
        if q2.contains(v) {
            let i = choose|i: int| 0 <= i < q2.len() && q2[i] == v;
            if i < rest.len() {
                assert(queue[i + 1] == v);
                assert(queue.contains(v));
            } else {
                assert(pushed[i - rest.len()] == v);
                assert(pushed.contains(v));
            }
        }
        if d[v@ as int] == 0 {
            if indeg[v@ as int] == 0 {
                if order.contains(v) {
                    let i = choose|i: int| 0 <= i < order.len() && order[i] == v;
                    assert(order2[i] == v);
                } else {
                    let i = choose|i: int| 0 <= i < queue.len() && queue[i] == v;
                    if i == 0 {
                        assert(order2[order.len() as int] == v);
                    } else {
                        assert(q2[i - 1] == v);
                    }
                }
            } else {
                assert(pushed.contains(v));
                let i = choose|i: int| 0 <= i < pushed.len() && pushed[i] == v;
                assert(q2[rest.len() + i] == v);
            }
        }
    }
    assert forall|i: int, w: NodeId| 0 <= i < order2.len() && #[trigger] is_edge(adj, w, order2[i]) implies order2.take(i).contains(w) by {
        if i < order.len() {
            assert(order2[i] == order[i]);
            assert(order2.take(i) =~= order.take(i));
        } else {
            assert(order2.take(i) =~= order);
            assert(order2[i] == queue[0]);
        }
    }
    assert forall|j: int, w: NodeId| 0 <= j < q2.len() && #[trigger] is_edge(adj, w, q2[j]) implies order2.contains(w) by {
        if j < rest.len() {
            assert(q2[j] == queue[j + 1]);
            assert(order.contains(w));
            let i = choose|i: int| 0 <= i < order.len() && order[i] == w;
            assert(order2[i] == w);
        } else {
            let v = q2[j];
            assert(v == pushed[j - rest.len()]);
            assert(pushed.contains(v));
            assert(v@ < n);
            assert(d[v@ as int] == 0);
            lemma_pending_zero(adj, done2, v, n as int);
            assert(w@ < n);
            assert(adj[w@ as int].contains(v));
            assert(done2[w@ as int]);
        }
    }
}

/// Running Kahn's algorithm from a state satisfying its invariant ends with
/// an empty queue; every node left out still has an edge into it from a node
/// left out.
pub proof fn lemma_kahn_run(adj: Seq<Seq<NodeId>>, order: Seq<NodeId>, indeg: Seq<u32>, queue: Seq<NodeId>, fuel: nat)
    requires
        kahn_inv(adj, order, indeg, queue),
        order.len() + fuel >= adj.len(),
    ensures
        ({
            let (out, last) = kahn_run(adj, indeg, queue, fuel);
            kahn_inv(adj, order + out, last, Seq::empty())
        }),
    decreases fuel,
{
    if queue.len() == 0 {
        assert(order + Seq::<NodeId>::empty() =~= order);
    } else {
        lemma_kahn_size(adj, order, indeg, queue);
        lemma_kahn_step(adj, order, indeg, queue);
        let (d, q) = kahn_step(adj, indeg, queue);
        lemma_kahn_run(adj, order.push(queue[0]), d, q, (fuel - 1) as nat);
        let (out, last) = kahn_run(adj, d, q, (fuel - 1) as nat);
        assert(order.push(queue[0]) + out =~= order + (seq![queue[0]] + out));
    }
}

/// A pending count never exceeds the number of edges of the nodes it looks at.
pub proof fn lemma_pending_bound(adj: Seq<Seq<NodeId>>, done: Seq<bool>, v: NodeId, k: int)
    requires
        0 <= k <= adj.len(),
    ensures
        pending_in(adj, done, v, k) <= total_degree(adj, k),
    decreases k,
{
    if k > 0 {
        lemma_pending_bound(adj, done, v, k - 1);
        lemma_occurrences(adj[k - 1], v);
        lemma_pending_zero_nonneg(adj, done, v, k - 1);
    }
}

proof fn lemma_pending_zero_nonneg(adj: Seq<Seq<NodeId>>, done: Seq<bool>, v: NodeId, k: int)
    ensures
        pending_in(adj, done, v, k) >= 0,
    decreases k,
{
    if k > 0 {
        lemma_pending_zero_nonneg(adj, done, v, k - 1);
        lemma_occurrences(adj[k - 1], v);
    }
}

/// The in-degree counts fit their `u32` cells and are the pending counts before
/// any node is taken.
pub proof fn lemma_in_degrees(adj: Seq<Seq<NodeId>>)
    requires
        adj.len() <= u32::MAX,
        total_degree(adj, adj.len() as int) <= u32::MAX,
    ensures
        in_degrees(adj).len() == adj.len(),
        forall|v: NodeId| v@ < adj.len() ==> #[trigger] in_degrees(adj)[v@ as int] as int == pending_in(adj, taken_marks(Seq::empty(), adj.len()), v, adj.len() as int),
{
    let n = adj.len();
    assert forall|v: NodeId| v@ < n implies #[trigger] in_degrees(adj)[v@ as int] as int == pending_in(adj, taken_marks(Seq::empty(), n), v, n as int) by {
        lemma_pending_bound(adj, taken_marks(Seq::empty(), n), v, n as int);
        lemma_pending_zero_nonneg(adj, taken_marks(Seq::empty(), n), v, n as int);
    }
}

/// The initial state of Kahn's algorithm satisfies its invariant.
pub proof fn lemma_kahn_start(adj: Seq<Seq<NodeId>>)
    requires
        targets_valid(adj),
        adj.len() <= u32::MAX,
        total_degree(adj, adj.len() as int) <= u32::MAX,
    ensures
        kahn_inv(adj, Seq::empty(), in_degrees(adj), sources(in_degrees(adj))),
{
    let n = adj.len();
    let indeg = in_degrees(adj);
    let q = sources(indeg);
    let none = taken_marks(Seq::<NodeId>::empty(), n);
    lemma_in_degrees(adj);
    lemma_ids_where(n, |x: NodeId| indeg[x@ as int] == 0);
    assert forall|j: int, u: NodeId| 0 <= j < q.len() && #[trigger] is_edge(adj, u, q[j]) implies Seq::<NodeId>::empty().contains(u) by {
        let v = q[j];
        assert(q.contains(v));
        lemma_pending_zero(adj, none, v, n as int);
        assert(!none[u@ as int]);
        assert(adj[u@ as int].contains(v));
    }
}

/// The outcome of Kahn's algorithm from the start: its invariant holds with
/// the queue empty.
pub proof fn lemma_kahn_result(adj: Seq<Seq<NodeId>>)
    requires
        targets_valid(adj),
        adj.len() <= u32::MAX,
        total_degree(adj, adj.len() as int) <= u32::MAX,
    ensures
        ({
            let (order, last) = kahn_run(adj, in_degrees(adj), sources(in_degrees(adj)), adj.len());
            kahn_inv(adj, order, last, Seq::empty())
        }),
{
    lemma_kahn_start(adj);
    lemma_kahn_run(adj, Seq::empty(), in_degrees(adj), sources(in_degrees(adj)), adj.len());
    let (order, last) = kahn_run(adj, in_degrees(adj), sources(in_degrees(adj)), adj.len());
    assert(Seq::<NodeId>::empty() + order =~= order);
}

/// Some node left out by Kahn's algorithm that has an edge into `x`.
spec fn left_out_pred(adj: Seq<Seq<NodeId>>, order: Seq<NodeId>, x: NodeId) -> NodeId {
    choose|u: NodeId| u@ < adj.len() && !order.contains(u) && is_edge(adj, u, x)
}

/// Follows `left_out_pred` back `k` times from `x`.
spec fn left_out_chain(adj: Seq<Seq<NodeId>>, order: Seq<NodeId>, x: NodeId, k: nat) -> NodeId
    decreases k,
{
    if k == 0 {
        x
    } else {
        left_out_pred(adj, order, left_out_chain(adj, order, x, (k - 1) as nat))
    }
}

proof fn lemma_left_out_chain(adj: Seq<Seq<NodeId>>, order: Seq<NodeId>, last: Seq<u32>, x: NodeId, k: nat)
    requires
        kahn_inv(adj, order, last, Seq::empty()),
        x@ < adj.len(),
        !order.contains(x),
    ensures
        left_out_chain(adj, order, x, k)@ < adj.len(),
        !order.contains(left_out_chain(adj, order, x, k)),
        is_edge(adj, left_out_chain(adj, order, x, k + 1), left_out_chain(adj, order, x, k)),
        left_out_chain(adj, order, x, k + 1)@ < adj.len(),
        !order.contains(left_out_chain(adj, order, x, k + 1)),
    decreases k,
{
    let n = adj.len();
    if k > 0 {
        lemma_left_out_chain(adj, order, last, x, (k - 1) as nat);
    }
    let y = left_out_chain(adj, order, x, k);
    assert(!Seq::<NodeId>::empty().contains(y));
    assert(last[y@ as int] != 0);
    let done = taken_marks(order, n);
    lemma_pending_zero(adj, done, y, n as int);
    let u = choose|u: int| 0 <= u < n && !done[u] && adj[u].contains(y);
    let w = NodeId::from_index(u);
    assert(w@ < n && !order.contains(w) && is_edge(adj, w, y));
}

/// Kahn's algorithm takes every node exactly when the graph has no cycle;
/// when it does, its order is a topological order.
pub proof fn lemma_kahn_order(adj: Seq<Seq<NodeId>>)
    requires
        targets_valid(adj),
        adj.len() <= u32::MAX,
        total_degree(adj, adj.len() as int) <= u32::MAX,
    ensures
        kahn_order(adj).len() <= adj.len(),
        kahn_order(adj).len() == adj.len() <==> !has_cycle(adj),
        kahn_order(adj).len() == adj.len() ==> is_topological_order(adj, kahn_order(adj)),
{
    let n = adj.len();
    lemma_kahn_result(adj);
    let (order, last) = kahn_run(adj, in_degrees(adj), sources(in_degrees(adj)), n);
    lemma_kahn_size(adj, order, last, Seq::empty());
    if order.len() == n {
        assert forall|i: int, j: int|
            0 <= i < order.len() && 0 <= j < order.len() && #[trigger] is_edge(adj, order[i], order[j]) implies i < j by {
            assert(order.take(j).contains(order[i]));
            let k = choose|k: int| 0 <= k < order.take(j).len() && order.take(j)[k] == order[i];
            assert(order[k] == order[i]);
        }
        lemma_topological_acyclic(adj, order);
    } else {
        // Some node is left out; walking back along left-out nodes must repeat one.
        let x = if exists|i: int| 0 <= i < n && !order.contains(#[trigger] NodeId::from_index(i)) {
            NodeId::from_index(choose|i: int| 0 <= i < n && !order.contains(#[trigger] NodeId::from_index(i)))
        } else {
            lemma_covering_bound(order, n as int);
            NodeId::from_index(0)
        };
        assert(x@ < n && !order.contains(x));
        let w = Seq::new((n + 1) as nat, |k: int| left_out_chain(adj, order, x, k as nat));
        assert forall|k: int| 0 <= k < w.len() implies (#[trigger] w[k])@ < n by {
            lemma_left_out_chain(adj, order, last, x, k as nat);
        }
        if w.no_duplicates() {
            lemma_distinct_bound(w, n as int);
        }
        let (i, j) = choose|i: int, j: int| 0 <= i < w.len() && 0 <= j < w.len() && i != j && w[i] == w[j];
        let lo = if i < j { i } else { j };
        let hi = if i < j { j } else { i };
        let c = Seq::new((hi - lo + 1) as nat, |t: int| w[hi - t]);
        assert forall|t: int| 0 <= t < c.len() - 1 implies #[trigger] walk_step(adj, c, t) by {
            lemma_left_out_chain(adj, order, last, x, (hi - t - 1) as nat);
        }
        assert forall|t: int| 0 <= t < c.len() implies (#[trigger] c[t])@ < n by {
            assert(c[t] == w[hi - t]);
        }
        assert(is_walk(adj, c));
        assert(c[0] == c.last());
    }
}

/// A graph with a topological order has no cycle.
pub proof fn lemma_topological_acyclic(adj: Seq<Seq<NodeId>>, order: Seq<NodeId>)
    requires
        is_topological_order(adj, order),
    ensures
        !has_cycle(adj),
{
    let n = adj.len();
    if has_cycle(adj) {
        let p = choose|p: Seq<NodeId>| #[trigger] is_walk(adj, p) && p.len() >= 2 && p[0] == p.last();
        lemma_walk_rises(adj, order, p, p.len() - 1);
        lemma_distinct_full(order, n as int, p[0]);
    }
}

/// Position of `x` in `order`.
spec fn position(order: Seq<NodeId>, x: NodeId) -> int {
    choose|i: int| 0 <= i < order.len() && order[i] == x
}

proof fn lemma_walk_rises(adj: Seq<Seq<NodeId>>, order: Seq<NodeId>, p: Seq<NodeId>, k: int)
    requires
        is_topological_order(adj, order),
        is_walk(adj, p),
        0 <= k < p.len(),
    ensures
        position(order, p[k]) >= position(order, p[0]) + k,
        0 <= position(order, p[k]) < order.len(),
        order[position(order, p[k])] == p[k],
    decreases k,
{
    let n = adj.len();
    lemma_distinct_full(order, n as int, p[k]);
    if k > 0 {
        lemma_walk_rises(adj, order, p, k - 1);
        assert(walk_step(adj, p, k - 1));
        let i = position(order, p[k - 1]);
        let j = position(order, p[k]);
        assert(is_edge(adj, order[i], order[j]));
    } else {
        lemma_distinct_full(order, n as int, p[0]);
    }
}

} // verus!
