use vstd::prelude::*;

use crate::id::NodeId;
use crate::paths::targets_valid;

verus! {

broadcast use crate::id::group_node_id;

/// The node reached from `s` after the first `i` edges of route `r`. A route
/// lists its edges as `(source, position in the source's adjacency list)`.
pub open spec fn route_node(adj: Seq<Seq<NodeId>>, s: NodeId, r: Seq<(NodeId, int)>, i: int) -> NodeId {
    if i <= 0 {
        s
    } else {
        adj[r[i - 1].0@ as int][r[i - 1].1]
    }
}

/// Edge `i` of `r` exists and leaves the node the route has reached.
pub open spec fn route_link(adj: Seq<Seq<NodeId>>, s: NodeId, r: Seq<(NodeId, int)>, i: int) -> bool {
    &&& r[i].0 == route_node(adj, s, r, i)
    &&& r[i].0@ < adj.len()
    &&& 0 <= r[i].1 < adj[r[i].0@ as int].len()
}

/// `r` is a route from `s` to `v`: a sequence of edges, each leaving the
/// node the previous one entered.
pub open spec fn is_route(adj: Seq<Seq<NodeId>>, s: NodeId, r: Seq<(NodeId, int)>, v: NodeId) -> bool {
    &&& s@ < adj.len()
    &&& forall|i: int| 0 <= i < r.len() ==> #[trigger] route_link(adj, s, r, i)
    &&& route_node(adj, s, r, r.len() as int) == v
}

/// Total weight of a route's edges; `w[u][k]` weighs the `k`-th edge of `u`.
pub open spec fn route_cost(w: Seq<Seq<u64>>, r: Seq<(NodeId, int)>) -> int
    decreases r.len(),
{
    if r.len() == 0 {
        0
    } else {
        route_cost(w, r.drop_last()) + w[r.last().0@ as int][r.last().1]
    }
}

/// A cost saturated at `u64::MAX`.
pub open spec fn capped(c: int) -> int {
    if c > u64::MAX {
        u64::MAX as int
    } else {
        c
    }
}

/// `d` is the least saturated cost of the routes from `s` to `v`.
pub open spec fn is_shortest(adj: Seq<Seq<NodeId>>, w: Seq<Seq<u64>>, s: NodeId, v: NodeId, d: u64) -> bool {
    &&& exists|r: Seq<(NodeId, int)>| #[trigger] is_route(adj, s, r, v) && capped(route_cost(w, r)) == d
    &&& forall|r: Seq<(NodeId, int)>| #[trigger] is_route(adj, s, r, v) ==> capped(route_cost(w, r)) >= d
}

/// `dists[v]` is the least saturated route cost from `s` to `v` when a route
/// exists, and `None` when none does.
pub open spec fn shortest_distances(adj: Seq<Seq<NodeId>>, w: Seq<Seq<u64>>, s: NodeId, dists: Seq<Option<u64>>) -> bool {
    &&& dists.len() == adj.len()
    &&& forall|v: NodeId|
        v@ < adj.len() ==> match #[trigger] dists[v@ as int] {
            Some(d) => is_shortest(adj, w, s, v, d),
            None => !exists|r: Seq<(NodeId, int)>| #[trigger] is_route(adj, s, r, v),
        }
}

/// `w` has one weight per edge.
pub open spec fn weights_fit(adj: Seq<Seq<NodeId>>, w: Seq<Seq<u64>>) -> bool {
    &&& w.len() == adj.len()
    &&& forall|u: int| 0 <= u < adj.len() ==> (#[trigger] w[u]).len() == adj[u].len()
}

/// What holds between the steps of Dijkstra's algorithm from `s`. `done`
/// marks the nodes whose distance is final; `heap` holds `(cost, node)` entries.
pub open spec fn dijkstra_inv(adj: Seq<Seq<NodeId>>, w: Seq<Seq<u64>>, s: NodeId, dists: Seq<Option<u64>>, done: Seq<bool>, heap: Seq<(u64, NodeId)>) -> bool {
    dijkstra_inv_except(adj, w, s, dists, done, heap, s, adj[s@ as int].len() as int)
}

/// The invariant of Dijkstra's algorithm while the edges of `eu` from
/// position `ek` on are still to be relaxed.
pub open spec fn dijkstra_inv_except(adj: Seq<Seq<NodeId>>, w: Seq<Seq<u64>>, s: NodeId, dists: Seq<Option<u64>>, done: Seq<bool>, heap: Seq<(u64, NodeId)>, eu: NodeId, ek: int) -> bool {
    let n = adj.len();
    &&& targets_valid(adj)
    &&& weights_fit(adj, w)
    &&& s@ < n
    &&& dists.len() == n
    &&& done.len() == n
    &&& dists[s@ as int] == Some(0u64)
    &&& forall|i: int| 0 <= i < heap.len() ==> (#[trigger] heap[i]).1@ < n
    // Every distance found is the cost of some route.
    &&& forall|v: NodeId|
        v@ < n && (#[trigger] dists[v@ as int]) is Some ==> exists|r: Seq<(NodeId, int)>|
            #[trigger] is_route(adj, s, r, v) && capped(route_cost(w, r)) == dists[v@ as int]->0
    // Heap entries never undercut the distance found for their node.
    &&& forall|i: int|
        0 <= i < heap.len() ==> dists[(#[trigger] heap[i]).1@ as int] is Some && dists[heap[i].1@ as int]->0
            <= heap[i].0
    // Final distances are least.
    &&& forall|v: NodeId|
        v@ < n && #[trigger] done[v@ as int] ==> dists[v@ as int] is Some && forall|r: Seq<(NodeId, int)>|
            #[trigger] is_route(adj, s, r, v) ==> capped(route_cost(w, r)) >= dists[v@ as int]->0
    // The edges of finished nodes are relaxed.
    &&& forall|u: NodeId, k: int|
        u@ < n && done[u@ as int] && 0 <= k < adj[u@ as int].len() && !(u == eu && k >= ek) ==> #[trigger] relaxed(adj, w, dists, u, k)
    // Every unfinished distance found has its entry in the heap.
    &&& forall|v: NodeId|
        v@ < n && (#[trigger] dists[v@ as int]) is Some && !done[v@ as int] ==> heap.contains(
            (dists[v@ as int]->0, v),
        )
}

/// Edge `k` of `u` cannot shorten the distance found for its target.
pub open spec fn relaxed(adj: Seq<Seq<NodeId>>, w: Seq<Seq<u64>>, dists: Seq<Option<u64>>, u: NodeId, k: int) -> bool {
    let v = adj[u@ as int][k];
    &&& dists[u@ as int] is Some
    &&& dists[v@ as int] is Some
    &&& dists[v@ as int]->0 <= capped(dists[u@ as int]->0 + w[u@ as int][k])
}

/// A prefix of a route is a route to the node it reaches.
pub proof fn lemma_route_prefix(adj: Seq<Seq<NodeId>>, s: NodeId, r: Seq<(NodeId, int)>, v: NodeId, j: int)
    requires
        is_route(adj, s, r, v),
        0 <= j <= r.len(),
    ensures
        is_route(adj, s, r.take(j), route_node(adj, s, r, j)),
        forall|i: int| 0 <= i <= j ==> #[trigger] route_node(adj, s, r.take(j), i) == route_node(adj, s, r, i),
{
    assert forall|i: int| 0 <= i <= j implies #[trigger] route_node(adj, s, r.take(j), i) == route_node(adj, s, r, i) by {
    }
    assert forall|i: int| 0 <= i < r.take(j).len() implies #[trigger] route_link(adj, s, r.take(j), i) by {
        assert(route_link(adj, s, r, i));
        assert(route_node(adj, s, r.take(j), i) == route_node(adj, s, r, i));
    }
}

/// Route costs are nonnegative and grow along the route.
pub proof fn lemma_route_cost_mono(w: Seq<Seq<u64>>, r: Seq<(NodeId, int)>, i: int, j: int)
    requires
        0 <= i <= j <= r.len(),
    ensures
        0 <= route_cost(w, r.take(i)) <= route_cost(w, r.take(j)),
    decreases j,
{
    if i < j {
        assert(r.take(j).drop_last() =~= r.take(j - 1));
        lemma_route_cost_mono(w, r, i, j - 1);
    } else if j > 0 {
        assert(r.take(j).drop_last() =~= r.take(j - 1));
        lemma_route_cost_mono(w, r, 0, j - 1);
    } else {
        assert(r.take(0).len() == 0);
    }
}

/// Extending a route by one edge of the node it reaches.
pub proof fn lemma_route_extend(adj: Seq<Seq<NodeId>>, w: Seq<Seq<u64>>, s: NodeId, r: Seq<(NodeId, int)>, u: NodeId, k: int)
    requires
        is_route(adj, s, r, u),
        u@ < adj.len(),
        0 <= k < adj[u@ as int].len(),
    ensures
        is_route(adj, s, r.push((u, k)), adj[u@ as int][k]),
        route_cost(w, r.push((u, k))) == route_cost(w, r) + w[u@ as int][k],
{
    let r2 = r.push((u, k));
    assert(r2.drop_last() =~= r);
    assert forall|i: int| 0 <= i < r2.len() implies #[trigger] route_link(adj, s, r2, i) by {
        if i < r.len() {
            assert(route_link(adj, s, r, i));
            assert(route_node(adj, s, r2, i) == route_node(adj, s, r, i));
        }
    }
}

/// The empty route reaches its start at cost zero.
pub proof fn lemma_route_empty(adj: Seq<Seq<NodeId>>, w: Seq<Seq<u64>>, s: NodeId)
    requires
        s@ < adj.len(),
    ensures
        is_route(adj, s, Seq::empty(), s),
        route_cost(w, Seq::<(NodeId, int)>::empty()) == 0,
{
}

/// A route leads to a node that its start reaches.
pub proof fn lemma_route_reachable(adj: Seq<Seq<NodeId>>, s: NodeId, r: Seq<(NodeId, int)>, v: NodeId)
    requires
        is_route(adj, s, r, v),
        targets_valid(adj),
    ensures
        crate::paths::reachable(adj, s, v),
    decreases r.len(),
{
    if r.len() == 0 {
        crate::paths::lemma_reachable_refl(adj, s);
    } else {
        let j = r.len() - 1;
        lemma_route_prefix(adj, s, r, v, j);
        let u = route_node(adj, s, r, j);
        assert(route_link(adj, s, r, j));
        lemma_route_reachable(adj, s, r.take(j), u);
        let k = r[j].1;
        assert(adj[u@ as int][k] == v);
        assert(adj[u@ as int].contains(v));
        crate::paths::lemma_reachable_step(adj, s, u, v);
    }
}

/// Every node a route passes through is a valid node.
pub proof fn lemma_route_nodes(adj: Seq<Seq<NodeId>>, s: NodeId, r: Seq<(NodeId, int)>, v: NodeId, i: int)
    requires
        is_route(adj, s, r, v),
        targets_valid(adj),
        0 <= i <= r.len(),
    ensures
        route_node(adj, s, r, i)@ < adj.len(),
{
    if i > 0 {
        assert(route_link(adj, s, r, i - 1));
    }
}

/// The first node along `r` that is not finished, from position `i` on.
proof fn lemma_first_unfinished(adj: Seq<Seq<NodeId>>, s: NodeId, r: Seq<(NodeId, int)>, done: Seq<bool>, i: int) -> (j: int)
    requires
        0 <= i <= r.len(),
        !done[route_node(adj, s, r, r.len() as int)@ as int],
        forall|t: int| 0 <= t < i ==> done[(#[trigger] route_node(adj, s, r, t))@ as int],
    ensures
        i <= j <= r.len(),
        !done[route_node(adj, s, r, j)@ as int],
        forall|t: int| 0 <= t < j ==> done[(#[trigger] route_node(adj, s, r, t))@ as int],
    decreases r.len() - i,
{
    if !done[route_node(adj, s, r, i)@ as int] {
        i
    } else {
        lemma_first_unfinished(adj, s, r, done, i + 1)
    }
}

/// The minimum entry of the heap, when its cost is the distance found for
/// its node, gives that node's least distance.
pub proof fn lemma_min_entry_final(adj: Seq<Seq<NodeId>>, w: Seq<Seq<u64>>, s: NodeId, dists: Seq<Option<u64>>, done: Seq<bool>, heap: Seq<(u64, NodeId)>, c: u64, u: NodeId)
    requires
        dijkstra_inv(adj, w, s, dists, done, heap),
        u@ < adj.len(),
        dists[u@ as int] == Some(c),
        forall|i: int| 0 <= i < heap.len() ==> c <= (#[trigger] heap[i]).0,
    ensures
        forall|r: Seq<(NodeId, int)>| #[trigger] is_route(adj, s, r, u) ==> capped(route_cost(w, r)) >= c,
{
    let n = adj.len();
    if !done[u@ as int] {
        assert forall|r: Seq<(NodeId, int)>| #[trigger] is_route(adj, s, r, u) implies capped(route_cost(w, r)) >= c by {
            if capped(route_cost(w, r)) < c {
                let j = lemma_first_unfinished(adj, s, r, done, 0);
                let y = route_node(adj, s, r, j);
                lemma_route_nodes(adj, s, r, u, j);
                lemma_route_prefix(adj, s, r, u, j);
                lemma_route_cost_mono(w, r, j, r.len() as int);
                assert(r.take(r.len() as int) =~= r);
                if j == 0 {
                    assert(y == s);
                    assert(heap.contains((0u64, s)));
                    let i = choose|i: int| 0 <= i < heap.len() && heap[i] == (0u64, s);
                    assert(c <= heap[i].0);
                } else {
                    let x = route_node(adj, s, r, j - 1);
                    assert(done[x@ as int]);
                    lemma_route_nodes(adj, s, r, u, j - 1);
                    lemma_route_prefix(adj, s, r, u, j - 1);
                    assert(route_link(adj, s, r, j - 1));
                    let k = r[j - 1].1;
                    assert(r[j - 1].0 == x);
                    assert(relaxed(adj, w, dists, x, k));
                    assert(is_route(adj, s, r.take(j - 1), x));
                    assert(capped(route_cost(w, r.take(j - 1))) >= dists[x@ as int]->0);
                    assert(r.take(j).drop_last() =~= r.take(j - 1));
                    lemma_route_cost_mono(w, r, 0, j - 1);
                    assert(route_cost(w, r.take(j)) == route_cost(w, r.take(j - 1)) + w[x@ as int][k]);
                    assert(y == adj[x@ as int][k]);
                    assert(heap.contains((dists[y@ as int]->0, y)));
                    let i = choose|i: int| 0 <= i < heap.len() && heap[i] == (dists[y@ as int]->0, y);
                    assert(c <= heap[i].0);
                }
            }
        }
    }
}

/// Once the heap is empty, the distances found are the shortest distances.
pub proof fn lemma_dijkstra_done(adj: Seq<Seq<NodeId>>, w: Seq<Seq<u64>>, s: NodeId, dists: Seq<Option<u64>>, done: Seq<bool>)
    requires
        dijkstra_inv(adj, w, s, dists, done, Seq::empty()),
    ensures
        shortest_distances(adj, w, s, dists),
{
    let n = adj.len();
    assert forall|v: NodeId| v@ < n implies match #[trigger] dists[v@ as int] {
        Some(d) => is_shortest(adj, w, s, v, d),
        None => !exists|r: Seq<(NodeId, int)>| #[trigger] is_route(adj, s, r, v),
    } by {
        if dists[v@ as int] is Some {
            assert(done[v@ as int]) by {
                if !done[v@ as int] {
                    assert(Seq::<(u64, NodeId)>::empty().contains((dists[v@ as int]->0, v)));
                }
            }
        } else {
            if exists|r: Seq<(NodeId, int)>| #[trigger] is_route(adj, s, r, v) {
                let r = choose|r: Seq<(NodeId, int)>| #[trigger] is_route(adj, s, r, v);
                lemma_route_all_found(adj, w, s, dists, done, r, v, 0);
                assert(false);
            }
        }
    }
}

proof fn lemma_route_all_found(adj: Seq<Seq<NodeId>>, w: Seq<Seq<u64>>, s: NodeId, dists: Seq<Option<u64>>, done: Seq<bool>, r: Seq<(NodeId, int)>, v: NodeId, i: int)
    requires
        dijkstra_inv(adj, w, s, dists, done, Seq::empty()),
        is_route(adj, s, r, v),
        0 <= i <= r.len(),
        forall|t: int| 0 <= t < i ==> dists[(#[trigger] route_node(adj, s, r, t))@ as int] is Some,
    ensures
        dists[v@ as int] is Some,
    decreases r.len() - i,
{
    let x = route_node(adj, s, r, i);
    lemma_route_nodes(adj, s, r, v, i);
    let found = if i == 0 {
        true
    } else {
        let p = route_node(adj, s, r, i - 1);
        lemma_route_nodes(adj, s, r, v, i - 1);
        assert(dists[p@ as int] is Some);
        assert(done[p@ as int]) by {
            if !done[p@ as int] {
                assert(Seq::<(u64, NodeId)>::empty().contains((dists[p@ as int]->0, p)));
            }
        }
        assert(route_link(adj, s, r, i - 1));
        assert(relaxed(adj, w, dists, p, r[i - 1].1));
        true
    };
    assert(dists[x@ as int] is Some);
    if i < r.len() {
        lemma_route_all_found(adj, w, s, dists, done, r, v, i + 1);
    }
}

/// Sum over the first `k` nodes of the distance found, with `u64::MAX + 1`
/// for nodes not yet reached; it drops whenever a distance improves.
pub open spec fn potential(dists: Seq<Option<u64>>, k: int) -> int
    decreases k,
{
    if k <= 0 {
        0
    } else {
        potential(dists, k - 1) + match dists[k - 1] {
            Some(d) => d as int,
            None => u64::MAX + 1,
        }
    }
}

/// Improving one distance lowers the potential by the improvement.
pub proof fn lemma_potential_update(dists: Seq<Option<u64>>, v: int, x: u64, k: int)
    requires
        0 <= v < dists.len(),
        0 <= k <= dists.len(),
    ensures
        potential(dists.update(v, Some(x)), k) == potential(dists, k) + (if v < k {
            x - match dists[v] {
                Some(d) => d as int,
                None => u64::MAX + 1,
            }
        } else {
            0
        }),
        potential(dists, k) >= 0,
    decreases k,
{
    if k > 0 {
        lemma_potential_update(dists, v, x, k - 1);
    }
}

/// Every edge of `r` leaves a finished node.
pub open spec fn sources_done(r: Seq<(NodeId, int)>, done: Seq<bool>) -> bool {
    forall|i: int| 0 <= i < r.len() ==> done[(#[trigger] r[i]).0@ as int]
}

/// Every distance found is the cost of a route whose edges all leave
/// finished nodes.
pub open spec fn witnessed(adj: Seq<Seq<NodeId>>, w: Seq<Seq<u64>>, s: NodeId, dists: Seq<Option<u64>>, done: Seq<bool>) -> bool {
    forall|v: NodeId|
        v@ < adj.len() && (#[trigger] dists[v@ as int]) is Some ==> exists|r: Seq<(NodeId, int)>|
            #[trigger] is_route(adj, s, r, v) && sources_done(r, done) && capped(route_cost(w, r)) == dists[v@ as int]->0
}

/// No finished node has a larger distance than an unfinished one found.
pub open spec fn settled_below(n: int, dists: Seq<Option<u64>>, done: Seq<bool>) -> bool {
    forall|v: NodeId, y: NodeId|
        v@ < n && y@ < n && #[trigger] done[v@ as int] && !#[trigger] done[y@ as int] && dists[y@ as int] is Some
            ==> dists[v@ as int] is Some && dists[v@ as int]->0 <= dists[y@ as int]->0
}

/// `w` and `w2` weigh the edges of finished nodes alike.
pub open spec fn agree_on_done(w: Seq<Seq<u64>>, w2: Seq<Seq<u64>>, done: Seq<bool>) -> bool {
    forall|u: int| 0 <= u < done.len() && #[trigger] done[u] ==> w2[u] == w[u]
}

/// A route over edges of finished nodes costs the same under weights that
/// agree on those nodes.
pub proof fn lemma_cost_agree(adj: Seq<Seq<NodeId>>, w: Seq<Seq<u64>>, w2: Seq<Seq<u64>>, s: NodeId, r: Seq<(NodeId, int)>, done: Seq<bool>, j: int)
    requires
        0 <= j <= r.len(),
        forall|i: int| 0 <= i < j ==> r[i].0@ < done.len() && done[(#[trigger] r[i]).0@ as int],
        agree_on_done(w, w2, done),
    ensures
        route_cost(w, r.take(j)) == route_cost(w2, r.take(j)),
    decreases j,
{
    if j > 0 {
        assert(r.take(j).drop_last() =~= r.take(j - 1));
        lemma_cost_agree(adj, w, w2, s, r, done, j - 1);
        assert(r.take(j).last() == r[j - 1]);
        assert(done[r[j - 1].0@ as int]);
    } else {
        assert(r.take(0).len() == 0);
    }
}

/// The first position from `i` on whose node is unfinished, given one exists.
proof fn lemma_first_undone(adj: Seq<Seq<NodeId>>, s: NodeId, r: Seq<(NodeId, int)>, done: Seq<bool>, i: int) -> (j: int)
    requires
        0 <= i <= r.len(),
        exists|t: int| i <= t < r.len() && !done[(#[trigger] route_node(adj, s, r, t))@ as int],
    ensures
        i <= j < r.len(),
        !done[route_node(adj, s, r, j)@ as int],
        forall|t: int| i <= t < j ==> done[(#[trigger] route_node(adj, s, r, t))@ as int],
    decreases r.len() - i,
{
    if !done[route_node(adj, s, r, i)@ as int] {
        i
    } else {
        let t0 = choose|t: int| i <= t < r.len() && !done[(#[trigger] route_node(adj, s, r, t))@ as int];
        assert(t0 != i);
        lemma_first_undone(adj, s, r, done, i + 1)
    }
}

/// Changing the weights of edges of unfinished nodes keeps the invariant:
/// a route to a finished node that uses such an edge first reaches an
/// unfinished node, and costs at least that node's distance already.
pub proof fn lemma_reweigh(adj: Seq<Seq<NodeId>>, w: Seq<Seq<u64>>, w2: Seq<Seq<u64>>, s: NodeId, dists: Seq<Option<u64>>, done: Seq<bool>, heap: Seq<(u64, NodeId)>)
    requires
        dijkstra_inv(adj, w, s, dists, done, heap),
        witnessed(adj, w, s, dists, done),
        settled_below(adj.len() as int, dists, done),
        weights_fit(adj, w2),
        agree_on_done(w, w2, done),
    ensures
        dijkstra_inv(adj, w2, s, dists, done, heap),
        witnessed(adj, w2, s, dists, done),
{
    let n = adj.len();
    assert forall|v: NodeId| v@ < n && (#[trigger] dists[v@ as int]) is Some implies exists|r: Seq<(NodeId, int)>|
        #[trigger] is_route(adj, s, r, v) && sources_done(r, done) && capped(route_cost(w2, r)) == dists[v@ as int]->0 by {
        let r = choose|r: Seq<(NodeId, int)>| #[trigger] is_route(adj, s, r, v) && sources_done(r, done) && capped(route_cost(w, r)) == dists[v@ as int]->0;
        assert forall|i: int| 0 <= i < r.len() implies r[i].0@ < done.len() && done[(#[trigger] r[i]).0@ as int] by {
            assert(route_link(adj, s, r, i));
        }
        lemma_cost_agree(adj, w, w2, s, r, done, r.len() as int);
        assert(r.take(r.len() as int) =~= r);
    }
    assert forall|v: NodeId| v@ < n && (#[trigger] dists[v@ as int]) is Some implies exists|r: Seq<(NodeId, int)>|
        #[trigger] is_route(adj, s, r, v) && capped(route_cost(w2, r)) == dists[v@ as int]->0 by {
        let r = choose|r: Seq<(NodeId, int)>| #[trigger] is_route(adj, s, r, v) && sources_done(r, done) && capped(route_cost(w2, r)) == dists[v@ as int]->0;
    }
    assert forall|v: NodeId| v@ < n && #[trigger] done[v@ as int] implies dists[v@ as int] is Some && forall|r: Seq<(NodeId, int)>|
        #[trigger] is_route(adj, s, r, v) ==> capped(route_cost(w2, r)) >= dists[v@ as int]->0 by {
        assert forall|r: Seq<(NodeId, int)>| #[trigger] is_route(adj, s, r, v) implies capped(route_cost(w2, r)) >= dists[v@ as int]->0 by {
            assert(r.take(r.len() as int) =~= r);
            lemma_route_cost_mono(w2, r, 0, r.len() as int);
            if forall|t: int| 0 <= t < r.len() ==> done[(#[trigger] route_node(adj, s, r, t))@ as int] {
                assert forall|i: int| 0 <= i < r.len() implies r[i].0@ < done.len() && done[(#[trigger] r[i]).0@ as int] by {
                    assert(route_link(adj, s, r, i));
                    lemma_route_nodes(adj, s, r, v, i);
                    assert(done[route_node(adj, s, r, i)@ as int]);
                }
                lemma_cost_agree(adj, w, w2, s, r, done, r.len() as int);
            } else {
                let j = lemma_first_undone(adj, s, r, done, 0);
                let y = route_node(adj, s, r, j);
                lemma_route_nodes(adj, s, r, v, j);
                assert forall|i: int| 0 <= i < j implies r[i].0@ < done.len() && done[(#[trigger] r[i]).0@ as int] by {
                    assert(route_link(adj, s, r, i));
                    lemma_route_nodes(adj, s, r, v, i);
                    assert(done[route_node(adj, s, r, i)@ as int]);
                }
                lemma_cost_agree(adj, w, w2, s, r, done, j);
                lemma_route_cost_mono(w2, r, j, r.len() as int);
                if j == 0 {
                    assert(y == s);
                    assert(dists[v@ as int]->0 <= dists[s@ as int]->0);
                } else {
                    let x = route_node(adj, s, r, j - 1);
                    lemma_route_nodes(adj, s, r, v, j - 1);
                    assert(done[x@ as int]);
                    lemma_route_prefix(adj, s, r, v, j - 1);
                    assert(route_link(adj, s, r, j - 1));
                    let k = r[j - 1].1;
                    assert(r[j - 1].0 == x);
                    assert(relaxed(adj, w, dists, x, k));
                    assert(is_route(adj, s, r.take(j - 1), x));
                    assert(capped(route_cost(w, r.take(j - 1))) >= dists[x@ as int]->0);
                    assert(r.take(j).drop_last() =~= r.take(j - 1));
                    lemma_route_cost_mono(w, r, 0, j - 1);
                    assert(route_cost(w, r.take(j)) == route_cost(w, r.take(j - 1)) + w[x@ as int][k]);
                    assert(y == adj[x@ as int][k]);
                    assert(dists[v@ as int]->0 <= dists[y@ as int]->0);
                }
            }
        }
    }
    assert forall|u: NodeId, k: int|
        u@ < n && done[u@ as int] && 0 <= k < adj[u@ as int].len() && !(u == s && k >= adj[s@ as int].len()) implies #[trigger] relaxed(adj, w2, dists, u, k) by {
        assert(relaxed(adj, w, dists, u, k));
        assert(w2[u@ as int] == w[u@ as int]);
    }
}

/// A finished node has no heap entry at its distance, and no node has two
/// entries of equal cost.
pub open spec fn heap_fresh(heap: Seq<(u64, NodeId)>, dists: Seq<Option<u64>>, done: Seq<bool>) -> bool {
    &&& forall|i: int| 0 <= i < heap.len() && done[(#[trigger] heap[i]).1@ as int] ==> heap[i].0 > dists[heap[i].1@ as int]->0
    &&& forall|i: int, j: int|
        0 <= i < j < heap.len() && (#[trigger] heap[i]).1 == (#[trigger] heap[j]).1 ==> heap[i].0 != heap[j].0
}

/// Removing an entry keeps the heap fresh.
pub proof fn lemma_heap_fresh_remove(heap: Seq<(u64, NodeId)>, i: int, dists: Seq<Option<u64>>, done: Seq<bool>)
    requires
        heap_fresh(heap, dists, done),
        0 <= i < heap.len(),
    ensures
        heap_fresh(heap.remove(i), dists, done),
{
    let h = heap.remove(i);
    assert forall|j: int| 0 <= j < h.len() implies #[trigger] h[j] == heap[if j < i { j } else { j + 1 }] by {}
    assert forall|a: int, b: int| 0 <= a < b < h.len() && (#[trigger] h[a]).1 == (#[trigger] h[b]).1 implies h[a].0 != h[b].0 by {
        let a2 = if a < i { a } else { a + 1 };
        let b2 = if b < i { b } else { b + 1 };
        assert(heap[a2] == h[a]);
        assert(heap[b2] == h[b]);
    }
    assert forall|j: int| 0 <= j < h.len() && done[(#[trigger] h[j]).1@ as int] implies h[j].0 > dists[h[j].1@ as int]->0 by {
        let j2 = if j < i { j } else { j + 1 };
        assert(heap[j2] == h[j]);
    }
}

/// Taking the least entry `(cost, node)` of the heap at its node's distance
/// and finishing `node` keeps the bookkeeping: the finished nodes lie no
/// further than `cost`, and the heap stays fresh.
pub proof fn lemma_settle(
    adj: Seq<Seq<NodeId>>,
    w: Seq<Seq<u64>>,
    s: NodeId,
    dists: Seq<Option<u64>>,
    done0: Seq<bool>,
    heap0: Seq<(u64, NodeId)>,
    heap: Seq<(u64, NodeId)>,
    i: int,
    cost: u64,
    node: NodeId,
)
    requires
        dijkstra_inv(adj, w, s, dists, done0, heap0),
        witnessed(adj, w, s, dists, done0),
        settled_below(adj.len() as int, dists, done0),
        heap_fresh(heap0, dists, done0),
        0 <= i < heap0.len(),
        heap0[i] == (cost, node),
        heap == heap0.remove(i),
        dists[node@ as int] == Some(cost),
        !done0[node@ as int],
        node@ < adj.len(),
        forall|j: int| 0 <= j < heap0.len() ==> cost <= (#[trigger] heap0[j]).0,
    ensures
        ({
            let done = done0.update(node@ as int, true);
            &&& witnessed(adj, w, s, dists, done)
            &&& settled_below(adj.len() as int, dists, done)
            &&& heap_fresh(heap, dists, done)
            &&& forall|v: NodeId| v@ < adj.len() && #[trigger] done[v@ as int] ==> dists[v@ as int] is Some && dists[v@ as int]->0 <= cost
        }),
{
    let n = adj.len();
    let done = done0.update(node@ as int, true);
    assert forall|v: NodeId| v@ < n && (#[trigger] dists[v@ as int]) is Some implies exists|r: Seq<(NodeId, int)>|
        #[trigger] is_route(adj, s, r, v) && sources_done(r, done) && capped(route_cost(w, r)) == dists[v@ as int]->0 by {
        let r = choose|r: Seq<(NodeId, int)>| #[trigger] is_route(adj, s, r, v) && sources_done(r, done0) && capped(route_cost(w, r)) == dists[v@ as int]->0;
        assert forall|k: int| 0 <= k < r.len() implies done[(#[trigger] r[k]).0@ as int] by {
            assert(route_link(adj, s, r, k));
            assert(done0[r[k].0@ as int]);
        }
    }
    assert forall|v: NodeId, y: NodeId|
        v@ < n && y@ < n && #[trigger] done[v@ as int] && !#[trigger] done[y@ as int] && dists[y@ as int] is Some implies dists[v@ as int]
        is Some && dists[v@ as int]->0 <= dists[y@ as int]->0 by {
        assert(heap0.contains((dists[y@ as int]->0, y)));
        let j = choose|j: int| 0 <= j < heap0.len() && heap0[j] == (dists[y@ as int]->0, y);
        assert(cost <= heap0[j].0);
        if v != node {
            assert(done0[v@ as int]);
            assert(!done0[y@ as int]);
        }
    }
    assert forall|v: NodeId| v@ < n && #[trigger] done[v@ as int] implies dists[v@ as int] is Some && dists[v@ as int]->0 <= cost by {
        if v != node {
            assert(done0[v@ as int]);
            assert(!done0[node@ as int]);
        }
    }
    lemma_heap_fresh_remove(heap0, i, dists, done0);
    assert forall|j: int| 0 <= j < heap.len() implies #[trigger] heap[j] == heap0[if j < i { j } else { j + 1 }] by {}
    assert forall|j: int| 0 <= j < heap.len() && done[(#[trigger] heap[j]).1@ as int] implies heap[j].0 > dists[heap[j].1@ as int]->0 by {
        let j2 = if j < i { j } else { j + 1 };
        assert(heap0[j2] == heap[j]);
        if heap[j].1 == node {
            assert(dists[heap0[j2].1@ as int]->0 <= heap0[j2].0);
            if j2 < i {
                assert(heap0[j2].0 != heap0[i].0);
            } else {
                assert(heap0[i].0 != heap0[j2].0);
            }
        } else {
            assert(done0[heap[j].1@ as int]);
        }
    }
}

} // verus!
