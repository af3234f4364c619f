use vstd::prelude::*;

use std::collections::VecDeque;

use crate::error::validate_node_id;

use vstd::string::StringExecFns;
use crate::graph::Graph;
use crate::id::NodeId;
use crate::paths::{ids_where, lemma_ids_where_push, lemma_total_degree_mono, total_degree};
use crate::shortest::{
    capped, dijkstra_inv, dijkstra_inv_except, is_route, lemma_dijkstra_done, lemma_min_entry_final,
    lemma_potential_update, lemma_route_empty, lemma_route_extend, lemma_reweigh, potential, relaxed, route_cost,
    shortest_distances, weights_fit, witnessed, settled_below, heap_fresh, sources_done, lemma_heap_fresh_remove,
    lemma_settle, lemma_route_reachable,
};
use crate::topo::{
    in_degrees, is_topological_order, kahn_inv, kahn_order, kahn_run, lemma_in_degrees,
    lemma_kahn_order, lemma_kahn_size, lemma_kahn_start, lemma_kahn_step, lemma_occurrences,
    lemma_pending_bound, occurrences, pending_in, release, sources, taken_marks,
};

verus! {

broadcast use crate::id::group_node_id;

/// Error indicating a graph contains a cycle when a directed acyclic graph was expected.
#[derive(Clone, Copy, Debug, Eq, PartialEq, Structural)]
pub struct CycleError;

impl CycleError {
    /// Describes the error in words.
    pub fn to_string(&self) -> (s: String)
        ensures
            s@ == "graph contains at least one cycle"@,
    {
        String::from_str("graph contains at least one cycle")
    }
}

proof fn lemma_release_len(nbrs: Seq<NodeId>, indeg: Seq<u32>)
    requires
        forall|i: int| 0 <= i < nbrs.len() ==> (#[trigger] nbrs[i])@ < indeg.len(),
    ensures
        release(nbrs, indeg).0.len() == indeg.len(),
    decreases nbrs.len(),
{
    if nbrs.len() > 0 {
        assert forall|i: int| 0 <= i < nbrs.drop_last().len() implies (#[trigger] nbrs.drop_last()[i])@ < indeg.len() by {
            assert(nbrs.drop_last()[i] == nbrs[i]);
        }
        lemma_release_len(nbrs.drop_last(), indeg);
        assert(nbrs.last() == nbrs[nbrs.len() - 1]);
    }
}

impl<N, E> Graph<N, E> {
    /// In-degree of every node, counting parallel edges.
    fn count_in_degrees(&self) -> (r: Vec<u32>)
        ensures
            r@ == in_degrees(self.spec_adj()),
    {
        let n = self.node_count();
        let ghost adj = self.spec_adj();
        let ghost none = taken_marks(Seq::<NodeId>::empty(), n as nat);
        let mut counts: Vec<u32> = Vec::with_capacity(n);
        let mut i: usize = 0;
        while i < n
            invariant
                i <= n,
                counts@.len() == i,
                forall|j: int| 0 <= j < i ==> counts@[j] == 0,
            decreases n - i,
        {
            counts.push(0);
            i = i + 1;
        }
        let mut i: usize = 0;
        while i < n
            invariant
                i <= n,
                n == adj.len(),
                adj == self.spec_adj(),
                self.shape_ok(),
                none == taken_marks(Seq::<NodeId>::empty(), n as nat),
                counts@.len() == n,
                forall|v: NodeId| v@ < n ==> #[trigger] counts@[v@ as int] as int == pending_in(adj, none, v, i as int),
            decreases n - i,
        {
            let deg = self.degree_at(i);
            let ghost nbrs = adj[i as int];
            let mut k: usize = 0;
            while k < deg
                invariant
                    k <= deg,
                    i < n,
                    n == adj.len(),
                    adj == self.spec_adj(),
                    self.shape_ok(),
                    nbrs == adj[i as int],
                    deg == nbrs.len(),
                    none == taken_marks(Seq::<NodeId>::empty(), n as nat),
                    counts@.len() == n,
                    forall|v: NodeId|
                        v@ < n ==> #[trigger] counts@[v@ as int] as int == pending_in(adj, none, v, i as int)
                            + occurrences(nbrs.take(k as int), v),
                decreases deg - k,
            {
                let t = self.target_at(i, k);
                let ti = t.index();
                proof {
                    assert(nbrs.take(k + 1).drop_last() =~= nbrs.take(k as int));
                    lemma_pending_bound(adj, none, t, i as int);
                    lemma_occurrences(nbrs.take(k as int), t);
                    lemma_total_degree_mono(adj, i + 1, n as int);
                    assert(total_degree(adj, i + 1) == total_degree(adj, i as int) + deg);
                }
                let c = counts[ti];
                counts.set(ti, c + 1);
                k = k + 1;
            }
            proof {
                assert(nbrs.take(deg as int) =~= nbrs);
            }
            i = i + 1;
        }
        proof {
            lemma_in_degrees(adj);
            assert forall|j: int| 0 <= j < n implies counts@[j] == in_degrees(adj)[j] by {
                let v = NodeId::from_index(j);
                assert(counts@[v@ as int] as int == pending_in(adj, none, v, n as int));
            }
            assert(counts@ =~= in_degrees(adj));
        }
        counts
    }

    /// The order in which Kahn's algorithm takes the nodes; it lists every
    /// node exactly when the graph is acyclic.
    pub(crate) fn kahn(&self) -> (r: Vec<NodeId>)
        ensures
            r@ == kahn_order(self.spec_adj()),
    {
        let n = self.node_count();
        let ghost adj = self.spec_adj();
        let mut in_degrees = self.count_in_degrees();
        let ghost deg0 = in_degrees@;
        let ghost pred = |x: NodeId| deg0[x@ as int] == 0;
        let mut queue: VecDeque<NodeId> = VecDeque::new();
        let mut i: usize = 0;
        proof {
            reveal(Seq::filter);
            assert(ids_where(0, pred) =~= Seq::<NodeId>::empty());
        }
        while i < n
            invariant
                i <= n,
                n <= u32::MAX,
                in_degrees@ == deg0,
                deg0.len() == n,
                pred == (|x: NodeId| deg0[x@ as int] == 0),
                queue@ == ids_where(i as nat, pred),
            decreases n - i,
        {
            proof {
                lemma_ids_where_push(i as nat, pred);
            }
            if in_degrees[i] == 0 {
                queue.push_back(NodeId::new(i as u32));
            }
            i = i + 1;
        }
        proof {
            lemma_kahn_start(adj);
            assert(queue@ == sources(deg0));
        }
        let ghost target = kahn_run(adj, deg0, queue@, n as nat);
        let mut order: Vec<NodeId> = Vec::with_capacity(n);
        proof {
            assert(order@ + target.0 =~= target.0);
        }
        loop
            invariant
                n == adj.len(),
                adj == self.spec_adj(),
                self.shape_ok(),
                kahn_inv(adj, order@, in_degrees@, queue@),
                order@.len() <= n,
                target == ({
                    let (rest, last) = kahn_run(adj, in_degrees@, queue@, (n - order@.len()) as nat);
                    (order@ + rest, last)
                }),
            ensures
                queue@.len() == 0,
            decreases n - order@.len(),
        {
            proof {
                lemma_kahn_size(adj, order@, in_degrees@, queue@);
            }
            let ghost q_before = queue@;
            let ghost o_before = order@;
            let ghost d0 = in_degrees@;
            match queue.pop_front() {
                None => {
                    break;
                },
                Some(node) => {
                    proof {
                        lemma_kahn_step(adj, o_before, d0, q_before);
                    }
                    order.push(node);
                    let ui = node.index();
                    let deg = self.degree_at(ui);
                    let ghost nbrs = adj[ui as int];
                    let ghost q_rest = queue@;
                    proof {
                        assert(nbrs.take(0) =~= Seq::<NodeId>::empty());
                        assert(q_rest + Seq::<NodeId>::empty() =~= q_rest);
                    }
                    let mut k: usize = 0;
                    while k < deg
                        invariant
                            k <= deg,
                            ui < n,
                            n == adj.len(),
                            adj == self.spec_adj(),
                            self.shape_ok(),
                            nbrs == adj[ui as int],
                            deg == nbrs.len(),
                            d0.len() == n,
                            in_degrees@ == release(nbrs.take(k as int), d0).0,
                            queue@ == q_rest + release(nbrs.take(k as int), d0).1,
                        decreases deg - k,
                    {
                        let t = self.target_at(ui, k);
                        let idx = t.index();
                        proof {
                            assert forall|j: int| 0 <= j < nbrs.take(k as int).len() implies (#[trigger] nbrs.take(k as int)[j])@ < d0.len() by {
                                assert(nbrs.take(k as int)[j] == nbrs[j]);
                            }
                            lemma_release_len(nbrs.take(k as int), d0);
                            assert(nbrs.take(k + 1).drop_last() =~= nbrs.take(k as int));
                        }
                        let nc = in_degrees[idx].saturating_sub(1);
                        in_degrees.set(idx, nc);
                        if nc == 0 {
                            queue.push_back(t);
                        }
                        k = k + 1;
                        proof {
                            assert(queue@ =~= q_rest + release(nbrs.take(k as int), d0).1);
                        }
                    }
                    proof {
                        assert(nbrs.take(deg as int) =~= nbrs);
                        let fuel = (n - o_before.len()) as nat;
                        let (rest, last) = kahn_run(adj, in_degrees@, queue@, (fuel - 1) as nat);
                        assert(o_before + (seq![node] + rest) =~= order@ + rest);
                    }
                },
            }
        }
        proof {
            assert(order@ + Seq::<NodeId>::empty() =~= order@);
        }
        order
    }

    /// Computes a topological ordering of all nodes: the order in which
    /// Kahn's algorithm takes them, starting from the nodes of in-degree zero
    /// in index order.
    ///
    /// Returns `Err(CycleError)` if the graph contains any directed cycle.
    pub fn topological_sort(&self) -> (r: Result<Vec<NodeId>, CycleError>)
        ensures
            r is Ok <==> !crate::paths::has_cycle(self.spec_adj()),
            r matches Ok(order) ==> order@ == kahn_order(self.spec_adj()) && is_topological_order(
                self.spec_adj(),
                order@,
            ),
    {
        let n = self.node_count();
        let order = self.kahn();
        proof {
            lemma_kahn_order(self.spec_adj());
        }
        if order.len() == n {
            Ok(order)
        } else {
            Err(CycleError)
        }
    }

    /// Returns `true` if the graph contains at least one directed cycle.
    pub fn has_cycle(&self) -> (b: bool)
        ensures
            b == crate::paths::has_cycle(self.spec_adj()),
    {
        self.topological_sort().is_err()
    }
}

/// Removes and returns an entry of least cost, preferring the larger node
/// among entries of equal cost.
fn pop_min(heap: &mut Vec<(u64, NodeId)>) -> (e: (u64, NodeId))
    requires
        old(heap)@.len() > 0,
    ensures
        exists|i: int| 0 <= i < old(heap)@.len() && e == old(heap)@[i] && final(heap)@ == old(heap)@.remove(i),
        forall|j: int| 0 <= j < old(heap)@.len() ==> e.0 <= (#[trigger] old(heap)@[j]).0,
{
    let mut best: usize = 0;
    let mut i: usize = 1;
    while i < heap.len()
        invariant
            best < i <= heap@.len(),
            forall|j: int| 0 <= j < i ==> heap@[best as int].0 <= (#[trigger] heap@[j]).0,
        decreases heap@.len() - i,
    {
        let ci = heap[i].0;
        let cb = heap[best].0;
        if ci < cb || (ci == cb && heap[i].1.index() > heap[best].1.index()) {
            best = i;
        }
        i = i + 1;
    }
    heap.remove(best)
}

impl<N, E> Graph<N, E> {
    /// Dijkstra's algorithm from `start`. The edges of a node are weighed by
    /// `edge_weight`, in adjacency order, when that node is taken from the
    /// heap with its final distance; no other edge is weighed.
    fn shortest_paths<F>(&self, start: NodeId, edge_weight: F) -> (dists: Vec<Option<u64>>)
        where
            F: Fn(&E) -> u64,
        requires
            start@ < self.spec_node_count(),
            accepts_reached(edge_weight, self.spec_adj(), self.spec_out_data(), start),
        ensures
            exists|w: Seq<Seq<u64>>|
                weighs_found(edge_weight, self.spec_out_data(), w, dists@) && shortest_distances(
                    self.spec_adj(),
                    w,
                    start,
                    dists@,
                ),
    {
        let n = self.node_count();
        let ghost adj = self.spec_adj();
        let ghost data = self.spec_out_data();
        let ghost mut w: Seq<Seq<u64>> = Seq::new(n as nat, |u: int| Seq::new(adj[u].len(), |k: int| 0u64));
        let mut dists: Vec<Option<u64>> = Vec::with_capacity(n);
        let mut i: usize = 0;
        while i < n
            invariant
                i <= n,
                dists@.len() == i,
                forall|j: int| 0 <= j < i ==> dists@[j] is None,
            decreases n - i,
        {
            dists.push(None);
            i = i + 1;
        }
        let si = start.index();
        dists.set(si, Some(0));
        let mut heap: Vec<(u64, NodeId)> = Vec::new();
        heap.push((0, start));
        let ghost mut done: Seq<bool> = Seq::new(n as nat, |i: int| false);
        proof {
            lemma_route_empty(adj, w, start);
            assert(heap@[0] == (0u64, start));
            assert forall|v: NodeId| v@ < n && (#[trigger] dists@[v@ as int]) is Some implies exists|r: Seq<(NodeId, int)>|
                #[trigger] is_route(adj, start, r, v) && capped(route_cost(w, r)) == dists@[v@ as int]->0 by {
                assert(v == start);
                assert(is_route(adj, start, Seq::empty(), v));
            }
            assert forall|v: NodeId| v@ < n && (#[trigger] dists@[v@ as int]) is Some && !done[v@ as int] implies heap@.contains((dists@[v@ as int]->0, v)) by {
                assert(v == start);
                assert(heap@[0] == (0u64, start));
            }
            assert forall|v: NodeId| v@ < n && (#[trigger] dists@[v@ as int]) is Some implies exists|r: Seq<(NodeId, int)>|
                #[trigger] is_route(adj, start, r, v) && sources_done(r, done) && capped(route_cost(w, r)) == dists@[v@ as int]->0 by {
                assert(v == start);
                assert(is_route(adj, start, Seq::empty(), v));
                assert(sources_done(Seq::empty(), done));
            }
        }
        loop
            invariant
                n == adj.len(),
                adj == self.spec_adj(),
                data == self.spec_out_data(),
                self.shape_ok(),
                accepts_reached(edge_weight, adj, data, start),
                dijkstra_inv(adj, w, start, dists@, done, heap@),
                witnessed(adj, w, start, dists@, done),
                settled_below(n as int, dists@, done),
                heap_fresh(heap@, dists@, done),
                forall|u: int, k: int|
                    0 <= u < n && done[u] && 0 <= k < adj[u].len() ==> edge_weight.ensures((&data[u][k],), #[trigger] w[u][k]),
            ensures
                heap@.len() == 0,
            decreases potential(dists@, n as int) + heap@.len(),
        {
            if heap.len() == 0 {
                break;
            }
            let ghost heap0 = heap@;
            let ghost pot_top = potential(dists@, n as int);
            let (cost, node) = pop_min(&mut heap);
            let ui = node.index();
            proof {
                let i = choose|i: int| 0 <= i < heap0.len() && (cost, node) == heap0[i] && heap@ == heap0.remove(i);
                assert(heap0[i].1@ < n);
                assert forall|j: int| 0 <= j < heap@.len() implies #[trigger] heap@[j] == heap0[if j < i { j } else { j + 1 }] by {
                }
            }
            let stale = match dists[ui] {
                Some(cd) => cost > cd,
                None => false,
            };
            if stale {
                proof {
                    let i = choose|i: int| 0 <= i < heap0.len() && (cost, node) == heap0[i] && heap@ == heap0.remove(i);
                    assert forall|v: NodeId| v@ < n && (#[trigger] dists@[v@ as int]) is Some && !done[v@ as int] implies heap@.contains((dists@[v@ as int]->0, v)) by {
                        let j = choose|j: int| 0 <= j < heap0.len() && heap0[j] == (dists@[v@ as int]->0, v);
                        if j < i {
                            assert(heap@[j] == heap0[j]);
                        } else {
                            assert(j != i);
                            assert(heap@[j - 1] == heap0[j]);
                        }
                    }
                    lemma_potential_update(dists@, 0, 0, n as int);
                    assert(potential(dists@, n as int) + heap@.len() < pot_top + heap0.len());
                    lemma_heap_fresh_remove(heap0, i, dists@, done);
                }
            } else {
            let ghost d_before = dists@;
            proof {
                let i = choose|i: int| 0 <= i < heap0.len() && (cost, node) == heap0[i] && heap@ == heap0.remove(i);
                assert(dists@[node@ as int] is Some);
                let r = choose|r: Seq<(NodeId, int)>| #[trigger] is_route(adj, start, r, node) && sources_done(r, done) && capped(route_cost(w, r)) == dists@[node@ as int]->0;
                lemma_route_reachable(adj, start, r, node);
            }
            let deg = self.degree_at(ui);
            let mut row: Vec<u64> = Vec::with_capacity(deg);
            let mut k: usize = 0;
            while k < deg
                invariant
                    k <= deg,
                    ui < n,
                    n == self.spec_node_count(),
                    self.shape_ok(),
                    data == self.spec_out_data(),
                    deg == adj[ui as int].len(),
                    adj == self.spec_adj(),
                    accepts_reached(edge_weight, adj, data, start),
                    crate::paths::reachable(adj, start, node),
                    node@ == ui,
                    row@.len() == k,
                    forall|j: int| 0 <= j < k ==> edge_weight.ensures((&data[ui as int][j],), #[trigger] row@[j]),
                decreases deg - k,
            {
                let x = edge_weight(self.payload_at(ui, k));
                row.push(x);
                k = k + 1;
            }
            proof {
                let i = choose|i: int| 0 <= i < heap0.len() && (cost, node) == heap0[i] && heap@ == heap0.remove(i);
                assert(dists@[node@ as int] == Some(cost));
                assert(!done[node@ as int]) by {
                    if done[node@ as int] {
                        assert(heap0[i].0 > dists@[heap0[i].1@ as int]->0);
                    }
                }
                let w2 = w.update(node@ as int, row@);
                assert forall|u: int| 0 <= u < adj.len() implies (#[trigger] w2[u]).len() == adj[u].len() by {}
                lemma_reweigh(adj, w, w2, start, dists@, done, heap0);
                w = w2;
                lemma_min_entry_final(adj, w, start, dists@, done, heap0, cost, node);
                // The heap without the popped entry still covers every unfinished node but `node`.
                assert forall|v: NodeId| v@ < n && (#[trigger] dists@[v@ as int]) is Some && !done.update(node@ as int, true)[v@ as int] implies heap@.contains((dists@[v@ as int]->0, v)) by {
                    let j = choose|j: int| 0 <= j < heap0.len() && heap0[j] == (dists@[v@ as int]->0, v);
                    if j < i {
                        assert(heap@[j] == heap0[j]);
                    } else {
                        assert(j != i);
                        assert(heap@[j - 1] == heap0[j]);
                    }
                }
                let done0 = done;
                lemma_heap_fresh_remove(heap0, i, dists@, done0);
                done = done.update(node@ as int, true);
                lemma_potential_update(dists@, 0, 0, n as int);
                lemma_settle(adj, w, start, dists@, done0, heap0, heap@, i, cost, node);
            }
            let ghost pot0 = potential(dists@, n as int);
            let ghost h0 = heap@.len();
            let mut k: usize = 0;
            while k < deg
                invariant
                    k <= deg,
                    deg == adj[node@ as int].len(),
                    ui == node@,
                    node@ < n,
                    n == adj.len(),
                    adj == self.spec_adj(),
                    self.shape_ok(),
                    data == self.spec_out_data(),
                    accepts_reached(edge_weight, adj, data, start),
                    w[node@ as int] == row@,
                    row@.len() == deg,
                    dists@[node@ as int] == Some(cost),
                    done[node@ as int],
                    dijkstra_inv_except(adj, w, start, dists@, done, heap@, node, k as int),
                    witnessed(adj, w, start, dists@, done),
                    settled_below(n as int, dists@, done),
                    heap_fresh(heap@, dists@, done),
                    forall|v: NodeId| v@ < n && #[trigger] done[v@ as int] ==> dists@[v@ as int] is Some && dists@[v@ as int]->0 <= cost,
                    forall|u: int, k2: int|
                        0 <= u < n && done[u] && 0 <= k2 < adj[u].len() ==> edge_weight.ensures((&data[u][k2],), #[trigger] w[u][k2]),
                    potential(dists@, n as int) + (heap@.len() - h0) <= pot0,
                    heap@.len() >= h0,
                decreases deg - k,
            {
                let t = self.target_at(ui, k);
                let ti = t.index();
                let wt = row[k];
                let next = cost.saturating_add(wt);
                let ghost d_old = dists@;
                let ghost h_old = heap@;
                proof {
                    let r = choose|r: Seq<(NodeId, int)>| #[trigger] is_route(adj, start, r, node) && sources_done(r, done) && capped(route_cost(w, r)) == cost;
                    lemma_route_extend(adj, w, start, r, node, k as int);
                    assert(next == capped(route_cost(w, r.push((node, k as int)))));
                    assert(is_route(adj, start, r.push((node, k as int)), t));
                }
                let shorter = match dists[ti] {
                    Some(d) => next < d,
                    None => true,
                };
                if shorter {
                    dists.set(ti, Some(next));
                    heap.push((next, t));
                    proof {
                        lemma_potential_update(d_old, ti as int, next, n as int);
                        let r = choose|r: Seq<(NodeId, int)>| #[trigger] is_route(adj, start, r, node) && sources_done(r, done) && capped(route_cost(w, r)) == cost;
                        lemma_route_extend(adj, w, start, r, node, k as int);
                        assert(!done[t@ as int]) by {
                            if done[t@ as int] {
                                assert(is_route(adj, start, r.push((node, k as int)), t));
                            }
                        }
                        assert(heap@[heap@.len() - 1] == (next, t));
                        assert forall|v: NodeId| v@ < n && (#[trigger] dists@[v@ as int]) is Some implies exists|r2: Seq<(NodeId, int)>|
                            #[trigger] is_route(adj, start, r2, v) && capped(route_cost(w, r2)) == dists@[v@ as int]->0 by {
                            if v == t {
                                assert(is_route(adj, start, r.push((node, k as int)), v));
                            } else {
                                assert(d_old[v@ as int] == dists@[v@ as int]);
                            }
                        }
                        assert forall|j: int| 0 <= j < heap@.len() implies dists@[(#[trigger] heap@[j]).1@ as int] is Some && dists@[heap@[j].1@ as int]->0 <= heap@[j].0 by {
                            if j < h_old.len() {
                                assert(heap@[j] == h_old[j]);
                            }
                        }
                        assert forall|v: NodeId| v@ < n && (#[trigger] dists@[v@ as int]) is Some && !done[v@ as int] implies heap@.contains((dists@[v@ as int]->0, v)) by {
                            if v == t {
                                assert(heap@[heap@.len() - 1] == (next, t));
                            } else {
                                assert(d_old[v@ as int] == dists@[v@ as int]);
                                let j = choose|j: int| 0 <= j < h_old.len() && h_old[j] == (d_old[v@ as int]->0, v);
                                assert(heap@[j] == h_old[j]);
                            }
                        }
                        assert forall|v: NodeId| v@ < n && #[trigger] done[v@ as int] implies dists@[v@ as int] is Some && forall|r2: Seq<(NodeId, int)>|
                            #[trigger] is_route(adj, start, r2, v) ==> capped(route_cost(w, r2)) >= dists@[v@ as int]->0 by {
                            assert(v != t);
                            assert(d_old[v@ as int] == dists@[v@ as int]);
                        }
                        assert forall|u: NodeId, k2: int| u@ < n && done[u@ as int] && 0 <= k2 < adj[u@ as int].len() && !(u == node && k2 >= k + 1) implies #[trigger] relaxed(adj, w, dists@, u, k2) by {
                            assert(u != t);
                            if u == node && k2 == k {
                            } else {
                                assert(relaxed(adj, w, d_old, u, k2));
                            }
                        }
                        let r2 = r.push((node, k as int));
                        assert(sources_done(r2, done)) by {
                            assert forall|i: int| 0 <= i < r2.len() implies done[(#[trigger] r2[i]).0@ as int] by {
                                if i < r.len() {
                                    assert(r2[i] == r[i]);
                                }
                            }
                        }
                        assert forall|v: NodeId| v@ < n && (#[trigger] dists@[v@ as int]) is Some implies exists|r3: Seq<(NodeId, int)>|
                            #[trigger] is_route(adj, start, r3, v) && sources_done(r3, done) && capped(route_cost(w, r3)) == dists@[v@ as int]->0 by {
                            if v == t {
                                assert(is_route(adj, start, r2, v));
                            } else {
                                assert(d_old[v@ as int] == dists@[v@ as int]);
                            }
                        }
                        assert(!done[t@ as int]);
                        assert forall|v: NodeId, y: NodeId|
                            v@ < n && y@ < n && #[trigger] done[v@ as int] && !#[trigger] done[y@ as int] && dists@[y@ as int] is Some
                                implies dists@[v@ as int] is Some && dists@[v@ as int]->0 <= dists@[y@ as int]->0 by {
                            assert(v != t);
                            if y != t {
                                assert(d_old[y@ as int] == dists@[y@ as int]);
                            }
                        }
                        assert forall|j: int| 0 <= j < heap@.len() && done[(#[trigger] heap@[j]).1@ as int] implies heap@[j].0 > dists@[heap@[j].1@ as int]->0 by {
                            assert(heap@[j] == h_old[j]);
                        }
                        assert forall|a: int, b: int|
                            0 <= a < b < heap@.len() && (#[trigger] heap@[a]).1 == (#[trigger] heap@[b]).1 implies heap@[a].0 != heap@[b].0 by {
                            assert(heap@[a] == h_old[a]);
                            if b < h_old.len() {
                                assert(heap@[b] == h_old[b]);
                            } else {
                                assert(heap@[b] == (next, t));
                                assert(d_old[h_old[a].1@ as int] is Some && d_old[h_old[a].1@ as int]->0 <= h_old[a].0);
                            }
                        }
                        assert forall|v: NodeId| v@ < n && #[trigger] done[v@ as int] implies dists@[v@ as int] is Some && dists@[v@ as int]->0 <= cost by {
                            assert(v != t);
                        }
                    }
                } else {
                    proof {
                        assert forall|u: NodeId, k2: int| u@ < n && done[u@ as int] && 0 <= k2 < adj[u@ as int].len() && !(u == node && k2 >= k + 1) implies #[trigger] relaxed(adj, w, dists@, u, k2) by {
                            if u == node && k2 == k {
                            } else {
                                assert(relaxed(adj, w, d_old, u, k2));
                            }
                        }
                    }
                }
                k = k + 1;
            }
            proof {
                assert(dijkstra_inv(adj, w, start, dists@, done, heap@));
                lemma_potential_update(dists@, 0, 0, n as int);
                assert(pot0 == pot_top);
                assert(h0 == heap0.len() - 1);
                assert(potential(dists@, n as int) + heap@.len() < pot_top + heap0.len());
                assert(potential(dists@, n as int) >= 0);
            }
            }
        }
        proof {
            lemma_dijkstra_done(adj, w, start, dists@, done);
            assert forall|u: int, k: int|
                0 <= u < data.len() && dists@[u] is Some && 0 <= k < data[u].len() implies edge_weight.ensures(
                    (&data[u][k],),
                    #[trigger] w[u][k],
                ) by {
                let v = NodeId::from_index(u);
                assert(v@ == u);
                assert(done[u]) by {
                    if !done[u] {
                        assert(Seq::<(u64, NodeId)>::empty().contains((dists@[v@ as int]->0, v)));
                    }
                }
                assert(adj[u].len() == data[u].len());
            }
            assert(weighs_found(edge_weight, data, w, dists@));
        }
        dists
    }
}

/// `edge_weight` accepts the payload of every edge out of a node that
/// `start` reaches.
pub open spec fn accepts_reached<E, F: Fn(&E) -> u64>(edge_weight: F, adj: Seq<Seq<NodeId>>, out_data: Seq<Seq<E>>, start: NodeId) -> bool {
    forall|u: NodeId, k: int|
        #![trigger crate::paths::reachable(adj, start, u), out_data[u@ as int][k]]
        u@ < adj.len() && crate::paths::reachable(adj, start, u) && 0 <= k < out_data[u@ as int].len()
            ==> edge_weight.requires((&out_data[u@ as int][k],))
}

/// `w` has one weight per edge, and each edge of a node whose distance was
/// found has a weight that `edge_weight` gives for its payload.
pub open spec fn weighs_found<E, F: Fn(&E) -> u64>(edge_weight: F, out_data: Seq<Seq<E>>, w: Seq<Seq<u64>>, dists: Seq<Option<u64>>) -> bool {
    &&& w.len() == out_data.len()
    &&& forall|u: int| 0 <= u < out_data.len() ==> (#[trigger] w[u]).len() == out_data[u].len()
    &&& forall|u: int, k: int|
        0 <= u < out_data.len() && dists[u] is Some && 0 <= k < out_data[u].len() ==> edge_weight.ensures(
            (&out_data[u][k],),
            #[trigger] w[u][k],
        )
}

impl<N, E> Graph<N, E> {
    /// Computes single-source shortest path distances with Dijkstra's algorithm.
    ///
    /// `edge_weight` maps an edge payload to its weight; it is applied to the
    /// edges of each node reached, when that node's distance is settled, and
    /// to no other edge. Route costs saturate at `u64::MAX`. Returns `None` if `start` is out of bounds; otherwise
    /// entry `v` is the least route cost from `start` to `v`, or `None` when
    /// no route reaches `v`.
    pub fn dijkstra<F>(&self, start: NodeId, edge_weight: F) -> (r: Option<Vec<Option<u64>>>)
        where
            F: Fn(&E) -> u64,
        requires
            accepts_reached(edge_weight, self.spec_adj(), self.spec_out_data(), start),
        ensures
            start@ >= self.spec_node_count() ==> r is None,
            start@ < self.spec_node_count() ==> (r matches Some(d) && exists|w: Seq<Seq<u64>>|
                weighs_found(edge_weight, self.spec_out_data(), w, d@) && shortest_distances(
                    self.spec_adj(),
                    w,
                    start,
                    d@,
                )),
    {
        let n = self.node_count();
        match validate_node_id(start, n) {
            Err(_) => {
                return None;
            },
            Ok(()) => {},
        }
        let dists = self.shortest_paths(start, edge_weight);
        proof {
            let w = choose|w: Seq<Seq<u64>>|
                weighs_found(edge_weight, self.spec_out_data(), w, dists@) && shortest_distances(
                    self.spec_adj(),
                    w,
                    start,
                    dists@,
                );
            assert(weighs_found(edge_weight, self.spec_out_data(), w, dists@));
            assert(shortest_distances(self.spec_adj(), w, start, dists@));
        }
        let r = Some(dists);
        proof {
            assert(r matches Some(d) && d@ == dists@);
        }
        r
    }
}

} // verus!
