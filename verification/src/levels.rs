use vstd::prelude::*;

use crate::id::NodeId;
use crate::paths::{is_edge, is_walk, lemma_reachable_step, reachable, targets_valid, walk_step};
use crate::search::{lemma_scan, lemma_search_start, lemma_search_step, root_marks, scan, search_inv, search_run, search_step};

verus! {

broadcast use crate::id::group_node_id;

/// Some walk of at most `d` edges leads from `s` to `v`.
pub open spec fn within(adj: Seq<Seq<NodeId>>, s: NodeId, v: NodeId, d: nat) -> bool {
    exists|p: Seq<NodeId>| #[trigger] is_walk(adj, p) && p[0] == s && p.last() == v && p.len() <= d + 1
}

/// `d` is the least bound for which `within` holds.
pub open spec fn least_bound(adj: Seq<Seq<NodeId>>, s: NodeId, v: NodeId, d: nat) -> bool {
    within(adj, s, v, d) && (d == 0 || !within(adj, s, v, (d - 1) as nat))
}

/// The number of edges on a shortest walk from `s` to `v` (meaningful when
/// `v` is reachable from `s`).
pub open spec fn distance(adj: Seq<Seq<NodeId>>, s: NodeId, v: NodeId) -> nat {
    choose|d: nat| #[trigger] least_bound(adj, s, v, d)
}

/// A bound that holds stays true when it is raised.
proof fn lemma_within_mono(adj: Seq<Seq<NodeId>>, s: NodeId, v: NodeId, a: nat, b: nat)
    requires
        within(adj, s, v, a),
        a <= b,
    ensures
        within(adj, s, v, b),
{
    let p = choose|p: Seq<NodeId>| #[trigger] is_walk(adj, p) && p[0] == s && p.last() == v && p.len() <= a + 1;
    assert(is_walk(adj, p) && p[0] == s && p.last() == v && p.len() <= b + 1);
}

/// Below any bound that holds there is a least one.
proof fn lemma_least_bound(adj: Seq<Seq<NodeId>>, s: NodeId, v: NodeId, d: nat)
    requires
        within(adj, s, v, d),
    ensures
        exists|e: nat| e <= d && #[trigger] least_bound(adj, s, v, e),
    decreases d,
{
    if d > 0 && within(adj, s, v, (d - 1) as nat) {
        lemma_least_bound(adj, s, v, (d - 1) as nat);
    } else {
        assert(least_bound(adj, s, v, d));
    }
}

/// The distance to a reachable node is the least number of edges on a walk
/// to it: a walk of at most `d` edges exists exactly when `d` is at least it.
pub proof fn lemma_distance(adj: Seq<Seq<NodeId>>, s: NodeId, v: NodeId)
    requires
        reachable(adj, s, v),
    ensures
        within(adj, s, v, distance(adj, s, v)),
        forall|d: nat| #[trigger] within(adj, s, v, d) <==> distance(adj, s, v) <= d,
{
    let p = choose|p: Seq<NodeId>| #[trigger] is_walk(adj, p) && p[0] == s && p.last() == v;
    assert(within(adj, s, v, (p.len() - 1) as nat));
    lemma_least_bound(adj, s, v, (p.len() - 1) as nat);
    let e = distance(adj, s, v);
    assert(least_bound(adj, s, v, e));
    assert forall|d: nat| #[trigger] within(adj, s, v, d) <==> e <= d by {
        if e <= d {
            lemma_within_mono(adj, s, v, e, d);
        }
        if within(adj, s, v, d) && d < e {
            lemma_within_mono(adj, s, v, d, (e - 1) as nat);
        }
    }
}

/// Following an edge adds at most one to a bound.
proof fn lemma_within_step(adj: Seq<Seq<NodeId>>, s: NodeId, u: NodeId, w: NodeId, d: nat)
    requires
        within(adj, s, u, d),
        is_edge(adj, u, w),
        w@ < adj.len(),
    ensures
        within(adj, s, w, d + 1),
{
    let p = choose|p: Seq<NodeId>| #[trigger] is_walk(adj, p) && p[0] == s && p.last() == u && p.len() <= d + 1;
    let q = p.push(w);
    assert forall|i: int| 0 <= i < q.len() - 1 implies #[trigger] walk_step(adj, q, i) by {
        if i < p.len() - 1 {
            assert(walk_step(adj, p, i));
        }
    }
    assert(is_walk(adj, q));
}

/// A node other than `s` within `d + 1` edges has a predecessor within `d`.
proof fn lemma_within_pred(adj: Seq<Seq<NodeId>>, s: NodeId, w: NodeId, d: nat) -> (p: NodeId)
    requires
        within(adj, s, w, d + 1),
        w != s,
    ensures
        is_edge(adj, p, w),
        within(adj, s, p, d),
{
    let q = choose|q: Seq<NodeId>| #[trigger] is_walk(adj, q) && q[0] == s && q.last() == w && q.len() <= d + 2;
    let r = q.drop_last();
    assert(q.len() >= 2);
    assert(walk_step(adj, q, q.len() - 2));
    assert forall|i: int| 0 <= i < r.len() - 1 implies #[trigger] walk_step(adj, r, i) by {
        assert(walk_step(adj, q, i));
    }
    assert(is_walk(adj, r));
    q[q.len() - 2]
}

/// What breadth-first search keeps about distances from `root`: the taken
/// nodes followed by the queue are in nondecreasing distance, the queue
/// spans at most two consecutive distances, and every node within the
/// distance of the queue's front is marked.
pub open spec fn level_inv(
    adj: Seq<Seq<NodeId>>,
    root: NodeId,
    emitted: Seq<NodeId>,
    visited: Seq<bool>,
    frontier: Seq<NodeId>,
) -> bool {
    let all = emitted + frontier;
    &&& forall|i: int, j: int|
        0 <= i < j < all.len() ==> distance(adj, root, #[trigger] all[i]) <= distance(adj, root, #[trigger] all[j])
    &&& frontier.len() > 0 ==> distance(adj, root, frontier.last()) <= distance(adj, root, frontier[0]) + 1
    &&& frontier.len() > 0 ==> forall|v: NodeId|
        v@ < adj.len() && #[trigger] within(adj, root, v, distance(adj, root, frontier[0])) ==> visited[v@ as int]
}

/// One breadth-first step keeps the distance facts.
proof fn lemma_level_step(
    adj: Seq<Seq<NodeId>>,
    root: NodeId,
    emitted: Seq<NodeId>,
    visited: Seq<bool>,
    frontier: Seq<NodeId>,
)
    requires
        search_inv(adj, root, emitted, visited, frontier),
        level_inv(adj, root, emitted, visited, frontier),
        frontier.len() > 0,
    ensures
        ({
            let (marks, next) = search_step(adj, visited, frontier);
            level_inv(adj, root, emitted.push(frontier[0]), marks, next)
        }),
{
    let n = adj.len();
    let u = frontier[0];
    let nbrs = adj[u@ as int];
    let (marks, pushed) = scan(nbrs, visited);
    let e2 = emitted.push(u);
    let rest = frontier.drop_first();
    let f2 = rest + pushed;
    let all = emitted + frontier;
    let all2 = e2 + f2;
    let d = distance(adj, root, u);
    assert(all2 =~= all + pushed);
    assert forall|i: int| 0 <= i < nbrs.len() implies (#[trigger] nbrs[i])@ < n by {
        assert(crate::paths::targets_valid(adj));
    }
    lemma_scan(nbrs, visited, n);
    assert(all[emitted.len() as int] == u);
    assert(frontier.contains(u));
    assert(visited[u@ as int]);
    assert(reachable(adj, root, u));
    lemma_distance(adj, root, u);
    // Each newly queued node lies one step further than `u`.
    assert forall|i: int| 0 <= i < pushed.len() implies distance(adj, root, #[trigger] pushed[i]) == d + 1 by {
        let w = pushed[i];
        assert(nbrs.contains(w));
        assert(is_edge(adj, u, w));
        lemma_within_step(adj, root, u, w, d);
        lemma_reachable_step(adj, root, u, w);
        lemma_distance(adj, root, w);
        if distance(adj, root, w) <= d {
            assert(within(adj, root, w, d));
            assert(visited[w@ as int]);
        }
    }
    // Everything taken or queued before lies no further than `u` plus one.
    assert forall|i: int| 0 <= i < all.len() implies distance(adj, root, #[trigger] all[i]) <= d + 1 by {
        let last = all.len() - 1;
        assert(all[last] == frontier.last());
        if i < emitted.len() {
            assert(distance(adj, root, all[i]) <= distance(adj, root, all[emitted.len() as int]));
        } else if i < last {
            assert(distance(adj, root, all[i]) <= distance(adj, root, all[last]));
        }
    }
    assert forall|i: int, j: int|
        0 <= i < j < all2.len() implies distance(adj, root, #[trigger] all2[i]) <= distance(adj, root, #[trigger] all2[j]) by {
        if j < all.len() {
            assert(all2[i] == all[i]);
            assert(all2[j] == all[j]);
        } else if i < all.len() {
            assert(all2[i] == all[i]);
            assert(all2[j] == pushed[j - all.len()]);
        } else {
            assert(all2[i] == pushed[i - all.len()]);
            assert(all2[j] == pushed[j - all.len()]);
        }
    }
    if f2.len() > 0 {
        let front = f2[0];
        let d2 = distance(adj, root, front);
        // The new front lies at `u`'s distance or one further.
        if rest.len() > 0 {
            assert(front == frontier[1]);
            assert(all[emitted.len() as int + 1] == front);
            assert(distance(adj, root, all[emitted.len() as int]) <= distance(adj, root, all[emitted.len() as int + 1]));
            assert(all[all.len() - 1] == frontier.last());
            assert(d2 <= distance(adj, root, frontier.last()));
        } else {
            assert(front == pushed[0]);
        }
        assert(d <= d2 <= d + 1);
        if pushed.len() > 0 {
            assert(f2.last() == pushed[pushed.len() - 1]);
        } else {
            assert(f2.last() == frontier.last());
            assert(all[all.len() - 1] == frontier.last());
        }
        assert forall|v: NodeId| v@ < n && #[trigger] within(adj, root, v, d2) implies marks[v@ as int] by {
            if within(adj, root, v, d) {
                assert(visited[v@ as int]);
            } else {
                assert(d2 == d + 1);
                if v == root {
                    let p0 = seq![root];
                    assert(is_walk(adj, p0));
                    assert(within(adj, root, root, d));
                }
                let p = lemma_within_pred(adj, root, v, d);
                assert(p@ < n);
                assert(visited[p@ as int]);
                if emitted.contains(p) {
                    assert(visited[v@ as int]);
                } else if p == u {
                    let k = choose|k: int| 0 <= k < nbrs.len() && nbrs[k] == v;
                    assert(marks[nbrs[k]@ as int]);
                } else {
                    assert(frontier.contains(p));
                    let k = choose|k: int| 0 <= k < frontier.len() && frontier[k] == p;
                    assert(k >= 1);
                    assert(rest.len() > 0);
                    assert(all[emitted.len() as int + 1] == frontier[1]);
                    assert(all[emitted.len() + k] == p);
                    if k > 1 {
                        assert(distance(adj, root, all[emitted.len() as int + 1]) <= distance(adj, root, all[emitted.len() + k]));
                    }
                    assert(reachable(adj, root, p));
                    lemma_distance(adj, root, p);
                    assert(distance(adj, root, p) <= d);
                }
            }
        }
    }
}

/// A breadth-first run keeps the distance facts.
proof fn lemma_level_run(
    adj: Seq<Seq<NodeId>>,
    root: NodeId,
    emitted: Seq<NodeId>,
    visited: Seq<bool>,
    frontier: Seq<NodeId>,
    fuel: nat,
)
    requires
        search_inv(adj, root, emitted, visited, frontier),
        level_inv(adj, root, emitted, visited, frontier),
    ensures
        ({
            let (out, marks) = search_run(adj, visited, frontier, fuel);
            forall|i: int, j: int|
                0 <= i < j < (emitted + out).len() ==> distance(adj, root, #[trigger] (emitted + out)[i]) <= distance(
                    adj,
                    root,
                    #[trigger] (emitted + out)[j],
                )
        }),
    decreases fuel,
{
    if fuel == 0 || frontier.len() == 0 {
        let all = emitted + frontier;
        assert(emitted + Seq::<NodeId>::empty() =~= emitted);
        assert forall|i: int, j: int| 0 <= i < j < emitted.len() implies distance(adj, root, #[trigger] emitted[i])
            <= distance(adj, root, #[trigger] emitted[j]) by {
            assert(all[i] == emitted[i]);
            assert(all[j] == emitted[j]);
        }
    } else {
        lemma_search_step(adj, root, emitted, visited, frontier);
        lemma_level_step(adj, root, emitted, visited, frontier);
        let (marks, next) = search_step(adj, visited, frontier);
        let u = frontier[0];
        lemma_level_run(adj, root, emitted.push(u), marks, next, (fuel - 1) as nat);
        let (out, last) = search_run(adj, marks, next, (fuel - 1) as nat);
        assert(emitted.push(u) + out =~= emitted + (seq![u] + out));
    }
}

/// Breadth-first order from `root` takes the nodes in nondecreasing
/// distance from `root`.
pub proof fn lemma_bfs_by_level(adj: Seq<Seq<NodeId>>, root: NodeId)
    requires
        targets_valid(adj),
        root@ < adj.len(),
    ensures
        ({
            let order = search_run(adj, root_marks(adj.len(), root), seq![root], adj.len()).0;
            forall|i: int, j: int|
                0 <= i < j < order.len() ==> distance(adj, root, #[trigger] order[i]) <= distance(adj, root, #[trigger] order[j])
        }),
{
    let n = adj.len();
    let marks = root_marks(n, root);
    let q = seq![root];
    lemma_search_start(adj, root);
    let p0 = seq![root];
    assert(is_walk(adj, p0));
    assert(within(adj, root, root, 0));
    crate::paths::lemma_reachable_refl(adj, root);
    lemma_distance(adj, root, root);
    assert(distance(adj, root, root) == 0);
    assert(Seq::<NodeId>::empty() + q =~= q);
    assert forall|v: NodeId| v@ < n && #[trigger] within(adj, root, v, distance(adj, root, q[0])) implies marks[v@ as int] by {
        let p = choose|p: Seq<NodeId>| #[trigger] is_walk(adj, p) && p[0] == root && p.last() == v && p.len() <= 1;
        assert(p.len() == 1);
    }
    assert(level_inv(adj, root, Seq::empty(), marks, q));
    lemma_level_run(adj, root, Seq::empty(), marks, q, n);
    let order = search_run(adj, marks, q, n).0;
    assert(Seq::<NodeId>::empty() + order =~= order);
}

} // verus!
