use vstd::prelude::*;

use crate::graph::is_permutation;
use crate::id::NodeId;
use crate::paths::{lemma_covering_bound, lemma_distinct_bound};
use crate::search::{frontier_inv, lemma_frontier_size, lemma_frontier_step, lemma_scan, scan};

verus! {

broadcast use crate::id::group_node_id;

/// The out-degree of `x`.
pub open spec fn degree(adj: Seq<Seq<NodeId>>, x: NodeId) -> int {
    adj[x@ as int].len() as int
}

/// Scans nodes `0..k` for the first unmarked node of least degree. Returns it
/// (if any) and its degree.
pub open spec fn lowest_scan(adj: Seq<Seq<NodeId>>, visited: Seq<bool>, k: int) -> (Option<NodeId>, int)
    decreases k,
{
    if k <= 0 {
        (None, usize::MAX as int)
    } else {
        let (best, least) = lowest_scan(adj, visited, k - 1);
        let i = k - 1;
        if !visited[i] && (best is None || (adj[i].len() as int) < least) {
            (Some(NodeId::from_index(i)), adj[i].len() as int)
        } else {
            (best, least)
        }
    }
}

/// The first unmarked node of least out-degree, if any node is unmarked.
pub open spec fn lowest_unvisited(adj: Seq<Seq<NodeId>>, visited: Seq<bool>) -> Option<NodeId> {
    lowest_scan(adj, visited, adj.len() as int).0
}

/// Inserts `x` into `sorted` after every entry of degree at most its own.
pub open spec fn insert_by_degree(adj: Seq<Seq<NodeId>>, sorted: Seq<NodeId>, x: NodeId) -> Seq<NodeId>
    decreases sorted.len(),
{
    if sorted.len() == 0 || degree(adj, sorted.last()) <= degree(adj, x) {
        sorted.push(x)
    } else {
        insert_by_degree(adj, sorted.drop_last(), x).push(sorted.last())
    }
}

/// Stable sort of `s` by ascending out-degree: entries of equal degree keep
/// their relative order.
pub open spec fn sort_by_degree(adj: Seq<Seq<NodeId>>, s: Seq<NodeId>) -> Seq<NodeId>
    decreases s.len(),
{
    if s.len() == 0 {
        s
    } else {
        insert_by_degree(adj, sort_by_degree(adj, s.drop_last()), s.last())
    }
}

/// `src`, once for each entry of `row` that is `u`.
pub open spec fn hits(row: Seq<NodeId>, u: NodeId, src: NodeId) -> Seq<NodeId>
    decreases row.len(),
{
    if row.len() == 0 {
        Seq::empty()
    } else {
        hits(row.drop_last(), u, src) + if row.last() == u {
            seq![src]
        } else {
            Seq::empty()
        }
    }
}

/// The sources of the edges into `u` from nodes `0..v`: by source index,
/// once per edge.
pub open spec fn in_upto(adj: Seq<Seq<NodeId>>, u: NodeId, v: int) -> Seq<NodeId>
    decreases v,
{
    if v <= 0 {
        Seq::empty()
    } else {
        in_upto(adj, u, v - 1) + hits(adj[v - 1], u, NodeId::from_index(v - 1))
    }
}

/// The sources of the edges into `u`, by source index, once per edge.
pub open spec fn in_nbrs(adj: Seq<Seq<NodeId>>, u: NodeId) -> Seq<NodeId> {
    in_upto(adj, u, adj.len() as int)
}

/// The graph with its edges taken both ways: the neighbors of `u` are its
/// edge targets in adjacency order, then the sources of its incoming edges.
pub open spec fn both_ways(adj: Seq<Seq<NodeId>>) -> Seq<Seq<NodeId>> {
    Seq::new(adj.len(), |i: int| adj[i] + in_nbrs(adj, NodeId::from_index(i)))
}

/// Every entry of `hits` is `src`.
pub proof fn lemma_hits(row: Seq<NodeId>, u: NodeId, src: NodeId)
    ensures
        forall|j: int| 0 <= j < hits(row, u, src).len() ==> #[trigger] hits(row, u, src)[j] == src,
    decreases row.len(),
{
    if row.len() > 0 {
        lemma_hits(row.drop_last(), u, src);
        let a = hits(row.drop_last(), u, src);
        let b: Seq<NodeId> = if row.last() == u {
            seq![src]
        } else {
            Seq::empty()
        };
        assert forall|j: int| 0 <= j < hits(row, u, src).len() implies #[trigger] hits(row, u, src)[j] == src by {
            if j < a.len() {
                assert(hits(row, u, src)[j] == a[j]);
            } else {
                assert(hits(row, u, src)[j] == b[j - a.len()]);
            }
        }
    }
}

/// The sources of edges into `u` from nodes `0..v` are among them.
pub proof fn lemma_in_upto(adj: Seq<Seq<NodeId>>, u: NodeId, v: int)
    requires
        v <= adj.len() <= u32::MAX,
    ensures
        forall|j: int| 0 <= j < in_upto(adj, u, v).len() ==> (#[trigger] in_upto(adj, u, v)[j])@ < v,
    decreases v,
{
    if v > 0 {
        lemma_in_upto(adj, u, v - 1);
        let a = in_upto(adj, u, v - 1);
        let h = hits(adj[v - 1], u, NodeId::from_index(v - 1));
        lemma_hits(adj[v - 1], u, NodeId::from_index(v - 1));
        assert forall|j: int| 0 <= j < in_upto(adj, u, v).len() implies (#[trigger] in_upto(adj, u, v)[j])@ < v by {
            if j < a.len() {
                assert(in_upto(adj, u, v)[j] == a[j]);
            } else {
                assert(in_upto(adj, u, v)[j] == h[j - a.len()]);
            }
        }
    }
}

/// Taking edges both ways keeps every neighbor a valid node.
pub proof fn lemma_both_ways(adj: Seq<Seq<NodeId>>)
    requires
        crate::paths::targets_valid(adj),
        adj.len() <= u32::MAX,
    ensures
        crate::paths::targets_valid(both_ways(adj)),
        both_ways(adj).len() == adj.len(),
{
    let b = both_ways(adj);
    assert forall|u: int, k: int| 0 <= u < b.len() && 0 <= k < b[u].len() implies (#[trigger] b[u][k])@ < b.len() by {
        let o = adj[u];
        let i = in_nbrs(adj, NodeId::from_index(u));
        lemma_in_upto(adj, NodeId::from_index(u), adj.len() as int);
        if k < o.len() {
            assert(b[u][k] == o[k]);
        } else {
            assert(b[u][k] == i[k - o.len()]);
        }
    }
}

/// One Cuthill-McKee step: take the front of the queue, and queue its
/// unmarked neighbors in `nb` by ascending degree in `adj`.
pub open spec fn cm_step(adj: Seq<Seq<NodeId>>, nb: Seq<Seq<NodeId>>, visited: Seq<bool>, queue: Seq<NodeId>) -> (Seq<bool>, Seq<NodeId>) {
    let u = queue[0];
    let fresh = nb[u@ as int].filter(|x: NodeId| !visited[x@ as int]);
    let (marks, pushed) = scan(sort_by_degree(adj, fresh), visited);
    (marks, queue.drop_first() + pushed)
}

/// Runs up to `fuel` Cuthill-McKee steps until the queue is empty. Returns
/// the nodes in the order taken and the final marks.
pub open spec fn cm_run(adj: Seq<Seq<NodeId>>, nb: Seq<Seq<NodeId>>, visited: Seq<bool>, queue: Seq<NodeId>, fuel: nat) -> (Seq<NodeId>, Seq<bool>)
    decreases fuel,
{
    if fuel == 0 || queue.len() == 0 {
        (Seq::empty(), visited)
    } else {
        let (marks, next) = cm_step(adj, nb, visited, queue);
        let (out, last) = cm_run(adj, nb, marks, next, (fuel - 1) as nat);
        (seq![queue[0]] + out, last)
    }
}

/// Cuthill-McKee over every component: from `next`, then from the unmarked
/// node of least degree, until every node is marked.
pub open spec fn cm_components(adj: Seq<Seq<NodeId>>, nb: Seq<Seq<NodeId>>, visited: Seq<bool>, next: Option<NodeId>, fuel: nat) -> Seq<NodeId>
    decreases fuel,
{
    if fuel == 0 {
        Seq::empty()
    } else {
        match next {
            None => Seq::empty(),
            Some(s) => if visited[s@ as int] {
                cm_components(adj, nb, visited, lowest_unvisited(adj, visited), (fuel - 1) as nat)
            } else {
                let (out, marks) = cm_run(adj, nb, visited.update(s@ as int, true), seq![s], adj.len());
                out + cm_components(adj, nb, marks, lowest_unvisited(adj, marks), (fuel - 1) as nat)
            },
        }
    }
}

/// Reverse Cuthill-McKee order over the edges taken both ways:
/// Cuthill-McKee from `root` (or, without one, from the node of least
/// out-degree), then each remaining component from its node of least
/// out-degree, all reversed. Neighbors are queued by ascending out-degree.
pub open spec fn rcm_order(adj: Seq<Seq<NodeId>>, root: Option<NodeId>) -> Seq<NodeId> {
    let n = adj.len();
    let none = Seq::new(n, |i: int| false);
    if n == 0 {
        Seq::empty()
    } else {
        let first = match root {
            Some(r) => Some(r),
            None => lowest_unvisited(adj, none),
        };
        cm_components(adj, both_ways(adj), none, first, n + 1).reverse()
    }
}

/// What `lowest_scan` finds among nodes `0..k`.
pub proof fn lemma_lowest_scan(adj: Seq<Seq<NodeId>>, visited: Seq<bool>, k: int)
    requires
        0 <= k <= adj.len() <= u32::MAX,
        visited.len() == adj.len(),
    ensures
        ({
            let (best, least) = lowest_scan(adj, visited, k);
            &&& best is None <==> forall|i: int| 0 <= i < k ==> #[trigger] visited[i]
            &&& best matches Some(x) ==> x@ < k && !visited[x@ as int]
        }),
    decreases k,
{
    if k > 0 {
        lemma_lowest_scan(adj, visited, k - 1);
        let (b0, l0) = lowest_scan(adj, visited, k - 1);
        let (b, l) = lowest_scan(adj, visited, k);
        if b is None {
            assert(b0 is None);
            assert(visited[k - 1]);
            assert forall|i: int| 0 <= i < k implies #[trigger] visited[i] by {
                if i < k - 1 {
                }
            }
        } else {
            if !visited[k - 1] && (b0 is None || (adj[k - 1].len() as int) < l0) {
                assert(NodeId::from_index(k - 1)@ == k - 1);
            }
            if b0 is None {
                assert(!visited[k - 1]);
            } else {
                assert(!(forall|i: int| 0 <= i < k - 1 ==> #[trigger] visited[i]));
            }
        }
    } else {
        assert(lowest_scan(adj, visited, k).0 is None);
    }
}

/// Insertion keeps every entry and adds `x`.
pub proof fn lemma_insert_by_degree(adj: Seq<Seq<NodeId>>, sorted: Seq<NodeId>, x: NodeId)
    ensures
        insert_by_degree(adj, sorted, x).len() == sorted.len() + 1,
        forall|y: NodeId| #[trigger] insert_by_degree(adj, sorted, x).contains(y) <==> (sorted.contains(y) || y == x),
    decreases sorted.len(),
{
    let r = insert_by_degree(adj, sorted, x);
    if sorted.len() == 0 || degree(adj, sorted.last()) <= degree(adj, x) {
        assert forall|y: NodeId| #[trigger] r.contains(y) <==> (sorted.contains(y) || y == x) by {
            if sorted.contains(y) {
                let i = choose|i: int| 0 <= i < sorted.len() && sorted[i] == y;
                assert(r[i] == y);
            }
            if r.contains(y) && y != x {
                let i = choose|i: int| 0 <= i < r.len() && r[i] == y;
                assert(sorted[i] == y);
            }
            if y == x {
                assert(r[sorted.len() as int] == x);
            }
        }
    } else {
        let d = sorted.drop_last();
        lemma_insert_by_degree(adj, d, x);
        let inner = insert_by_degree(adj, d, x);
        assert forall|y: NodeId| #[trigger] r.contains(y) <==> (sorted.contains(y) || y == x) by {
            if sorted.contains(y) {
                let i = choose|i: int| 0 <= i < sorted.len() && sorted[i] == y;
                if i == sorted.len() - 1 {
                    assert(r[r.len() - 1] == y);
                } else {
                    assert(d[i] == y);
                    assert(inner.contains(y));
                    let j = choose|j: int| 0 <= j < inner.len() && inner[j] == y;
                    assert(r[j] == y);
                }
            }
            if y == x {
                assert(inner.contains(x));
                let j = choose|j: int| 0 <= j < inner.len() && inner[j] == x;
                assert(r[j] == x);
            }
            if r.contains(y) {
                let i = choose|i: int| 0 <= i < r.len() && r[i] == y;
                if i == r.len() - 1 {
                    assert(sorted[sorted.len() - 1] == y);
                } else {
                    assert(inner[i] == y);
                    assert(inner.contains(y));
                    if d.contains(y) {
                        let j = choose|j: int| 0 <= j < d.len() && d[j] == y;
                        assert(sorted[j] == y);
                    }
                }
            }
        }
    }
}

/// Sorting keeps every entry.
pub proof fn lemma_sort_by_degree(adj: Seq<Seq<NodeId>>, s: Seq<NodeId>)
    ensures
        sort_by_degree(adj, s).len() == s.len(),
        forall|y: NodeId| #[trigger] sort_by_degree(adj, s).contains(y) <==> s.contains(y),
    decreases s.len(),
{
    if s.len() > 0 {
        let d = s.drop_last();
        lemma_sort_by_degree(adj, d);
        lemma_insert_by_degree(adj, sort_by_degree(adj, d), s.last());
        assert forall|y: NodeId| #[trigger] sort_by_degree(adj, s).contains(y) <==> s.contains(y) by {
            if s.contains(y) && y != s.last() {
                let i = choose|i: int| 0 <= i < s.len() && s[i] == y;
                assert(d[i] == y);
                assert(d.contains(y));
            }
            if d.contains(y) {
                let i = choose|i: int| 0 <= i < d.len() && d[i] == y;
                assert(s[i] == y);
            }
            if y == s.last() {
                assert(s[s.len() - 1] == y);
            }
        }
    }
}

/// The neighbors a Cuthill-McKee step scans are valid nodes.
pub proof fn lemma_cm_scan_valid(adj: Seq<Seq<NodeId>>, nb: Seq<Seq<NodeId>>, visited: Seq<bool>, u: NodeId)
    requires
        u@ < adj.len(),
        nb.len() == adj.len(),
        crate::paths::targets_valid(nb),
    ensures
        ({
            let fresh = nb[u@ as int].filter(|x: NodeId| !visited[x@ as int]);
            let sorted = sort_by_degree(adj, fresh);
            forall|i: int| 0 <= i < sorted.len() ==> (#[trigger] sorted[i])@ < adj.len()
        }),
{
    let a = nb[u@ as int];
    let pred = |x: NodeId| !visited[x@ as int];
    let fresh = a.filter(pred);
    let sorted = sort_by_degree(adj, fresh);
    lemma_sort_by_degree(adj, fresh);
    assert forall|i: int| 0 <= i < sorted.len() implies (#[trigger] sorted[i])@ < adj.len() by {
        assert(sorted.contains(sorted[i]));
        assert(fresh.contains(sorted[i]));
        a.lemma_filter_contains_rev(pred, sorted[i]);
        let k = choose|k: int| 0 <= k < a.len() && a[k] == sorted[i];
        assert(nb[u@ as int][k]@ < adj.len());
    }
}

/// A Cuthill-McKee run from a consistent state empties its queue and keeps
/// the bookkeeping invariant.
pub proof fn lemma_cm_run(adj: Seq<Seq<NodeId>>, nb: Seq<Seq<NodeId>>, order: Seq<NodeId>, visited: Seq<bool>, queue: Seq<NodeId>, fuel: nat)
    requires
        crate::paths::targets_valid(nb),
        nb.len() == adj.len(),
        frontier_inv(adj.len(), order, visited, queue),
        order.len() + fuel >= adj.len(),
    ensures
        ({
            let (out, marks) = cm_run(adj, nb, visited, queue, fuel);
            &&& frontier_inv(adj.len(), order + out, marks, Seq::empty())
            &&& queue.len() > 0 ==> out.len() > 0
        }),
    decreases fuel,
{
    if queue.len() > 0 {
        lemma_frontier_size(adj.len(), order, visited, queue);
        let u = queue[0];
        assert(u@ < adj.len());
        lemma_cm_scan_valid(adj, nb, visited, u);
        let fresh = nb[u@ as int].filter(|x: NodeId| !visited[x@ as int]);
        lemma_frontier_step(adj.len(), order, visited, queue, sort_by_degree(adj, fresh));
        let (marks, next) = cm_step(adj, nb, visited, queue);
        lemma_cm_run(adj, nb, order.push(u), marks, next, (fuel - 1) as nat);
        let (out, last) = cm_run(adj, nb, marks, next, (fuel - 1) as nat);
        assert(order.push(u) + out =~= order + (seq![u] + out));
    } else {
        assert(order + Seq::<NodeId>::empty() =~= order);
    }
}

/// Every node marked, no node repeated: the order is a permutation.
proof fn lemma_all_marked_permutation(n: nat, order: Seq<NodeId>, visited: Seq<bool>)
    requires
        n <= u32::MAX,
        frontier_inv(n, order, visited, Seq::empty()),
        forall|i: int| 0 <= i < n ==> #[trigger] visited[i],
    ensures
        is_permutation(order, n),
{
    assert forall|i: int| 0 <= i < n implies order.contains(#[trigger] NodeId::from_index(i)) by {
        let x = NodeId::from_index(i);
        assert(visited[x@ as int]);
    }
    lemma_covering_bound(order, n as int);
    lemma_distinct_bound(order, n as int);
}

/// Cuthill-McKee over the remaining components completes a permutation.
pub proof fn lemma_cm_components(adj: Seq<Seq<NodeId>>, nb: Seq<Seq<NodeId>>, order: Seq<NodeId>, visited: Seq<bool>, next: Option<NodeId>, fuel: nat)
    requires
        crate::paths::targets_valid(nb),
        nb.len() == adj.len(),
        adj.len() <= u32::MAX,
        frontier_inv(adj.len(), order, visited, Seq::empty()),
        next is None ==> forall|i: int| 0 <= i < adj.len() ==> #[trigger] visited[i],
        next matches Some(s) ==> s@ < adj.len() && !visited[s@ as int],
        fuel >= adj.len() - order.len() + 1,
    ensures
        is_permutation(order + cm_components(adj, nb, visited, next, fuel), adj.len()),
    decreases fuel,
{
    let n = adj.len();
    lemma_frontier_size(n, order, visited, Seq::empty());
    match next {
        None => {
            assert(order + Seq::<NodeId>::empty() =~= order);
            lemma_all_marked_permutation(n, order, visited);
        },
        Some(s) => {
            let v1 = visited.update(s@ as int, true);
            assert(frontier_inv(n, order, v1, seq![s])) by {
                assert forall|x: NodeId| x@ < n implies (#[trigger] v1[x@ as int] <==> (order.contains(x) || seq![s].contains(x))) by {
                    if seq![s].contains(x) {
                        assert(seq![s][0] == x);
                    }
                    if x == s {
                        assert(seq![s][0] == x);
                    }
                }
                assert forall|i: int, j: int| 0 <= i < order.len() && 0 <= j < 1 implies order[i] != seq![s][j] by {
                    assert(visited[order[i]@ as int]);
                }
            }
            lemma_cm_run(adj, nb, order, v1, seq![s], n);
            let (out, marks) = cm_run(adj, nb, v1, seq![s], n);
            let nxt = lowest_unvisited(adj, marks);
            lemma_lowest_scan(adj, marks, n as int);
            lemma_frontier_size(n, order + out, marks, Seq::empty());
            lemma_cm_components(adj, nb, order + out, marks, nxt, (fuel - 1) as nat);
            assert(order + (out + cm_components(adj, nb, marks, nxt, (fuel - 1) as nat)) =~= (order + out)
                + cm_components(adj, nb, marks, nxt, (fuel - 1) as nat));
        },
    }
}

/// Reversing a permutation gives a permutation.
pub proof fn lemma_reverse_permutation(order: Seq<NodeId>, n: nat)
    requires
        is_permutation(order, n),
    ensures
        is_permutation(order.reverse(), n),
{
    let r = order.reverse();
    assert forall|i: int, j: int| 0 <= i < r.len() && 0 <= j < r.len() && i != j implies r[i] != r[j] by {
        assert(r[i] == order[order.len() - 1 - i]);
        assert(r[j] == order[order.len() - 1 - j]);
    }
    assert forall|i: int| 0 <= i < r.len() implies (#[trigger] r[i])@ < n by {
        assert(r[i] == order[order.len() - 1 - i]);
    }
}

/// Reverse Cuthill-McKee order lists every node exactly once.
pub proof fn lemma_rcm_order(adj: Seq<Seq<NodeId>>, root: Option<NodeId>)
    requires
        crate::paths::targets_valid(adj),
        adj.len() <= u32::MAX,
        root matches Some(r) ==> r@ < adj.len(),
    ensures
        is_permutation(rcm_order(adj, root), adj.len()),
{
    let n = adj.len();
    let none = Seq::new(n, |i: int| false);
    if n > 0 {
        let first = match root {
            Some(r) => Some(r),
            None => lowest_unvisited(adj, none),
        };
        lemma_lowest_scan(adj, none, n as int);
        assert(!none[0]);
        assert(frontier_inv(n, Seq::empty(), none, Seq::empty()));
        let nb = both_ways(adj);
        lemma_both_ways(adj);
        lemma_cm_components(adj, nb, Seq::empty(), none, first, n + 1);
        assert(Seq::<NodeId>::empty() + cm_components(adj, nb, none, first, n + 1) =~= cm_components(adj, nb, none, first, n + 1));
        lemma_reverse_permutation(cm_components(adj, nb, none, first, n + 1), n);
    } else {
        assert(rcm_order(adj, root) =~= Seq::<NodeId>::empty());
    }
}

} // verus!
