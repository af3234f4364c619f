use vstd::prelude::*;

use crate::id::NodeId;
use crate::paths::{
    is_edge, lemma_closed_holds_reachable, lemma_distinct_bound, lemma_reachable_refl,
    lemma_reachable_step, reachable, targets_valid,
};

verus! {

broadcast use crate::id::group_node_id;

/// Scans `nbrs` in order against the marks in `visited`: every neighbor not
/// yet marked is marked and collected, so each is collected once.
/// Returns the new marks and the collected neighbors.
pub open spec fn scan(nbrs: Seq<NodeId>, visited: Seq<bool>) -> (Seq<bool>, Seq<NodeId>)
    decreases nbrs.len(),
{
    if nbrs.len() == 0 {
        (visited, Seq::empty())
    } else {
        let (marks, pushed) = scan(nbrs.drop_last(), visited);
        let x = nbrs.last();
        if marks[x@ as int] {
            (marks, pushed)
        } else {
            (marks.update(x@ as int, true), pushed.push(x))
        }
    }
}

/// One breadth-first step: take the node at the front of the frontier and
/// queue its unmarked neighbors in adjacency order. Returns the new marks and
/// the new frontier.
pub open spec fn search_step(adj: Seq<Seq<NodeId>>, visited: Seq<bool>, frontier: Seq<NodeId>) -> (Seq<bool>, Seq<NodeId>) {
    let u = frontier[0];
    let (marks, pushed) = scan(adj[u@ as int], visited);
    (marks, frontier.drop_first() + pushed)
}

/// Runs up to `fuel` search steps, until the frontier is empty. Returns the
/// nodes in the order they were taken, and the final marks.
pub open spec fn search_run(adj: Seq<Seq<NodeId>>, visited: Seq<bool>, frontier: Seq<NodeId>, fuel: nat) -> (Seq<NodeId>, Seq<bool>)
    decreases fuel,
{
    if fuel == 0 || frontier.len() == 0 {
        (Seq::empty(), visited)
    } else {
        let (marks, next) = search_step(adj, visited, frontier);
        let (out, last_marks) = search_run(adj, marks, next, (fuel - 1) as nat);
        (seq![frontier[0]] + out, last_marks)
    }
}

/// The marks before a search from `root`: only the root is marked.
pub open spec fn root_marks(n: nat, root: NodeId) -> Seq<bool> {
    Seq::new(n, |i: int| i == root@)
}

/// What holds throughout a search from `root` that has taken `emitted` and
/// still holds `frontier`.
pub open spec fn search_inv(adj: Seq<Seq<NodeId>>, root: NodeId, emitted: Seq<NodeId>, visited: Seq<bool>, frontier: Seq<NodeId>) -> bool {
    let n = adj.len();
    &&& targets_valid(adj)
    &&& visited.len() == n
    &&& root@ < n
    &&& visited[root@ as int]
    &&& emitted.no_duplicates()
    &&& frontier.no_duplicates()
    &&& emitted.disjoint(frontier)
    &&& forall|i: int| 0 <= i < emitted.len() ==> (#[trigger] emitted[i])@ < n
    &&& forall|i: int| 0 <= i < frontier.len() ==> (#[trigger] frontier[i])@ < n
    &&& forall|x: NodeId|
        x@ < n ==> (#[trigger] visited[x@ as int] <==> (emitted.contains(x) || frontier.contains(x)))
    &&& forall|x: NodeId| x@ < n && #[trigger] visited[x@ as int] ==> reachable(adj, root, x)
    &&& forall|x: NodeId, y: NodeId|
        #[trigger] emitted.contains(x) && #[trigger] is_edge(adj, x, y) ==> visited[y@ as int]
}

/// What a scan does to the marks and what it collects.
pub proof fn lemma_scan(nbrs: Seq<NodeId>, visited: Seq<bool>, n: nat)
    requires
        visited.len() == n,
        forall|i: int| 0 <= i < nbrs.len() ==> (#[trigger] nbrs[i])@ < n,
    ensures
        ({
            let (marks, pushed) = scan(nbrs, visited);
            &&& marks.len() == n
            &&& pushed.no_duplicates()
            &&& forall|i: int|
                0 <= i < pushed.len() ==> (#[trigger] pushed[i])@ < n && !visited[pushed[i]@ as int]
                    && nbrs.contains(pushed[i])
            &&& forall|x: NodeId|
                x@ < n ==> (#[trigger] marks[x@ as int] <==> (visited[x@ as int] || pushed.contains(x)))
            &&& forall|k: int| 0 <= k < nbrs.len() ==> marks[(#[trigger] nbrs[k])@ as int]
        }),
    decreases nbrs.len(),
{
    if nbrs.len() > 0 {
        let rest = nbrs.drop_last();
        lemma_scan(rest, visited, n);
        let (marks0, pushed0) = scan(rest, visited);
        let x = nbrs.last();
        let (marks, pushed) = scan(nbrs, visited);
        assert forall|i: int| 0 <= i < pushed.len() implies (#[trigger] pushed[i])@ < n && !visited[pushed[i]@ as int]
            && nbrs.contains(pushed[i]) by {
            if i < pushed0.len() {
                assert(pushed[i] == pushed0[i]);
                let k = choose|k: int| 0 <= k < rest.len() && rest[k] == pushed0[i];
                assert(nbrs[k] == rest[k]);
            } else {
                assert(nbrs[nbrs.len() - 1] == x);
            }
        }
        assert forall|k: int| 0 <= k < nbrs.len() implies marks[(#[trigger] nbrs[k])@ as int] by {
            if k < rest.len() {
                assert(rest[k] == nbrs[k]);
            }
        }
        if !marks0[x@ as int] {
            assert forall|i: int, j: int| 0 <= i < j < pushed.len() implies pushed[i] != pushed[j] by {
                if j == pushed.len() - 1 {
                    assert(pushed[j] == x);
                    assert(marks0[pushed0[i]@ as int]);
                }
            }
            assert forall|y: NodeId| y@ < n implies (#[trigger] marks[y@ as int] <==> (visited[y@ as int] || pushed.contains(y))) by {
                if y == x {
                    assert(pushed[pushed.len() - 1] == x);
                } else {
                    if pushed.contains(y) {
                        let i = choose|i: int| 0 <= i < pushed.len() && pushed[i] == y;
                        assert(pushed0[i] == y);
                    }
                    if pushed0.contains(y) {
                        let i = choose|i: int| 0 <= i < pushed0.len() && pushed0[i] == y;
                        assert(pushed[i] == y);
                    }
                }
            }
        }
    }
}

proof fn lemma_no_dup_concat(a: Seq<NodeId>, b: Seq<NodeId>)
    requires
        a.no_duplicates(),
        b.no_duplicates(),
        a.disjoint(b),
    ensures
        (a + b).no_duplicates(),
{
    assert forall|i: int, j: int| 0 <= i < (a + b).len() && 0 <= j < (a + b).len() && i != j implies (a
        + b)[i] != (a + b)[j] by {
        if i < a.len() && j >= a.len() {
            assert(b[j - a.len()] == (a + b)[j]);
        } else if j < a.len() && i >= a.len() {
            assert(b[i - a.len()] == (a + b)[i]);
        }
    }
}

/// The emitted nodes and the frontier together never exceed the node count.
pub proof fn lemma_search_size(adj: Seq<Seq<NodeId>>, root: NodeId, emitted: Seq<NodeId>, visited: Seq<bool>, frontier: Seq<NodeId>)
    requires
        search_inv(adj, root, emitted, visited, frontier),
    ensures
        emitted.len() + frontier.len() <= adj.len(),
{
    lemma_no_dup_concat(emitted, frontier);
    assert forall|i: int| 0 <= i < (emitted + frontier).len() implies (#[trigger] (emitted + frontier)[i])@ < adj.len() by {
        if i < emitted.len() {
            assert((emitted + frontier)[i] == emitted[i]);
        } else {
            assert((emitted + frontier)[i] == frontier[i - emitted.len()]);
        }
    }
    lemma_distinct_bound(emitted + frontier, adj.len() as int);
}

/// One search step keeps the search invariant.
pub proof fn lemma_search_step(adj: Seq<Seq<NodeId>>, root: NodeId, emitted: Seq<NodeId>, visited: Seq<bool>, frontier: Seq<NodeId>)
    requires
        search_inv(adj, root, emitted, visited, frontier),
        frontier.len() > 0,
    ensures
        ({
            let (marks, next) = search_step(adj, visited, frontier);
            search_inv(adj, root, emitted.push(frontier[0]), marks, next)
        }),
{
    let n = adj.len();
    let u = frontier[0];
    let rest = frontier.drop_first();
    let nbrs = adj[u@ as int];
    let (marks, pushed) = scan(nbrs, visited);
    let e2 = emitted.push(u);
    let f2 = rest + pushed;
    let iu: int = 0;
    assert(frontier[iu] == u);
    assert(u@ < n);
    // `rest` is `frontier` without position `iu`.
    assert forall|i: int| 0 <= i < rest.len() implies #[trigger] rest[i] == frontier[i + 1] by {
    }
    assert forall|i: int| 0 <= i < nbrs.len() implies (#[trigger] nbrs[i])@ < n by {
        assert(nbrs.contains(nbrs[i]));
        let a = adj[u@ as int];
        let k = choose|k: int| 0 <= k < a.len() && a[k] == nbrs[i];
        assert(a[k]@ < n);
    }
    lemma_scan(nbrs, visited, n);
    assert(rest.no_duplicates()) by {
        assert forall|i: int, j: int| 0 <= i < rest.len() && 0 <= j < rest.len() && i != j implies rest[i] != rest[j] by {
            assert(rest[i] == frontier[i + 1]);
            assert(rest[j] == frontier[j + 1]);
        }
    }
    assert forall|i: int| 0 <= i < rest.len() implies #[trigger] rest[i] != u by {
        assert(rest[i] == frontier[i + 1]);
    }
    assert(rest.disjoint(pushed)) by {
        assert forall|i: int, j: int| 0 <= i < rest.len() && 0 <= j < pushed.len() implies rest[i] != pushed[j] by {
            assert(rest[i] == frontier[i + 1]);
            assert(frontier.contains(rest[i]));
            assert(!visited[pushed[j]@ as int]);
        }
    }
    lemma_no_dup_concat(rest, pushed);
    assert(e2.no_duplicates()) by {
        assert forall|i: int, j: int| 0 <= i < e2.len() && 0 <= j < e2.len() && i != j implies e2[i] != e2[j] by {
            if j == emitted.len() {
                assert(frontier.contains(u));
                assert(e2[i] == emitted[i]);
            } else if i == emitted.len() {
                assert(frontier.contains(u));
                assert(e2[j] == emitted[j]);
            }
        }
    }
    assert(e2.disjoint(f2)) by {
        assert forall|i: int, j: int| 0 <= i < e2.len() && 0 <= j < f2.len() implies e2[i] != f2[j] by {
            if j < rest.len() {
                assert(f2[j] == rest[j]);
                assert(rest[j] == frontier[j + 1]);
                if i < emitted.len() {
                    assert(e2[i] == emitted[i]);
                }
            } else {
                assert(f2[j] == pushed[j - rest.len()]);
                let p = pushed[j - rest.len()];
                assert(!visited[p@ as int]);
                if i < emitted.len() {
                    assert(e2[i] == emitted[i]);
                    assert(emitted.contains(emitted[i]));
                } else {
                    assert(frontier.contains(u));
                }
            }
        }
    }
    assert forall|i: int| 0 <= i < e2.len() implies (#[trigger] e2[i])@ < n by {
        if i < emitted.len() {
            assert(e2[i] == emitted[i]);
        }
    }
    assert forall|i: int| 0 <= i < f2.len() implies (#[trigger] f2[i])@ < n by {
        if i < rest.len() {
            assert(f2[i] == rest[i]);
            assert(rest[i] == frontier[i + 1]);
        } else {
            assert(f2[i] == pushed[i - rest.len()]);
        }
    }
    assert forall|x: NodeId| x@ < n implies (#[trigger] marks[x@ as int] <==> (e2.contains(x) || f2.contains(x))) by {
        if e2.contains(x) {
            let i = choose|i: int| 0 <= i < e2.len() && e2[i] == x;
            if i < emitted.len() {
                assert(emitted[i] == x);
                assert(emitted.contains(x));
            } else {
                assert(frontier.contains(x));
            }
        }
        if f2.contains(x) {
            let i = choose|i: int| 0 <= i < f2.len() && f2[i] == x;
            if i < rest.len() {
                assert(rest[i] == frontier[i + 1]);
                assert(frontier.contains(x));
            } else {
                assert(pushed[i - rest.len()] == x);
            }
        }
        if visited[x@ as int] {
            if emitted.contains(x) {
                let i = choose|i: int| 0 <= i < emitted.len() && emitted[i] == x;
                assert(e2[i] == x);
            } else {
                let i = choose|i: int| 0 <= i < frontier.len() && frontier[i] == x;
                if i == iu {
                    assert(e2[emitted.len() as int] == x);
                } else {
                    let r: int = i - 1;
                    assert(rest[r] == x);
                    assert(f2[r] == x);
                }
            }
        }
        if pushed.contains(x) {
            let i = choose|i: int| 0 <= i < pushed.len() && pushed[i] == x;
            assert(f2[rest.len() + i] == x);
        }
    }
    assert forall|x: NodeId| x@ < n && #[trigger] marks[x@ as int] implies reachable(adj, root, x) by {
        if !visited[x@ as int] {
            assert(pushed.contains(x));
            let i = choose|i: int| 0 <= i < pushed.len() && pushed[i] == x;
            assert(nbrs.contains(x));
            assert(is_edge(adj, u, x));
            assert(visited[u@ as int]);
            lemma_reachable_step(adj, root, u, x);
        }
    }
    assert forall|x: NodeId, y: NodeId| #[trigger] e2.contains(x) && #[trigger] is_edge(adj, x, y) implies marks[y@ as int] by {
        let i = choose|i: int| 0 <= i < e2.len() && e2[i] == x;
        assert(y@ < n) by {
            let a = adj[x@ as int];
            let k = choose|k: int| 0 <= k < a.len() && a[k] == y;
            assert(a[k]@ < n);
        }
        if i < emitted.len() {
            assert(emitted[i] == x);
            assert(emitted.contains(x));
            assert(visited[y@ as int]);
        } else {
            assert(x == u);
            assert(nbrs.contains(y));
            let k = choose|k: int| 0 <= k < nbrs.len() && nbrs[k] == y;
            assert(marks[nbrs[k]@ as int]);
        }
    }
}

/// A search run from a state satisfying the invariant ends with the frontier
/// empty, having taken every node reachable from the root exactly once.
pub proof fn lemma_search_run(adj: Seq<Seq<NodeId>>, root: NodeId, emitted: Seq<NodeId>, visited: Seq<bool>, frontier: Seq<NodeId>, fuel: nat)
    requires
        search_inv(adj, root, emitted, visited, frontier),
        emitted.len() + fuel >= adj.len(),
    ensures
        ({
            let (out, marks) = search_run(adj, visited, frontier, fuel);
            &&& search_inv(adj, root, emitted + out, marks, Seq::empty())
            &&& forall|x: NodeId| #[trigger] (emitted + out).contains(x) <==> reachable(adj, root, x)
        }),
    decreases fuel,
{
    let n = adj.len();
    if frontier.len() == 0 {
        assert(emitted + Seq::<NodeId>::empty() =~= emitted);
        assert forall|x: NodeId| #[trigger] emitted.contains(x) <==> reachable(adj, root, x) by {
            if reachable(adj, root, x) {
                let p = choose|p: Seq<NodeId>| #[trigger] crate::paths::is_walk(adj, p) && p[0] == root && p.last() == x;
                assert(p[p.len() - 1]@ < n);
                assert forall|a: NodeId, b: NodeId| #[trigger] is_edge(adj, a, b) && visited[a@ as int] implies visited[b@ as int] by {
                    assert(emitted.contains(a));
                }
                lemma_closed_holds_reachable(adj, visited, root, x);
                assert(visited[x@ as int]);
            }
            if emitted.contains(x) {
                let i = choose|i: int| 0 <= i < emitted.len() && emitted[i] == x;
                assert(emitted[i]@ < n);
                assert(visited[x@ as int]);
            }
        }
    } else {
        lemma_search_size(adj, root, emitted, visited, frontier);
        lemma_search_step(adj, root, emitted, visited, frontier);
        let (marks, next) = search_step(adj, visited, frontier);
        let u = frontier[0];
        lemma_search_run(adj, root, emitted.push(u), marks, next, (fuel - 1) as nat);
        let (out, last) = search_run(adj, marks, next, (fuel - 1) as nat);
        assert(emitted.push(u) + out =~= emitted + (seq![u] + out));
    }
}

/// The initial state of a search from `root` satisfies the invariant.
pub proof fn lemma_search_start(adj: Seq<Seq<NodeId>>, root: NodeId)
    requires
        targets_valid(adj),
        root@ < adj.len(),
    ensures
        search_inv(adj, root, Seq::empty(), root_marks(adj.len(), root), seq![root]),
{
    let n = adj.len();
    let marks = root_marks(n, root);
    lemma_reachable_refl(adj, root);
    assert forall|x: NodeId| x@ < n implies (#[trigger] marks[x@ as int] <==> (Seq::<NodeId>::empty().contains(x) || seq![root].contains(x))) by {
        if seq![root].contains(x) {
            assert(seq![root][0] == x);
        }
        if marks[x@ as int] {
            assert(seq![root][0] == x);
        }
    }
}

/// Breadth-first order from a valid root takes each node
/// reachable from the root exactly once, the root first; the final marks
/// are exactly the nodes taken.
pub proof fn lemma_search_order(adj: Seq<Seq<NodeId>>, root: NodeId)
    requires
        targets_valid(adj),
        root@ < adj.len(),
    ensures
        ({
            let (order, marks) = search_run(adj, root_marks(adj.len(), root), seq![root], adj.len());
            &&& order.no_duplicates()
            &&& order.len() > 0
            &&& order[0] == root
            &&& marks.len() == adj.len()
            &&& forall|i: int| 0 <= i < order.len() ==> (#[trigger] order[i])@ < adj.len()
            &&& forall|x: NodeId| #[trigger] order.contains(x) <==> reachable(adj, root, x)
            &&& forall|x: NodeId| x@ < adj.len() ==> (#[trigger] marks[x@ as int] <==> order.contains(x))
        }),
{
    lemma_search_start(adj, root);
    lemma_search_run(adj, root, Seq::empty(), root_marks(adj.len(), root), seq![root], adj.len());
    let (order, marks) = search_run(adj, root_marks(adj.len(), root), seq![root], adj.len());
    assert(Seq::<NodeId>::empty() + order =~= order);
    lemma_reachable_refl(adj, root);
    assert(order.contains(root));
    let (m1, n1) = search_step(adj, root_marks(adj.len(), root), seq![root]);
    assert(seq![root][0] == root);
}

/// The bookkeeping part of a search over `n` nodes: the nodes taken and the
/// frontier are distinct valid nodes, and the marks are exactly those nodes.
pub open spec fn frontier_inv(n: nat, emitted: Seq<NodeId>, visited: Seq<bool>, frontier: Seq<NodeId>) -> bool {
    &&& visited.len() == n
    &&& emitted.no_duplicates()
    &&& frontier.no_duplicates()
    &&& emitted.disjoint(frontier)
    &&& forall|i: int| 0 <= i < emitted.len() ==> (#[trigger] emitted[i])@ < n
    &&& forall|i: int| 0 <= i < frontier.len() ==> (#[trigger] frontier[i])@ < n
    &&& forall|x: NodeId|
        x@ < n ==> (#[trigger] visited[x@ as int] <==> (emitted.contains(x) || frontier.contains(x)))
}

/// Taking the front of the frontier and scanning any valid neighbor
/// sequence keeps the bookkeeping invariant.
pub proof fn lemma_frontier_step(n: nat, emitted: Seq<NodeId>, visited: Seq<bool>, frontier: Seq<NodeId>, nbrs: Seq<NodeId>)
    requires
        frontier_inv(n, emitted, visited, frontier),
        frontier.len() > 0,
        forall|i: int| 0 <= i < nbrs.len() ==> (#[trigger] nbrs[i])@ < n,
    ensures
        ({
            let (marks, pushed) = scan(nbrs, visited);
            frontier_inv(n, emitted.push(frontier[0]), marks, frontier.drop_first() + pushed)
        }),
{
    let u = frontier[0];
    let rest = frontier.drop_first();
    let (marks, pushed) = scan(nbrs, visited);
    let e2 = emitted.push(u);
    let f2 = rest + pushed;
    lemma_scan(nbrs, visited, n);
    assert(rest.no_duplicates()) by {
        assert forall|i: int, j: int| 0 <= i < rest.len() && 0 <= j < rest.len() && i != j implies rest[i] != rest[j] by {
            assert(rest[i] == frontier[i + 1]);
            assert(rest[j] == frontier[j + 1]);
        }
    }
    assert(rest.disjoint(pushed)) by {
        assert forall|i: int, j: int| 0 <= i < rest.len() && 0 <= j < pushed.len() implies rest[i] != pushed[j] by {
            assert(frontier.contains(rest[i])) by {
                assert(rest[i] == frontier[i + 1]);
            }
            assert(!visited[pushed[j]@ as int]);
        }
    }
    lemma_no_dup_concat(rest, pushed);
    assert(e2.no_duplicates()) by {
        assert forall|i: int, j: int| 0 <= i < e2.len() && 0 <= j < e2.len() && i != j implies e2[i] != e2[j] by {
            if j == emitted.len() {
                assert(frontier.contains(u));
                assert(e2[i] == emitted[i]);
            } else if i == emitted.len() {
                assert(frontier.contains(u));
                assert(e2[j] == emitted[j]);
            }
        }
    }
    assert(e2.disjoint(f2)) by {
        assert forall|i: int, j: int| 0 <= i < e2.len() && 0 <= j < f2.len() implies e2[i] != f2[j] by {
            if j < rest.len() {
                assert(f2[j] == frontier[j + 1]);
                if i < emitted.len() {
                    assert(e2[i] == emitted[i]);
                }
            } else {
                let p = pushed[j - rest.len()];
                assert(f2[j] == p);
                assert(!visited[p@ as int]);
                if i < emitted.len() {
                    assert(e2[i] == emitted[i]);
                    assert(emitted.contains(emitted[i]));
                } else {
                    assert(frontier.contains(u));
                }
            }
        }
    }
    assert forall|i: int| 0 <= i < e2.len() implies (#[trigger] e2[i])@ < n by {
        if i < emitted.len() {
            assert(e2[i] == emitted[i]);
        }
    }
    assert forall|i: int| 0 <= i < f2.len() implies (#[trigger] f2[i])@ < n by {
        if i < rest.len() {
            assert(f2[i] == frontier[i + 1]);
        } else {
            assert(f2[i] == pushed[i - rest.len()]);
        }
    }
    assert forall|x: NodeId| x@ < n implies (#[trigger] marks[x@ as int] <==> (e2.contains(x) || f2.contains(x))) by {
        if e2.contains(x) {
            let i = choose|i: int| 0 <= i < e2.len() && e2[i] == x;
            if i < emitted.len() {
                assert(emitted[i] == x);
                assert(emitted.contains(x));
            } else {
                assert(frontier.contains(x));
            }
        }
        if f2.contains(x) {
            let i = choose|i: int| 0 <= i < f2.len() && f2[i] == x;
            if i < rest.len() {
                assert(frontier[i + 1] == x);
                assert(frontier.contains(x));
            } else {
                assert(pushed[i - rest.len()] == x);
            }
        }
        if visited[x@ as int] {
            if emitted.contains(x) {
                let i = choose|i: int| 0 <= i < emitted.len() && emitted[i] == x;
                assert(e2[i] == x);
            } else {
                let i = choose|i: int| 0 <= i < frontier.len() && frontier[i] == x;
                if i == 0 {
                    assert(e2[emitted.len() as int] == x);
                } else {
                    assert(f2[i - 1] == x);
                }
            }
        }
        if pushed.contains(x) {
            let i = choose|i: int| 0 <= i < pushed.len() && pushed[i] == x;
            assert(f2[rest.len() + i] == x);
        }
    }
}

/// The taken nodes and the frontier together never exceed `n`.
pub proof fn lemma_frontier_size(n: nat, emitted: Seq<NodeId>, visited: Seq<bool>, frontier: Seq<NodeId>)
    requires
        frontier_inv(n, emitted, visited, frontier),
    ensures
        emitted.len() + frontier.len() <= n,
{
    lemma_no_dup_concat(emitted, frontier);
    assert forall|i: int| 0 <= i < (emitted + frontier).len() implies (#[trigger] (emitted + frontier)[i])@ < n by {
        if i < emitted.len() {
            assert((emitted + frontier)[i] == emitted[i]);
        } else {
            assert((emitted + frontier)[i] == frontier[i - emitted.len()]);
        }
    }
    crate::paths::lemma_distinct_bound(emitted + frontier, n as int);
}

} // verus!
