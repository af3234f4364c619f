use vstd::prelude::*;

use crate::id::NodeId;

verus! {

broadcast use crate::id::group_node_id;

/// Every adjacency entry names one of the `adj.len()` nodes.
pub open spec fn targets_valid(adj: Seq<Seq<NodeId>>) -> bool {
    forall|u: int, k: int|
        0 <= u < adj.len() && 0 <= k < adj[u].len() ==> (#[trigger] adj[u][k])@ < adj.len()
}

/// There is an edge from `u` to `v`.
pub open spec fn is_edge(adj: Seq<Seq<NodeId>>, u: NodeId, v: NodeId) -> bool {
    u@ < adj.len() && adj[u@ as int].contains(v)
}

/// Step `i` of `p` follows an edge.
pub open spec fn walk_step(adj: Seq<Seq<NodeId>>, p: Seq<NodeId>, i: int) -> bool {
    is_edge(adj, p[i], p[i + 1])
}

/// `p` is a nonempty sequence of nodes in which each step follows an edge.
pub open spec fn is_walk(adj: Seq<Seq<NodeId>>, p: Seq<NodeId>) -> bool {
    &&& p.len() > 0
    &&& forall|i: int| 0 <= i < p.len() ==> (#[trigger] p[i])@ < adj.len()
    &&& forall|i: int| 0 <= i < p.len() - 1 ==> #[trigger] walk_step(adj, p, i)
}

/// Some walk leads from `s` to `v`.
pub open spec fn reachable(adj: Seq<Seq<NodeId>>, s: NodeId, v: NodeId) -> bool {
    exists|p: Seq<NodeId>| #[trigger] is_walk(adj, p) && p[0] == s && p.last() == v
}

/// Some walk of at least one edge returns to where it started.
pub open spec fn has_cycle(adj: Seq<Seq<NodeId>>) -> bool {
    exists|p: Seq<NodeId>| #[trigger] is_walk(adj, p) && p.len() >= 2 && p[0] == p.last()
}

/// A cycle passes through a node reachable from `root`.
pub open spec fn has_cycle_from(adj: Seq<Seq<NodeId>>, root: NodeId) -> bool {
    exists|p: Seq<NodeId>| #[trigger] is_walk(adj, p) && p.len() >= 2 && p[0] == p.last() && reachable(adj, root, p[0])
}

/// Every node reaches itself.
pub proof fn lemma_reachable_refl(adj: Seq<Seq<NodeId>>, s: NodeId)
    requires
        s@ < adj.len(),
    ensures
        reachable(adj, s, s),
{
    let p = seq![s];
    assert(is_walk(adj, p));
}

/// Following one more edge keeps a node reachable.
pub proof fn lemma_reachable_step(adj: Seq<Seq<NodeId>>, s: NodeId, u: NodeId, v: NodeId)
    requires
        reachable(adj, s, u),
        is_edge(adj, u, v),
        v@ < adj.len(),
    ensures
        reachable(adj, s, v),
{
    let p = choose|p: Seq<NodeId>| #[trigger] is_walk(adj, p) && p[0] == s && p.last() == u;
    let q = p.push(v);
    assert forall|i: int| 0 <= i < q.len() - 1 implies #[trigger] walk_step(adj, q, i) by {
        if i < p.len() - 1 {
            assert(walk_step(adj, p, i));
        }
    }
    assert(is_walk(adj, q));
}

/// A set of nodes that holds `s` and is closed under edges holds every node reachable from `s`.
pub proof fn lemma_closed_holds_reachable(adj: Seq<Seq<NodeId>>, inside: Seq<bool>, s: NodeId, v: NodeId)
    requires
        inside.len() == adj.len(),
        inside[s@ as int],
        forall|x: NodeId, y: NodeId| #[trigger] is_edge(adj, x, y) && inside[x@ as int] ==> inside[y@ as int],
        reachable(adj, s, v),
    ensures
        inside[v@ as int],
{
    let p = choose|p: Seq<NodeId>| #[trigger] is_walk(adj, p) && p[0] == s && p.last() == v;
    lemma_walk_stays_inside(adj, inside, p, 0);
}

proof fn lemma_walk_stays_inside(adj: Seq<Seq<NodeId>>, inside: Seq<bool>, p: Seq<NodeId>, i: int)
    requires
        is_walk(adj, p),
        inside.len() == adj.len(),
        inside[p[0]@ as int],
        forall|x: NodeId, y: NodeId| #[trigger] is_edge(adj, x, y) && inside[x@ as int] ==> inside[y@ as int],
        0 <= i < p.len(),
        forall|j: int| 0 <= j <= i ==> inside[(#[trigger] p[j])@ as int],
    ensures
        inside[p.last()@ as int],
    decreases p.len() - i,
{
    if i < p.len() - 1 {
        assert(walk_step(adj, p, i));
        assert forall|j: int| 0 <= j <= i + 1 implies inside[(#[trigger] p[j])@ as int] by {
            if j == i + 1 {
                assert(is_edge(adj, p[i], p[i + 1]));
            }
        }
        lemma_walk_stays_inside(adj, inside, p, i + 1);
    }
}

/// A duplicate-free sequence of node IDs below `n` has at most `n` entries.
pub proof fn lemma_distinct_bound(s: Seq<NodeId>, n: int)
    requires
        0 <= n,
        s.no_duplicates(),
        forall|i: int| 0 <= i < s.len() ==> (#[trigger] s[i])@ < n,
    ensures
        s.len() <= n,
{
    let t = s.map_values(|x: NodeId| x@ as int);
    assert(t.no_duplicates()) by {
        assert forall|i: int, j: int| 0 <= i < t.len() && 0 <= j < t.len() && i != j implies t[i] != t[j] by {
            assert(s[i] != s[j]);
        }
    }
    t.unique_seq_to_set();
    vstd::set_lib::lemma_int_range(0, n);
    assert(t.to_set().subset_of(vstd::set_lib::set_int_range(0, n)));
    vstd::set_lib::lemma_len_subset(t.to_set(), vstd::set_lib::set_int_range(0, n));
}

/// The nodes `0..n` for which `pred` holds, in index order.
pub open spec fn ids_where(n: nat, pred: spec_fn(NodeId) -> bool) -> Seq<NodeId> {
    Seq::new(n, |i: int| NodeId::from_index(i)).filter(pred)
}

/// The nodes `0..n` that `visited` does not mark, in index order.
pub open spec fn unmarked(visited: Seq<bool>) -> Seq<NodeId> {
    ids_where(visited.len(), |x: NodeId| !visited[x@ as int])
}

/// Extending the index range by one node.
pub proof fn lemma_ids_where_push(n: nat, pred: spec_fn(NodeId) -> bool)
    ensures
        ids_where(n + 1, pred) == if pred(NodeId::from_index(n as int)) {
            ids_where(n, pred).push(NodeId::from_index(n as int))
        } else {
            ids_where(n, pred)
        },
{
    let s = Seq::new(n, |i: int| NodeId::from_index(i));
    assert(Seq::new(n + 1, |i: int| NodeId::from_index(i)) =~= s.push(NodeId::from_index(n as int)));
    s.lemma_filter_push(NodeId::from_index(n as int), pred);
}

/// Predicates that agree on the nodes below `n` select the same nodes.
pub proof fn lemma_ids_where_agree(n: nat, p: spec_fn(NodeId) -> bool, q: spec_fn(NodeId) -> bool)
    requires
        n <= u32::MAX + 1,
        forall|x: NodeId| x@ < n ==> p(x) == q(x),
    ensures
        ids_where(n, p) == ids_where(n, q),
    decreases n,
{
    if n == 0 {
        reveal(Seq::filter);
        assert(ids_where(0, p) =~= ids_where(0, q));
    } else {
        lemma_ids_where_agree((n - 1) as nat, p, q);
        lemma_ids_where_push((n - 1) as nat, p);
        lemma_ids_where_push((n - 1) as nat, q);
        let x = NodeId::from_index(n - 1);
        assert(x@ == n - 1);
        assert(p(x) == q(x));
    }
}

/// `ids_where` lists, in increasing index order and once each, exactly the
/// nodes below `n` that satisfy `pred`.
pub proof fn lemma_ids_where(n: nat, pred: spec_fn(NodeId) -> bool)
    requires
        n <= u32::MAX + 1,
    ensures
        forall|i: int, j: int|
            0 <= i < j < ids_where(n, pred).len() ==> (#[trigger] ids_where(n, pred)[i])@ < (
            #[trigger] ids_where(n, pred)[j])@,
        ids_where(n, pred).no_duplicates(),
        forall|i: int| 0 <= i < ids_where(n, pred).len() ==> (#[trigger] ids_where(n, pred)[i])@ < n,
        forall|x: NodeId| #[trigger] ids_where(n, pred).contains(x) <==> (x@ < n && pred(x)),
    decreases n,
{
    if n == 0 {
        reveal(Seq::filter);
        assert(ids_where(n, pred) =~= Seq::<NodeId>::empty());
    } else {
        let m = (n - 1) as nat;
        lemma_ids_where(m, pred);
        lemma_ids_where_push(m, pred);
        let a = ids_where(m, pred);
        let b = ids_where(n, pred);
        let x = NodeId::from_index(m as int);
        assert forall|y: NodeId| #[trigger] b.contains(y) <==> (y@ < n && pred(y)) by {
            if b.contains(y) {
                let i = choose|i: int| 0 <= i < b.len() && b[i] == y;
                if i < a.len() {
                    assert(a[i] == y);
                    assert(a.contains(y));
                }
            }
            if y@ < n && pred(y) {
                if y@ < m {
                    assert(a.contains(y));
                    let i = choose|i: int| 0 <= i < a.len() && a[i] == y;
                    assert(b[i] == y);
                } else {
                    assert(y == x);
                    assert(b[b.len() - 1] == y);
                }
            }
        }
        assert forall|i: int, j: int| 0 <= i < j < b.len() implies (#[trigger] b[i])@ < (#[trigger] b[j])@ by {
            if j == a.len() {
                assert(a.contains(a[i]));
            }
        }
    }
}

/// Sum of the degrees of the first `k` nodes.
pub open spec fn total_degree(adj: Seq<Seq<NodeId>>, k: int) -> int
    decreases k,
{
    if k <= 0 {
        0
    } else {
        total_degree(adj, k - 1) + adj[k - 1].len()
    }
}

/// Degree sums grow with their length.
pub proof fn lemma_total_degree_mono(adj: Seq<Seq<NodeId>>, i: int, j: int)
    requires
        0 <= i <= j,
    ensures
        total_degree(adj, i) <= total_degree(adj, j),
    decreases j - i,
{
    if i < j {
        lemma_total_degree_mono(adj, i, j - 1);
    }
}

/// A duplicate-free sequence of `n` node IDs below `n` names every node below `n`.
pub proof fn lemma_distinct_full(s: Seq<NodeId>, n: int, x: NodeId)
    requires
        s.no_duplicates(),
        s.len() == n,
        forall|i: int| 0 <= i < s.len() ==> (#[trigger] s[i])@ < n,
        x@ < n,
    ensures
        s.contains(x),
{
    if !s.contains(x) {
        let t = s.push(x);
        assert forall|i: int, j: int| 0 <= i < t.len() && 0 <= j < t.len() && i != j implies t[i] != t[j] by {
            if i == s.len() {
                assert(s.contains(t[j]));
            } else if j == s.len() {
                assert(s.contains(t[i]));
            }
        }
        assert forall|i: int| 0 <= i < t.len() implies (#[trigger] t[i])@ < n by {
            if i < s.len() {
                assert(t[i] == s[i]);
            }
        }
        lemma_distinct_bound(t, n);
    }
}

/// A sequence that names every node below `n` has at least `n` entries.
pub proof fn lemma_covering_bound(s: Seq<NodeId>, n: int)
    requires
        0 <= n <= u32::MAX + 1,
        forall|i: int| 0 <= i < n ==> s.contains(#[trigger] NodeId::from_index(i)),
    ensures
        s.len() >= n,
{
    let t = s.map_values(|x: NodeId| x@ as int);
    vstd::set_lib::lemma_int_range(0, n);
    assert forall|i: int| #[trigger] vstd::set_lib::set_int_range(0, n).contains(i) implies t.to_set().contains(i) by {
        assert(s.contains(NodeId::from_index(i)));
        let k = choose|k: int| 0 <= k < s.len() && s[k] == NodeId::from_index(i);
        assert(t[k] == i);
    }
    t.lemma_cardinality_of_set();
    vstd::set_lib::lemma_len_subset(vstd::set_lib::set_int_range(0, n), t.to_set());
}

/// A duplicate-free sequence of integers in `[0, n)` has at most `n` entries.
pub proof fn lemma_int_distinct_bound(s: Seq<int>, n: int)
    requires
        0 <= n,
        s.no_duplicates(),
        forall|i: int| 0 <= i < s.len() ==> 0 <= #[trigger] s[i] < n,
    ensures
        s.len() <= n,
{
    s.unique_seq_to_set();
    vstd::set_lib::lemma_int_range(0, n);
    assert(s.to_set().subset_of(vstd::set_lib::set_int_range(0, n)));
    vstd::set_lib::lemma_len_subset(s.to_set(), vstd::set_lib::set_int_range(0, n));
}

/// A sequence of integers holding every integer in `[0, n)` has at least `n` entries.
pub proof fn lemma_int_covering_bound(s: Seq<int>, n: int)
    requires
        0 <= n,
        forall|p: int| 0 <= p < n ==> #[trigger] s.contains(p),
    ensures
        s.len() >= n,
{
    vstd::set_lib::lemma_int_range(0, n);
    assert forall|p: int| #[trigger] vstd::set_lib::set_int_range(0, n).contains(p) implies s.to_set().contains(p) by {
        assert(s.contains(p));
    }
    s.lemma_cardinality_of_set();
    vstd::set_lib::lemma_len_subset(vstd::set_lib::set_int_range(0, n), s.to_set());
}

} // verus!
