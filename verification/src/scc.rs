use vstd::prelude::*;

use crate::graph::Graph;
use crate::id::NodeId;
use crate::postorder::{dfs_visit, dfs_visit_from};
use crate::paths::{
    is_edge, lemma_closed_holds_reachable, lemma_distinct_bound, lemma_reachable_refl,
    lemma_reachable_step, reachable, targets_valid,
};

verus! {

broadcast use crate::id::group_node_id;

/// `x` and `y` reach each other.
pub open spec fn mutually_reachable(adj: Seq<Seq<NodeId>>, x: NodeId, y: NodeId) -> bool {
    reachable(adj, x, y) && reachable(adj, y, x)
}

/// Some component of `comps` holds `x`.
pub open spec fn in_some(comps: Seq<Seq<NodeId>>, x: NodeId) -> bool {
    exists|i: int| 0 <= i < comps.len() && #[trigger] comps[i].contains(x)
}

/// Each entry of `comps` is a strongly connected component of the graph:
/// nonempty, free of repeats, disjoint from the others, and holding exactly
/// the nodes that reach, and are reached by, any one of its nodes. An edge
/// between two components goes from a later one to an earlier one (reverse
/// topological order).
pub open spec fn is_scc_list(adj: Seq<Seq<NodeId>>, comps: Seq<Seq<NodeId>>) -> bool {
    &&& forall|i: int| 0 <= i < comps.len() ==> (#[trigger] comps[i]).len() > 0 && comps[i].no_duplicates()
    &&& forall|i: int, k: int| 0 <= i < comps.len() && 0 <= k < comps[i].len() ==> (#[trigger] comps[i][k])@ < adj.len()
    &&& forall|i: int, j: int, x: NodeId|
        0 <= i < j < comps.len() ==> !(#[trigger] comps[i].contains(x) && #[trigger] comps[j].contains(x))
    &&& forall|i: int, x: NodeId, y: NodeId|
        #![trigger comps[i].contains(x), comps[i].contains(y)]
        #![trigger comps[i].contains(x), mutually_reachable(adj, x, y)]
        0 <= i < comps.len() && comps[i].contains(x) ==> (comps[i].contains(y) <==> mutually_reachable(adj, x, y))
    &&& forall|i: int, j: int, x: NodeId, y: NodeId|
        0 <= i < comps.len() && 0 <= j < comps.len() && #[trigger] comps[i].contains(x) && #[trigger] comps[j].contains(y)
            && is_edge(adj, x, y) ==> j <= i
}

/// The components of the graph, listed in `comps`, cover every node.
pub open spec fn is_scc_partition(adj: Seq<Seq<NodeId>>, comps: Seq<Seq<NodeId>>) -> bool {
    &&& is_scc_list(adj, comps)
    &&& forall|x: NodeId| x@ < adj.len() ==> #[trigger] in_some(comps, x)
}

/// `x` has been given a discovery index.
pub open spec fn visited(ind: Seq<Option<usize>>, x: NodeId) -> bool {
    ind[x@ as int] is Some
}

/// The discovery index of `x`.
pub open spec fn num(ind: Seq<Option<usize>>, x: NodeId) -> int {
    ind[x@ as int]->0 as int
}

/// `x` has been discovered and has left the stack: its component is done.
pub open spec fn done(ind: Seq<Option<usize>>, on_stack: Seq<bool>, x: NodeId) -> bool {
    visited(ind, x) && !on_stack[x@ as int]
}

/// The bookkeeping of Tarjan's algorithm between steps: `order` lists the
/// discovered nodes by discovery index; the stack holds discovered nodes in
/// discovery order; the finished nodes are exactly those of the components
/// found so far, which are true components; and a finished node has edges to
/// finished nodes only.
pub open spec fn tarjan_inv(
    adj: Seq<Seq<NodeId>>,
    ind: Seq<Option<usize>>,
    on_stack: Seq<bool>,
    stack: Seq<NodeId>,
    comps: Seq<Seq<NodeId>>,
    order: Seq<NodeId>,
) -> bool {
    let n = adj.len();
    &&& n <= u32::MAX
    &&& targets_valid(adj)
    &&& ind.len() == n
    &&& on_stack.len() == n
    &&& order.no_duplicates()
    &&& forall|k: int| 0 <= k < order.len() ==> (#[trigger] order[k])@ < n && ind[order[k]@ as int] == Some(k as usize)
    &&& forall|x: NodeId| x@ < n && #[trigger] visited(ind, x) ==> order.contains(x)
    &&& stack.no_duplicates()
    &&& forall|i: int| 0 <= i < stack.len() ==> (#[trigger] stack[i])@ < n && visited(ind, stack[i])
    &&& forall|x: NodeId| x@ < n ==> (#[trigger] on_stack[x@ as int] <==> stack.contains(x))
    &&& forall|i: int, j: int| 0 <= i < j < stack.len() ==> num(ind, #[trigger] stack[i]) < num(ind, #[trigger] stack[j])
    &&& is_scc_list(adj, comps)
    &&& forall|x: NodeId| x@ < n ==> (#[trigger] done(ind, on_stack, x) <==> in_some(comps, x))
    &&& forall|x: NodeId, k: int|
        x@ < n && 0 <= k < adj[x@ as int].len() && done(ind, on_stack, x) ==> done(
            ind,
            on_stack,
            #[trigger] adj[x@ as int][k],
        )
}

/// Reachability is transitive.
pub proof fn lemma_reachable_trans(adj: Seq<Seq<NodeId>>, a: NodeId, b: NodeId, c: NodeId)
    requires
        reachable(adj, a, b),
        reachable(adj, b, c),
    ensures
        reachable(adj, a, c),
{
    let p = choose|p: Seq<NodeId>| #[trigger] crate::paths::is_walk(adj, p) && p[0] == a && p.last() == b;
    let q = choose|q: Seq<NodeId>| #[trigger] crate::paths::is_walk(adj, q) && q[0] == b && q.last() == c;
    let w = p + q.drop_first();
    assert forall|i: int| 0 <= i < w.len() implies (#[trigger] w[i])@ < adj.len() by {
        if i < p.len() {
            assert(w[i] == p[i]);
        } else {
            assert(w[i] == q[i - p.len() + 1]);
        }
    }
    assert forall|i: int| 0 <= i < w.len() - 1 implies #[trigger] crate::paths::walk_step(adj, w, i) by {
        if i < p.len() - 1 {
            assert(crate::paths::walk_step(adj, p, i));
        } else {
            let j = i - p.len() + 1;
            assert(crate::paths::walk_step(adj, q, j));
            assert(w[i] == q[j]);
            assert(w[i + 1] == q[j + 1]);
        }
    }
    assert(crate::paths::is_walk(adj, w));
    if q.len() == 1 {
        assert(w =~= p);
    } else {
        assert(w.last() == q.last());
    }
}

/// An edge makes its target reachable from its source.
pub proof fn lemma_edge_reachable(adj: Seq<Seq<NodeId>>, x: NodeId, k: int)
    requires
        targets_valid(adj),
        x@ < adj.len(),
        0 <= k < adj[x@ as int].len(),
    ensures
        is_edge(adj, x, adj[x@ as int][k]),
        reachable(adj, x, adj[x@ as int][k]),
{
    let y = adj[x@ as int][k];
    assert(adj[x@ as int].contains(y));
    lemma_reachable_refl(adj, x);
    lemma_reachable_step(adj, x, x, y);
}

/// Discovering `u`: it takes the next index and goes on the stack.
pub proof fn lemma_visit(
    adj: Seq<Seq<NodeId>>,
    ind: Seq<Option<usize>>,
    on_stack: Seq<bool>,
    stack: Seq<NodeId>,
    comps: Seq<Seq<NodeId>>,
    order: Seq<NodeId>,
    u: NodeId,
)
    requires
        tarjan_inv(adj, ind, on_stack, stack, comps, order),
        u@ < adj.len(),
        !visited(ind, u),
    ensures
        order.len() < adj.len(),
        tarjan_inv(
            adj,
            ind.update(u@ as int, Some(order.len() as usize)),
            on_stack.update(u@ as int, true),
            stack.push(u),
            comps,
            order.push(u),
        ),
        forall|x: NodeId| x@ < adj.len() ==> (#[trigger] done(ind, on_stack, x) <==> done(
            ind.update(u@ as int, Some(order.len() as usize)),
            on_stack.update(u@ as int, true),
            x,
        )),
{
    let n = adj.len();
    let ind2 = ind.update(u@ as int, Some(order.len() as usize));
    let os2 = on_stack.update(u@ as int, true);
    let st2 = stack.push(u);
    let or2 = order.push(u);
    assert(!order.contains(u)) by {
        if order.contains(u) {
            let k = choose|k: int| 0 <= k < order.len() && order[k] == u;
            assert(ind[order[k]@ as int] == Some(k as usize));
        }
    }
    assert(or2.no_duplicates());
    assert forall|i: int| 0 <= i < or2.len() implies (#[trigger] or2[i])@ < n by {}
    lemma_distinct_bound(or2, n as int);
    assert forall|k: int| 0 <= k < or2.len() implies (#[trigger] or2[k])@ < n && ind2[or2[k]@ as int] == Some(k as usize) by {
        if k < order.len() {
            assert(or2[k] == order[k]);
            assert(order[k] != u);
        }
    }
    assert forall|x: NodeId| x@ < n && #[trigger] visited(ind2, x) implies or2.contains(x) by {
        if x == u {
            assert(or2[order.len() as int] == u);
        } else {
            assert(visited(ind, x));
            assert(order.contains(x));
            let k = choose|k: int| 0 <= k < order.len() && order[k] == x;
            assert(or2[k] == x);
        }
    }
    assert forall|i: int| 0 <= i < stack.len() implies (#[trigger] stack[i]) != u by {
        assert(visited(ind, stack[i]));
    }
    assert(st2.no_duplicates());
    assert forall|i: int| 0 <= i < st2.len() implies (#[trigger] st2[i])@ < n && visited(ind2, st2[i]) by {
        if i < stack.len() {
            assert(st2[i] == stack[i]);
            assert(visited(ind, stack[i]));
        }
    }
    assert forall|x: NodeId| x@ < n implies (#[trigger] os2[x@ as int] <==> st2.contains(x)) by {
        if st2.contains(x) && x != u {
            let i = choose|i: int| 0 <= i < st2.len() && st2[i] == x;
            assert(stack[i] == x);
        }
        if stack.contains(x) {
            let i = choose|i: int| 0 <= i < stack.len() && stack[i] == x;
            assert(st2[i] == x);
        }
        if x == u {
            assert(st2[stack.len() as int] == u);
        }
    }
    assert forall|x: NodeId| x@ < n && visited(ind, x) implies num(ind, x) < order.len() && num(ind2, x) == num(ind, x) by {
        assert(order.contains(x));
        let k = choose|k: int| 0 <= k < order.len() && order[k] == x;
        assert(ind[order[k]@ as int] == Some(k as usize));
    }
    assert forall|i: int, j: int| 0 <= i < j < st2.len() implies num(ind2, #[trigger] st2[i]) < num(ind2, #[trigger] st2[j]) by {
        assert(st2[i] == stack[i]);
        assert(visited(ind, stack[i]));
        if j < stack.len() {
            assert(st2[j] == stack[j]);
        }
    }
    assert forall|x: NodeId| x@ < n implies (#[trigger] done(ind, on_stack, x) <==> done(ind2, os2, x)) by {}
    assert forall|x: NodeId| x@ < n implies (#[trigger] done(ind2, os2, x) <==> in_some(comps, x)) by {
        assert(done(ind, on_stack, x) <==> in_some(comps, x));
    }
    assert forall|x: NodeId, k: int|
        x@ < n && 0 <= k < adj[x@ as int].len() && done(ind2, os2, x) implies done(
            ind2,
            os2,
            #[trigger] adj[x@ as int][k],
        ) by {
        assert(done(ind, on_stack, x));
        assert(done(ind, on_stack, adj[x@ as int][k]));
    }
}

/// A discovered node sits in the discovery order at its index.
pub proof fn lemma_node_at_index(
    adj: Seq<Seq<NodeId>>,
    ind: Seq<Option<usize>>,
    on_stack: Seq<bool>,
    stack: Seq<NodeId>,
    comps: Seq<Seq<NodeId>>,
    order: Seq<NodeId>,
    v: NodeId,
)
    requires
        tarjan_inv(adj, ind, on_stack, stack, comps, order),
        v@ < adj.len(),
        visited(ind, v),
    ensures
        0 <= num(ind, v) < order.len(),
        order[num(ind, v)] == v,
{
    assert(order.contains(v));
    let j = choose|j: int| 0 <= j < order.len() && order[j] == v;
    assert(ind[order[j]@ as int] == Some(j as usize));
    lemma_distinct_bound(order, adj.len() as int);
}

/// Emitting the top of the stack from position `pos` as a component: when
/// its nodes reach each other and have edges only among themselves and to
/// finished nodes, the bookkeeping holds with them finished.
pub proof fn lemma_emit(
    adj: Seq<Seq<NodeId>>,
    ind: Seq<Option<usize>>,
    on_stack: Seq<bool>,
    stack: Seq<NodeId>,
    comps: Seq<Seq<NodeId>>,
    order: Seq<NodeId>,
    pos: int,
    comp: Seq<NodeId>,
)
    requires
        tarjan_inv(adj, ind, on_stack, stack, comps, order),
        0 <= pos < stack.len(),
        comp.no_duplicates(),
        forall|x: NodeId| #[trigger] comp.contains(x) <==> stack.subrange(pos, stack.len() as int).contains(x),
        forall|x: NodeId, y: NodeId| comp.contains(x) && comp.contains(y) ==> #[trigger] reachable(adj, x, y),
        forall|x: NodeId, k: int|
            comp.contains(x) && 0 <= k < adj[x@ as int].len() ==> done(ind, on_stack, #[trigger] adj[x@ as int][k])
                || comp.contains(adj[x@ as int][k]),
    ensures
        tarjan_inv(
            adj,
            ind,
            Seq::new(on_stack.len(), |i: int| on_stack[i] && !comp.contains(NodeId::from_index(i))),
            stack.subrange(0, pos),
            comps.push(comp),
            order,
        ),
{
    let n = adj.len();
    let os2 = Seq::new(on_stack.len(), |i: int| on_stack[i] && !comp.contains(NodeId::from_index(i)));
    let st2 = stack.subrange(0, pos);
    let seg = stack.subrange(pos, stack.len() as int);
    let cs2 = comps.push(comp);
    let t = comps.len() as int;
    assert(cs2[t] == comp);
    assert forall|i: int| 0 <= i < comps.len() implies cs2[i] == comps[i] by {}
    // The component's nodes are on the stack, hence not finished before.
    assert forall|x: NodeId| #[trigger] comp.contains(x) implies x@ < n && on_stack[x@ as int] && visited(ind, x) by {
        assert(seg.contains(x));
        let i = choose|i: int| 0 <= i < seg.len() && seg[i] == x;
        assert(stack[pos + i] == x);
        assert(stack.contains(x));
    }
    assert(st2.no_duplicates());
    assert forall|i: int| 0 <= i < st2.len() implies (#[trigger] st2[i])@ < n && visited(ind, st2[i]) by {
        assert(st2[i] == stack[i]);
    }
    assert forall|x: NodeId| x@ < n implies (#[trigger] os2[x@ as int] <==> st2.contains(x)) by {
        assert(NodeId::from_index(x@ as int) == x);
        if st2.contains(x) {
            let i = choose|i: int| 0 <= i < st2.len() && st2[i] == x;
            assert(stack[i] == x);
            assert(stack.contains(x));
            if comp.contains(x) {
                let j = choose|j: int| 0 <= j < seg.len() && seg[j] == x;
                assert(stack[pos + j] == x);
            }
        }
        if os2[x@ as int] {
            assert(stack.contains(x));
            let i = choose|i: int| 0 <= i < stack.len() && stack[i] == x;
            if i >= pos {
                assert(seg[i - pos] == x);
                assert(seg.contains(x));
            } else {
                assert(st2[i] == x);
            }
        }
    }
    assert forall|i: int, j: int| 0 <= i < j < st2.len() implies num(ind, #[trigger] st2[i]) < num(ind, #[trigger] st2[j]) by {
        assert(st2[i] == stack[i]);
        assert(st2[j] == stack[j]);
    }
    // Finished now: finished before, or in the component.
    assert forall|x: NodeId| x@ < n implies (#[trigger] done(ind, os2, x) <==> (done(ind, on_stack, x) || comp.contains(x))) by {
        assert(NodeId::from_index(x@ as int) == x);
    }
    let inside = Seq::new(n, |i: int| done(ind, os2, NodeId::from_index(i)));
    let before = Seq::new(n, |i: int| done(ind, on_stack, NodeId::from_index(i)));
    assert forall|x: NodeId, y: NodeId| #[trigger] is_edge(adj, x, y) && inside[x@ as int] implies inside[y@ as int] by {
        assert(NodeId::from_index(x@ as int) == x);
        assert(NodeId::from_index(y@ as int) == y);
        let k = choose|k: int| 0 <= k < adj[x@ as int].len() && adj[x@ as int][k] == y;
        if comp.contains(x) {
        } else {
            assert(done(ind, on_stack, x));
            assert(done(ind, on_stack, adj[x@ as int][k]));
        }
    }
    assert forall|x: NodeId, y: NodeId| #[trigger] is_edge(adj, x, y) && before[x@ as int] implies before[y@ as int] by {
        assert(NodeId::from_index(x@ as int) == x);
        assert(NodeId::from_index(y@ as int) == y);
        let k = choose|k: int| 0 <= k < adj[x@ as int].len() && adj[x@ as int][k] == y;
        assert(done(ind, on_stack, adj[x@ as int][k]));
    }
    // What a finished node reaches is finished.
    assert forall|x: NodeId, y: NodeId| x@ < n && done(ind, on_stack, x) && #[trigger] reachable(adj, x, y) implies done(ind, on_stack, y) by {
        assert(before[x@ as int]);
        lemma_closed_holds_reachable(adj, before, x, y);
        assert(NodeId::from_index(y@ as int) == y);
    }
    // The new component is a component.
    assert forall|x: NodeId, y: NodeId|
        #![trigger cs2[t].contains(x), cs2[t].contains(y)]
        #![trigger cs2[t].contains(x), mutually_reachable(adj, x, y)]
        cs2[t].contains(x) implies (cs2[t].contains(y) <==> mutually_reachable(adj, x, y)) by {
        if mutually_reachable(adj, x, y) {
            assert(inside[x@ as int]);
            lemma_closed_holds_reachable(adj, inside, x, y);
            assert(NodeId::from_index(y@ as int) == y);
            if !comp.contains(y) {
                assert(done(ind, on_stack, y));
                assert(done(ind, on_stack, x));
            }
        }
    }
    assert forall|i: int, j: int, x: NodeId|
        0 <= i < j < cs2.len() implies !(#[trigger] cs2[i].contains(x) && #[trigger] cs2[j].contains(x)) by {
        if j == t && cs2[i].contains(x) && comp.contains(x) {
            assert(in_some(comps, x));
            assert(done(ind, on_stack, x));
        }
    }
    assert forall|i: int, j: int, x: NodeId, y: NodeId|
        0 <= i < cs2.len() && 0 <= j < cs2.len() && #[trigger] cs2[i].contains(x) && #[trigger] cs2[j].contains(y)
            && is_edge(adj, x, y) implies j <= i by {
        if i < t && j == t {
            assert(in_some(comps, x));
            assert(before[x@ as int]) by {
                assert(NodeId::from_index(x@ as int) == x);
            }
            assert(before[y@ as int]);
            assert(NodeId::from_index(y@ as int) == y);
            assert(comp.contains(y));
        }
    }
    assert forall|x: NodeId| x@ < n implies (#[trigger] done(ind, os2, x) <==> in_some(cs2, x)) by {
        if in_some(cs2, x) {
            let i = choose|i: int| 0 <= i < cs2.len() && #[trigger] cs2[i].contains(x);
            if i < t {
                assert(in_some(comps, x));
            }
        }
        if done(ind, on_stack, x) {
            assert(in_some(comps, x));
            let i = choose|i: int| 0 <= i < comps.len() && #[trigger] comps[i].contains(x);
            assert(cs2[i].contains(x));
        }
        if comp.contains(x) {
            assert(cs2[t].contains(x));
        }
    }
    assert forall|x: NodeId, k: int|
        x@ < n && 0 <= k < adj[x@ as int].len() && done(ind, os2, x) implies done(
            ind,
            os2,
            #[trigger] adj[x@ as int][k],
        ) by {
        let y = adj[x@ as int][k];
        lemma_edge_reachable(adj, x, k);
        assert(inside[x@ as int]) by {
            assert(NodeId::from_index(x@ as int) == x);
        }
        assert(inside[y@ as int]);
        assert(NodeId::from_index(y@ as int) == y);
    }
    assert forall|i: int| 0 <= i < cs2.len() implies (#[trigger] cs2[i]).len() > 0 && cs2[i].no_duplicates() by {
        if i == t {
            assert(stack[pos] == seg[0]);
            assert(seg.contains(stack[pos]));
            assert(comp.contains(stack[pos]));
        }
    }
    assert forall|i: int, k: int| 0 <= i < cs2.len() && 0 <= k < cs2[i].len() implies (#[trigger] cs2[i][k])@ < n by {
        if i == t {
            assert(comp.contains(comp[k]));
        }
    }
}

/// The marks of the nodes that have been given an index.
pub open spec fn marks_of(ind: Seq<Option<usize>>) -> Seq<bool> {
    Seq::new(ind.len(), |i: int| ind[i] is Some)
}

/// Depth-first search over the whole graph: a visit from each node, in
/// index order from `i`, that no earlier visit reached. Returns the order in
/// which nodes were first reached and the order in which their visits ended.
pub open spec fn dfs_forest(adj: Seq<Seq<NodeId>>, marks: Seq<bool>, i: int) -> (Seq<NodeId>, Seq<NodeId>)
    decreases adj.len() - i,
{
    if i < 0 || i >= adj.len() {
        (Seq::empty(), Seq::empty())
    } else if marks[i] {
        dfs_forest(adj, marks, i + 1)
    } else {
        let (m2, p, q) = dfs_visit(adj, marks, NodeId::from_index(i), adj.len());
        let (p2, q2) = dfs_forest(adj, m2, i + 1);
        (p + p2, q + q2)
    }
}

/// `x` comes before `y` in `s`.
pub open spec fn precedes(s: Seq<NodeId>, x: NodeId, y: NodeId) -> bool {
    exists|a: int, b: int| 0 <= a < b < s.len() && #[trigger] s[a] == x && #[trigger] s[b] == y
}

/// The order in which Tarjan's algorithm lists the components, stated over
/// a depth-first search of the whole graph from node 0 on, in index order:
/// within a component, nodes come from the last discovered to the first; and
/// components come in the order in which the visits of their first
/// discovered nodes ended.
pub open spec fn scc_output_order(adj: Seq<Seq<NodeId>>, comps: Seq<Seq<NodeId>>) -> bool {
    let (pre, post) = dfs_forest(adj, Seq::new(adj.len(), |j: int| false), 0);
    &&& pre.no_duplicates()
    &&& post.no_duplicates()
    &&& forall|i: int, a: int, b: int|
        0 <= i < comps.len() && 0 <= a < b < comps[i].len() ==> precedes(pre, #[trigger] comps[i][b], #[trigger] comps[i][a])
    &&& forall|i: int, j: int|
        0 <= i < j < comps.len() ==> precedes(post, (#[trigger] comps[i]).last(), (#[trigger] comps[j]).last())
}

/// The working state of Tarjan's algorithm.
struct TarjanState<'a, N, E> {
    graph: &'a Graph<N, E>,
    index: usize,
    indices: Vec<Option<usize>>,
    lowlink: Vec<usize>,
    on_stack: Vec<bool>,
    stack: Vec<NodeId>,
    sccs: Vec<Vec<NodeId>>,
    /// The discovered nodes, by discovery index.
    order: Ghost<Seq<NodeId>>,
    /// The nodes whose visits have ended, in that order.
    finished: Ghost<Seq<NodeId>>,
}

/// The components as sequences.
pub open spec fn comps_of(sccs: Seq<Vec<NodeId>>) -> Seq<Seq<NodeId>> {
    sccs.map_values(|c: Vec<NodeId>| c@)
}

impl<'a, N, E> TarjanState<'a, N, E> {
    spec fn adj(&self) -> Seq<Seq<NodeId>> {
        self.graph.spec_adj()
    }

    spec fn inv(&self) -> bool {
        &&& tarjan_inv(self.adj(), self.indices@, self.on_stack@, self.stack@, comps_of(self.sccs@), self.order@)
        &&& self.index == self.order@.len()
        &&& self.lowlink@.len() == self.adj().len()
        &&& self.graph.shape_ok()
    }

    /// The order facts of the output: the visits that ended are listed once
    /// each; each component lists its nodes from the last discovered to the
    /// first; and the components come in the order in which the visits of
    /// their first discovered nodes (their last entries) ended.
    spec fn emit_order(&self) -> bool {
        let comps = comps_of(self.sccs@);
        let ind = self.indices@;
        let fin = self.finished@;
        &&& fin.no_duplicates()
        &&& forall|j: int| 0 <= j < fin.len() ==> (#[trigger] fin[j])@ < self.adj().len() && visited(ind, fin[j])
        &&& forall|i: int, a: int, b: int|
            0 <= i < comps.len() && 0 <= a < b < comps[i].len() ==> num(ind, #[trigger] comps[i][b]) < num(
                ind,
                #[trigger] comps[i][a],
            )
        &&& forall|i: int| 0 <= i < comps.len() ==> fin.contains((#[trigger] comps[i]).last())
        &&& forall|i: int, j: int|
            0 <= i < j < comps.len() ==> precedes(fin, (#[trigger] comps[i]).last(), (#[trigger] comps[j]).last())
    }

    /// What a visit of `u` from state `self` leaves in state `fin`: `u` and
    /// the nodes newly discovered after it, all reachable from `u`, are
    /// appended to the discovery order; the stack below keeps its contents;
    /// and what stays above it (`u` first, if anything) reaches a node that
    /// was already on the stack, namely the one indexed by `u`'s low link,
    /// with every edge out of it going to a finished node or to a node
    /// indexed at least that low link.
    spec fn connect_post(self, fin: Self, u: NodeId) -> bool {
        let adj = self.adj();
        let nu = self.order@.len() as int;
        let low = fin.lowlink@[u@ as int] as int;
        let seg = fin.stack@.subrange(self.stack@.len() as int, fin.stack@.len() as int);
        let ind = fin.indices@;
        let os = fin.on_stack@;
        &&& fin.inv()
        &&& fin.graph == self.graph
        &&& fin.order@.len() > nu
        &&& fin.order@.subrange(0, nu) == self.order@
        &&& fin.order@[nu] == u
        &&& forall|j: int| nu <= j < fin.order@.len() ==> reachable(adj, u, #[trigger] fin.order@[j])
        &&& fin.stack@.len() >= self.stack@.len()
        &&& fin.stack@.subrange(0, self.stack@.len() as int) == self.stack@
        &&& forall|x: NodeId|
            x@ < adj.len() && #[trigger] visited(self.indices@, x) ==> ind[x@ as int] == self.indices@[x@ as int]
                && fin.lowlink@[x@ as int] == self.lowlink@[x@ as int]
        &&& forall|x: NodeId| x@ < adj.len() && #[trigger] done(self.indices@, self.on_stack@, x) ==> done(ind, os, x)
        &&& low <= nu
        &&& seg.len() == 0 ==> done(ind, os, u) && low == nu
        &&& seg.len() > 0 ==> seg[0] == u && low < nu && self.stack@.contains(self.order@[low])
        &&& forall|i: int| 0 <= i < seg.len() ==> reachable(adj, #[trigger] seg[i], fin.order@[low])
        &&& forall|i: int, j: int|
            0 <= i < seg.len() && 0 <= j < adj[seg[i]@ as int].len() ==> done(ind, os, #[trigger] adj[seg[i]@ as int][j])
                || (visited(ind, adj[seg[i]@ as int][j]) && num(ind, adj[seg[i]@ as int][j]) >= low)
    }

    /// The state of a visit of `u`, begun in state `start`, once the first
    /// `k` edges of `u` have been followed.
    spec fn frame_inv(self, start: Self, u: NodeId, k: int) -> bool {
        let adj = self.adj();
        let n = adj.len();
        let nu = start.order@.len() as int;
        let p0 = start.stack@.len() as int;
        let low = self.lowlink@[u@ as int] as int;
        let ind = self.indices@;
        let os = self.on_stack@;
        &&& self.inv()
        &&& start.inv()
        &&& self.graph == start.graph
        &&& u@ < n
        &&& 0 <= k <= adj[u@ as int].len()
        &&& self.order@.len() > nu
        &&& self.order@.subrange(0, nu) == start.order@
        &&& self.order@[nu] == u
        &&& forall|j: int| nu <= j < self.order@.len() ==> reachable(adj, u, #[trigger] self.order@[j])
        &&& self.stack@.len() > p0
        &&& self.stack@.subrange(0, p0) == start.stack@
        &&& self.stack@[p0] == u
        &&& forall|x: NodeId|
            x@ < n && #[trigger] visited(start.indices@, x) ==> ind[x@ as int] == start.indices@[x@ as int]
                && self.lowlink@[x@ as int] == start.lowlink@[x@ as int]
        &&& forall|x: NodeId| x@ < n && #[trigger] done(start.indices@, start.on_stack@, x) ==> done(ind, os, x)
        &&& !visited(start.indices@, u)
        &&& forall|i: int| 0 <= i < p0 ==> reachable(adj, #[trigger] start.stack@[i], u)
        &&& low <= nu
        &&& low < nu ==> start.stack@.contains(start.order@[low])
        &&& reachable(adj, u, self.order@[low])
        &&& reachable(adj, self.order@[low], u)
        &&& forall|i: int| p0 <= i < self.stack@.len() ==> reachable(adj, #[trigger] self.stack@[i], self.order@[low])
        &&& forall|i: int, j: int|
            p0 <= i < self.stack@.len() && 0 <= j < adj[self.stack@[i]@ as int].len() && (i > p0 || j < k) ==> done(
                ind,
                os,
                #[trigger] adj[self.stack@[i]@ as int][j],
            ) || (visited(ind, adj[self.stack@[i]@ as int][j]) && num(ind, adj[self.stack@[i]@ as int][j]) >= low)
    }

    /// Visits `u` and everything newly reachable from it; emits each
    /// component whose root is among the nodes visited.
    fn strongconnect(&mut self, u: NodeId, Ghost(fuel): Ghost<nat>)
        requires
            fuel + old(self).index >= old(self).adj().len(),
            old(self).inv(),
            old(self).emit_order(),
            u@ < old(self).adj().len(),
            !visited(old(self).indices@, u),
            forall|i: int| 0 <= i < old(self).stack@.len() ==> reachable(old(self).adj(), #[trigger] old(self).stack@[i], u),
        ensures
            old(self).connect_post(*final(self), u),
            ({
                let (m, p, q) = dfs_visit(old(self).adj(), marks_of(old(self).indices@), u, fuel);
                &&& marks_of(final(self).indices@) == m
                &&& final(self).order@ == old(self).order@ + p
                &&& final(self).finished@ == old(self).finished@ + q
            }),
            final(self).emit_order(),
            forall|j: int|
                old(self).finished@.len() <= j < final(self).finished@.len() ==> num(
                    final(self).indices@,
                    #[trigger] final(self).finished@[j],
                ) >= old(self).order@.len(),
        decreases old(self).adj().len() - old(self).index,
    {
        let ghost start = *self;
        let ghost adj = self.adj();
        let ghost m0 = marks_of(self.indices@);
        let ghost graph0 = self.graph;
        let n = self.graph.node_count();
        let ui = u.index();
        proof {
            lemma_visit(adj, self.indices@, self.on_stack@, self.stack@, comps_of(self.sccs@), self.order@, u);
        }
        let idx = self.index;
        self.indices.set(ui, Some(idx));
        self.lowlink.set(ui, idx);
        self.index = idx + 1;
        self.stack.push(u);
        self.on_stack.set(ui, true);
        self.order = Ghost(self.order@.push(u));
        proof {
            lemma_order_set_index(start, *self, u);
            assert(self.finished@.subrange(0, start.finished@.len() as int) =~= start.finished@);
            assert(marks_of(self.indices@) =~= m0.update(u@ as int, true));
            assert(self.order@ =~= start.order@ + seq![u]);
            assert(self.order@ + Seq::<NodeId>::empty() =~= self.order@);
            assert(self.finished@ + Seq::<NodeId>::empty() =~= self.finished@);
            lemma_reachable_refl(adj, u);
            assert(self.order@[start.order@.len() as int] == u);
            assert(self.stack@.subrange(0, start.stack@.len() as int) =~= start.stack@);
            assert(self.order@.subrange(0, start.order@.len() as int) =~= start.order@);
        }
        let deg = self.graph.degree_at(ui);
        let mut k: usize = 0;
        while k < deg
            invariant
                self.frame_inv(start, u, k as int),
                start == *old(self),
                m0 == marks_of(start.indices@),
                fuel + start.index >= adj.len(),
                fuel >= 1,
                self.index >= start.index + 1,
                self.emit_order(),
                self.finished@.len() >= start.finished@.len(),
                self.finished@.subrange(0, start.finished@.len() as int) == start.finished@,
                forall|j: int|
                    start.finished@.len() <= j < self.finished@.len() ==> num(self.indices@, #[trigger] self.finished@[j])
                        > start.order@.len(),
                ({
                    let (mt, pt, qt) = dfs_visit_from(adj, m0.update(u@ as int, true), u, 0, (fuel - 1) as nat);
                    let (mr, pr, qr) = dfs_visit_from(adj, marks_of(self.indices@), u, k as int, (fuel - 1) as nat);
                    &&& mr == mt
                    &&& self.order@ + pr == start.order@ + seq![u] + pt
                    &&& self.finished@ + qr == start.finished@ + qt
                }),
                self.graph == graph0,
                adj == self.adj(),
                n == adj.len(),
                ui == u@,
                deg == adj[u@ as int].len(),
            decreases deg - k,
        {
            let v = self.graph.target_at(ui, k);
            let vi = v.index();
            let ghost pre = *self;
            proof {
                lemma_edge_reachable(adj, u, k as int);
            }
            match self.indices[vi] {
                None => {
                    proof {
                        let tgt = self.order@[self.lowlink@[u@ as int] as int];
                        assert forall|i: int| 0 <= i < self.stack@.len() implies reachable(adj, #[trigger] self.stack@[i], v) by {
                            if i < start.stack@.len() {
                                assert(self.stack@[i] == start.stack@[i]);
                                lemma_reachable_trans(adj, start.stack@[i], u, v);
                            } else {
                                lemma_reachable_trans(adj, self.stack@[i], tgt, u);
                                lemma_reachable_trans(adj, self.stack@[i], u, v);
                            }
                        }
                        lemma_visit(adj, self.indices@, self.on_stack@, self.stack@, comps_of(self.sccs@), self.order@, v);
                        assert(self.index < adj.len());
                        assert(self.index > start.index);
                        assert(!marks_of(self.indices@)[v@ as int]);
                    }
                    self.strongconnect(v, Ghost((fuel - 1) as nat));
                    let ghost mid = *self;
                    let lv = self.lowlink[vi];
                    let lu = self.lowlink[ui];
                    if lv < lu {
                        self.lowlink.set(ui, lv);
                    }
                    proof {
                        assert(self.lowlink@ =~= mid.lowlink@.update(
                            u@ as int,
                            if mid.lowlink@[v@ as int] < mid.lowlink@[u@ as int] {
                                mid.lowlink@[v@ as int]
                            } else {
                                mid.lowlink@[u@ as int]
                            },
                        ));
                        lemma_after_child(start, pre, mid, *self, u, v, k as int);
                        let (m2, p2, q2) = dfs_visit(adj, marks_of(pre.indices@), v, (fuel - 1) as nat);
                        let (m3, p3, q3) = dfs_visit_from(adj, m2, u, k + 1, (fuel - 1) as nat);
                        assert(dfs_visit_from(adj, marks_of(pre.indices@), u, k as int, (fuel - 1) as nat) == (m3, p2 + p3, q2 + q3));
                        assert(marks_of(self.indices@) == m2);
                        assert(self.order@ + p3 =~= pre.order@ + (p2 + p3));
                        assert(self.finished@ + q3 =~= pre.finished@ + (q2 + q3));
                        let sfl = start.finished@.len() as int;
                        let pfl = pre.finished@.len() as int;
                        assert forall|j: int| sfl <= j < self.finished@.len() implies num(self.indices@, #[trigger] self.finished@[j])
                            > start.order@.len() by {
                            if j < pfl {
                                assert(self.finished@[j] == pre.finished@[j]);
                                assert(visited(pre.indices@, pre.finished@[j]));
                            }
                        }
                        assert(self.finished@.subrange(0, sfl) =~= start.finished@) by {
                            assert forall|j: int| 0 <= j < sfl implies self.finished@[j] == start.finished@[j] by {
                                assert(self.finished@[j] == pre.finished@[j]);
                                assert(pre.finished@.subrange(0, sfl)[j] == start.finished@[j]);
                            }
                        }
                    }
                },
                Some(v_index) => {
                    if self.on_stack[vi] {
                        let lu = self.lowlink[ui];
                        if v_index < lu {
                            self.lowlink.set(ui, v_index);
                        }
                    }
                    proof {
                        lemma_after_seen(start, pre, *self, u, v, k as int);
                        assert(marks_of(self.indices@)[v@ as int]);
                    }
                },
            }
            k = k + 1;
        }
        proof {
            let (mr, pr, qr) = dfs_visit_from(adj, marks_of(self.indices@), u, deg as int, (fuel - 1) as nat);
            assert(pr.len() == 0 && qr.len() == 0);
            assert(self.order@ + pr =~= self.order@);
            assert(self.finished@ + qr =~= self.finished@);
            let (mt, pt, qt) = dfs_visit_from(adj, m0.update(u@ as int, true), u, 0, (fuel - 1) as nat);
            assert(start.order@ + (seq![u] + pt) =~= start.order@ + seq![u] + pt);
            assert(start.finished@ + qt.push(u) =~= (start.finished@ + qt).push(u));
        }
        let ghost pre_f = *self;
        self.finished = Ghost(self.finished@.push(u));
        proof {
            assert(num(pre_f.indices@, u) == start.order@.len());
            assert(!pre_f.finished@.contains(u)) by {
                if pre_f.finished@.contains(u) {
                    let j = choose|j: int| 0 <= j < pre_f.finished@.len() && pre_f.finished@[j] == u;
                    if j < start.finished@.len() {
                        assert(pre_f.finished@.subrange(0, start.finished@.len() as int)[j] == u);
                        assert(visited(start.indices@, start.finished@[j]));
                    }
                }
            }
            lemma_order_finish(pre_f, *self, u);
            assert forall|j: int| start.finished@.len() <= j < self.finished@.len() implies num(
                self.indices@,
                #[trigger] self.finished@[j],
            ) >= start.order@.len() by {
                if j < pre_f.finished@.len() {
                    assert(self.finished@[j] == pre_f.finished@[j]);
                }
            }
            let (m, p, q) = dfs_visit(adj, m0, u, fuel);
            assert(marks_of(self.indices@) == m);
            assert(self.order@ == start.order@ + p);
            assert(self.finished@ == start.finished@ + q);
        }
        let ghost snap_ind = self.indices@;
        let ghost snap_order = self.order@;
        let ghost snap_fin = self.finished@;
        let lu = self.lowlink[ui];
        let is_root = match self.indices[ui] {
            Some(iu) => iu == lu,
            None => false,
        };
        if is_root {
            let ghost before = *self;
            let ghost p0 = start.stack@.len() as int;
            let ghost len0 = before.stack@.len() as int;
            let mut scc: Vec<NodeId> = Vec::new();
            proof {
                assert(before.stack@.subrange(0, len0) =~= before.stack@);
                assert(scc@ =~= before.stack@.subrange(len0, len0).reverse());
                assert(self.on_stack@ =~= Seq::new(
                    before.on_stack@.len(),
                    |i: int| before.on_stack@[i] && !scc@.contains(NodeId::from_index(i)),
                ));
            }
            loop
                invariant_except_break
                    self.stack@.len() > p0,
                invariant
                    before.frame_inv(start, u, deg as int),
                    p0 == start.stack@.len(),
                    len0 == before.stack@.len(),
                    p0 <= self.stack@.len() <= len0,
                    self.stack@ == before.stack@.subrange(0, self.stack@.len() as int),
                    scc@ == before.stack@.subrange(self.stack@.len() as int, len0).reverse(),
                    self.on_stack@ == Seq::new(
                        before.on_stack@.len(),
                        |i: int| before.on_stack@[i] && !scc@.contains(NodeId::from_index(i)),
                    ),
                    self.graph == before.graph,
                    self.index == before.index,
                    self.indices == before.indices,
                    self.lowlink == before.lowlink,
                    self.sccs == before.sccs,
                    self.order == before.order,
                    self.finished == before.finished,
                    ui == u@,
                ensures
                    self.stack@.len() == p0,
                decreases self.stack@.len(),
            {
                let ghost len = self.stack@.len() as int;
                let ghost scc0 = scc@;
                match self.stack.pop() {
                    Some(w) => {
                        proof {
                            assert(w == before.stack@[len - 1]);
                        }
                        self.on_stack.set(w.index(), false);
                        scc.push(w);
                        proof {
                            assert(self.stack@ =~= before.stack@.subrange(0, len - 1));
                            assert(scc@ =~= before.stack@.subrange(len - 1, len0).reverse());
                            assert forall|i: int| 0 <= i < before.on_stack@.len() implies #[trigger] self.on_stack@[i]
                                == (before.on_stack@[i] && !scc@.contains(NodeId::from_index(i))) by {
                                assert(scc@.contains(NodeId::from_index(i)) <==> (scc0.contains(NodeId::from_index(i))
                                    || NodeId::from_index(i) == w)) by {
                                    if scc@.contains(NodeId::from_index(i)) {
                                        let j = choose|j: int| 0 <= j < scc@.len() && scc@[j] == NodeId::from_index(i);
                                        if j < scc0.len() {
                                            assert(scc0[j] == scc@[j]);
                                        }
                                    }
                                    if scc0.contains(NodeId::from_index(i)) {
                                        let j = choose|j: int| 0 <= j < scc0.len() && scc0[j] == NodeId::from_index(i);
                                        assert(scc@[j] == scc0[j]);
                                    }
                                    if NodeId::from_index(i) == w {
                                        assert(scc@[scc0.len() as int] == w);
                                    }
                                }
                            }
                            assert(self.on_stack@ =~= Seq::new(
                                before.on_stack@.len(),
                                |i: int| before.on_stack@[i] && !scc@.contains(NodeId::from_index(i)),
                            ));
                        }
                        if w == u {
                            proof {
                                if len - 1 > p0 {
                                    assert(before.stack@[p0] == u);
                                }
                            }
                            break;
                        }
                        proof {
                            assert(len - 1 != p0);
                        }
                    },
                    None => {
                        break;
                    },
                }
            }
            let ghost comp = scc@;
            self.sccs.push(scc);
            proof {
                assert(comps_of(self.sccs@) =~= comps_of(before.sccs@).push(comp));
                lemma_root_emit(start, before, *self, u, comp);
                assert(before.stack@[p0] == u);
                assert(before.stack@.contains(u));
                lemma_order_emit(before, *self, u, p0, comp);
                assert(self.indices@ == snap_ind && self.order@ == snap_order && self.finished@ == snap_fin);
            }
        } else {
            proof {
                lemma_keep(start, *self, u);
            }
        }
    }
}

/// A visit of `u` whose low link stayed below `u`'s own index leaves its
/// part of the stack in place.
proof fn lemma_keep<'a, N, E>(start: TarjanState<'a, N, E>, fin: TarjanState<'a, N, E>, u: NodeId)
    requires
        fin.frame_inv(start, u, fin.adj()[u@ as int].len() as int),
        fin.indices@[u@ as int] != Some(fin.lowlink@[u@ as int]),
    ensures
        start.connect_post(fin, u),
{
}

/// A visit of `u` whose low link is `u`'s own index emits `u`'s part of the
/// stack as a component.
proof fn lemma_root_emit<'a, N, E>(
    start: TarjanState<'a, N, E>,
    before: TarjanState<'a, N, E>,
    fin: TarjanState<'a, N, E>,
    u: NodeId,
    comp: Seq<NodeId>,
)
    requires
        before.frame_inv(start, u, before.adj()[u@ as int].len() as int),
        before.indices@[u@ as int] == Some(before.lowlink@[u@ as int]),
        fin.stack@ == before.stack@.subrange(0, start.stack@.len() as int),
        comp == before.stack@.subrange(start.stack@.len() as int, before.stack@.len() as int).reverse(),
        fin.on_stack@ == Seq::new(
            before.on_stack@.len(),
            |i: int| before.on_stack@[i] && !comp.contains(NodeId::from_index(i)),
        ),
        comps_of(fin.sccs@) == comps_of(before.sccs@).push(comp),
        fin.graph == before.graph,
        fin.index == before.index,
        fin.indices == before.indices,
        fin.lowlink == before.lowlink,
        fin.order == before.order,
    ensures
        start.connect_post(fin, u),
{
    let adj = before.adj();
    let n = adj.len();
    let nu = start.order@.len() as int;
    let p0 = start.stack@.len() as int;
    let ind = before.indices@;
    let os = before.on_stack@;
    let st = before.stack@;
    let od = before.order@;
    let len0 = st.len() as int;
    let seg = st.subrange(p0, len0);
    assert(od[nu] == u);
    assert(ind[u@ as int] == Some(nu as usize));
    assert(before.lowlink@[u@ as int] == nu);
    assert forall|i: int| p0 <= i < len0 implies #[trigger] st[i] == seg[i - p0] by {}
    // The segment: discovered no earlier than `u`.
    assert forall|i: int| 0 <= i < seg.len() implies num(ind, #[trigger] seg[i]) >= nu && visited(ind, seg[i]) by {
        assert(seg[i] == st[p0 + i]);
        if i > 0 {
            assert(num(ind, st[p0]) < num(ind, st[p0 + i]));
        }
    }
    assert(comp.no_duplicates()) by {
        assert forall|i: int, j: int| 0 <= i < comp.len() && 0 <= j < comp.len() && i != j implies comp[i] != comp[j] by {
            assert(comp[i] == seg[seg.len() - 1 - i]);
            assert(comp[j] == seg[seg.len() - 1 - j]);
            assert(seg[seg.len() - 1 - i] == st[p0 + seg.len() - 1 - i]);
            assert(seg[seg.len() - 1 - j] == st[p0 + seg.len() - 1 - j]);
        }
    }
    assert forall|x: NodeId| #[trigger] comp.contains(x) <==> seg.contains(x) by {
        if comp.contains(x) {
            let i = choose|i: int| 0 <= i < comp.len() && comp[i] == x;
            assert(seg[seg.len() - 1 - i] == x);
        }
        if seg.contains(x) {
            let i = choose|i: int| 0 <= i < seg.len() && seg[i] == x;
            assert(comp[seg.len() - 1 - i] == x);
        }
    }
    // Every node of the segment reaches `u`, and `u` reaches every one.
    assert forall|x: NodeId| #[trigger] seg.contains(x) implies reachable(adj, x, u) && reachable(adj, u, x) by {
        let i = choose|i: int| 0 <= i < seg.len() && seg[i] == x;
        assert(st[p0 + i] == x);
        assert(reachable(adj, st[p0 + i], od[nu]));
        lemma_node_at_index(adj, ind, os, st, comps_of(before.sccs@), od, x);
        assert(reachable(adj, u, od[num(ind, x)]));
    }
    assert forall|x: NodeId, y: NodeId| comp.contains(x) && comp.contains(y) implies #[trigger] reachable(adj, x, y) by {
        assert(seg.contains(x));
        assert(seg.contains(y));
        lemma_reachable_trans(adj, x, u, y);
    }
    // Its edges stay inside it or go to finished nodes.
    assert forall|x: NodeId, k: int|
        comp.contains(x) && 0 <= k < adj[x@ as int].len() implies done(ind, os, #[trigger] adj[x@ as int][k])
            || comp.contains(adj[x@ as int][k]) by {
        assert(seg.contains(x));
        let i = choose|i: int| 0 <= i < seg.len() && seg[i] == x;
        assert(st[p0 + i] == x);
        let z = adj[x@ as int][k];
        assert(done(ind, os, adj[st[p0 + i]@ as int][k]) || (visited(ind, adj[st[p0 + i]@ as int][k]) && num(
            ind,
            adj[st[p0 + i]@ as int][k],
        ) >= nu));
        if !done(ind, os, z) {
            assert(z@ < n);
            assert(os[z@ as int]);
            assert(st.contains(z));
            let j = choose|j: int| 0 <= j < st.len() && st[j] == z;
            if j < p0 {
                assert(num(ind, st[j]) < num(ind, st[p0]));
                assert(false);
            }
            assert(seg[j - p0] == z);
            assert(seg.contains(z));
        }
    }
    lemma_emit(adj, ind, os, st, comps_of(before.sccs@), od, p0, comp);
    assert(fin.on_stack@ =~= Seq::new(os.len(), |i: int| os[i] && !comp.contains(NodeId::from_index(i))));
    assert(fin.inv());
    assert(fin.stack@ =~= start.stack@) by {
        assert forall|i: int| 0 <= i < p0 implies fin.stack@[i] == start.stack@[i] by {
            assert(st.subrange(0, p0)[i] == st[i]);
        }
    }
    assert(fin.stack@.subrange(0, p0) =~= start.stack@);
    assert(fin.stack@.subrange(p0, p0).len() == 0);
    assert(seg.contains(u)) by {
        assert(seg[0] == u);
    }
    assert(!fin.on_stack@[u@ as int]) by {
        assert(NodeId::from_index(u@ as int) == u);
    }
    assert forall|x: NodeId| x@ < n && #[trigger] done(start.indices@, start.on_stack@, x) implies done(
        fin.indices@,
        fin.on_stack@,
        x,
    ) by {
        assert(done(ind, os, x));
    }
}

/// Following a tree edge from `u` to the fresh node `v`, and lowering `u`'s
/// low link to `v`'s, keeps the frame of `u`'s visit.
proof fn lemma_after_child<'a, N, E>(
    start: TarjanState<'a, N, E>,
    pre: TarjanState<'a, N, E>,
    mid: TarjanState<'a, N, E>,
    post: TarjanState<'a, N, E>,
    u: NodeId,
    v: NodeId,
    k: int,
)
    requires
        pre.frame_inv(start, u, k),
        k < pre.adj()[u@ as int].len(),
        v == pre.adj()[u@ as int][k],
        !visited(pre.indices@, v),
        pre.connect_post(mid, v),
        post.graph == mid.graph,
        post.index == mid.index,
        post.indices == mid.indices,
        post.on_stack == mid.on_stack,
        post.stack == mid.stack,
        post.sccs == mid.sccs,
        post.order == mid.order,
        post.lowlink@ == mid.lowlink@.update(
            u@ as int,
            if mid.lowlink@[v@ as int] < mid.lowlink@[u@ as int] {
                mid.lowlink@[v@ as int]
            } else {
                mid.lowlink@[u@ as int]
            },
        ),
    ensures
        post.frame_inv(start, u, k + 1),
{
    let adj = pre.adj();
    let n = adj.len();
    let nu = start.order@.len() as int;
    let p0 = start.stack@.len() as int;
    let l0 = pre.lowlink@[u@ as int] as int;
    let lv = mid.lowlink@[v@ as int] as int;
    let l2 = post.lowlink@[u@ as int] as int;
    let ind_p = pre.indices@;
    let os_p = pre.on_stack@;
    let st_p = pre.stack@;
    let od_p = pre.order@;
    let ind_m = mid.indices@;
    let os_m = mid.on_stack@;
    let st_m = mid.stack@;
    let od_m = mid.order@;
    let nv = od_p.len() as int;
    let sp = st_p.len() as int;
    let segv = st_m.subrange(sp, st_m.len() as int);
    lemma_edge_reachable(adj, u, k);
    assert(od_p[nu] == u);
    assert(ind_p[u@ as int] == Some(nu as usize));
    assert(visited(ind_p, u));
    assert(mid.lowlink@[u@ as int] == l0);
    assert(l2 == if lv < l0 { lv } else { l0 });
    assert(nu < nv);
    // Orders and stacks extend one another.
    assert forall|j: int| 0 <= j < nv implies #[trigger] od_m[j] == od_p[j] by {
        assert(od_m.subrange(0, nv)[j] == od_m[j]);
    }
    assert forall|j: int| 0 <= j < nu implies #[trigger] od_p[j] == start.order@[j] by {
        assert(od_p.subrange(0, nu)[j] == od_p[j]);
    }
    assert(od_m.subrange(0, nu) =~= start.order@);
    assert forall|i: int| 0 <= i < sp implies #[trigger] st_m[i] == st_p[i] by {
        assert(st_m.subrange(0, sp)[i] == st_m[i]);
    }
    assert forall|i: int| 0 <= i < p0 implies #[trigger] st_p[i] == start.stack@[i] by {
        assert(st_p.subrange(0, p0)[i] == st_p[i]);
    }
    assert(st_m.subrange(0, p0) =~= start.stack@);
    assert forall|i: int| sp <= i < st_m.len() implies #[trigger] st_m[i] == segv[i - sp] by {}
    // The child's low link, when it stays above, names a node below `u`'s frame or in it.
    assert(segv.len() == 0 ==> lv == nv);
    if segv.len() > 0 {
        assert(segv[0] == v);
        assert(st_p.contains(od_p[lv]));
        assert(reachable(adj, v, od_m[lv]));
        assert(od_m[lv] == od_p[lv]);
    }
    assert(post.inv());
    assert forall|j: int| nu <= j < od_m.len() implies reachable(adj, u, #[trigger] od_m[j]) by {
        if j < nv {
            assert(od_m[j] == od_p[j]);
        } else {
            lemma_reachable_trans(adj, u, v, od_m[j]);
        }
    }
    assert forall|x: NodeId| x@ < n && #[trigger] visited(start.indices@, x) implies ind_m[x@ as int]
        == start.indices@[x@ as int] && post.lowlink@[x@ as int] == start.lowlink@[x@ as int] by {
        assert(visited(ind_p, x));
    }
    assert forall|x: NodeId| x@ < n && #[trigger] done(start.indices@, start.on_stack@, x) implies done(ind_m, os_m, x) by {
        assert(done(ind_p, os_p, x));
    }
    if lv < l0 {
        let w = od_p[lv];
        assert(segv.len() > 0);
        assert(st_p.contains(w));
        let i = choose|i: int| 0 <= i < st_p.len() && st_p[i] == w;
        assert(ind_p[od_p[lv]@ as int] == Some(lv as usize));
        assert(ind_p[st_p[p0]@ as int] == Some(nu as usize));
        if i >= p0 {
            if i > p0 {
                assert(num(ind_p, st_p[p0]) < num(ind_p, st_p[i]));
            }
            assert(false);
        }
        assert(start.stack@[i] == w);
        assert(start.stack@.contains(start.order@[l2]));
        assert(reachable(adj, w, u));
        lemma_reachable_trans(adj, u, v, w);
        assert forall|i2: int| p0 <= i2 < st_m.len() implies reachable(adj, #[trigger] st_m[i2], od_m[l2]) by {
            if i2 < sp {
                assert(st_m[i2] == st_p[i2]);
                lemma_reachable_trans(adj, st_p[i2], od_p[l0], u);
                lemma_reachable_trans(adj, st_p[i2], u, w);
            } else {
                assert(st_m[i2] == segv[i2 - sp]);
            }
        }
    } else {
        assert(l2 == l0);
        assert(od_m[l0] == od_p[l0]);
        assert forall|i2: int| p0 <= i2 < st_m.len() implies reachable(adj, #[trigger] st_m[i2], od_m[l2]) by {
            if i2 < sp {
                assert(st_m[i2] == st_p[i2]);
            } else {
                assert(st_m[i2] == segv[i2 - sp]);
                let w = od_p[lv];
                assert(st_p.contains(w));
                let i3 = choose|i3: int| 0 <= i3 < st_p.len() && st_p[i3] == w;
                if i3 >= p0 {
                    assert(reachable(adj, st_p[i3], od_p[l0]));
                } else {
                    assert(start.stack@[i3] == w);
                    lemma_reachable_trans(adj, w, u, od_p[l0]);
                }
                lemma_reachable_trans(adj, segv[i2 - sp], w, od_p[l0]);
            }
        }
    }
    assert forall|i2: int, j: int|
        p0 <= i2 < st_m.len() && 0 <= j < adj[st_m[i2]@ as int].len() && (i2 > p0 || j < k + 1) implies done(
            ind_m,
            os_m,
            #[trigger] adj[st_m[i2]@ as int][j],
        ) || (visited(ind_m, adj[st_m[i2]@ as int][j]) && num(ind_m, adj[st_m[i2]@ as int][j]) >= l2) by {
        let z = adj[st_m[i2]@ as int][j];
        if i2 < sp {
            assert(st_m[i2] == st_p[i2]);
            if i2 == p0 && j == k {
                assert(st_p[p0] == u);
                assert(z == v);
                assert(ind_m[v@ as int] == Some(nv as usize)) by {
                    assert(od_m[nv] == v);
                }
            } else {
                if done(ind_p, os_p, z) {
                } else {
                    assert(visited(ind_p, z));
                }
            }
        } else {
            assert(st_m[i2] == segv[i2 - sp]);
        }
    }
}

/// Following an edge from `u` to an already discovered node `v`, and
/// lowering `u`'s low link to `v`'s index when `v` is on the stack, keeps
/// the frame of `u`'s visit.
proof fn lemma_after_seen<'a, N, E>(
    start: TarjanState<'a, N, E>,
    pre: TarjanState<'a, N, E>,
    post: TarjanState<'a, N, E>,
    u: NodeId,
    v: NodeId,
    k: int,
)
    requires
        pre.frame_inv(start, u, k),
        k < pre.adj()[u@ as int].len(),
        v == pre.adj()[u@ as int][k],
        visited(pre.indices@, v),
        post.graph == pre.graph,
        post.index == pre.index,
        post.indices == pre.indices,
        post.on_stack == pre.on_stack,
        post.stack == pre.stack,
        post.sccs == pre.sccs,
        post.order == pre.order,
        post.lowlink@ == if pre.on_stack@[v@ as int] && num(pre.indices@, v) < pre.lowlink@[u@ as int] {
            pre.lowlink@.update(u@ as int, num(pre.indices@, v) as usize)
        } else {
            pre.lowlink@
        },
    ensures
        post.frame_inv(start, u, k + 1),
{
    let adj = pre.adj();
    let n = adj.len();
    let nu = start.order@.len() as int;
    let p0 = start.stack@.len() as int;
    let low = pre.lowlink@[u@ as int] as int;
    let low2 = post.lowlink@[u@ as int] as int;
    let ind = pre.indices@;
    let os = pre.on_stack@;
    let st = pre.stack@;
    let od = pre.order@;
    lemma_edge_reachable(adj, u, k);
    lemma_node_at_index(adj, ind, os, st, comps_of(pre.sccs@), od, v);
    assert(ind[u@ as int] == Some(nu as usize)) by {
        assert(od[nu] == u);
    }
    assert(post.inv());
    if os[v@ as int] && num(ind, v) < low {
        assert(low2 == num(ind, v));
        assert(od[low2] == v);
        assert(st.contains(v));
        let i = choose|i: int| 0 <= i < st.len() && st[i] == v;
        if i >= p0 {
            if i > p0 {
                assert(num(ind, st[p0]) < num(ind, st[i]));
            }
            assert(false);
        }
        assert(start.stack@[i] == st[i]) by {
            assert(st.subrange(0, p0)[i] == st[i]);
        }
        assert(start.stack@.contains(v));
        assert(start.order@[low2] == od[low2]) by {
            assert(od.subrange(0, nu)[low2] == od[low2]);
        }
        assert(reachable(adj, v, u));
        assert forall|i2: int| p0 <= i2 < st.len() implies reachable(adj, #[trigger] st[i2], od[low2]) by {
            lemma_reachable_trans(adj, st[i2], od[low], u);
            lemma_reachable_trans(adj, st[i2], u, v);
        }
    }
    assert forall|i2: int, j: int|
        p0 <= i2 < st.len() && 0 <= j < adj[st[i2]@ as int].len() && (i2 > p0 || j < k + 1) implies done(
            ind,
            os,
            #[trigger] adj[st[i2]@ as int][j],
        ) || (visited(ind, adj[st[i2]@ as int][j]) && num(ind, adj[st[i2]@ as int][j]) >= low2) by {
        if i2 == p0 && j == k {
            assert(st[i2] == u);
        }
    }
}

/// Giving the unvisited `u` an index keeps the order facts.
proof fn lemma_order_set_index<'a, N, E>(pre: TarjanState<'a, N, E>, post: TarjanState<'a, N, E>, u: NodeId)
    requires
        pre.inv(),
        pre.emit_order(),
        u@ < pre.adj().len(),
        !visited(pre.indices@, u),
        post.graph == pre.graph,
        post.indices@ == pre.indices@.update(u@ as int, Some(pre.index)),
        post.sccs == pre.sccs,
        post.finished == pre.finished,
    ensures
        post.emit_order(),
{
    let comps = comps_of(pre.sccs@);
    let fin = pre.finished@;
    assert forall|j: int| 0 <= j < fin.len() implies (#[trigger] fin[j])@ < post.adj().len() && visited(post.indices@, fin[j]) by {
        assert(visited(pre.indices@, fin[j]));
    }
    assert forall|i: int, x: NodeId| 0 <= i < comps.len() && #[trigger] comps[i].contains(x) implies x != u && x@ < pre.adj().len() by {
        let k = choose|k: int| 0 <= k < comps[i].len() && comps[i][k] == x;
        assert(comps[i][k]@ < pre.adj().len());
        assert(in_some(comps, x));
        assert(done(pre.indices@, pre.on_stack@, x));
    }
    assert forall|i: int, a: int, b: int|
        0 <= i < comps.len() && 0 <= a < b < comps[i].len() implies num(post.indices@, #[trigger] comps[i][b]) < num(
            post.indices@,
            #[trigger] comps[i][a],
        ) by {
        assert(comps[i].contains(comps[i][a]));
        assert(comps[i].contains(comps[i][b]));
        assert(num(pre.indices@, comps[i][b]) < num(pre.indices@, comps[i][a]));
    }
}

/// Ending the visit of `u`, not yet listed, keeps the order facts.
proof fn lemma_order_finish<'a, N, E>(pre: TarjanState<'a, N, E>, post: TarjanState<'a, N, E>, u: NodeId)
    requires
        pre.emit_order(),
        !pre.finished@.contains(u),
        u@ < pre.adj().len(),
        visited(pre.indices@, u),
        post.graph == pre.graph,
        post.indices == pre.indices,
        post.sccs == pre.sccs,
        post.finished@ == pre.finished@.push(u),
    ensures
        post.emit_order(),
{
    let comps = comps_of(pre.sccs@);
    let fin = pre.finished@;
    let fin2 = post.finished@;
    assert forall|j: int| 0 <= j < fin.len() implies #[trigger] fin2[j] == fin[j] by {}
    assert(fin2.no_duplicates()) by {
        assert forall|a: int, b: int| 0 <= a < fin2.len() && 0 <= b < fin2.len() && a != b implies fin2[a] != fin2[b] by {
            if a == fin.len() {
                assert(fin.contains(fin[b]));
            } else if b == fin.len() {
                assert(fin.contains(fin[a]));
            }
        }
    }
    assert forall|i: int| 0 <= i < comps.len() implies fin2.contains((#[trigger] comps[i]).last()) by {
        let k = choose|k: int| 0 <= k < fin.len() && fin[k] == comps[i].last();
        assert(fin2[k] == comps[i].last());
    }
    assert forall|i: int, j: int| 0 <= i < j < comps.len() implies precedes(fin2, (#[trigger] comps[i]).last(), (#[trigger] comps[j]).last()) by {
        let (a, b) = choose|a: int, b: int| 0 <= a < b < fin.len() && #[trigger] fin[a] == comps[i].last() && #[trigger] fin[b] == comps[j].last();
        assert(fin2[a] == fin[a] && fin2[b] == fin[b]);
    }
}

/// Emitting the stack above position `p0`, in reverse, as a component
/// whose first discovered node `u` was just listed as ended keeps the
/// order facts.
proof fn lemma_order_emit<'a, N, E>(before: TarjanState<'a, N, E>, fin: TarjanState<'a, N, E>, u: NodeId, p0: int, comp: Seq<NodeId>)
    requires
        before.inv(),
        before.emit_order(),
        0 <= p0 < before.stack@.len(),
        before.stack@[p0] == u,
        comp == before.stack@.subrange(p0, before.stack@.len() as int).reverse(),
        before.finished@.len() > 0,
        before.finished@.last() == u,
        before.on_stack@[u@ as int],
        u@ < before.adj().len(),
        fin.graph == before.graph,
        fin.indices == before.indices,
        fin.finished == before.finished,
        comps_of(fin.sccs@) == comps_of(before.sccs@).push(comp),
    ensures
        fin.emit_order(),
{
    let comps = comps_of(before.sccs@);
    let comps2 = comps_of(fin.sccs@);
    let ind = before.indices@;
    let f = before.finished@;
    let st = before.stack@;
    let len = st.len() as int;
    let t = comps.len() as int;
    assert(comps2[t] == comp);
    assert forall|i: int| 0 <= i < t implies #[trigger] comps2[i] == comps[i] by {}
    assert(comp.len() == len - p0);
    assert(comp.last() == u) by {
        assert(comp[comp.len() - 1] == st.subrange(p0, len)[0]);
    }
    assert forall|i: int, a: int, b: int|
        0 <= i < comps2.len() && 0 <= a < b < comps2[i].len() implies num(ind, #[trigger] comps2[i][b]) < num(ind, #[trigger] comps2[i][a]) by {
        if i == t {
            assert(comp[a] == st[len - 1 - a]);
            assert(comp[b] == st[len - 1 - b]);
            assert(num(ind, st[len - 1 - b]) < num(ind, st[len - 1 - a]));
        } else {
            assert(comps2[i][a] == comps[i][a]);
            assert(comps2[i][b] == comps[i][b]);
        }
    }
    assert forall|i: int| 0 <= i < comps2.len() implies f.contains((#[trigger] comps2[i]).last()) by {
        if i == t {
            assert(f[f.len() - 1] == u);
        } else {
            assert(comps2[i] == comps[i]);
        }
    }
    assert forall|i: int, j: int| 0 <= i < j < comps2.len() implies precedes(f, (#[trigger] comps2[i]).last(), (#[trigger] comps2[j]).last()) by {
        assert(comps2[i] == comps[i]);
        if j == t {
            let r = comps[i].last();
            assert(comps[i].len() > 0);
            assert(comps[i].contains(r)) by {
                assert(comps[i][comps[i].len() - 1] == r);
            }
            assert(in_some(comps, r));
            assert(done(ind, before.on_stack@, r));
            assert(r != u);
            let a = choose|a: int| 0 <= a < f.len() && f[a] == r;
            assert(a != f.len() - 1);
            assert(f[a] == r && f[f.len() - 1] == u);
        } else {
            assert(comps2[j] == comps[j]);
        }
    }
}

impl<N, E> Graph<N, E> {
    /// Computes the strongly connected components with Tarjan's algorithm.
    ///
    /// Every node lies in exactly one component; two nodes share a component
    /// exactly when each reaches the other. Components come out in reverse
    /// topological order: an edge between two components leads to one that
    /// comes earlier. The search starts from each undiscovered node in index
    /// order and follows edges in insertion order; each component lists its
    /// nodes from the last discovered to the first, and components come in
    /// the order in which the visits of their first discovered nodes ended.
    pub fn strongly_connected_components(&self) -> (r: Vec<Vec<NodeId>>)
        ensures
            is_scc_partition(self.spec_adj(), comps_of(r@)),
            scc_output_order(self.spec_adj(), comps_of(r@)),
    {
        let n = self.node_count();
        let ghost adj = self.spec_adj();
        let mut indices: Vec<Option<usize>> = Vec::with_capacity(n);
        let mut lowlink: Vec<usize> = Vec::with_capacity(n);
        let mut on_stack: Vec<bool> = Vec::with_capacity(n);
        let mut i: usize = 0;
        while i < n
            invariant
                i <= n,
                indices@.len() == i,
                lowlink@.len() == i,
                on_stack@.len() == i,
                forall|j: int| 0 <= j < i ==> #[trigger] indices@[j] == None::<usize>,
                forall|j: int| 0 <= j < i ==> !#[trigger] on_stack@[j],
            decreases n - i,
        {
            let ghost ind0 = indices@;
            indices.push(None);
            lowlink.push(0);
            on_stack.push(false);
            proof {
                assert forall|j: int| 0 <= j < i + 1 implies #[trigger] indices@[j] == None::<usize> by {
                    if j < i {
                        assert(indices@[j] == ind0[j]);
                    }
                }
            }
            i = i + 1;
        }
        let mut tarjan = TarjanState {
            graph: self,
            index: 0,
            indices,
            lowlink,
            on_stack,
            stack: Vec::new(),
            sccs: Vec::new(),
            order: Ghost(Seq::empty()),
            finished: Ghost(Seq::empty()),
        };
        let ghost forest = dfs_forest(adj, Seq::new(n as nat, |j: int| false), 0);
        proof {
            assert(marks_of(tarjan.indices@) =~= Seq::new(n as nat, |j: int| false));
            assert(tarjan.order@ + forest.0 =~= forest.0);
            assert(tarjan.finished@ + forest.1 =~= forest.1);
            assert(comps_of(tarjan.sccs@) =~= Seq::<Seq<NodeId>>::empty());
            assert forall|x: NodeId| x@ < n implies !#[trigger] visited(tarjan.indices@, x) by {
                assert(tarjan.indices@[x@ as int] is None);
            }
            assert(tarjan.inv());
        }
        let mut i: usize = 0;
        while i < n
            invariant
                tarjan.inv(),
                tarjan.graph == self,
                adj == self.spec_adj(),
                n == adj.len(),
                i <= n,
                tarjan.stack@.len() == 0,
                forall|j: int| 0 <= j < i ==> visited(tarjan.indices@, #[trigger] NodeId::from_index(j)),
                tarjan.emit_order(),
                forest == dfs_forest(adj, Seq::new(n as nat, |j: int| false), 0),
                ({
                    let (pr, qr) = dfs_forest(adj, marks_of(tarjan.indices@), i as int);
                    &&& tarjan.order@ + pr == forest.0
                    &&& tarjan.finished@ + qr == forest.1
                }),
            decreases n - i,
        {
            if tarjan.indices[i].is_none() {
                let ghost pre = tarjan;
                let u = NodeId::new(i as u32);
                tarjan.strongconnect(u, Ghost(n as nat));
                proof {
                    let m = marks_of(pre.indices@);
                    assert(!m[i as int]);
                    assert(NodeId::from_index(i as int) == u);
                    let (m2, p, q) = dfs_visit(adj, m, u, n as nat);
                    let (p2, q2) = dfs_forest(adj, m2, i + 1);
                    assert(dfs_forest(adj, m, i as int) == (p + p2, q + q2));
                    assert(tarjan.order@ + p2 =~= pre.order@ + (p + p2));
                    assert(tarjan.finished@ + q2 =~= pre.finished@ + (q + q2));
                    let seg = tarjan.stack@.subrange(0, tarjan.stack@.len() as int);
                    assert(!pre.stack@.contains(pre.order@[tarjan.lowlink@[u@ as int] as int]));
                    assert(seg.len() == 0);
                    assert forall|j: int| 0 <= j <= i implies visited(tarjan.indices@, #[trigger] NodeId::from_index(j)) by {
                        if j < i {
                            assert(visited(pre.indices@, NodeId::from_index(j)));
                        }
                    }
                }
            } else {
                proof {
                    assert(tarjan.indices@[i as int] is Some);
                    assert(NodeId::from_index(i as int)@ == i);
                    assert(marks_of(tarjan.indices@)[i as int]);
                }
            }
            i = i + 1;
        }
        proof {
            let comps = comps_of(tarjan.sccs@);
            assert forall|x: NodeId| x@ < n implies #[trigger] in_some(comps, x) by {
                assert(NodeId::from_index(x@ as int) == x);
                assert(visited(tarjan.indices@, x));
                assert(!tarjan.stack@.contains(x));
                assert(done(tarjan.indices@, tarjan.on_stack@, x));
            }
            assert(tarjan.order@ =~= forest.0);
            assert(tarjan.finished@ =~= forest.1);
            let ind = tarjan.indices@;
            assert forall|c: int, a: int, b: int| 0 <= c < comps.len() && 0 <= a < b < comps[c].len() implies precedes(
                forest.0,
                #[trigger] comps[c][b],
                #[trigger] comps[c][a],
            ) by {
                assert(comps[c].contains(comps[c][a]));
                assert(comps[c].contains(comps[c][b]));
                assert(in_some(comps, comps[c][a]));
                assert(in_some(comps, comps[c][b]));
                assert(done(ind, tarjan.on_stack@, comps[c][a]));
                assert(done(ind, tarjan.on_stack@, comps[c][b]));
                lemma_node_at_index(adj, ind, tarjan.on_stack@, tarjan.stack@, comps, tarjan.order@, comps[c][a]);
                lemma_node_at_index(adj, ind, tarjan.on_stack@, tarjan.stack@, comps, tarjan.order@, comps[c][b]);
                assert(forest.0[num(ind, comps[c][b])] == comps[c][b]);
                assert(forest.0[num(ind, comps[c][a])] == comps[c][a]);
            }
        }
        tarjan.sccs
    }
}

} // verus!
