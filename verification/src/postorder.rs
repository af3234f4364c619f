use vstd::prelude::*;

use crate::id::NodeId;
use crate::paths::{
    has_cycle, has_cycle_from, is_edge, is_walk, lemma_closed_holds_reachable, lemma_distinct_bound, lemma_reachable_refl,
    lemma_reachable_step, reachable, targets_valid, walk_step,
};
use crate::search::root_marks;

verus! {

broadcast use crate::id::group_node_id;

/// The first position from `i` on whose neighbor is not marked, or
/// `nbrs.len()` when there is none.
pub open spec fn next_unvisited(nbrs: Seq<NodeId>, visited: Seq<bool>, i: int) -> int
    decreases nbrs.len() - i,
{
    if i >= nbrs.len() {
        nbrs.len() as int
    } else if !visited[nbrs[i]@ as int] {
        i
    } else {
        next_unvisited(nbrs, visited, i + 1)
    }
}

/// The nodes on a stack of `(node, next neighbor position)` frames.
pub open spec fn frame_nodes(stack: Seq<(NodeId, int)>) -> Seq<NodeId> {
    stack.map_values(|f: (NodeId, int)| f.0)
}

/// One step of an explicit-stack depth-first search that records finishing
/// order: the top frame either descends into its next unmarked neighbor, or,
/// having none left, finishes its node.
pub open spec fn post_step(adj: Seq<Seq<NodeId>>, visited: Seq<bool>, stack: Seq<(NodeId, int)>, post: Seq<NodeId>) -> (Seq<bool>, Seq<(NodeId, int)>, Seq<NodeId>) {
    let (u, i) = stack.last();
    let nbrs = adj[u@ as int];
    let j = next_unvisited(nbrs, visited, i);
    if j < nbrs.len() {
        let x = nbrs[j];
        (visited.update(x@ as int, true), stack.drop_last().push((u, j + 1)).push((x, 0)), post)
    } else {
        (visited, stack.drop_last(), post.push(u))
    }
}

/// Runs up to `fuel` steps until the stack is empty. Returns the finishing
/// order and the final marks.
pub open spec fn post_run(adj: Seq<Seq<NodeId>>, visited: Seq<bool>, stack: Seq<(NodeId, int)>, post: Seq<NodeId>, fuel: nat) -> (Seq<NodeId>, Seq<bool>)
    decreases fuel,
{
    if fuel == 0 || stack.len() == 0 {
        (post, visited)
    } else {
        let (v, s, p) = post_step(adj, visited, stack, post);
        post_run(adj, v, s, p, (fuel - 1) as nat)
    }
}

/// Finishing order of a depth-first search from `root`, and its final marks.
pub open spec fn postorder(adj: Seq<Seq<NodeId>>, root: NodeId) -> (Seq<NodeId>, Seq<bool>) {
    post_run(adj, root_marks(adj.len(), root), seq![(root, 0int)], Seq::empty(), 2 * adj.len())
}

/// What holds throughout the finishing-order search.
pub open spec fn post_inv(adj: Seq<Seq<NodeId>>, visited: Seq<bool>, stack: Seq<(NodeId, int)>, post: Seq<NodeId>) -> bool {
    let n = adj.len();
    let nodes = frame_nodes(stack);
    &&& targets_valid(adj)
    &&& n <= u32::MAX
    &&& visited.len() == n
    &&& nodes.no_duplicates()
    &&& post.no_duplicates()
    &&& nodes.disjoint(post)
    &&& forall|i: int| 0 <= i < stack.len() ==> (#[trigger] stack[i]).0@ < n && 0 <= stack[i].1 <= adj[stack[i].0@ as int].len()
    &&& forall|i: int| 0 <= i < post.len() ==> (#[trigger] post[i])@ < n
    &&& forall|x: NodeId| x@ < n ==> (#[trigger] visited[x@ as int] <==> (post.contains(x) || nodes.contains(x)))
}

/// `next_unvisited` skips marked neighbors only.
pub proof fn lemma_next_unvisited(nbrs: Seq<NodeId>, visited: Seq<bool>, i: int)
    requires
        0 <= i <= nbrs.len(),
    ensures
        i <= next_unvisited(nbrs, visited, i) <= nbrs.len(),
        next_unvisited(nbrs, visited, i) < nbrs.len() ==> !visited[nbrs[next_unvisited(nbrs, visited, i)]@ as int],
        forall|k: int| i <= k < next_unvisited(nbrs, visited, i) ==> visited[(#[trigger] nbrs[k])@ as int],
    decreases nbrs.len() - i,
{
    if i < nbrs.len() && visited[nbrs[i]@ as int] {
        lemma_next_unvisited(nbrs, visited, i + 1);
    }
}

/// The frames and the finished nodes together never exceed `n`.
pub proof fn lemma_frame_nodes_count(stack: Seq<(NodeId, int)>, post: Seq<NodeId>, n: int)
    requires
        0 <= n,
        frame_nodes(stack).no_duplicates(),
        post.no_duplicates(),
        frame_nodes(stack).disjoint(post),
        forall|i: int| 0 <= i < stack.len() ==> (#[trigger] stack[i]).0@ < n,
        forall|i: int| 0 <= i < post.len() ==> (#[trigger] post[i])@ < n,
    ensures
        stack.len() + post.len() <= n,
{
    let s = frame_nodes(stack) + post;
    let f = frame_nodes(stack);
    assert forall|i: int, j: int| 0 <= i < s.len() && 0 <= j < s.len() && i != j implies s[i] != s[j] by {
        if i < f.len() && j >= f.len() {
            assert(post[j - f.len()] == s[j]);
        } else if j < f.len() && i >= f.len() {
            assert(post[i - f.len()] == s[i]);
        }
    }
    assert forall|i: int| 0 <= i < s.len() implies (#[trigger] s[i])@ < n by {
        if i < f.len() {
            assert(s[i] == stack[i].0);
        } else {
            assert(s[i] == post[i - f.len()]);
        }
    }
    lemma_distinct_bound(s, n);
}

/// One step keeps the invariant.
pub proof fn lemma_post_step(adj: Seq<Seq<NodeId>>, visited: Seq<bool>, stack: Seq<(NodeId, int)>, post: Seq<NodeId>)
    requires
        post_inv(adj, visited, stack, post),
        stack.len() > 0,
    ensures
        ({
            let (v, s, p) = post_step(adj, visited, stack, post);
            &&& post_inv(adj, v, s, p)
            &&& 2 * p.len() + s.len() == 2 * post.len() + stack.len() + 1
        }),
{
    let n = adj.len();
    let (u, i) = stack.last();
    let top = stack.len() - 1;
    assert(stack[top] == (u, i));
    let nbrs = adj[u@ as int];
    lemma_next_unvisited(nbrs, visited, i);
    let j = next_unvisited(nbrs, visited, i);
    let f = frame_nodes(stack);
    assert(f[top] == u);
    if j < nbrs.len() {
        let x = nbrs[j];
        assert(x@ < n);
        let s2 = stack.drop_last().push((u, j + 1)).push((x, 0));
        let f2 = frame_nodes(s2);
        let v2 = visited.update(x@ as int, true);
        assert(f2 =~= f.push(x));
        assert(!post.contains(x) && !f.contains(x));
        assert forall|a: int, b: int| 0 <= a < f2.len() && 0 <= b < f2.len() && a != b implies f2[a] != f2[b] by {
            if a == f.len() {
                assert(f.contains(f2[b]));
            } else if b == f.len() {
                assert(f.contains(f2[a]));
            }
        }
        assert(f2.disjoint(post)) by {
            assert forall|a: int, b: int| 0 <= a < f2.len() && 0 <= b < post.len() implies f2[a] != post[b] by {
                if a == f.len() {
                    assert(post.contains(post[b]));
                }
            }
        }
        assert forall|a: int| 0 <= a < s2.len() implies (#[trigger] s2[a]).0@ < n && 0 <= s2[a].1 <= adj[s2[a].0@ as int].len() by {
            if a < top {
                assert(s2[a] == stack[a]);
            }
        }
        assert forall|y: NodeId| y@ < n implies (#[trigger] v2[y@ as int] <==> (post.contains(y) || f2.contains(y))) by {
            if f2.contains(y) && y != x {
                let a = choose|a: int| 0 <= a < f2.len() && f2[a] == y;
                assert(f[a] == y);
            }
            if f.contains(y) {
                let a = choose|a: int| 0 <= a < f.len() && f[a] == y;
                assert(f2[a] == y);
            }
            if y == x {
                assert(f2[f.len() as int] == x);
            }
        }
    } else {
        let s2 = stack.drop_last();
        let f2 = frame_nodes(s2);
        let p2 = post.push(u);
        assert(f2 =~= f.drop_last());
        assert forall|a: int, b: int| 0 <= a < p2.len() && 0 <= b < p2.len() && a != b implies p2[a] != p2[b] by {
            if a == post.len() {
                assert(post[b] == p2[b]);
                assert(f.contains(u));
            } else if b == post.len() {
                assert(post[a] == p2[a]);
                assert(f.contains(u));
            }
        }
        assert(f2.disjoint(p2)) by {
            assert forall|a: int, b: int| 0 <= a < f2.len() && 0 <= b < p2.len() implies f2[a] != p2[b] by {
                assert(f2[a] == f[a]);
                if b == post.len() {
                    assert(f[a] != f[top]);
                }
            }
        }
        assert forall|a: int| 0 <= a < s2.len() implies (#[trigger] s2[a]).0@ < n && 0 <= s2[a].1 <= adj[s2[a].0@ as int].len() by {
            assert(s2[a] == stack[a]);
        }
        assert forall|a: int| 0 <= a < p2.len() implies (#[trigger] p2[a])@ < n by {
            if a < post.len() {
                assert(p2[a] == post[a]);
            }
        }
        assert forall|y: NodeId| y@ < n implies (#[trigger] visited[y@ as int] <==> (p2.contains(y) || f2.contains(y))) by {
            if f.contains(y) {
                let a = choose|a: int| 0 <= a < f.len() && f[a] == y;
                if a == top {
                    assert(p2[post.len() as int] == y);
                } else {
                    assert(f2[a] == y);
                }
            }
            if post.contains(y) {
                let a = choose|a: int| 0 <= a < post.len() && post[a] == y;
                assert(p2[a] == y);
            }
            if p2.contains(y) {
                let a = choose|a: int| 0 <= a < p2.len() && p2[a] == y;
                if a < post.len() {
                    assert(post[a] == y);
                } else {
                    assert(f[top] == y);
                }
            }
            if f2.contains(y) {
                let a = choose|a: int| 0 <= a < f2.len() && f2[a] == y;
                assert(f[a] == y);
            }
        }
    }
}

/// A run with enough fuel empties the stack and keeps the invariant.
pub proof fn lemma_post_run(adj: Seq<Seq<NodeId>>, visited: Seq<bool>, stack: Seq<(NodeId, int)>, post: Seq<NodeId>, fuel: nat)
    requires
        post_inv(adj, visited, stack, post),
        2 * post.len() + stack.len() + fuel >= 2 * adj.len() + 1,
    ensures
        ({
            let (p, v) = post_run(adj, visited, stack, post, fuel);
            post_inv(adj, v, Seq::empty(), p)
        }),
    decreases fuel,
{
    if stack.len() > 0 {
        lemma_frame_nodes_count(stack, post, adj.len() as int);
        lemma_post_step(adj, visited, stack, post);
        let (v, s, p) = post_step(adj, visited, stack, post);
        lemma_post_run(adj, v, s, p, (fuel - 1) as nat);
    } else {
        assert(frame_nodes(stack) =~= Seq::<NodeId>::empty());
    }
}

/// The finishing order from a valid root lists each node it marks exactly once.
pub proof fn lemma_postorder(adj: Seq<Seq<NodeId>>, root: NodeId)
    requires
        targets_valid(adj),
        adj.len() <= u32::MAX,
        root@ < adj.len(),
    ensures
        ({
            let (p, v) = postorder(adj, root);
            &&& p.no_duplicates()
            &&& v.len() == adj.len()
            &&& forall|i: int| 0 <= i < p.len() ==> (#[trigger] p[i])@ < adj.len()
            &&& forall|x: NodeId| x@ < adj.len() ==> (#[trigger] v[x@ as int] <==> p.contains(x))
        }),
{
    let n = adj.len();
    let st = seq![(root, 0int)];
    let v0 = root_marks(n, root);
    assert(frame_nodes(st) =~= seq![root]);
    assert forall|x: NodeId| x@ < n implies (#[trigger] v0[x@ as int] <==> (Seq::<NodeId>::empty().contains(x) || frame_nodes(st).contains(x))) by {
        if frame_nodes(st).contains(x) {
            assert(frame_nodes(st)[0] == x);
        }
        if v0[x@ as int] {
            assert(frame_nodes(st)[0] == x);
        }
    }
    assert(st[0] == (root, 0int));
    lemma_post_run(adj, v0, st, Seq::empty(), 2 * n);
    let (p, v) = postorder(adj, root);
    assert(frame_nodes(Seq::<(NodeId, int)>::empty()) =~= Seq::<NodeId>::empty());
}

/// What the finishing-order search keeps about the graph's paths: each frame
/// reaches every frame above it; the neighbors before a frame's position are
/// marked; every node is reached from `root`; and each neighbor of a
/// finished node is marked and either finished before it or reaches it.
pub open spec fn post_order_inv(
    adj: Seq<Seq<NodeId>>,
    root: NodeId,
    visited: Seq<bool>,
    stack: Seq<(NodeId, int)>,
    post: Seq<NodeId>,
) -> bool {
    &&& forall|a: int, b: int| 0 <= a <= b < stack.len() ==> reachable(adj, #[trigger] stack[a].0, #[trigger] stack[b].0)
    &&& forall|a: int, k: int|
        0 <= a < stack.len() && 0 <= k < stack[a].1 ==> visited[(#[trigger] adj[stack[a].0@ as int][k])@ as int]
    &&& forall|a: int| 0 <= a < stack.len() ==> reachable(adj, root, (#[trigger] stack[a]).0)
    &&& forall|i: int| 0 <= i < post.len() ==> reachable(adj, root, #[trigger] post[i])
    &&& forall|i: int, k: int|
        0 <= i < post.len() && 0 <= k < adj[post[i]@ as int].len() ==> visited[(#[trigger] adj[post[i]@ as int][k])@ as int]
            && (post.take(i).contains(adj[post[i]@ as int][k]) || reachable(adj, adj[post[i]@ as int][k], post[i]))
}

/// One step keeps the path facts.
pub proof fn lemma_post_step_order(
    adj: Seq<Seq<NodeId>>,
    root: NodeId,
    visited: Seq<bool>,
    stack: Seq<(NodeId, int)>,
    post: Seq<NodeId>,
)
    requires
        post_inv(adj, visited, stack, post),
        post_order_inv(adj, root, visited, stack, post),
        stack.len() > 0,
    ensures
        ({
            let (v, s, p) = post_step(adj, visited, stack, post);
            post_order_inv(adj, root, v, s, p)
        }),
{
    let n = adj.len();
    let (u, i) = stack.last();
    let top = stack.len() - 1;
    assert(stack[top] == (u, i));
    let nbrs = adj[u@ as int];
    lemma_next_unvisited(nbrs, visited, i);
    let j = next_unvisited(nbrs, visited, i);
    if j < nbrs.len() {
        let x = nbrs[j];
        let s2 = stack.drop_last().push((u, j + 1)).push((x, 0));
        let v2 = visited.update(x@ as int, true);
        assert(nbrs.contains(x));
        assert(is_edge(adj, u, x));
        assert forall|a: int| 0 <= a < s2.len() implies #[trigger] s2[a].0 == if a < stack.len() {
            stack[a].0
        } else {
            x
        } by {}
        assert forall|a: int, b: int| 0 <= a <= b < s2.len() implies reachable(adj, #[trigger] s2[a].0, #[trigger] s2[b].0) by {
            if b == stack.len() {
                if a == b {
                    lemma_reachable_refl(adj, x);
                } else {
                    assert(reachable(adj, stack[a].0, stack[top].0));
                    lemma_reachable_step(adj, s2[a].0, u, x);
                }
            } else {
                assert(reachable(adj, stack[a].0, stack[b].0));
            }
        }
        assert forall|a: int, k: int| 0 <= a < s2.len() && 0 <= k < s2[a].1 implies v2[(#[trigger] adj[s2[a].0@ as int][k])@ as int] by {
            if a < top {
                assert(s2[a] == stack[a]);
                assert(visited[adj[stack[a].0@ as int][k]@ as int]);
            } else if a == top {
                if k < i {
                    assert(visited[adj[stack[top].0@ as int][k]@ as int]);
                } else if k < j {
                    assert(visited[nbrs[k]@ as int]);
                }
            }
        }
        assert forall|a: int| 0 <= a < s2.len() implies reachable(adj, root, (#[trigger] s2[a]).0) by {
            if a == stack.len() {
                assert(reachable(adj, root, stack[top].0));
                lemma_reachable_step(adj, root, u, x);
            } else {
                assert(reachable(adj, root, stack[a].0));
            }
        }
        assert forall|i2: int, k: int|
            0 <= i2 < post.len() && 0 <= k < adj[post[i2]@ as int].len() implies v2[(#[trigger] adj[post[i2]@ as int][k])@ as int]
                && (post.take(i2).contains(adj[post[i2]@ as int][k]) || reachable(adj, adj[post[i2]@ as int][k], post[i2])) by {
            assert(visited[adj[post[i2]@ as int][k]@ as int]);
        }
    } else {
        let s2 = stack.drop_last();
        let p2 = post.push(u);
        assert forall|a: int, b: int| 0 <= a <= b < s2.len() implies reachable(adj, #[trigger] s2[a].0, #[trigger] s2[b].0) by {
            assert(s2[a] == stack[a]);
            assert(s2[b] == stack[b]);
        }
        assert forall|a: int, k: int| 0 <= a < s2.len() && 0 <= k < s2[a].1 implies visited[(#[trigger] adj[s2[a].0@ as int][k])@ as int] by {
            assert(s2[a] == stack[a]);
        }
        assert forall|a: int| 0 <= a < s2.len() implies reachable(adj, root, (#[trigger] s2[a]).0) by {
            assert(s2[a] == stack[a]);
        }
        assert(reachable(adj, root, stack[top].0));
        assert forall|i2: int| 0 <= i2 < p2.len() implies reachable(adj, root, #[trigger] p2[i2]) by {
            if i2 < post.len() {
                assert(p2[i2] == post[i2]);
            }
        }
        // The finished node's neighbors are all marked: finished before it, or frames below it.
        assert forall|k: int| 0 <= k < nbrs.len() implies visited[(#[trigger] nbrs[k])@ as int] && (post.contains(nbrs[k])
            || reachable(adj, nbrs[k], u)) by {
            if k < i {
                assert(visited[adj[stack[top].0@ as int][k]@ as int]);
            }
            let y = nbrs[k];
            assert(y@ < n);
            if !post.contains(y) {
                assert(frame_nodes(stack).contains(y));
                let a = choose|a: int| 0 <= a < frame_nodes(stack).len() && frame_nodes(stack)[a] == y;
                assert(stack[a].0 == y);
                assert(reachable(adj, stack[a].0, stack[top].0));
            }
        }
        assert(p2.take(post.len() as int) =~= post);
        assert forall|i2: int, k: int|
            0 <= i2 < p2.len() && 0 <= k < adj[p2[i2]@ as int].len() implies visited[(#[trigger] adj[p2[i2]@ as int][k])@ as int]
                && (p2.take(i2).contains(adj[p2[i2]@ as int][k]) || reachable(adj, adj[p2[i2]@ as int][k], p2[i2])) by {
            if i2 < post.len() {
                assert(p2[i2] == post[i2]);
                assert(p2.take(i2) =~= post.take(i2));
                assert(visited[adj[post[i2]@ as int][k]@ as int]);
            } else {
                assert(p2[i2] == u);
                assert(visited[nbrs[k]@ as int]);
            }
        }
    }
}

/// A run with enough fuel keeps the path facts.
pub proof fn lemma_post_run_order(
    adj: Seq<Seq<NodeId>>,
    root: NodeId,
    visited: Seq<bool>,
    stack: Seq<(NodeId, int)>,
    post: Seq<NodeId>,
    fuel: nat,
)
    requires
        post_inv(adj, visited, stack, post),
        post_order_inv(adj, root, visited, stack, post),
        2 * post.len() + stack.len() + fuel >= 2 * adj.len() + 1,
    ensures
        ({
            let (p, v) = post_run(adj, visited, stack, post, fuel);
            post_order_inv(adj, root, v, Seq::empty(), p)
        }),
    decreases fuel,
{
    if stack.len() > 0 {
        lemma_frame_nodes_count(stack, post, adj.len() as int);
        lemma_post_step(adj, visited, stack, post);
        lemma_post_step_order(adj, root, visited, stack, post);
        let (v, s, p) = post_step(adj, visited, stack, post);
        lemma_post_run_order(adj, root, v, s, p, (fuel - 1) as nat);
    }
}

/// A walk back to its start through an edge is a cycle, one through a
/// node reachable from `root` when `y` is.
pub proof fn lemma_edge_back_is_cycle(adj: Seq<Seq<NodeId>>, root: NodeId, x: NodeId, y: NodeId)
    requires
        is_edge(adj, x, y),
        reachable(adj, y, x),
        reachable(adj, root, y),
        y@ < adj.len(),
    ensures
        has_cycle(adj),
        has_cycle_from(adj, root),
{
    let p = choose|p: Seq<NodeId>| #[trigger] is_walk(adj, p) && p[0] == y && p.last() == x;
    let q = p.push(y);
    assert forall|i: int| 0 <= i < q.len() - 1 implies #[trigger] walk_step(adj, q, i) by {
        if i < p.len() - 1 {
            assert(walk_step(adj, p, i));
        }
    }
    assert(is_walk(adj, q));
}

/// The finishing order from `root` holds exactly the nodes reachable from
/// `root`; when no cycle is reachable from `root`, every node finishes after
/// each of its neighbors.
pub proof fn lemma_postorder_finishes_after_neighbors(adj: Seq<Seq<NodeId>>, root: NodeId)
    requires
        targets_valid(adj),
        adj.len() <= u32::MAX,
        root@ < adj.len(),
    ensures
        ({
            let (p, v) = postorder(adj, root);
            &&& forall|x: NodeId| #[trigger] p.contains(x) <==> reachable(adj, root, x)
            &&& !has_cycle_from(adj, root) ==> forall|i: int, k: int|
                0 <= i < p.len() && 0 <= k < adj[p[i]@ as int].len() ==> p.take(i).contains(
                    #[trigger] adj[p[i]@ as int][k],
                )
        }),
{
    let n = adj.len();
    let st = seq![(root, 0int)];
    let v0 = root_marks(n, root);
    lemma_postorder(adj, root);
    assert(frame_nodes(st) =~= seq![root]);
    assert forall|x: NodeId| x@ < n implies (#[trigger] v0[x@ as int] <==> (Seq::<NodeId>::empty().contains(x) || frame_nodes(st).contains(x))) by {
        if frame_nodes(st).contains(x) {
            assert(frame_nodes(st)[0] == x);
        }
        if v0[x@ as int] {
            assert(frame_nodes(st)[0] == x);
        }
    }
    assert(st[0] == (root, 0int));
    lemma_reachable_refl(adj, root);
    lemma_post_run(adj, v0, st, Seq::empty(), 2 * n);
    lemma_post_run_order(adj, root, v0, st, Seq::empty(), 2 * n);
    let (p, v) = postorder(adj, root);
    // Every node the search finished is reachable; the finished nodes are closed under edges.
    assert forall|x: NodeId, y: NodeId| #[trigger] is_edge(adj, x, y) && v[x@ as int] implies v[y@ as int] by {
        assert(p.contains(x));
        let i = choose|i: int| 0 <= i < p.len() && p[i] == x;
        let k = choose|k: int| 0 <= k < adj[x@ as int].len() && adj[x@ as int][k] == y;
        assert(v[adj[p[i]@ as int][k]@ as int]);
    }
    assert(v[root@ as int]) by {
        assert(p.contains(root)) by {
            assert(frame_nodes(Seq::<(NodeId, int)>::empty()) =~= Seq::<NodeId>::empty());
            lemma_post_run(adj, v0, st, Seq::empty(), 2 * n);
            assert(v0[root@ as int]);
            lemma_post_run_marks_grow(adj, v0, st, Seq::empty(), 2 * n, root);
        }
    }
    assert forall|x: NodeId| #[trigger] p.contains(x) <==> reachable(adj, root, x) by {
        if reachable(adj, root, x) {
            lemma_closed_holds_reachable(adj, v, root, x);
            assert(x@ < n) by {
                let w = choose|w: Seq<NodeId>| #[trigger] is_walk(adj, w) && w[0] == root && w.last() == x;
                assert(w[w.len() - 1]@ < n);
            }
        }
        if p.contains(x) {
            let i = choose|i: int| 0 <= i < p.len() && p[i] == x;
            assert(reachable(adj, root, p[i]));
        }
    }
    if !has_cycle_from(adj, root) {
        assert forall|i: int, k: int|
            0 <= i < p.len() && 0 <= k < adj[p[i]@ as int].len() implies p.take(i).contains(
                #[trigger] adj[p[i]@ as int][k],
            ) by {
            let y = adj[p[i]@ as int][k];
            if !p.take(i).contains(y) {
                assert(reachable(adj, y, p[i]));
                assert(adj[p[i]@ as int].contains(y));
                assert(p[i]@ < n);
                assert(reachable(adj, root, p[i]));
                assert(is_edge(adj, p[i], y));
                lemma_reachable_step(adj, root, p[i], y);
                lemma_edge_back_is_cycle(adj, root, p[i], y);
            }
        }
    }
}

/// The nodes that up to `fuel` steps of the explicit-stack search newly
/// reach, in the order reached, and the final marks. Each step descends into
/// the first unmarked neighbor, in adjacency order, of the node on top, so
/// this is the depth-first preorder of what remains.
pub open spec fn pre_run(adj: Seq<Seq<NodeId>>, visited: Seq<bool>, stack: Seq<(NodeId, int)>, post: Seq<NodeId>, fuel: nat) -> (Seq<NodeId>, Seq<bool>)
    decreases fuel,
{
    if fuel == 0 || stack.len() == 0 {
        (Seq::empty(), visited)
    } else {
        let (v, s, p) = post_step(adj, visited, stack, post);
        let (rest, m) = pre_run(adj, v, s, p, (fuel - 1) as nat);
        if s.len() > stack.len() {
            (seq![s.last().0] + rest, m)
        } else {
            (rest, m)
        }
    }
}

/// The number of steps a search in this state has left: each step adds one
/// to `2 * post.len() + stack.len()`.
pub open spec fn steps_left(n: nat, stack: Seq<(NodeId, int)>, post: Seq<NodeId>) -> nat {
    (2 * n + 1 - 2 * post.len() - stack.len()) as nat
}

/// Depth-first preorder from `root`: `root`, then each node as the search
/// first reaches it, following edges in adjacency order; and the final marks.
pub open spec fn dfs_preorder(adj: Seq<Seq<NodeId>>, root: NodeId) -> (Seq<NodeId>, Seq<bool>) {
    let (pre, m) = pre_run(adj, root_marks(adj.len(), root), seq![(root, 0int)], Seq::empty(), 2 * adj.len());
    (seq![root] + pre, m)
}

/// The start of a search from `root` satisfies both invariants.
pub proof fn lemma_search_from(adj: Seq<Seq<NodeId>>, root: NodeId)
    requires
        targets_valid(adj),
        adj.len() <= u32::MAX,
        root@ < adj.len(),
    ensures
        post_inv(adj, root_marks(adj.len(), root), seq![(root, 0int)], Seq::empty()),
        post_order_inv(adj, root, root_marks(adj.len(), root), seq![(root, 0int)], Seq::empty()),
{
    let n = adj.len();
    let st = seq![(root, 0int)];
    let v0 = root_marks(n, root);
    assert(frame_nodes(st) =~= seq![root]);
    assert forall|x: NodeId| x@ < n implies (#[trigger] v0[x@ as int] <==> (Seq::<NodeId>::empty().contains(x) || frame_nodes(st).contains(x))) by {
        if frame_nodes(st).contains(x) {
            assert(frame_nodes(st)[0] == x);
        }
        if v0[x@ as int] {
            assert(frame_nodes(st)[0] == x);
        }
    }
    assert(st[0] == (root, 0int));
    lemma_reachable_refl(adj, root);
}

/// The nodes a run newly reaches are the nodes it marks: taken together
/// with the nodes listed before, each appears once, and they are exactly the
/// marked nodes. The run ends with the marks of the finishing-order run.
pub proof fn lemma_pre_run(adj: Seq<Seq<NodeId>>, visited: Seq<bool>, stack: Seq<(NodeId, int)>, post: Seq<NodeId>, fuel: nat, taken: Seq<NodeId>)
    requires
        post_inv(adj, visited, stack, post),
        taken.no_duplicates(),
        forall|i: int| 0 <= i < taken.len() ==> (#[trigger] taken[i])@ < adj.len(),
        forall|x: NodeId| x@ < adj.len() ==> (#[trigger] visited[x@ as int] <==> taken.contains(x)),
    ensures
        ({
            let (pre, m) = pre_run(adj, visited, stack, post, fuel);
            &&& m == post_run(adj, visited, stack, post, fuel).1
            &&& (taken + pre).no_duplicates()
            &&& forall|i: int| 0 <= i < (taken + pre).len() ==> (#[trigger] (taken + pre)[i])@ < adj.len()
            &&& forall|x: NodeId| x@ < adj.len() ==> (#[trigger] m[x@ as int] <==> (taken + pre).contains(x))
        }),
    decreases fuel,
{
    let n = adj.len();
    if fuel == 0 || stack.len() == 0 {
        assert(taken + Seq::<NodeId>::empty() =~= taken);
    } else {
        lemma_post_step(adj, visited, stack, post);
        let (v, s, p) = post_step(adj, visited, stack, post);
        let (u, i) = stack.last();
        assert(stack[stack.len() - 1] == (u, i));
        let nbrs = adj[u@ as int];
        lemma_next_unvisited(nbrs, visited, i);
        let j = next_unvisited(nbrs, visited, i);
        if j < nbrs.len() {
            let x = nbrs[j];
            assert(x@ < n);
            assert(s.last().0 == x);
            let t2 = taken.push(x);
            assert(!taken.contains(x));
            assert(t2.no_duplicates()) by {
                assert forall|a: int, b: int| 0 <= a < t2.len() && 0 <= b < t2.len() && a != b implies t2[a] != t2[b] by {
                    if a == taken.len() {
                        assert(taken.contains(taken[b]));
                    } else if b == taken.len() {
                        assert(taken.contains(taken[a]));
                    }
                }
            }
            assert forall|y: NodeId| y@ < n implies (#[trigger] v[y@ as int] <==> t2.contains(y)) by {
                if y == x {
                    assert(t2[taken.len() as int] == x);
                } else {
                    if t2.contains(y) {
                        let k = choose|k: int| 0 <= k < t2.len() && t2[k] == y;
                        assert(taken[k] == y);
                    }
                    if taken.contains(y) {
                        let k = choose|k: int| 0 <= k < taken.len() && taken[k] == y;
                        assert(t2[k] == y);
                    }
                }
            }
            lemma_pre_run(adj, v, s, p, (fuel - 1) as nat, t2);
            let (rest, m) = pre_run(adj, v, s, p, (fuel - 1) as nat);
            assert(t2 + rest =~= taken + (seq![x] + rest));
        } else {
            lemma_pre_run(adj, v, s, p, (fuel - 1) as nat, taken);
        }
    }
}

/// A run with enough fuel from a state whose marks hold `root` ends with
/// exactly the nodes reachable from `root` marked.
pub proof fn lemma_run_marks_reachable(adj: Seq<Seq<NodeId>>, root: NodeId, visited: Seq<bool>, stack: Seq<(NodeId, int)>, post: Seq<NodeId>, fuel: nat)
    requires
        post_inv(adj, visited, stack, post),
        post_order_inv(adj, root, visited, stack, post),
        root@ < adj.len(),
        visited[root@ as int],
        2 * post.len() + stack.len() + fuel >= 2 * adj.len() + 1,
    ensures
        forall|x: NodeId| x@ < adj.len() ==> (#[trigger] post_run(adj, visited, stack, post, fuel).1[x@ as int] <==> reachable(adj, root, x)),
{
    let n = adj.len();
    lemma_post_run(adj, visited, stack, post, fuel);
    lemma_post_run_order(adj, root, visited, stack, post, fuel);
    lemma_post_run_marks_grow(adj, visited, stack, post, fuel, root);
    let (p, v) = post_run(adj, visited, stack, post, fuel);
    assert(frame_nodes(Seq::<(NodeId, int)>::empty()) =~= Seq::<NodeId>::empty());
    assert forall|x: NodeId, y: NodeId| #[trigger] is_edge(adj, x, y) && v[x@ as int] implies v[y@ as int] by {
        assert(p.contains(x));
        let i = choose|i: int| 0 <= i < p.len() && p[i] == x;
        let k = choose|k: int| 0 <= k < adj[x@ as int].len() && adj[x@ as int][k] == y;
        assert(v[adj[p[i]@ as int][k]@ as int]);
    }
    assert forall|x: NodeId| x@ < n implies (#[trigger] v[x@ as int] <==> reachable(adj, root, x)) by {
        if reachable(adj, root, x) {
            lemma_closed_holds_reachable(adj, v, root, x);
        }
        if v[x@ as int] {
            assert(p.contains(x));
            let i = choose|i: int| 0 <= i < p.len() && p[i] == x;
            assert(reachable(adj, root, p[i]));
        }
    }
}

/// The depth-first preorder from a valid `root` lists each node reachable
/// from `root` exactly once, and nothing else; its final marks are exactly
/// the nodes it lists.
pub proof fn lemma_dfs_preorder(adj: Seq<Seq<NodeId>>, root: NodeId)
    requires
        targets_valid(adj),
        adj.len() <= u32::MAX,
        root@ < adj.len(),
    ensures
        ({
            let (pre, m) = dfs_preorder(adj, root);
            &&& pre.no_duplicates()
            &&& m.len() == adj.len()
            &&& pre[0] == root
            &&& forall|i: int| 0 <= i < pre.len() ==> (#[trigger] pre[i])@ < adj.len()
            &&& forall|x: NodeId| x@ < adj.len() ==> (#[trigger] m[x@ as int] <==> pre.contains(x))
            &&& forall|x: NodeId| #[trigger] pre.contains(x) <==> reachable(adj, root, x)
        }),
{
    let n = adj.len();
    let v0 = root_marks(n, root);
    let st = seq![(root, 0int)];
    lemma_search_from(adj, root);
    let t = seq![root];
    assert forall|x: NodeId| x@ < n implies (#[trigger] v0[x@ as int] <==> t.contains(x)) by {
        if t.contains(x) {
            assert(t[0] == x);
        }
        if v0[x@ as int] {
            assert(t[0] == x);
        }
    }
    lemma_pre_run(adj, v0, st, Seq::empty(), 2 * n, t);
    lemma_run_marks_reachable(adj, root, v0, st, Seq::empty(), 2 * n);
    lemma_post_run(adj, v0, st, Seq::empty(), 2 * n);
    let (pre, m) = dfs_preorder(adj, root);
    let (rest, m0) = pre_run(adj, v0, st, Seq::empty(), 2 * n);
    assert(pre == t + rest);
    assert(m == m0);
    assert(pre[0] == root);
    assert forall|x: NodeId| #[trigger] pre.contains(x) <==> reachable(adj, root, x) by {
        if reachable(adj, root, x) {
            let w = choose|w: Seq<NodeId>| #[trigger] is_walk(adj, w) && w[0] == root && w.last() == x;
            assert(w[w.len() - 1]@ < n);
            assert(m[x@ as int]);
        }
        if pre.contains(x) {
            let k = choose|k: int| 0 <= k < pre.len() && pre[k] == x;
            assert(pre[k]@ < n);
            assert(m[x@ as int]);
        }
    }
}

/// Recursive depth-first search from the unmarked node `u`: marks `u`, then
/// visits its unmarked neighbors in adjacency order. Returns the new marks,
/// the nodes in the order they were first reached, and the nodes in the
/// order their visits ended. `fuel` bounds the depth.
pub open spec fn dfs_visit(adj: Seq<Seq<NodeId>>, marks: Seq<bool>, u: NodeId, fuel: nat) -> (Seq<bool>, Seq<NodeId>, Seq<NodeId>)
    decreases fuel, 0int,
{
    if fuel == 0 {
        (marks, Seq::empty(), Seq::empty())
    } else {
        let (m, p, q) = dfs_visit_from(adj, marks.update(u@ as int, true), u, 0, (fuel - 1) as nat);
        (m, seq![u] + p, q.push(u))
    }
}

/// The part of a depth-first visit of `u` that follows its neighbors from
/// position `k` on.
pub open spec fn dfs_visit_from(adj: Seq<Seq<NodeId>>, marks: Seq<bool>, u: NodeId, k: int, fuel: nat) -> (Seq<bool>, Seq<NodeId>, Seq<NodeId>)
    decreases fuel, adj[u@ as int].len() - k,
{
    if k < 0 || k >= adj[u@ as int].len() {
        (marks, Seq::empty(), Seq::empty())
    } else {
        let v = adj[u@ as int][k];
        if marks[v@ as int] {
            dfs_visit_from(adj, marks, u, k + 1, fuel)
        } else {
            let (m2, p, q) = dfs_visit(adj, marks, v, fuel);
            let (m3, p3, q3) = dfs_visit_from(adj, m2, u, k + 1, fuel);
            (m3, p + p3, q + q3)
        }
    }
}

/// The number of unmarked entries of `m`.
pub open spec fn unmarked_count(m: Seq<bool>) -> nat
    decreases m.len(),
{
    if m.len() == 0 {
        0
    } else {
        unmarked_count(m.drop_last()) + if m.last() {
            0nat
        } else {
            1nat
        }
    }
}

/// Marking an unmarked entry lowers the count by one.
pub proof fn lemma_unmarked_update(m: Seq<bool>, i: int)
    requires
        0 <= i < m.len(),
        !m[i],
    ensures
        unmarked_count(m.update(i, true)) + 1 == unmarked_count(m),
    decreases m.len(),
{
    let m2 = m.update(i, true);
    if i == m.len() - 1 {
        assert(m2.drop_last() =~= m.drop_last());
    } else {
        assert(m2.drop_last() =~= m.drop_last().update(i, true));
        lemma_unmarked_update(m.drop_last(), i);
    }
}

/// With nothing marked, every entry counts.
pub proof fn lemma_unmarked_none(n: nat)
    ensures
        unmarked_count(Seq::new(n, |i: int| false)) == n,
    decreases n,
{
    if n > 0 {
        assert(Seq::new(n, |i: int| false).drop_last() =~= Seq::new((n - 1) as nat, |i: int| false));
        lemma_unmarked_none((n - 1) as nat);
    }
}

/// The search's output does not depend on the finished nodes it carries.
pub proof fn lemma_pre_run_post(adj: Seq<Seq<NodeId>>, visited: Seq<bool>, stack: Seq<(NodeId, int)>, post: Seq<NodeId>, post2: Seq<NodeId>, fuel: nat)
    ensures
        pre_run(adj, visited, stack, post, fuel) == pre_run(adj, visited, stack, post2, fuel),
    decreases fuel,
{
    if fuel > 0 && stack.len() > 0 {
        let (v, s, p) = post_step(adj, visited, stack, post);
        let (v2, s2, p2) = post_step(adj, visited, stack, post2);
        lemma_pre_run_post(adj, v, s, p, p2, (fuel - 1) as nat);
    }
}

/// Skipping neighbors that are already marked changes nothing.
pub proof fn lemma_visit_from_skip(adj: Seq<Seq<NodeId>>, marks: Seq<bool>, u: NodeId, k: int, j: int, fuel: nat)
    requires
        0 <= k <= j <= adj[u@ as int].len(),
        forall|t: int| k <= t < j ==> marks[(#[trigger] adj[u@ as int][t])@ as int],
    ensures
        dfs_visit_from(adj, marks, u, k, fuel) == dfs_visit_from(adj, marks, u, j, fuel),
    decreases j - k,
{
    if k < j {
        lemma_visit_from_skip(adj, marks, u, k + 1, j, fuel);
    }
}

/// Running the explicit-stack search from a frame `(u, k)` on top of `bot`
/// yields what the recursive visit of `u`'s neighbors from position `k`
/// yields, and then carries on below with the marks that visit leaves.
pub proof fn lemma_frame_run(
    adj: Seq<Seq<NodeId>>,
    marks: Seq<bool>,
    bot: Seq<(NodeId, int)>,
    post: Seq<NodeId>,
    u: NodeId,
    k: int,
    fuel: nat,
    g: nat,
)
    requires
        targets_valid(adj),
        marks.len() == adj.len(),
        u@ < adj.len(),
        0 <= k <= adj[u@ as int].len(),
        fuel >= 2 * unmarked_count(marks) + 1,
        g >= unmarked_count(marks),
    ensures
        ({
            let (m2, p, q) = dfs_visit_from(adj, marks, u, k, g);
            &&& m2.len() == marks.len()
            &&& unmarked_count(marks) == unmarked_count(m2) + p.len()
            &&& pre_run(adj, marks, bot.push((u, k)), post, fuel).0 == p + pre_run(
                adj,
                m2,
                bot,
                post,
                (fuel - 2 * p.len() - 1) as nat,
            ).0
        }),
    decreases g, adj[u@ as int].len() - k,
{
    let nbrs = adj[u@ as int];
    let stack = bot.push((u, k));
    lemma_next_unvisited(nbrs, marks, k);
    let j = next_unvisited(nbrs, marks, k);
    lemma_visit_from_skip(adj, marks, u, k, j, g);
    assert(stack.last() == (u, k));
    let (v1, s1, p1) = post_step(adj, marks, stack, post);
    if j >= nbrs.len() {
        assert(s1 =~= bot);
        lemma_pre_run_post(adj, v1, s1, p1, post, (fuel - 1) as nat);
        assert(Seq::<NodeId>::empty() + pre_run(adj, marks, bot, post, (fuel - 1) as nat).0 =~= pre_run(adj, marks, bot, post, (fuel - 1) as nat).0);
    } else {
        let x = nbrs[j];
        assert(x@ < adj.len());
        let m1 = marks.update(x@ as int, true);
        lemma_unmarked_update(marks, x@ as int);
        let bot2 = bot.push((u, j + 1));
        assert(s1 == bot2.push((x, 0int)));
        assert(s1.len() > stack.len());
        lemma_pre_run_post(adj, v1, s1, p1, post, (fuel - 1) as nat);
        // The visit of `x`.
        lemma_frame_run(adj, m1, bot2, post, x, 0, (fuel - 1) as nat, (g - 1) as nat);
        let (m2, px, qx) = dfs_visit_from(adj, m1, x, 0, (g - 1) as nat);
        let f2 = (fuel - 1 - 2 * px.len() - 1) as nat;
        // The rest of `u`'s neighbors.
        lemma_frame_run(adj, m2, bot, post, u, j + 1, f2, g);
        let (m3, pu, qu) = dfs_visit_from(adj, m2, u, j + 1, g);
        assert(dfs_visit(adj, marks, x, g) == (m2, seq![x] + px, qx.push(x)));
        assert(dfs_visit_from(adj, marks, u, j, g) == (m3, (seq![x] + px) + pu, qx.push(x) + qu));
        let rest = pre_run(adj, m3, bot, post, (f2 - 2 * pu.len() - 1) as nat).0;
        assert((f2 - 2 * pu.len() - 1) as nat == (fuel - 2 * (1 + px.len() + pu.len()) - 1) as nat);
        assert(seq![x] + (px + (pu + rest)) =~= ((seq![x] + px) + pu) + rest);
    }
}

/// The depth-first preorder of the explicit-stack search is the preorder of
/// the recursive search: visit `root`, then each of its neighbors in
/// adjacency order that is still unmarked, recursively.
pub proof fn lemma_dfs_preorder_recursive(adj: Seq<Seq<NodeId>>, root: NodeId)
    requires
        targets_valid(adj),
        root@ < adj.len(),
    ensures
        dfs_preorder(adj, root).0 == dfs_visit(adj, Seq::new(adj.len(), |i: int| false), root, adj.len()).1,
{
    let n = adj.len();
    let none = Seq::new(n, |i: int| false);
    let m0 = root_marks(n, root);
    assert(m0 =~= none.update(root@ as int, true));
    lemma_unmarked_none(n);
    lemma_unmarked_update(none, root@ as int);
    lemma_frame_run(adj, m0, Seq::empty(), Seq::empty(), root, 0, 2 * n, (n - 1) as nat);
    let (m2, p, q) = dfs_visit_from(adj, m0, root, 0, (n - 1) as nat);
    assert(Seq::<(NodeId, int)>::empty().push((root, 0int)) =~= seq![(root, 0int)]);
    assert(p + Seq::<NodeId>::empty() =~= p);
}

/// Marks only ever get set during a run.
proof fn lemma_post_run_marks_grow(
    adj: Seq<Seq<NodeId>>,
    visited: Seq<bool>,
    stack: Seq<(NodeId, int)>,
    post: Seq<NodeId>,
    fuel: nat,
    x: NodeId,
)
    requires
        post_inv(adj, visited, stack, post),
        x@ < adj.len(),
        visited[x@ as int],
    ensures
        post_run(adj, visited, stack, post, fuel).1[x@ as int],
    decreases fuel,
{
    if fuel > 0 && stack.len() > 0 {
        lemma_post_step(adj, visited, stack, post);
        let (v, s, p) = post_step(adj, visited, stack, post);
        let (u, i) = stack.last();
        lemma_next_unvisited(adj[u@ as int], visited, i);
        lemma_post_run_marks_grow(adj, v, s, p, (fuel - 1) as nat, x);
    }
}

} // verus!
