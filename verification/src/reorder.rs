use vstd::prelude::*;

use std::collections::VecDeque;

use crate::error::{validate_node_id, BuildError};
use crate::graph::{is_clone_of, is_permutation, is_relabeling, Graph};
use crate::id::NodeId;
use crate::paths::{
    ids_where, lemma_ids_where_agree, lemma_covering_bound, lemma_distinct_bound, lemma_ids_where, lemma_ids_where_push,
    unmarked,
};
use crate::postorder::{
    dfs_preorder, lemma_dfs_preorder, frame_nodes, lemma_next_unvisited, lemma_post_step, lemma_postorder, next_unvisited, post_inv,
    post_run, post_step, postorder,
};
use crate::rcm::{
    both_ways, cm_components, cm_run, cm_step, degree, hits, in_nbrs, in_upto, insert_by_degree, lemma_both_ways,
    lemma_cm_run, lemma_cm_scan_valid, lemma_hits, lemma_in_upto,
    lemma_lowest_scan, lemma_rcm_order, lowest_scan, lowest_unvisited, rcm_order, sort_by_degree,
};
use crate::search::{
    frontier_inv, lemma_frontier_size, lemma_frontier_step, lemma_search_order, root_marks, scan,
    search_run,
};
use crate::topo::{is_topological_order, kahn_inv, kahn_order, kahn_run, lemma_kahn_result, taken_marks};
use crate::traversal::{scan_seq_into_queue, Bfs, Dfs};

verus! {

broadcast use crate::id::group_node_id;

/// Node ordering strategy used when compacting or rebuilding a graph.
///
/// Reordering relabels node IDs so that nodes accessed together sit near each
/// other in memory.
#[derive(Clone, Copy, Debug, Eq, PartialEq, Structural)]
pub enum Reorder {
    /// Keep node IDs in their current order.
    Unchanged,
    /// Relabel nodes in breadth-first visitation order starting from `root`.
    Bfs { root: NodeId },
    /// Relabel nodes in depth-first visitation order starting from `root`.
    Dfs { root: NodeId },
    /// Relabel nodes in reverse post-order starting from `root`, placing
    /// dependencies before consumers in a DAG.
    ReversePostOrder { root: NodeId },
    /// Relabel nodes in global topological order; nodes on or behind cycles
    /// follow in ID order.
    Topological,
    /// Reverse Cuthill-McKee ordering: reduces adjacency bandwidth, keeping
    /// connected neighbors close together. Edges are followed both ways;
    /// the search starts from `root` or, without one, from the node of
    /// lowest out-degree, and queues neighbors by ascending out-degree.
    ReverseCuthillMcKee { root: Option<NodeId> },
}

/// The root node a strategy names, if any.
pub open spec fn reorder_root(reorder: Reorder) -> Option<NodeId> {
    match reorder {
        Reorder::Bfs { root } => Some(root),
        Reorder::Dfs { root } => Some(root),
        Reorder::ReversePostOrder { root } => Some(root),
        Reorder::ReverseCuthillMcKee { root } => root,
        _ => None,
    }
}

/// The nodes reached by a search, followed by the nodes it did not mark in
/// index order.
pub open spec fn with_unmarked(run: (Seq<NodeId>, Seq<bool>)) -> Seq<NodeId> {
    run.0 + unmarked(run.1)
}

/// The new order of the nodes under `reorder`: entry `j` is the old node that
/// becomes node `j`.
pub open spec fn reorder_order(adj: Seq<Seq<NodeId>>, reorder: Reorder) -> Seq<NodeId> {
    let n = adj.len();
    match reorder {
        Reorder::Unchanged => Seq::new(n, |i: int| NodeId::from_index(i)),
        Reorder::Bfs { root } => with_unmarked(search_run(adj, root_marks(n, root), seq![root], n)),
        Reorder::Dfs { root } => with_unmarked(dfs_preorder(adj, root)),
        Reorder::ReversePostOrder { root } => {
            let (post, marks) = postorder(adj, root);
            post.reverse() + unmarked(marks)
        },
        Reorder::Topological => kahn_order(adj) + unmarked(taken_marks(kahn_order(adj), n)),
        Reorder::ReverseCuthillMcKee { root } => rcm_order(adj, root),
    }
}

/// Appends the nodes that `marks` leaves unmarked, in index order.
fn append_unmarked(order: Vec<NodeId>, marks: &Vec<bool>) -> (r: Vec<NodeId>)
    requires
        marks@.len() <= u32::MAX,
    ensures
        r@ == order@ + unmarked(marks@),
{
    let n = marks.len();
    let ghost base = order@;
    let ghost pred = |x: NodeId| !marks@[x@ as int];
    let mut order = order;
    proof {
        reveal(Seq::filter);
        assert(ids_where(0, pred) =~= Seq::<NodeId>::empty());
        assert(base + ids_where(0, pred) =~= base);
    }
    let mut i: usize = 0;
    while i < n
        invariant
            i <= n,
            n == marks@.len(),
            n <= u32::MAX,
            pred == (|x: NodeId| !marks@[x@ as int]),
            order@ == base + ids_where(i as nat, pred),
        decreases n - i,
    {
        proof {
            lemma_ids_where_push(i as nat, pred);
        }
        if !marks[i] {
            order.push(NodeId::new(i as u32));
        }
        i = i + 1;
        proof {
            assert(order@ =~= base + ids_where(i as nat, pred));
        }
    }
    order
}

/// A duplicate-free list of valid nodes, followed by the nodes it leaves out
/// in index order, is a permutation.
pub proof fn lemma_with_unmarked(order: Seq<NodeId>, marks: Seq<bool>, n: nat)
    requires
        n <= u32::MAX,
        marks.len() == n,
        order.no_duplicates(),
        forall|i: int| 0 <= i < order.len() ==> (#[trigger] order[i])@ < n,
        forall|x: NodeId| x@ < n ==> (#[trigger] marks[x@ as int] <==> order.contains(x)),
    ensures
        is_permutation(order + unmarked(marks), n),
{
    let pred = |x: NodeId| !marks[x@ as int];
    let rest = unmarked(marks);
    lemma_ids_where(n, pred);
    let all = order + rest;
    assert forall|i: int, j: int| 0 <= i < all.len() && 0 <= j < all.len() && i != j implies all[i] != all[j] by {
        if i < order.len() && j >= order.len() {
            assert(rest[j - order.len()] == all[j]);
            assert(rest.contains(all[j]));
            assert(order.contains(all[i]));
        } else if j < order.len() && i >= order.len() {
            assert(rest[i - order.len()] == all[i]);
            assert(rest.contains(all[i]));
            assert(order.contains(all[j]));
        } else if i >= order.len() && j >= order.len() {
            assert(rest[i - order.len()] == all[i]);
            assert(rest[j - order.len()] == all[j]);
        }
    }
    assert forall|i: int| 0 <= i < all.len() implies (#[trigger] all[i])@ < n by {
        if i >= order.len() {
            assert(rest[i - order.len()] == all[i]);
        }
    }
    assert forall|i: int| 0 <= i < n implies all.contains(#[trigger] NodeId::from_index(i)) by {
        let x = NodeId::from_index(i);
        if order.contains(x) {
            let k = choose|k: int| 0 <= k < order.len() && order[k] == x;
            assert(all[k] == x);
        } else {
            assert(rest.contains(x));
            let k = choose|k: int| 0 <= k < rest.len() && rest[k] == x;
            assert(all[order.len() + k] == x);
        }
    }
    lemma_covering_bound(all, n as int);
    lemma_distinct_bound(all, n as int);
}

impl<N, E> Graph<N, E> {
    fn bfs_reorder_order(&self, root: NodeId) -> (r: Result<Vec<NodeId>, BuildError>)
        ensures
            root@ >= self.spec_node_count() ==> r == Err::<Vec<NodeId>, BuildError>(
                BuildError::InvalidNodeId { id: root, node_count: self.spec_node_count() as usize },
            ),
            root@ < self.spec_node_count() ==> (r matches Ok(order) && order@ == reorder_order(
                self.spec_adj(),
                Reorder::Bfs { root },
            )),
    {
        let n = self.node_count();
        match validate_node_id(root, n) {
            Err(e) => {
                return Err(e);
            },
            Ok(()) => {},
        }
        let it = match Bfs::new(self, root) {
            Some(it) => it,
            None => {
                return Err(BuildError::InvalidNodeId { id: root, node_count: n });
            },
        };
        let (order, marks) = it.run();
        proof {
            assert(Seq::<NodeId>::empty() + order@ =~= order@);
        }
        Ok(append_unmarked(order, &marks))
    }

    fn dfs_reorder_order(&self, root: NodeId) -> (r: Result<Vec<NodeId>, BuildError>)
        ensures
            root@ >= self.spec_node_count() ==> r == Err::<Vec<NodeId>, BuildError>(
                BuildError::InvalidNodeId { id: root, node_count: self.spec_node_count() as usize },
            ),
            root@ < self.spec_node_count() ==> (r matches Ok(order) && order@ == reorder_order(
                self.spec_adj(),
                Reorder::Dfs { root },
            )),
    {
        let n = self.node_count();
        match validate_node_id(root, n) {
            Err(e) => {
                return Err(e);
            },
            Ok(()) => {},
        }
        let it = match Dfs::new(self, root) {
            Some(it) => it,
            None => {
                return Err(BuildError::InvalidNodeId { id: root, node_count: n });
            },
        };
        let (order, marks) = it.run();
        proof {
            assert(Seq::<NodeId>::empty() + order@ =~= order@);
        }
        Ok(append_unmarked(order, &marks))
    }

    /// Order in which Kahn's algorithm takes the nodes, then the nodes it
    /// leaves out (on or behind cycles) in index order.
    fn topological_reorder_order(&self) -> (r: Vec<NodeId>)
        ensures
            r@ == reorder_order(self.spec_adj(), Reorder::Topological),
    {
        let n = self.node_count();
        let order = self.kahn();
        let ghost adj = self.spec_adj();
        proof {
            lemma_kahn_result(adj);
        }
        let mut visited: Vec<bool> = Vec::with_capacity(n);
        let mut i: usize = 0;
        while i < n
            invariant
                i <= n,
                visited@.len() == i,
                forall|j: int| 0 <= j < i ==> !visited@[j],
            decreases n - i,
        {
            visited.push(false);
            i = i + 1;
        }
        let mut i: usize = 0;
        while i < order.len()
            invariant
                i <= order@.len(),
                n == adj.len(),
                n <= u32::MAX,
                visited@.len() == n,
                forall|j: int| 0 <= j < order@.len() ==> (#[trigger] order@[j])@ < n,
                forall|x: NodeId| x@ < n ==> (#[trigger] visited@[x@ as int] <==> order@.take(i as int).contains(x)),
            decreases order@.len() - i,
        {
            let x = order[i];
            visited.set(x.index(), true);
            proof {
                assert(order@.take(i + 1) =~= order@.take(i as int).push(x));
                assert forall|y: NodeId| y@ < n implies (#[trigger] visited@[y@ as int] <==> order@.take(i + 1).contains(y)) by {
                    if order@.take(i as int).contains(y) {
                        let k = choose|k: int| 0 <= k < i && order@.take(i as int)[k] == y;
                        assert(order@.take(i + 1)[k] == y);
                    }
                    if order@.take(i + 1).contains(y) && y != x {
                        let k = choose|k: int| 0 <= k < i + 1 && #[trigger] order@.take(i + 1)[k] == y;
                        assert(order@.take(i as int)[k] == y);
                    }
                    if y == x {
                        assert(order@.take(i + 1)[i as int] == y);
                    }
                }
            }
            i = i + 1;
        }
        proof {
            assert(order@.take(order@.len() as int) =~= order@);
            assert(visited@ =~= taken_marks(order@, n as nat));
        }
        append_unmarked(order, &visited)
    }
}

/// A stack of `(node, next neighbor position)` frames, with positions as integers.
pub open spec fn int_frames(stack: Seq<(NodeId, usize)>) -> Seq<(NodeId, int)> {
    stack.map_values(|f: (NodeId, usize)| (f.0, f.1 as int))
}

impl<N, E> Graph<N, E> {
    /// First position from `idx` on whose neighbor of `u` is not marked.
    pub(crate) fn next_unvisited_at(&self, u: usize, idx: usize, visited: &Vec<bool>) -> (j: usize)
        requires
            u < self.spec_node_count(),
            idx <= self.spec_adj()[u as int].len(),
            visited@.len() == self.spec_node_count(),
        ensures
            j == next_unvisited(self.spec_adj()[u as int], visited@, idx as int),
    {
        let n = self.node_count();
        let deg = self.degree_at(u);
        let ghost nbrs = self.spec_adj()[u as int];
        let mut j = idx;
        loop
            invariant
                idx <= j <= deg,
                deg == nbrs.len(),
                n == self.spec_node_count(),
                self.shape_ok(),
                nbrs == self.spec_adj()[u as int],
                u < n,
                visited@.len() == n,
                next_unvisited(nbrs, visited@, idx as int) == next_unvisited(nbrs, visited@, j as int),
            ensures
                next_unvisited(nbrs, visited@, idx as int) == j,
            decreases deg - j,
        {
            if j >= deg {
                break;
            }
            let t = self.target_at(u, j);
            if !visited[t.index()] {
                break;
            }
            j = j + 1;
        }
        j
    }

    fn rpo_reorder_order(&self, root: NodeId) -> (r: Result<Vec<NodeId>, BuildError>)
        ensures
            root@ >= self.spec_node_count() ==> r == Err::<Vec<NodeId>, BuildError>(
                BuildError::InvalidNodeId { id: root, node_count: self.spec_node_count() as usize },
            ),
            root@ < self.spec_node_count() ==> (r matches Ok(order) && order@ == reorder_order(
                self.spec_adj(),
                Reorder::ReversePostOrder { root },
            )),
    {
        let n = self.node_count();
        match validate_node_id(root, n) {
            Err(e) => {
                return Err(e);
            },
            Ok(()) => {},
        }
        let ghost adj = self.spec_adj();
        let mut visited: Vec<bool> = Vec::with_capacity(n);
        let mut i: usize = 0;
        while i < n
            invariant
                i <= n,
                visited@.len() == i,
                forall|j: int| 0 <= j < i ==> visited@[j] == (j == root@),
            decreases n - i,
        {
            visited.push(i == root.index());
            i = i + 1;
        }
        let mut post: Vec<NodeId> = Vec::with_capacity(n);
        let mut stack: Vec<(NodeId, usize)> = Vec::new();
        stack.push((root, 0));
        proof {
            assert(visited@ =~= root_marks(n as nat, root));
            assert(int_frames(stack@) =~= seq![(root, 0int)]);
            assert(post@ =~= Seq::<NodeId>::empty());
            let st = seq![(root, 0int)];
            let v0 = root_marks(n as nat, root);
            assert(frame_nodes(st) =~= seq![root]);
            assert forall|x: NodeId| x@ < n implies (#[trigger] v0[x@ as int] <==> (Seq::<NodeId>::empty().contains(x) || frame_nodes(st).contains(x))) by {
                if frame_nodes(st).contains(x) {
                    assert(frame_nodes(st)[0] == x);
                }
                if v0[x@ as int] {
                    assert(frame_nodes(st)[0] == x);
                }
            }
            assert(st[0] == (root, 0int));
        }
        let ghost target = postorder(adj, root);
        loop
            invariant
                n == adj.len(),
                adj == self.spec_adj(),
                self.shape_ok(),
                post_inv(adj, visited@, int_frames(stack@), post@),
                2 * post@.len() + stack@.len() <= 2 * n + 1,
                target == post_run(adj, visited@, int_frames(stack@), post@, (2 * n + 1 - (2 * post@.len() + stack@.len())) as nat),
            ensures
                stack@.len() == 0,
            decreases 2 * n + 1 - (2 * post@.len() + stack@.len()),
        {
            let len = stack.len();
            if len == 0 {
                break;
            }
            let ghost frames0 = int_frames(stack@);
            let ghost v0 = visited@;
            let ghost p0 = post@;
            proof {
                assert(frames0.len() == stack@.len());
                crate::postorder::lemma_frame_nodes_count(frames0, p0, n as int);
                lemma_post_step(adj, v0, frames0, p0);
                assert(frames0[len - 1] == (stack@[len - 1].0, stack@[len - 1].1 as int));
            }
            let (node, idx) = stack[len - 1];
            let ui = node.index();
            let j = self.next_unvisited_at(ui, idx, &visited);
            let deg = self.degree_at(ui);
            proof {
                lemma_next_unvisited(adj[ui as int], v0, idx as int);
            }
            if j < deg {
                let x = self.target_at(ui, j);
                visited.set(x.index(), true);
                stack.set(len - 1, (node, j + 1));
                stack.push((x, 0));
                proof {
                    assert(int_frames(stack@) =~= frames0.drop_last().push((node, j + 1)).push((x, 0int)));
                }
            } else {
                post.push(node);
                stack.pop();
                proof {
                    assert(int_frames(stack@) =~= frames0.drop_last());
                }
            }
        }
        proof {
            assert(int_frames(stack@) =~= Seq::<(NodeId, int)>::empty());
            lemma_postorder(adj, root);
        }
        let order = reversed(&post);
        Ok(append_unmarked(order, &visited))
    }
}

/// `r` is `s` in reverse.
fn reversed(s: &Vec<NodeId>) -> (r: Vec<NodeId>)
    ensures
        r@ == s@.reverse(),
{
    let mut r: Vec<NodeId> = Vec::with_capacity(s.len());
    let mut k: usize = s.len();
    while k > 0
        invariant
            k <= s@.len(),
            r@ =~= s@.reverse().take((s@.len() - k) as int),
        decreases k,
    {
        k = k - 1;
        r.push(s[k]);
        proof {
            assert(r@ =~= s@.reverse().take((s@.len() - k) as int));
        }
    }
    proof {
        assert(r@ =~= s@.reverse());
    }
    r
}

impl<N, E> Graph<N, E> {
    /// Inserts `x` into `sorted` after every entry of degree at most its own.
    fn insert_by_degree_exec(&self, sorted: &mut Vec<NodeId>, x: NodeId)
        requires
            x@ < self.spec_node_count(),
            forall|i: int| 0 <= i < old(sorted)@.len() ==> (#[trigger] old(sorted)@[i])@ < self.spec_node_count(),
        ensures
            final(sorted)@ == insert_by_degree(self.spec_adj(), old(sorted)@, x),
            forall|i: int| 0 <= i < final(sorted)@.len() ==> (#[trigger] final(sorted)@[i])@ < self.spec_node_count(),
    {
        let n = self.node_count();
        let ghost adj = self.spec_adj();
        let ghost target = insert_by_degree(adj, sorted@, x);
        let dx = self.degree_at(x.index());
        let mut tail: Vec<NodeId> = Vec::new();
        proof {
            assert(target =~= insert_by_degree(adj, sorted@, x) + tail@.reverse());
        }
        loop
            invariant
                n == self.spec_node_count(),
                adj == self.spec_adj(),
                x@ < n,
                dx == adj[x@ as int].len(),
                forall|i: int| 0 <= i < sorted@.len() ==> (#[trigger] sorted@[i])@ < n,
                forall|i: int| 0 <= i < tail@.len() ==> (#[trigger] tail@[i])@ < n,
                target == insert_by_degree(adj, sorted@, x) + tail@.reverse(),
                insert_by_degree(adj, sorted@, x) == sorted@.push(x) || sorted@.len() > 0,
            ensures
                target == sorted@.push(x) + tail@.reverse(),
                forall|i: int| 0 <= i < sorted@.len() ==> (#[trigger] sorted@[i])@ < n,
                forall|i: int| 0 <= i < tail@.len() ==> (#[trigger] tail@[i])@ < n,
            decreases sorted@.len(),
        {
            let len = sorted.len();
            if len == 0 {
                break;
            }
            let y = sorted[len - 1];
            let dy = self.degree_at(y.index());
            if dy <= dx {
                break;
            }
            let ghost before = sorted@;
            let ghost tail0 = tail@;
            sorted.pop();
            tail.push(y);
            proof {
                assert(before.drop_last() =~= sorted@);
                assert(tail@.reverse() =~= seq![y] + tail0.reverse());
                assert(insert_by_degree(adj, before, x) == insert_by_degree(adj, sorted@, x).push(y));
                assert(target =~= insert_by_degree(adj, sorted@, x) + tail@.reverse());
            }
        }
        sorted.push(x);
        while tail.len() > 0
            invariant
                n == self.spec_node_count(),
                forall|i: int| 0 <= i < sorted@.len() ==> (#[trigger] sorted@[i])@ < n,
                forall|i: int| 0 <= i < tail@.len() ==> (#[trigger] tail@[i])@ < n,
                target == sorted@ + tail@.reverse(),
            decreases tail@.len(),
        {
            let ghost tail0 = tail@;
            let y = tail.pop().unwrap();
            sorted.push(y);
            proof {
                assert(tail0.reverse() =~= seq![y] + tail@.reverse());
                assert(target =~= sorted@ + tail@.reverse());
            }
        }
        proof {
            assert(target =~= sorted@);
        }
    }

    /// The neighbors of `u`, edges taken both ways, that `visited` leaves
    /// unmarked, stably sorted by ascending out-degree. `inl` lists the
    /// sources of the edges into `u`.
    #[verifier::rlimit(40)]
    fn fresh_by_degree(&self, u: NodeId, visited: &Vec<bool>, inl: &Vec<NodeId>) -> (r: Vec<NodeId>)
        requires
            u@ < self.spec_node_count(),
            visited@.len() == self.spec_node_count(),
            inl@ == in_nbrs(self.spec_adj(), u),
        ensures
            r@ == sort_by_degree(self.spec_adj(), both_ways(self.spec_adj())[u@ as int].filter(|x: NodeId| !visited@[x@ as int])),
    {
        let n = self.node_count();
        let ghost adj = self.spec_adj();
        let ghost pred = |x: NodeId| !visited@[x@ as int];
        let ghost nbrs = adj[u@ as int] + inl@;
        proof {
            lemma_in_upto(adj, u, adj.len() as int);
            assert(nbrs == both_ways(adj)[u@ as int]);
        }
        let ui = u.index();
        let deg = self.degree_at(ui);
        let mut fresh: Vec<NodeId> = Vec::new();
        proof {
            reveal(Seq::filter);
            assert(nbrs.take(0) =~= Seq::<NodeId>::empty());
        }
        let mut k: usize = 0;
        while k < deg
            invariant
                k <= deg,
                deg == adj[u@ as int].len(),
                n == self.spec_node_count(),
                adj == self.spec_adj(),
                self.shape_ok(),
                ui == u@,
                u@ < n,
                nbrs == adj[u@ as int] + inl@,
                visited@.len() == n,
                pred == (|x: NodeId| !visited@[x@ as int]),
                fresh@ == nbrs.take(k as int).filter(pred),
            decreases deg - k,
        {
            let t = self.target_at(ui, k);
            if !visited[t.index()] {
                fresh.push(t);
            }
            k = k + 1;
            proof {
                reveal(Seq::filter);
                assert(nbrs.take(k as int).drop_last() =~= nbrs.take(k - 1));
                assert(nbrs.take(k as int).last() == t);
            }
        }
        let m = inl.len();
        let mut j: usize = 0;
        while j < m
            invariant
                j <= m,
                m == inl@.len(),
                deg == adj[u@ as int].len(),
                n == adj.len(),
                nbrs == adj[u@ as int] + inl@,
                forall|i: int| 0 <= i < inl@.len() ==> (#[trigger] inl@[i])@ < n,
                visited@.len() == n,
                pred == (|x: NodeId| !visited@[x@ as int]),
                fresh@ == nbrs.take(deg + j).filter(pred),
            decreases m - j,
        {
            let t = inl[j];
            if !visited[t.index()] {
                fresh.push(t);
            }
            j = j + 1;
            proof {
                reveal(Seq::filter);
                assert(nbrs.take(deg + j).drop_last() =~= nbrs.take(deg + j - 1));
                assert(nbrs.take(deg + j).last() == t);
            }
        }
        proof {
            assert(nbrs.take(deg + m) =~= nbrs);
            assert forall|i: int| 0 <= i < fresh@.len() implies (#[trigger] fresh@[i])@ < n by {
                nbrs.lemma_filter_contains_rev(pred, fresh@[i]);
                assert(fresh@.contains(fresh@[i]));
                let j = choose|j: int| 0 <= j < nbrs.len() && nbrs[j] == fresh@[i];
                if j < deg {
                    assert(adj[u@ as int][j]@ < adj.len());
                } else {
                    assert(nbrs[j] == inl@[j - deg]);
                }
            }
        }
        let mut sorted: Vec<NodeId> = Vec::new();
        let len = fresh.len();
        let mut i: usize = 0;
        proof {
            assert(fresh@.take(0) =~= Seq::<NodeId>::empty());
        }
        while i < len
            invariant
                i <= len,
                len == fresh@.len(),
                n == self.spec_node_count(),
                adj == self.spec_adj(),
                forall|j: int| 0 <= j < fresh@.len() ==> (#[trigger] fresh@[j])@ < n,
                forall|j: int| 0 <= j < sorted@.len() ==> (#[trigger] sorted@[j])@ < n,
                sorted@ == sort_by_degree(adj, fresh@.take(i as int)),
            decreases len - i,
        {
            let x = fresh[i];
            self.insert_by_degree_exec(&mut sorted, x);
            i = i + 1;
            proof {
                assert(fresh@.take(i as int).drop_last() =~= fresh@.take(i - 1));
                assert(fresh@.take(i as int).last() == x);
            }
        }
        proof {
            assert(fresh@.take(len as int) =~= fresh@);
        }
        sorted
    }
}

impl<N, E> Graph<N, E> {
    /// For each node, the sources of its incoming edges, by source index,
    /// once per edge.
    fn in_lists(&self) -> (r: Vec<Vec<NodeId>>)
        ensures
            r@.len() == self.spec_node_count(),
            forall|u: int| 0 <= u < r@.len() ==> (#[trigger] r@[u])@ == in_nbrs(self.spec_adj(), NodeId::from_index(u)),
    {
        let n = self.node_count();
        let ghost adj = self.spec_adj();
        let mut rev: Vec<Vec<NodeId>> = Vec::with_capacity(n);
        let mut i: usize = 0;
        while i < n
            invariant
                i <= n,
                rev@.len() == i,
                forall|u: int| 0 <= u < i ==> (#[trigger] rev@[u])@ == Seq::<NodeId>::empty(),
            decreases n - i,
        {
            rev.push(Vec::new());
            i = i + 1;
        }
        let mut v: usize = 0;
        while v < n
            invariant
                v <= n,
                n == adj.len(),
                n <= u32::MAX,
                adj == self.spec_adj(),
                self.shape_ok(),
                rev@.len() == n,
                forall|u: int| 0 <= u < n ==> (#[trigger] rev@[u])@ == in_upto(adj, NodeId::from_index(u), v as int),
            decreases n - v,
        {
            let deg = self.degree_at(v);
            let ghost src = NodeId::from_index(v as int);
            let ghost row = adj[v as int];
            let mut k: usize = 0;
            proof {
                assert forall|u: int| 0 <= u < n implies (#[trigger] rev@[u])@ == in_upto(adj, NodeId::from_index(u), v as int)
                    + hits(row.take(0), NodeId::from_index(u), src) by {
                    assert(row.take(0).len() == 0);
                    assert(in_upto(adj, NodeId::from_index(u), v as int) + Seq::<NodeId>::empty() =~= in_upto(adj, NodeId::from_index(u), v as int));
                }
            }
            while k < deg
                invariant
                    k <= deg,
                    v < n,
                    n == adj.len(),
                    n <= u32::MAX,
                    adj == self.spec_adj(),
                    self.shape_ok(),
                    row == adj[v as int],
                    deg == row.len(),
                    src == NodeId::from_index(v as int),
                    rev@.len() == n,
                    forall|u: int| 0 <= u < n ==> (#[trigger] rev@[u])@ == in_upto(adj, NodeId::from_index(u), v as int)
                        + hits(row.take(k as int), NodeId::from_index(u), src),
                decreases deg - k,
            {
                let t = self.target_at(v, k);
                let ti = t.index();
                let ghost before = rev@;
                let mut cell: Vec<NodeId> = Vec::new();
                std::mem::swap(&mut cell, &mut rev[ti]);
                cell.push(NodeId::new(v as u32));
                rev.set(ti, cell);
                k = k + 1;
                proof {
                    assert(row.take(k as int).drop_last() =~= row.take(k - 1));
                    assert(row.take(k as int).last() == t);
                    assert forall|u: int| 0 <= u < n implies (#[trigger] rev@[u])@ == in_upto(adj, NodeId::from_index(u), v as int)
                        + hits(row.take(k as int), NodeId::from_index(u), src) by {
                        let a = in_upto(adj, NodeId::from_index(u), v as int);
                        let h0 = hits(row.take(k - 1), NodeId::from_index(u), src);
                        if u == ti {
                            assert(NodeId::from_index(u) == t);
                            assert(rev@[u]@ =~= before[u]@.push(src));
                            assert(a + (h0 + seq![src]) =~= (a + h0).push(src));
                        } else {
                            assert(NodeId::from_index(u) != t);
                            assert(rev@[u] == before[u]);
                            assert(a + (h0 + Seq::<NodeId>::empty()) =~= a + h0);
                        }
                    }
                }
            }
            proof {
                assert(row.take(deg as int) =~= row);
            }
            v = v + 1;
        }
        rev
    }

    /// The first node that `visited` leaves unmarked among those of least
    /// out-degree, if any node is unmarked.
    fn lowest_unvisited_exec(&self, visited: &Vec<bool>) -> (r: Option<NodeId>)
        requires
            visited@.len() == self.spec_node_count(),
        ensures
            r == lowest_unvisited(self.spec_adj(), visited@),
    {
        let n = self.node_count();
        let ghost adj = self.spec_adj();
        let mut best: Option<NodeId> = None;
        let mut least: usize = usize::MAX;
        let mut i: usize = 0;
        while i < n
            invariant
                i <= n,
                n == self.spec_node_count(),
                n <= u32::MAX,
                adj == self.spec_adj(),
                adj.len() == n,
                visited@.len() == n,
                (best, least as int) == lowest_scan(adj, visited@, i as int),
            decreases n - i,
        {
            if !visited[i] {
                let d = self.degree_at(i);
                if best.is_none() || d < least {
                    best = Some(NodeId::new(i as u32));
                    least = d;
                }
            }
            i = i + 1;
        }
        best
    }

    /// Cuthill-McKee from the unmarked node `start`: marks it, then takes
    /// nodes from a queue, appending each to `order` and queueing its
    /// unmarked neighbors by ascending degree.
    fn cm_component(&self, start: NodeId, rev: &Vec<Vec<NodeId>>, visited: &mut Vec<bool>, order: &mut Vec<NodeId>)
        requires
            start@ < self.spec_node_count(),
            rev@.len() == self.spec_node_count(),
            forall|u: int| 0 <= u < rev@.len() ==> (#[trigger] rev@[u])@ == in_nbrs(self.spec_adj(), NodeId::from_index(u)),
            !old(visited)@[start@ as int],
            frontier_inv(self.spec_node_count(), old(order)@, old(visited)@, Seq::empty()),
        ensures
            ({
                let (out, marks) = cm_run(
                    self.spec_adj(),
                    both_ways(self.spec_adj()),
                    old(visited)@.update(start@ as int, true),
                    seq![start],
                    self.spec_node_count(),
                );
                &&& final(order)@ == old(order)@ + out
                &&& final(visited)@ == marks
            }),
            frontier_inv(self.spec_node_count(), final(order)@, final(visited)@, Seq::empty()),
            final(order)@.len() > old(order)@.len(),
    {
        let n = self.node_count();
        let ghost adj = self.spec_adj();
        let ghost ostart = order@;
        let ghost nb = both_ways(adj);
        let ghost v1 = visited@.update(start@ as int, true);
        let ghost comp = cm_run(adj, nb, v1, seq![start], n as nat);
        proof {
            lemma_both_ways(adj);
        }
        visited.set(start.index(), true);
        let mut queue: VecDeque<NodeId> = VecDeque::new();
        queue.push_back(start);
        proof {
            let v0 = old(visited)@;
            assert(queue@ =~= seq![start]);
            assert(frontier_inv(n as nat, ostart, v1, seq![start])) by {
                assert forall|x: NodeId| x@ < n implies (#[trigger] v1[x@ as int] <==> (ostart.contains(x) || seq![start].contains(x))) by {
                    if seq![start].contains(x) {
                        assert(seq![start][0] == x);
                    }
                    if x == start {
                        assert(seq![start][0] == x);
                    }
                }
                assert forall|i: int, j: int| 0 <= i < ostart.len() && 0 <= j < 1 implies ostart[i] != seq![start][j] by {
                    assert(v0[ostart[i]@ as int]);
                }
            }
            lemma_frontier_size(n as nat, ostart, v1, seq![start]);
            assert(ostart + comp.0 =~= order@ + comp.0);
        }
        loop
            invariant
                n == self.spec_node_count(),
                adj == self.spec_adj(),
                self.shape_ok(),
                ostart.len() <= order@.len() <= n,
                frontier_inv(n as nat, order@, visited@, queue@),
                nb == both_ways(adj),
                crate::paths::targets_valid(nb),
                nb.len() == adj.len(),
                rev@.len() == n,
                forall|u: int| 0 <= u < rev@.len() ==> (#[trigger] rev@[u])@ == in_nbrs(adj, NodeId::from_index(u)),
                ostart + comp.0 == order@ + cm_run(adj, nb, visited@, queue@, (n + ostart.len() - order@.len()) as nat).0,
                comp.1 == cm_run(adj, nb, visited@, queue@, (n + ostart.len() - order@.len()) as nat).1,
                queue@.len() == 0 ==> order@.len() > ostart.len(),
            ensures
                queue@.len() == 0,
            decreases n + ostart.len() - order@.len(),
        {
            if queue.len() == 0 {
                break;
            }
            let ghost v0 = visited@;
            let ghost q0 = queue@;
            let ghost o0 = order@;
            let ghost fuel = (n + ostart.len() - order@.len()) as nat;
            proof {
                lemma_frontier_size(n as nat, o0, v0, q0);
            }
            let u = queue.pop_front().unwrap();
            proof {
                assert(u == q0[0]);
                lemma_cm_scan_valid(adj, nb, v0, u);
                let fresh = nb[u@ as int].filter(|x: NodeId| !v0[x@ as int]);
                lemma_frontier_step(n as nat, o0, v0, q0, sort_by_degree(adj, fresh));
            }
            order.push(u);
            let sorted = self.fresh_by_degree(u, visited, &rev[u.index()]);
            scan_seq_into_queue(&sorted, visited, &mut queue);
            proof {
                let (marks, next) = cm_step(adj, nb, v0, q0);
                assert(visited@ == marks);
                assert(queue@ =~= next);
                assert(fuel > 0);
                let (out, last) = cm_run(adj, nb, marks, next, (fuel - 1) as nat);
                assert(cm_run(adj, nb, v0, q0, fuel) == (seq![u] + out, last));
                assert(o0 + (seq![u] + out) =~= order@ + out);
                assert((fuel - 1) as nat == (n + ostart.len() - order@.len()) as nat);
            }
        }
        proof {
            assert(order@ + Seq::<NodeId>::empty() =~= order@);
        }
    }

    fn rcm_reorder_order(&self, start_root: Option<NodeId>) -> (r: Result<Vec<NodeId>, BuildError>)
        ensures
            (start_root matches Some(x) && x@ >= self.spec_node_count()) ==> r == Err::<Vec<NodeId>, BuildError>(
                BuildError::InvalidNodeId { id: start_root->0, node_count: self.spec_node_count() as usize },
            ),
            !(start_root matches Some(x) && x@ >= self.spec_node_count()) ==> (r matches Ok(order) && order@
                == reorder_order(self.spec_adj(), Reorder::ReverseCuthillMcKee { root: start_root })),
    {
        let n = self.node_count();
        if let Some(r) = start_root {
            match validate_node_id(r, n) {
                Err(e) => {
                    return Err(e);
                },
                Ok(()) => {},
            }
        }
        let ghost adj = self.spec_adj();
        if n == 0 {
            return Ok(Vec::new());
        }
        let mut visited: Vec<bool> = Vec::with_capacity(n);
        let mut i: usize = 0;
        while i < n
            invariant
                i <= n,
                visited@.len() == i,
                forall|j: int| 0 <= j < i ==> !visited@[j],
            decreases n - i,
        {
            visited.push(false);
            i = i + 1;
        }
        let ghost none = Seq::new(n as nat, |i: int| false);
        proof {
            assert(visited@ =~= none);
        }
        let mut order: Vec<NodeId> = Vec::with_capacity(n);
        let mut next = match start_root {
            Some(r) => Some(r),
            None => self.lowest_unvisited_exec(&visited),
        };
        let ghost first = next;
        let rev = self.in_lists();
        let ghost nb = both_ways(adj);
        let ghost total = cm_components(adj, nb, none, first, n as nat + 1);
        let ghost mut fuel: nat = n as nat + 1;
        proof {
            lemma_lowest_scan(adj, none, n as int);
            assert(frontier_inv(n as nat, Seq::empty(), none, Seq::empty()));
            assert(order@ + total =~= total);
            assert(!none[0]);
        }
        loop
            invariant
                n == self.spec_node_count(),
                n <= u32::MAX,
                adj == self.spec_adj(),
                self.shape_ok(),
                frontier_inv(n as nat, order@, visited@, Seq::empty()),
                next is None ==> forall|i: int| 0 <= i < n ==> #[trigger] visited@[i],
                next matches Some(s) ==> s@ < n && !visited@[s@ as int],
                fuel >= n - order@.len() + 1,
                nb == both_ways(adj),
                rev@.len() == n,
                forall|u: int| 0 <= u < rev@.len() ==> (#[trigger] rev@[u])@ == in_nbrs(adj, NodeId::from_index(u)),
                total == order@ + cm_components(adj, nb, visited@, next, fuel),
            ensures
                total == order@,
            decreases fuel,
        {
            let start = match next {
                None => {
                    proof {
                        assert(order@ + Seq::<NodeId>::empty() =~= order@);
                    }
                    break;
                },
                Some(s) => s,
            };
            let ghost v0 = visited@;
            let ghost o0 = order@;
            proof {
                lemma_frontier_size(n as nat, o0, v0, Seq::empty());
            }
            if !visited[start.index()] {
                self.cm_component(start, &rev, &mut visited, &mut order);
            }
            next = self.lowest_unvisited_exec(&visited);
            proof {
                lemma_lowest_scan(adj, visited@, n as int);
                lemma_frontier_size(n as nat, order@, visited@, Seq::empty());
                let (out, marks) = cm_run(adj, nb, v0.update(start@ as int, true), seq![start], n as nat);
                assert(o0 + (out + cm_components(adj, nb, visited@, next, (fuel - 1) as nat)) =~= order@
                    + cm_components(adj, nb, visited@, next, (fuel - 1) as nat));
                fuel = (fuel - 1) as nat;
            }
        }
        proof {
            lemma_rcm_order(adj, start_root);
        }
        Ok(reversed(&order))
    }
}

/// Every strategy whose root (if it names one) is a node lists each node
/// exactly once.
pub proof fn lemma_reorder_permutation(adj: Seq<Seq<NodeId>>, reorder: Reorder)
    requires
        crate::paths::targets_valid(adj),
        adj.len() <= u32::MAX,
        crate::paths::total_degree(adj, adj.len() as int) <= u32::MAX,
        reorder_root(reorder) matches Some(r) ==> r@ < adj.len(),
    ensures
        is_permutation(reorder_order(adj, reorder), adj.len()),
{
    let n = adj.len();
    match reorder {
        Reorder::Unchanged => {
            let order = reorder_order(adj, reorder);
            assert forall|i: int, j: int| 0 <= i < order.len() && 0 <= j < order.len() && i != j implies order[i] != order[j] by {
                assert(order[i]@ == i);
                assert(order[j]@ == j);
            }
        },
        Reorder::Bfs { root } => {
            lemma_search_order(adj, root);
            let run = search_run(adj, root_marks(n, root), seq![root], n);
            lemma_with_unmarked(run.0, run.1, n);
        },
        Reorder::Dfs { root } => {
            lemma_dfs_preorder(adj, root);
            let run = dfs_preorder(adj, root);
            lemma_with_unmarked(run.0, run.1, n);
        },
        Reorder::ReversePostOrder { root } => {
            lemma_postorder(adj, root);
            let (post, marks) = postorder(adj, root);
            let r = post.reverse();
            assert(r.no_duplicates()) by {
                assert forall|i: int, j: int| 0 <= i < r.len() && 0 <= j < r.len() && i != j implies r[i] != r[j] by {
                    assert(r[i] == post[post.len() - 1 - i]);
                    assert(r[j] == post[post.len() - 1 - j]);
                }
            }
            assert forall|i: int| 0 <= i < r.len() implies (#[trigger] r[i])@ < n by {
                assert(r[i] == post[post.len() - 1 - i]);
            }
            assert forall|x: NodeId| x@ < n implies (#[trigger] marks[x@ as int] <==> r.contains(x)) by {
                if post.contains(x) {
                    let k = choose|k: int| 0 <= k < post.len() && post[k] == x;
                    assert(r[post.len() - 1 - k] == x);
                }
                if r.contains(x) {
                    let k = choose|k: int| 0 <= k < r.len() && r[k] == x;
                    assert(post[post.len() - 1 - k] == x);
                }
            }
            lemma_with_unmarked(r, marks, n);
        },
        Reorder::Topological => {
            lemma_kahn_result(adj);
            let order = kahn_order(adj);
            let marks = taken_marks(order, n);
            assert forall|x: NodeId| x@ < n implies (#[trigger] marks[x@ as int] <==> order.contains(x)) by {
                assert(NodeId::from_index(x@ as int) == x);
            }
            lemma_with_unmarked(order, marks, n);
        },
        Reorder::ReverseCuthillMcKee { root } => {
            lemma_rcm_order(adj, root);
        },
    }
}

impl<N, E> Graph<N, E> {
    /// Relabels the nodes so that node `order[j]` becomes node `j`.
    fn into_reordered_by_order(self, order: Vec<NodeId>) -> (r: Result<Self, BuildError>)
        requires
            is_permutation(order@, self.spec_node_count()),
        ensures
            r matches Ok(g) && is_relabeling(self, g, order@),
    {
        Ok(self.permuted(&order))
    }

    fn into_bfs_reordered(self, root: NodeId) -> (r: Result<Self, BuildError>)
        ensures
            root@ >= self.spec_node_count() ==> r == Err::<Self, BuildError>(
                BuildError::InvalidNodeId { id: root, node_count: self.spec_node_count() as usize },
            ),
            root@ < self.spec_node_count() ==> (r matches Ok(g) && is_relabeling(
                self,
                g,
                reorder_order(self.spec_adj(), Reorder::Bfs { root }),
            )),
    {
        let order = match self.bfs_reorder_order(root) {
            Ok(order) => order,
            Err(e) => {
                return Err(e);
            },
        };
        proof {
            use_type_invariant(&self);
            self.lemma_shape();
            lemma_reorder_permutation(self.spec_adj(), Reorder::Bfs { root });
        }
        self.into_reordered_by_order(order)
    }

    fn into_dfs_reordered(self, root: NodeId) -> (r: Result<Self, BuildError>)
        ensures
            root@ >= self.spec_node_count() ==> r == Err::<Self, BuildError>(
                BuildError::InvalidNodeId { id: root, node_count: self.spec_node_count() as usize },
            ),
            root@ < self.spec_node_count() ==> (r matches Ok(g) && is_relabeling(
                self,
                g,
                reorder_order(self.spec_adj(), Reorder::Dfs { root }),
            )),
    {
        let order = match self.dfs_reorder_order(root) {
            Ok(order) => order,
            Err(e) => {
                return Err(e);
            },
        };
        proof {
            use_type_invariant(&self);
            self.lemma_shape();
            lemma_reorder_permutation(self.spec_adj(), Reorder::Dfs { root });
        }
        self.into_reordered_by_order(order)
    }

    fn into_rpo_reordered(self, root: NodeId) -> (r: Result<Self, BuildError>)
        ensures
            root@ >= self.spec_node_count() ==> r == Err::<Self, BuildError>(
                BuildError::InvalidNodeId { id: root, node_count: self.spec_node_count() as usize },
            ),
            root@ < self.spec_node_count() ==> (r matches Ok(g) && is_relabeling(
                self,
                g,
                reorder_order(self.spec_adj(), Reorder::ReversePostOrder { root }),
            )),
    {
        let order = match self.rpo_reorder_order(root) {
            Ok(order) => order,
            Err(e) => {
                return Err(e);
            },
        };
        proof {
            use_type_invariant(&self);
            self.lemma_shape();
            lemma_reorder_permutation(self.spec_adj(), Reorder::ReversePostOrder { root });
        }
        self.into_reordered_by_order(order)
    }

    fn into_topological_reordered(self) -> (r: Result<Self, BuildError>)
        ensures
            r matches Ok(g) && is_relabeling(self, g, reorder_order(self.spec_adj(), Reorder::Topological)),
    {
        let order = self.topological_reorder_order();
        proof {
            use_type_invariant(&self);
            self.lemma_shape();
            lemma_reorder_permutation(self.spec_adj(), Reorder::Topological);
        }
        self.into_reordered_by_order(order)
    }

    fn into_rcm_reordered(self, root: Option<NodeId>) -> (r: Result<Self, BuildError>)
        ensures
            (root matches Some(x) && x@ >= self.spec_node_count()) ==> r == Err::<Self, BuildError>(
                BuildError::InvalidNodeId { id: root->0, node_count: self.spec_node_count() as usize },
            ),
            !(root matches Some(x) && x@ >= self.spec_node_count()) ==> (r matches Ok(g) && is_relabeling(
                self,
                g,
                reorder_order(self.spec_adj(), Reorder::ReverseCuthillMcKee { root }),
            )),
    {
        let order = match self.rcm_reorder_order(root) {
            Ok(order) => order,
            Err(e) => {
                return Err(e);
            },
        };
        proof {
            use_type_invariant(&self);
            self.lemma_shape();
            lemma_reorder_permutation(self.spec_adj(), Reorder::ReverseCuthillMcKee { root });
        }
        self.into_reordered_by_order(order)
    }

    /// Consumes this graph and returns a graph with node IDs relabeled by
    /// `reorder`: node `reorder_order(adj, reorder)[j]` becomes node `j`,
    /// keeping its payload and its outgoing edges in order. A root that names
    /// no node is refused.
    pub fn into_reordered(self, reorder: Reorder) -> (r: Result<Self, BuildError>)
        ensures
            (reorder_root(reorder) matches Some(x) && x@ >= self.spec_node_count()) ==> r
                == Err::<Self, BuildError>(
                BuildError::InvalidNodeId {
                    id: reorder_root(reorder)->0,
                    node_count: self.spec_node_count() as usize,
                },
            ),
            !(reorder_root(reorder) matches Some(x) && x@ >= self.spec_node_count()) ==> (r matches Ok(g)
                && is_relabeling(self, g, reorder_order(self.spec_adj(), reorder))
                && is_permutation(reorder_order(self.spec_adj(), reorder), self.spec_node_count())),
            reorder == Reorder::Unchanged ==> r == Ok::<Self, BuildError>(self),
    {
        proof {
            use_type_invariant(&self);
            self.lemma_shape();
            if !(reorder_root(reorder) matches Some(x) && x@ >= self.spec_node_count()) {
                lemma_reorder_permutation(self.spec_adj(), reorder);
            }
        }
        match reorder {
            Reorder::Unchanged => {
                proof {
                    lemma_identity_relabeling(self);
                }
                Ok(self)
            },
            Reorder::Bfs { root } => self.into_bfs_reordered(root),
            Reorder::Dfs { root } => self.into_dfs_reordered(root),
            Reorder::ReversePostOrder { root } => self.into_rpo_reordered(root),
            Reorder::Topological => self.into_topological_reordered(),
            Reorder::ReverseCuthillMcKee { root } => self.into_rcm_reordered(root),
        }
    }
}

/// Renaming every node to itself is a relabeling of a graph onto itself.
pub proof fn lemma_identity_relabeling<N, E>(g: Graph<N, E>)
    requires
        g.shape_ok(),
    ensures
        is_relabeling(g, g, reorder_order(g.spec_adj(), Reorder::Unchanged)),
{
    let n = g.spec_node_count();
    let order = reorder_order(g.spec_adj(), Reorder::Unchanged);
    assert forall|j: int| 0 <= j < n implies order[j]@ == j by {}
    assert forall|j: int, k: int|
        0 <= j < n && 0 <= k < g.spec_adj()[j].len() implies order[(#[trigger] g.spec_adj()[j][k])@ as int]
            == g.spec_adj()[order[j]@ as int][k] by {
        assert(order[j]@ == j);
        let t = g.spec_adj()[j][k];
        assert(t@ < n);
        assert(order[t@ as int] == NodeId::from_index(t@ as int));
    }
}

impl<N: Clone, E: Clone> Graph<N, E> {
    /// Returns a reordered clone of this graph: the clone relabeled as
    /// `into_reordered` would relabel it.
    pub fn reordered(&self, reorder: Reorder) -> (r: Result<Self, BuildError>)
        ensures
            (reorder_root(reorder) matches Some(x) && x@ >= self.spec_node_count()) ==> r
                == Err::<Self, BuildError>(
                BuildError::InvalidNodeId {
                    id: reorder_root(reorder)->0,
                    node_count: self.spec_node_count() as usize,
                },
            ),
            !(reorder_root(reorder) matches Some(x) && x@ >= self.spec_node_count()) ==> (r matches Ok(g)
                && exists|c: Graph<N, E>|
                is_clone_of(*self, c) && #[trigger] is_relabeling(c, g, reorder_order(self.spec_adj(), reorder))),
    {
        let c = self.clone();
        let r = c.into_reordered(reorder);
        proof {
            if r is Ok {
                assert(is_relabeling(c, r->Ok_0, reorder_order(self.spec_adj(), reorder)));
            }
        }
        r
    }
}

/// On a graph without cycles, topological relabeling makes every edge lead
/// from a lower node ID to a higher one.
pub proof fn lemma_topological_reorder_sorts<N, E>(old: Graph<N, E>, new: Graph<N, E>)
    requires
        old.shape_ok(),
        new.shape_ok(),
        !crate::paths::has_cycle(old.spec_adj()),
        is_relabeling(old, new, reorder_order(old.spec_adj(), Reorder::Topological)),
    ensures
        forall|j: int, k: int|
            0 <= j < new.spec_node_count() && 0 <= k < new.spec_adj()[j].len() ==> j < (
            #[trigger] new.spec_adj()[j][k])@,
{
    let adj = old.spec_adj();
    let n = adj.len();
    let order = reorder_order(adj, Reorder::Topological);
    let kahn = kahn_order(adj);
    crate::topo::lemma_kahn_order(adj);
    lemma_reorder_permutation(adj, Reorder::Topological);
    assert(order =~= kahn);
    assert forall|j: int, k: int|
        0 <= j < new.spec_node_count() && 0 <= k < new.spec_adj()[j].len() implies j < (
        #[trigger] new.spec_adj()[j][k])@ by {
        let t = new.spec_adj()[j][k];
        assert(t@ < n);
        assert(order[t@ as int] == adj[order[j]@ as int][k]);
        assert(adj[order[j]@ as int].contains(order[t@ as int]));
        assert(crate::paths::is_edge(adj, kahn[j], kahn[t@ as int]));
    }
}

/// When no cycle is reachable from `root`, reverse post-order relabeling
/// from `root` places each node reachable from `root` before its neighbors:
/// every edge out of such a node leads to a higher node ID.
pub proof fn lemma_rpo_reorder_sorts<N, E>(old: Graph<N, E>, new: Graph<N, E>, root: NodeId)
    requires
        old.shape_ok(),
        new.shape_ok(),
        root@ < old.spec_node_count(),
        !crate::paths::has_cycle_from(old.spec_adj(), root),
        is_relabeling(old, new, reorder_order(old.spec_adj(), Reorder::ReversePostOrder { root })),
    ensures
        forall|j: int, k: int|
            0 <= j < new.spec_node_count() && 0 <= k < new.spec_adj()[j].len() && crate::paths::reachable(
                old.spec_adj(),
                root,
                reorder_order(old.spec_adj(), Reorder::ReversePostOrder { root })[j],
            ) ==> j < (#[trigger] new.spec_adj()[j][k])@,
{
    let adj = old.spec_adj();
    let n = adj.len();
    let order = reorder_order(adj, Reorder::ReversePostOrder { root });
    let (post, marks) = postorder(adj, root);
    let pl = post.len() as int;
    let rev = post.reverse();
    lemma_postorder(adj, root);
    crate::postorder::lemma_postorder_finishes_after_neighbors(adj, root);
    lemma_reorder_permutation(adj, Reorder::ReversePostOrder { root });
    lemma_ids_where(marks.len(), |x: NodeId| !marks[x@ as int]);
    assert forall|j: int, k: int|
        0 <= j < new.spec_node_count() && 0 <= k < new.spec_adj()[j].len() && crate::paths::reachable(
            adj,
            root,
            order[j],
        ) implies j < (#[trigger] new.spec_adj()[j][k])@ by {
        let x = order[j];
        assert(post.contains(x));
        if j >= pl {
            assert(order[j] == unmarked(marks)[j - pl]);
            assert(unmarked(marks).contains(x));
            assert(!marks[x@ as int]);
        }
        assert(order[j] == rev[j]);
        let ix = pl - 1 - j;
        assert(post[ix] == x);
        let t = new.spec_adj()[j][k];
        assert(t@ < n);
        let y = adj[x@ as int][k];
        assert(order[t@ as int] == y);
        assert(post.take(ix).contains(adj[post[ix]@ as int][k]));
        let iy = choose|iy: int| 0 <= iy < post.take(ix).len() && post.take(ix)[iy] == y;
        assert(post[iy] == y);
        let ty = pl - 1 - iy;
        assert(order[ty] == rev[ty]);
        assert(order[ty] == y);
        assert(t@ == ty);
    }
}

/// The nodes that `root` does not reach, in index order.
pub open spec fn unreachable_ids(adj: Seq<Seq<NodeId>>, root: NodeId) -> Seq<NodeId> {
    ids_where(adj.len(), |x: NodeId| !crate::paths::reachable(adj, root, x))
}

/// Breadth-first relabeling orders the nodes as the breadth-first traversal
/// from `root` yields them, then the nodes `root` does not reach in index
/// order.
pub proof fn lemma_bfs_reorder_order(adj: Seq<Seq<NodeId>>, root: NodeId)
    requires
        crate::paths::targets_valid(adj),
        adj.len() <= u32::MAX,
        root@ < adj.len(),
    ensures
        reorder_order(adj, Reorder::Bfs { root }) == search_run(
            adj,
            root_marks(adj.len(), root),
            seq![root],
            adj.len(),
        ).0 + unreachable_ids(adj, root),
{
    let n = adj.len();
    lemma_search_order(adj, root);
    let (order, marks) = search_run(adj, root_marks(n, root), seq![root], n);
    let p = |x: NodeId| !marks[x@ as int];
    let q = |x: NodeId| !crate::paths::reachable(adj, root, x);
    assert forall|x: NodeId| x@ < n implies p(x) == q(x) by {
        assert(marks[x@ as int] <==> order.contains(x));
        assert(order.contains(x) <==> crate::paths::reachable(adj, root, x));
    }
    lemma_ids_where_agree(n, p, q);
}

/// Depth-first relabeling orders the nodes in depth-first preorder from
/// `root`, as the depth-first traversal yields them, then the nodes `root`
/// does not reach in index order.
pub proof fn lemma_dfs_reorder_order(adj: Seq<Seq<NodeId>>, root: NodeId)
    requires
        crate::paths::targets_valid(adj),
        adj.len() <= u32::MAX,
        root@ < adj.len(),
    ensures
        reorder_order(adj, Reorder::Dfs { root }) == dfs_preorder(adj, root).0 + unreachable_ids(adj, root),
{
    let n = adj.len();
    lemma_dfs_preorder(adj, root);
    let (order, marks) = dfs_preorder(adj, root);
    let p = |x: NodeId| !marks[x@ as int];
    let q = |x: NodeId| !crate::paths::reachable(adj, root, x);
    assert forall|x: NodeId| x@ < n implies p(x) == q(x) by {
        assert(marks[x@ as int] <==> order.contains(x));
        assert(order.contains(x) <==> crate::paths::reachable(adj, root, x));
    }
    lemma_ids_where_agree(n, p, q);
}

} // verus!
